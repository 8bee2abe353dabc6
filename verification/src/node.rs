//! The two kinds of node and their written form.

use crate::hash::H256;
use crate::nibbleslice::{
    all_nibbles, hex_prefix, hex_prefix_is_leaf, hex_prefix_path, lemma_hex_prefix_round_trip,
    NibbleSlice,
};
use crate::rlp::{
    append_string, decode_list, encode_list, encode_string, encode_strings,
    lemma_list_round_trip, parse_list, same_items, wrap_list,
};
use vstd::prelude::*;

verus! {

/// What a node holds, as plain values: the nibbles of its prefix, and either a
/// value or sixteen optional digests.
pub enum NodeView {
    Leaf { partial: Seq<u8>, value: Seq<u8> },
    Branch { partial: Seq<u8>, children: Seq<Option<Seq<u8>>> },
}

/// A node that borrows its prefix and its value from the buffers they stand in.
#[derive(Clone, Copy, Debug)]
pub enum Node<'a> {
    /// The end of a path: the nibbles that are left of it, and the value.
    Leaf(NibbleSlice<'a>, &'a [u8]),
    /// A prefix shared by all that lies below, and a child for each nibble that
    /// may follow it.
    Branch(NibbleSlice<'a>, [Option<H256>; 16]),
}

/// The sixteen child slots as plain values.
pub open spec fn children_view(children: Seq<Option<H256>>) -> Seq<Option<Seq<u8>>> {
    Seq::new(
        children.len(),
        |i: int|
            match children[i] {
                Some(h) => Some(h@),
                None => None,
            },
    )
}

impl<'a> View for Node<'a> {
    type V = NodeView;

    open spec fn view(&self) -> NodeView {
        match *self {
            Node::Leaf(partial, value) => NodeView::Leaf { partial: partial@, value: value@ },
            Node::Branch(partial, children) => NodeView::Branch {
                partial: partial@,
                children: children_view(children@),
            },
        }
    }
}

impl NodeView {
    /// The prefix of the node.
    pub open spec fn partial(self) -> Seq<u8> {
        match self {
            NodeView::Leaf { partial, .. } => partial,
            NodeView::Branch { partial, .. } => partial,
        }
    }

    /// The same node with another prefix.
    pub open spec fn with_partial(self, partial: Seq<u8>) -> NodeView {
        match self {
            NodeView::Leaf { value, .. } => NodeView::Leaf { partial, value },
            NodeView::Branch { children, .. } => NodeView::Branch { partial, children },
        }
    }

    /// A prefix of nibbles, and for a branch sixteen slots whose digests have 32
    /// bytes.
    pub open spec fn valid(self) -> bool {
        match self {
            NodeView::Leaf { partial, .. } => all_nibbles(partial),
            NodeView::Branch { partial, children } => {
                &&& all_nibbles(partial)
                &&& children.len() == 16
                &&& forall|i: int|
                    0 <= i < 16 ==> (#[trigger] children[i]) is Some ==> children[i]->0.len() == 32
            },
        }
    }
}

/// The byte string that stands for a child slot: the digest, or nothing.
pub open spec fn child_item(child: Option<Seq<u8>>) -> Seq<u8> {
    match child {
        Some(h) => h,
        None => Seq::empty(),
    }
}

/// The byte strings that a node is written as: its packed prefix, then its
/// value or its sixteen child slots.
pub open spec fn node_items(n: NodeView) -> Seq<Seq<u8>> {
    match n {
        NodeView::Leaf { partial, value } => seq![hex_prefix(partial, true), value],
        NodeView::Branch { partial, children } => seq![hex_prefix(partial, false)] + Seq::new(
            children.len(),
            |i: int| child_item(children[i]),
        ),
    }
}

/// The written form of a node.
pub open spec fn encode_node(n: NodeView) -> Seq<u8> {
    encode_list(node_items(n))
}

/// The node that a list of byte strings stands for, if any: two strings whose
/// first carries the leaf flag are a leaf, seventeen whose last sixteen are
/// each empty or 32 bytes long are a branch.
pub open spec fn node_from_items(items: Seq<Seq<u8>>) -> Option<NodeView> {
    if items.len() == 2 {
        if items[0].len() > 0 && hex_prefix_is_leaf(items[0]) {
            Some(NodeView::Leaf { partial: hex_prefix_path(items[0]), value: items[1] })
        } else {
            None
        }
    } else if items.len() == 17 {
        if items[0].len() > 0 && (forall|i: int|
            1 <= i < 17 ==> (#[trigger] items[i]).len() == 0 || items[i].len() == 32) {
            Some(
                NodeView::Branch {
                    partial: hex_prefix_path(items[0]),
                    children: Seq::new(
                        16,
                        |i: int|
                            if items[i + 1].len() == 0 {
                                None
                            } else {
                                Some(items[i + 1])
                            },
                    ),
                },
            )
        } else {
            None
        }
    } else {
        None
    }
}

/// The node that `bytes` is the written form of, if any.
pub open spec fn decode_node(bytes: Seq<u8>) -> Option<NodeView> {
    match parse_list(bytes) {
        Some(items) => node_from_items(items),
        None => None,
    }
}

/// No item is longer than the written form of the items together.
pub proof fn lemma_item_len(items: Seq<Seq<u8>>, i: int)
    requires
        0 <= i < items.len(),
    ensures
        items[i].len() <= encode_strings(items).len(),
    decreases items.len(),
{
    if i < items.len() - 1 {
        lemma_item_len(items.drop_last(), i);
    }
}

/// Reading the written form of a valid node gives the node back.
pub proof fn lemma_node_round_trip(n: NodeView)
    requires
        n.valid(),
        encode_node(n).len() <= u64::MAX,
    ensures
        decode_node(encode_node(n)) == Some(n),
{
    let items = node_items(n);
    assert forall|i: int| 0 <= i < items.len() implies (#[trigger] items[i]).len()
        <= u64::MAX by {
        lemma_item_len(items, i);
    }
    lemma_list_round_trip(items);
    lemma_hex_prefix_round_trip(n.partial(), n is Leaf);
    match n {
        NodeView::Leaf { partial, value } => {},
        NodeView::Branch { partial, children } => {
            assert forall|i: int| 1 <= i < 17 implies (#[trigger] items[i]).len() == 0
                || items[i].len() == 32 by {
                assert(items[i] == child_item(children[i - 1]));
            }
            let back = node_from_items(items)->0;
            assert(back->Branch_children =~= children) by {
                assert forall|i: int| 0 <= i < 16 implies back->Branch_children[i]
                    == children[i] by {
                    assert(items[i + 1] == child_item(children[i]));
                }
            }
        },
    }
}

/// Nodes with the same written form are the same node.
pub proof fn lemma_encode_injective(a: NodeView, b: NodeView)
    requires
        a.valid(),
        b.valid(),
        encode_node(a) == encode_node(b),
        encode_node(a).len() <= u64::MAX,
    ensures
        a == b,
{
    lemma_node_round_trip(a);
    lemma_node_round_trip(b);
}

/// Sixteen empty child slots.
pub fn empty_children() -> (r: [Option<H256>; 16])
    ensures
        forall|i: int| 0 <= i < 16 ==> r@[i] is None,
{
    [None;16]
}

impl<'a> Node<'a> {
    /// The prefix of the node.
    pub fn partial(&self) -> (r: NibbleSlice<'a>)
        ensures
            r@ == self@.partial(),
    {
        match self {
            Node::Leaf(partial, _) => *partial,
            Node::Branch(partial, _) => *partial,
        }
    }

    /// The written form of the node.
    pub fn encoded(node: Node<'a>) -> (r: Vec<u8>)
        ensures
            r@ == encode_node(node@),
    {
        let n: usize = node.partial().len();
        let r = Node::encoded_until(node, n);
        assert(node@.partial().take(n as int) =~= node@.partial());
        assert(node@.with_partial(node@.partial()) == node@);
        r
    }

    /// The written form of the node that has only the first `size` nibbles of
    /// this node's prefix, or all of them where there are fewer.
    pub fn encoded_until(node: Node<'a>, size: usize) -> (r: Vec<u8>)
        ensures
            size <= node@.partial().len() ==> r@ == encode_node(
                node@.with_partial(node@.partial().take(size as int)),
            ),
            size > node@.partial().len() ==> r@ == encode_node(node@),
    {
        let ghost kept = if size <= node@.partial().len() {
            node@.with_partial(node@.partial().take(size as int))
        } else {
            node@
        };
        let ghost items = node_items(kept);
        let mut payload: Vec<u8> = Vec::new();
        match node {
            Node::Leaf(partial, value) => {
                let packed = partial.encoded_leftmost(size, true);
                append_string(&mut payload, packed.as_slice());
                append_string(&mut payload, value);
                proof {
                    let head = items.drop_last();
                    assert(head.last() == items[0]);
                    assert(encode_strings(head.drop_last()) =~= Seq::<u8>::empty());
                    assert(encode_strings(head) =~= encode_string(items[0]));
                    assert(payload@ =~= encode_strings(items));
                }
            },
            Node::Branch(partial, children) => {
                let packed = partial.encoded_leftmost(size, false);
                append_string(&mut payload, packed.as_slice());
                proof {
                    let head = items.take(1);
                    assert(head.last() == items[0]);
                    assert(encode_strings(head.drop_last()) =~= Seq::<u8>::empty());
                    assert(payload@ =~= encode_strings(head));
                }
                let empty: [u8; 0] = [];
                let mut i: usize = 0;
                while i < 16
                    invariant
                        i <= 16,
                        items.len() == 17,
                        forall|k: int|
                            0 <= k < 16 ==> #[trigger] items[k + 1] == child_item(
                                children_view(children@)[k],
                            ),
                        payload@ == encode_strings(items.take(1 + i)),
                    decreases 16 - i,
                {
                    assert(items[i + 1] == child_item(children_view(children@)[i as int]));
                    match children[i] {
                        Some(h) => {
                            append_string(&mut payload, h.as_bytes().as_slice());
                        },
                        None => {
                            assert(empty@ =~= Seq::<u8>::empty());
                            append_string(&mut payload, empty.as_slice());
                        },
                    }
                    proof {
                        let next = items.take(2 + i);
                        assert(next.drop_last() =~= items.take(1 + i));
                        assert(next.last() == items[i + 1]);
                    }
                    i += 1;
                }
                assert(items.take(17) =~= items);
            },
        }
        wrap_list(payload)
    }

    /// Reads a written node; `None` where `node_rlp` is not the written form of
    /// a leaf or of a branch.
    pub fn decoded(node_rlp: &'a [u8]) -> (r: Option<Node<'a>>)
        ensures
            match decode_node(node_rlp@) {
                Some(n) => r is Some && r->0@ == n,
                None => r is None,
            },
    {
        let items = match decode_list(node_rlp) {
            Some(items) => items,
            None => {
                return None;
            },
        };
        let ghost parsed = parse_list(node_rlp@)->0;
        if items.len() == 2 {
            let head: &'a [u8] = items[0];
            assert(head@ == parsed[0]);
            if head.len() == 0 {
                return None;
            }
            let (partial, is_leaf) = NibbleSlice::from_encoded(head);
            if !is_leaf {
                return None;
            }
            let value: &'a [u8] = items[1];
            assert(value@ == parsed[1]);
            Some(Node::Leaf(partial, value))
        } else if items.len() == 17 {
            let head: &'a [u8] = items[0];
            assert(head@ == parsed[0]);
            if head.len() == 0 {
                return None;
            }
            let (partial, _) = NibbleSlice::from_encoded(head);
            let mut children: [Option<H256>; 16] = empty_children();
            let mut i: usize = 0;
            while i < 16
                invariant
                    i <= 16,
                    items@.len() == 17,
                    same_items(items@, parsed),
                    parsed[0].len() > 0,
                    decode_node(node_rlp@) == node_from_items(parsed),
                    forall|k: int|
                        1 <= k < 1 + i ==> (#[trigger] parsed[k]).len() == 0 || parsed[k].len()
                            == 32,
                    forall|k: int|
                        0 <= k < i ==> #[trigger] children_view(children@)[k] == (if parsed[k
                            + 1].len() == 0 {
                            None
                        } else {
                            Some(parsed[k + 1])
                        }),
                decreases 16 - i,
            {
                let item: &'a [u8] = items[i + 1];
                assert(item@ == parsed[i + 1]);
                let ghost before = children@;
                if item.len() == 0 {
                    children[i] = None;
                } else {
                    match H256::from_slice(item) {
                        Some(h) => {
                            children[i] = Some(h);
                        },
                        None => {
                            assert(parsed[i + 1].len() != 0 && parsed[i + 1].len() != 32);
                            return None;
                        },
                    }
                }
                assert forall|k: int| 0 <= k < i + 1 implies #[trigger] children_view(
                    children@,
                )[k] == (if parsed[k + 1].len() == 0 {
                    None
                } else {
                    Some(parsed[k + 1])
                }) by {
                    if k < i {
                        assert(children@[k] == before[k]);
                        assert(children_view(before)[k] == (if parsed[k + 1].len() == 0 {
                            None::<Seq<u8>>
                        } else {
                            Some(parsed[k + 1])
                        }));
                    }
                }
                i += 1;
            }
            let r = Node::Branch(partial, children);
            assert(r@->Branch_children =~= node_from_items(parsed)->0->Branch_children);
            Some(r)
        } else {
            None
        }
    }

    /// The same node without the first `offset` nibbles of its prefix.
    pub fn mid(self, offset: usize) -> (r: Node<'a>)
        requires
            offset <= self@.partial().len(),
        ensures
            r@ == self@.with_partial(self@.partial().skip(offset as int)),
    {
        match self {
            Node::Leaf(partial, value) => Node::Leaf(partial.mid(offset), value),
            Node::Branch(partial, children) => Node::Branch(partial.mid(offset), children),
        }
    }
}

} // verus!
