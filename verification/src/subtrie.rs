//! What a trie holds, as a mathematical tree: the model that the contracts of
//! the mutable trie speak of.

use crate::hash::{digest_of, empty_root, H256};
use crate::hashdb::{grows, put};
use crate::nibbleslice::{all_nibbles, common_prefix_len};
use crate::node::{encode_node, NodeView};
use vstd::prelude::*;

verus! {

/// A node together with all that lies below it.
pub enum Subtrie {
    /// The end of a path: the nibbles that are left of it, and the value.
    Leaf { partial: Seq<u8>, value: Seq<u8> },
    /// A shared prefix and, for each nibble that may follow it, what lies below.
    Branch { partial: Seq<u8>, children: Seq<Option<Subtrie>> },
}

/// Sixteen empty slots.
pub open spec fn no_children() -> Seq<Option<Subtrie>> {
    Seq::new(16, |i: int| None)
}

/// The number of slots that are taken.
pub open spec fn occupied<T>(slots: Seq<Option<T>>) -> nat
    decreases slots.len(),
{
    if slots.len() == 0 {
        0
    } else {
        occupied(slots.drop_last()) + if slots.last() is Some {
            1nat
        } else {
            0nat
        }
    }
}

/// The first slot that is taken, or the number of slots where none is.
pub open spec fn first_occupied<T>(slots: Seq<Option<T>>) -> int
    decreases slots.len(),
{
    if slots.len() == 0 {
        0
    } else if first_occupied(slots.drop_last()) < slots.len() - 1 {
        first_occupied(slots.drop_last())
    } else if slots.last() is Some {
        slots.len() - 1
    } else {
        slots.len() as int
    }
}

impl Subtrie {
    /// The prefix of the topmost node.
    pub open spec fn partial(self) -> Seq<u8> {
        match self {
            Subtrie::Leaf { partial, .. } => partial,
            Subtrie::Branch { partial, .. } => partial,
        }
    }

    /// The same subtrie with another prefix on its topmost node.
    pub open spec fn with_partial(self, partial: Seq<u8>) -> Subtrie {
        match self {
            Subtrie::Leaf { value, .. } => Subtrie::Leaf { partial, value },
            Subtrie::Branch { children, .. } => Subtrie::Branch { partial, children },
        }
    }

    /// The topmost node: a branch refers to each child by its digest.
    pub open spec fn node(self) -> NodeView
        decreases self, 0nat,
    {
        match self {
            Subtrie::Leaf { partial, value } => NodeView::Leaf { partial, value },
            Subtrie::Branch { partial, children } => NodeView::Branch {
                partial,
                children: Seq::new(
                    children.len(),
                    |i: int|
                        if 0 <= i < children.len() && children[i] is Some {
                            Some(children[i]->0.digest())
                        } else {
                            None
                        },
                ),
            },
        }
    }

    /// The digest of the written form of the topmost node: the address of the
    /// subtrie in a store.
    pub open spec fn digest(self) -> Seq<u8>
        decreases self, 1nat,
    {
        digest_of(encode_node(self.node()))
    }

    /// Whether every path through the subtrie has `height` nibbles, each below
    /// 16, and every branch has sixteen slots.
    pub open spec fn height_ok(self, height: nat) -> bool
        decreases self,
    {
        match self {
            Subtrie::Leaf { partial, .. } => partial.len() == height && all_nibbles(partial),
            Subtrie::Branch { partial, children } => {
                &&& partial.len() < height
                &&& all_nibbles(partial)
                &&& children.len() == 16
                &&& forall|i: int|
                    0 <= i < children.len() && (#[trigger] children[i]) is Some
                        ==> children[i]->0.height_ok((height - partial.len() - 1) as nat)
            },
        }
    }

    /// Whether every branch has at least two children.
    pub open spec fn minimal(self) -> bool
        decreases self,
    {
        match self {
            Subtrie::Leaf { .. } => true,
            Subtrie::Branch { partial, children } => {
                &&& occupied(children) >= 2
                &&& forall|i: int|
                    0 <= i < children.len() && (#[trigger] children[i]) is Some
                        ==> children[i]->0.minimal()
            },
        }
    }

    /// Whether `store` holds the written form of every node of the subtrie
    /// under that node's digest, each digest 32 bytes long and each written form
    /// short enough for its length to be written in 8 bytes.
    pub open spec fn stored(self, store: Map<Seq<u8>, Seq<u8>>) -> bool
        decreases self,
    {
        &&& self.digest().len() == 32
        &&& encode_node(self.node()).len() <= u64::MAX
        &&& store.contains_key(self.digest())
        &&& store[self.digest()] == encode_node(self.node())
        &&& match self {
            Subtrie::Leaf { .. } => true,
            Subtrie::Branch { partial, children } => forall|i: int|
                0 <= i < children.len() && (#[trigger] children[i]) is Some
                    ==> children[i]->0.stored(store),
        }
    }

    /// Whether the written form of every node of the subtrie is in `universe`.
    pub open spec fn within(self, universe: Set<Seq<u8>>) -> bool
        decreases self,
    {
        &&& universe.contains(encode_node(self.node()))
        &&& match self {
            Subtrie::Leaf { .. } => true,
            Subtrie::Branch { partial, children } => forall|i: int|
                0 <= i < children.len() && (#[trigger] children[i]) is Some
                    ==> children[i]->0.within(universe),
        }
    }

    /// The value at the end of `path`, if the subtrie has that path.
    pub open spec fn lookup(self, path: Seq<u8>) -> Option<Seq<u8>>
        decreases self,
    {
        match self {
            Subtrie::Leaf { partial, value } => if partial == path {
                Some(value)
            } else {
                None
            },
            Subtrie::Branch { partial, children } => {
                if partial.is_prefix_of(path) && partial.len() < path.len() && path[partial.len() as int]
                    < children.len() {
                    match children[path[partial.len() as int] as int] {
                        Some(child) => child.lookup(path.skip(partial.len() as int + 1)),
                        None => None,
                    }
                } else {
                    None
                }
            },
        }
    }
}

/// The value at the end of `path` in a subtrie that may be absent.
pub open spec fn lookup(t: Option<Subtrie>, path: Seq<u8>) -> Option<Seq<u8>> {
    match t {
        Some(s) => s.lookup(path),
        None => None,
    }
}

/// Whether `q` can be the path of a key: 64 nibbles.
pub open spec fn is_path(q: Seq<u8>) -> bool {
    q.len() == 64 && all_nibbles(q)
}

/// What a trie holds: the value at each path that it has.
pub open spec fn contents(t: Option<Subtrie>) -> Map<Seq<u8>, Seq<u8>> {
    Map::new(|q: Seq<u8>| is_path(q) && lookup(t, q) is Some, |q: Seq<u8>| lookup(t, q)->0)
}

/// The subtrie after `value` was written at the end of `path`.
///
/// An absent subtrie becomes a leaf. A leaf with the same path is replaced; one
/// with another path gives way to a branch at the point where the two paths
/// part, with both leaves below it. A branch whose prefix the path leaves early
/// is pushed down under a new branch in the same way; else the write goes on in
/// the child that the next nibble of the path selects.
pub open spec fn insert_into(t: Option<Subtrie>, path: Seq<u8>, value: Seq<u8>) -> Subtrie
    decreases path.len(),
{
    match t {
        None => Subtrie::Leaf { partial: path, value },
        Some(Subtrie::Leaf { partial, value: old }) => {
            let c = common_prefix_len(partial, path) as int;
            if partial == path || c >= partial.len() || c >= path.len() {
                Subtrie::Leaf { partial: path, value }
            } else {
                Subtrie::Branch {
                    partial: partial.take(c),
                    children: no_children().update(
                        partial[c] as int,
                        Some(Subtrie::Leaf { partial: partial.skip(c + 1), value: old }),
                    ).update(
                        path[c] as int,
                        Some(Subtrie::Leaf { partial: path.skip(c + 1), value }),
                    ),
                }
            }
        },
        Some(Subtrie::Branch { partial, children }) => {
            let c = common_prefix_len(partial, path) as int;
            if c >= path.len() {
                Subtrie::Leaf { partial: path, value }
            } else if c < partial.len() {
                Subtrie::Branch {
                    partial: partial.take(c),
                    children: no_children().update(
                        partial[c] as int,
                        Some(Subtrie::Branch { partial: partial.skip(c + 1), children }),
                    ).update(
                        path[c] as int,
                        Some(Subtrie::Leaf { partial: path.skip(c + 1), value }),
                    ),
                }
            } else {
                Subtrie::Branch {
                    partial,
                    children: children.update(
                        path[c] as int,
                        Some(insert_into(children[path[c] as int], path.skip(c + 1), value)),
                    ),
                }
            }
        },
    }
}

/// The subtrie after the subtrie `g` was set into it at the path that is the
/// prefix of `g`: as `insert_into`, with `g`, its prefix shortened by what lies
/// above it, in the place of the new leaf.
pub open spec fn graft(t: Option<Subtrie>, g: Subtrie) -> Subtrie
    decreases g.partial().len(),
{
    let path = g.partial();
    match t {
        None => g,
        Some(Subtrie::Leaf { partial, value: old }) => {
            let c = common_prefix_len(partial, path) as int;
            if partial == path || c >= partial.len() || c >= path.len() {
                g
            } else {
                Subtrie::Branch {
                    partial: partial.take(c),
                    children: no_children().update(
                        partial[c] as int,
                        Some(Subtrie::Leaf { partial: partial.skip(c + 1), value: old }),
                    ).update(path[c] as int, Some(g.with_partial(path.skip(c + 1)))),
                }
            }
        },
        Some(Subtrie::Branch { partial, children }) => {
            let c = common_prefix_len(partial, path) as int;
            if c >= path.len() {
                g
            } else if c < partial.len() {
                Subtrie::Branch {
                    partial: partial.take(c),
                    children: no_children().update(
                        partial[c] as int,
                        Some(Subtrie::Branch { partial: partial.skip(c + 1), children }),
                    ).update(path[c] as int, Some(g.with_partial(path.skip(c + 1)))),
                }
            } else {
                Subtrie::Branch {
                    partial,
                    children: children.update(
                        path[c] as int,
                        Some(graft(children[path[c] as int], g.with_partial(path.skip(c + 1)))),
                    ),
                }
            }
        },
    }
}

/// Whether `g` can be set into `t`: on the way down its prefix parts from the
/// prefix of each node it meets before either of the two ends, or ends with
/// the prefix of a leaf.
pub open spec fn graft_fits(t: Option<Subtrie>, g: Subtrie) -> bool
    decreases g.partial().len(),
{
    let path = g.partial();
    match t {
        None => true,
        Some(Subtrie::Leaf { partial, .. }) => {
            let c = common_prefix_len(partial, path) as int;
            partial == path || (c < partial.len() && c < path.len())
        },
        Some(Subtrie::Branch { partial, children }) => {
            let c = common_prefix_len(partial, path) as int;
            c < path.len() && (c < partial.len() || graft_fits(
                children[path[c] as int],
                g.with_partial(path.skip(c + 1)),
            ))
        },
    }
}

/// The written form of the leaf at the end of `path`, if the subtrie has that
/// path.
pub open spec fn leaf_at(t: Option<Subtrie>, path: Seq<u8>) -> Option<Seq<u8>>
    decreases path.len(),
{
    match t {
        None => None,
        Some(Subtrie::Leaf { partial, value }) => if partial == path {
            Some(encode_node(t->0.node()))
        } else {
            None
        },
        Some(Subtrie::Branch { partial, children }) => {
            if partial.is_prefix_of(path) && partial.len() < path.len() && path[partial.len() as int]
                < children.len() {
                leaf_at(children[path[partial.len() as int] as int], path.skip(partial.len() as int + 1))
            } else {
                None
            }
        },
    }
}

/// Whether `store` holds every child of the topmost node of `g`.
pub open spec fn children_stored(g: Subtrie, store: Map<Seq<u8>, Seq<u8>>) -> bool {
    match g {
        Subtrie::Leaf { .. } => true,
        Subtrie::Branch { partial, children } => forall|i: int|
            0 <= i < children.len() && (#[trigger] children[i]) is Some ==> children[i]->0.stored(
                store,
            ),
    }
}

/// Children that a store holds are held by every store that grew out of it.
pub proof fn lemma_children_stored_grows(
    g: Subtrie,
    before: Map<Seq<u8>, Seq<u8>>,
    after: Map<Seq<u8>, Seq<u8>>,
)
    requires
        children_stored(g, before),
        grows(before, after),
    ensures
        children_stored(g, after),
{
    match g {
        Subtrie::Leaf { .. } => {},
        Subtrie::Branch { partial, children } => {
            assert forall|i: int|
                0 <= i < children.len() && (#[trigger] children[i]) is Some implies children[i]->0.stored(
                after,
            ) by {
                lemma_stored_grows(children[i]->0, before, after);
            }
        },
    }
}

/// Another prefix on a subtrie changes the prefix of its topmost node and
/// nothing else of that node.
pub proof fn lemma_with_partial_node(s: Subtrie, partial: Seq<u8>)
    ensures
        s.with_partial(partial).node() == s.node().with_partial(partial),
{
    match s {
        Subtrie::Leaf { .. } => {},
        Subtrie::Branch { partial: p, children } => {
            assert(s.with_partial(partial).node()->Branch_children =~= s.node()->Branch_children);
        },
    }
}

/// The subtrie after `path` was taken out of it; `None` where nothing is left.
///
/// A leaf with that path goes. A branch hands the removal on to the child that
/// the path selects; if that child is gone afterwards and a single child is
/// left, this child takes the place of the branch, its prefix lengthened by the
/// prefix of the branch and the nibble of its slot.
pub open spec fn remove_from(t: Option<Subtrie>, path: Seq<u8>) -> Option<Subtrie>
    decreases path.len(),
{
    match t {
        None => None,
        Some(Subtrie::Leaf { partial, value }) => if partial == path {
            None
        } else {
            t
        },
        Some(Subtrie::Branch { partial, children }) => {
            if partial.is_prefix_of(path) && partial.len() < path.len() && path[partial.len() as int]
                < children.len() {
                let slot = path[partial.len() as int] as int;
                let child = remove_from(children[slot], path.skip(partial.len() as int + 1));
                let after = children.update(slot, child);
                if child is Some || occupied(after) >= 2 {
                    Some(Subtrie::Branch { partial, children: after })
                } else if occupied(after) == 0 {
                    None
                } else {
                    let i = first_occupied(after);
                    let only = after[i]->0;
                    Some(only.with_partial(partial + seq![i as u8] + only.partial()))
                }
            } else {
                t
            }
        },
    }
}

/// Whether `cur` is the address of the subtrie `t`, which `store` holds and
/// whose paths have `height` nibbles; an absent subtrie has no address.
pub open spec fn holds(
    store: Map<Seq<u8>, Seq<u8>>,
    cur: Option<H256>,
    t: Option<Subtrie>,
    height: nat,
) -> bool {
    match t {
        Some(s) => cur is Some && cur->0@ == s.digest() && s.stored(store) && s.height_ok(height),
        None => cur is None,
    }
}

/// Whether `root` is the root of the trie `t` in `store`: the root of the empty
/// trie for an absent `t`, else the digest of `t`, which the store holds and
/// whose paths have 64 nibbles.
pub open spec fn represents(store: Map<Seq<u8>, Seq<u8>>, root: Seq<u8>, t: Option<Subtrie>) -> bool {
    match t {
        Some(s) => root != empty_root() && root == s.digest() && s.stored(store) && s.height_ok(64),
        None => root == empty_root(),
    }
}

/// The path of a key: the nibbles of its digest.
pub open spec fn key_path(key: Seq<u8>) -> Seq<u8> {
    crate::nibbleslice::nibbles_of(digest_of(key))
}

/// Whether the same slots are taken in `a` and in `b`.
pub open spec fn same_occupancy<A, B>(a: Seq<Option<A>>, b: Seq<Option<B>>) -> bool {
    &&& a.len() == b.len()
    &&& forall|i: int| 0 <= i < a.len() ==> ((#[trigger] a[i]) is Some <==> b[i] is Some)
}

/// Slots that are taken alike are counted alike.
pub proof fn lemma_same_occupancy<A, B>(a: Seq<Option<A>>, b: Seq<Option<B>>)
    requires
        same_occupancy(a, b),
    ensures
        occupied(a) == occupied(b),
        first_occupied(a) == first_occupied(b),
    decreases a.len(),
{
    if a.len() > 0 {
        assert(a.last() is Some <==> b.last() is Some) by {
            assert(a[a.len() - 1] is Some <==> b[a.len() - 1] is Some);
        }
        assert(same_occupancy(a.drop_last(), b.drop_last())) by {
            assert forall|i: int| 0 <= i < a.drop_last().len() implies ((
            #[trigger] a.drop_last()[i]) is Some <==> b.drop_last()[i] is Some) by {
                assert(a[i] is Some <==> b[i] is Some);
            }
        }
        lemma_same_occupancy(a.drop_last(), b.drop_last());
    }
}

/// `first_occupied` is the least slot that is taken; where a slot is taken it
/// lies within the slots, and the count is positive.
pub proof fn lemma_first_occupied<T>(slots: Seq<Option<T>>)
    ensures
        0 <= first_occupied(slots) <= slots.len(),
        first_occupied(slots) < slots.len() ==> slots[first_occupied(slots)] is Some,
        forall|i: int| 0 <= i < first_occupied(slots) ==> (#[trigger] slots[i]) is None,
        occupied(slots) == 0 <==> first_occupied(slots) == slots.len(),
        occupied(slots) <= slots.len(),
    decreases slots.len(),
{
    if slots.len() > 0 {
        let head = slots.drop_last();
        lemma_first_occupied(head);
        assert forall|i: int| 0 <= i < first_occupied(slots) implies (#[trigger] slots[i])
            is None by {
            if i < head.len() {
                assert(head[i] is None);
            }
        }
    }
}

/// Emptying a slot that is taken lowers the count by one; filling an empty one
/// raises it by one; anything else leaves it.
pub proof fn lemma_occupied_update<T>(slots: Seq<Option<T>>, i: int, v: Option<T>)
    requires
        0 <= i < slots.len(),
    ensures
        occupied(slots.update(i, v)) + (if slots[i] is Some {
            1nat
        } else {
            0nat
        }) == occupied(slots) + (if v is Some {
            1nat
        } else {
            0nat
        }),
    decreases slots.len(),
{
    let after = slots.update(i, v);
    if i == slots.len() - 1 {
        assert(after.drop_last() =~= slots.drop_last());
    } else {
        lemma_occupied_update(slots.drop_last(), i, v);
        assert(after.drop_last() =~= slots.drop_last().update(i, v));
    }
}

/// Whether the digest sets no two byte strings of `universe` under one address,
/// and `store` holds only byte strings of `universe`, each under its digest.
pub open spec fn sealed(store: Map<Seq<u8>, Seq<u8>>, universe: Set<Seq<u8>>) -> bool {
    &&& forall|a: Seq<u8>, b: Seq<u8>|
        universe.contains(a) && universe.contains(b) && #[trigger] digest_of(a) == #[trigger] digest_of(b)
            ==> a == b
    &&& forall|h: Seq<u8>| #[trigger]
        store.contains_key(h) ==> universe.contains(store[h]) && digest_of(store[h]) == h
}

/// Whether `t` can be written into `store` without two byte strings meeting
/// under one digest: the digest tells apart the byte strings that the store
/// holds and the written forms of the nodes of `t`, the store holds each byte
/// string under its digest, and the digest of `t` is not the root of the empty
/// trie.
pub open spec fn clash_free(store: Map<Seq<u8>, Seq<u8>>, t: Subtrie) -> bool {
    &&& t.digest() != empty_root()
    &&& exists|universe: Set<Seq<u8>>| sealed(store, universe) && t.within(universe)
}

/// A byte string of the universe, put into a sealed store, is found under its
/// digest, and the store stays sealed.
pub proof fn lemma_put_sealed(store: Map<Seq<u8>, Seq<u8>>, universe: Set<Seq<u8>>, bytes: Seq<u8>)
    requires
        sealed(store, universe),
        universe.contains(bytes),
    ensures
        put(store, bytes).contains_key(digest_of(bytes)),
        put(store, bytes)[digest_of(bytes)] == bytes,
        sealed(put(store, bytes), universe),
{
    let h = digest_of(bytes);
    if store.contains_key(h) {
        assert(digest_of(store[h]) == digest_of(bytes));
    }
}

/// Putting a byte string into a store takes nothing out of it.
pub proof fn lemma_put_grows(store: Map<Seq<u8>, Seq<u8>>, bytes: Seq<u8>)
    ensures
        grows(store, put(store, bytes)),
{
}

/// A subtrie that a store holds is held by every store that grew out of it.
pub proof fn lemma_stored_grows(
    t: Subtrie,
    before: Map<Seq<u8>, Seq<u8>>,
    after: Map<Seq<u8>, Seq<u8>>,
)
    requires
        t.stored(before),
        grows(before, after),
    ensures
        t.stored(after),
    decreases t,
{
    assert(before.contains_key(t.digest()));
    match t {
        Subtrie::Leaf { .. } => {},
        Subtrie::Branch { partial, children } => {
            assert forall|i: int|
                0 <= i < children.len() && (#[trigger] children[i]) is Some implies children[i]->0.stored(
                after,
            ) by {
                lemma_stored_grows(children[i]->0, before, after);
            }
        },
    }
}

} // verus!
