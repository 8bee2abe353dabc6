//! What the walks of a trie come to in any store, well formed or not: where a
//! look-up ends, and where an insertion or a removal finds the store wanting.

use crate::hash::{digest_of, H256};
use crate::hashdb::put;
use crate::laws::lemma_stored_valid;
use crate::nibbleslice::{all_nibbles, common_prefix_len, lemma_common_prefix};
use crate::node::{decode_node, encode_node, lemma_node_round_trip, NodeView};
use crate::subtrie::{
    contents, first_occupied, insert_into, is_path, lemma_first_occupied, lemma_same_occupancy,
    lemma_with_partial_node, lookup, no_children, occupied, remove_from, represents,
    same_occupancy, Subtrie,
};
use vstd::prelude::*;

verus! {

/// The bytes of an optional digest.
pub open spec fn digest_view(cur: Option<H256>) -> Option<Seq<u8>> {
    match cur {
        Some(h) => Some(h@),
        None => None,
    }
}

/// Where the look-up of `path` below the node at `cur` ends in `store`: at the
/// value of the leaf with that path, at nothing, or at the digest of a node
/// that the store lacks. A stored byte string that is no written node ends
/// the look-up with nothing.
pub open spec fn read_at(
    store: Map<Seq<u8>, Seq<u8>>,
    cur: Option<Seq<u8>>,
    path: Seq<u8>,
) -> Result<Option<Seq<u8>>, Seq<u8>>
    decreases path.len(),
{
    match cur {
        None => Ok(None),
        Some(h) => if !store.contains_key(h) {
            Err(h)
        } else {
            match decode_node(store[h]) {
                Some(NodeView::Leaf { partial, value }) => Ok(
                    if partial == path {
                        Some(value)
                    } else {
                        None
                    },
                ),
                Some(NodeView::Branch { partial, children }) => {
                    if partial.is_prefix_of(path) && partial.len() < path.len() && path[partial.len() as int]
                        < children.len() {
                        read_at(
                            store,
                            children[path[partial.len() as int] as int],
                            path.skip(partial.len() as int + 1),
                        )
                    } else {
                        Ok(None)
                    }
                },
                None => Ok(None),
            }
        },
    }
}

/// The digest at which the insertion of `path` below the node at `cur` finds
/// `store` wanting, if it does: the digest of a node on the way that the store
/// lacks, or of a node whose prefix runs past the end of the path or ends
/// within it where the path should end too.
pub open spec fn insert_stops_at(
    store: Map<Seq<u8>, Seq<u8>>,
    cur: Option<Seq<u8>>,
    path: Seq<u8>,
) -> Option<Seq<u8>>
    decreases path.len(),
{
    match cur {
        None => None,
        Some(h) => if !store.contains_key(h) {
            Some(h)
        } else {
            match decode_node(store[h]) {
                Some(NodeView::Leaf { partial, .. }) => {
                    let c = common_prefix_len(partial, path);
                    if partial != path && (c >= partial.len() || c >= path.len()) {
                        Some(h)
                    } else {
                        None
                    }
                },
                Some(NodeView::Branch { partial, children }) => {
                    let c = common_prefix_len(partial, path) as int;
                    if c >= path.len() {
                        Some(h)
                    } else if c < partial.len() || path[c] >= children.len() {
                        None
                    } else {
                        insert_stops_at(store, children[path[c] as int], path.skip(c + 1))
                    }
                },
                None => None,
            }
        },
    }
}

/// Whether the removal of `path` below the node at `cur` leaves nothing: of no
/// node, of a leaf with that path, and of a branch whose children are all gone
/// once the removal has gone on in the child that the path selects.
pub open spec fn remove_empties(
    store: Map<Seq<u8>, Seq<u8>>,
    cur: Option<Seq<u8>>,
    path: Seq<u8>,
) -> bool
    decreases path.len(),
{
    match cur {
        None => true,
        Some(h) => store.contains_key(h) && (match decode_node(store[h]) {
            Some(NodeView::Leaf { partial, .. }) => partial == path,
            Some(NodeView::Branch { partial, children }) => {
                &&& partial.is_prefix_of(path)
                &&& partial.len() < path.len()
                &&& path[partial.len() as int] < children.len()
                &&& remove_empties(
                    store,
                    children[path[partial.len() as int] as int],
                    path.skip(partial.len() as int + 1),
                )
                &&& occupied(children.update(path[partial.len() as int] as int, None)) == 0
            },
            None => false,
        }),
    }
}

/// The digest at which the removal of `path` below the node at `cur` finds
/// `store` wanting, if it does: the digest of a node on the way that the store
/// lacks, of a branch whose prefix is the whole path, or of a branch whose last
/// child, which is to take its place, the store lacks or cannot read.
pub open spec fn remove_stops_at(
    store: Map<Seq<u8>, Seq<u8>>,
    cur: Option<Seq<u8>>,
    path: Seq<u8>,
) -> Option<Seq<u8>>
    decreases path.len(),
{
    match cur {
        None => None,
        Some(h) => if !store.contains_key(h) {
            Some(h)
        } else {
            match decode_node(store[h]) {
                Some(NodeView::Branch { partial, children }) => {
                    if !partial.is_prefix_of(path) {
                        None
                    } else if partial.len() >= path.len() {
                        Some(h)
                    } else if path[partial.len() as int] >= children.len() {
                        None
                    } else {
                        let slot = path[partial.len() as int] as int;
                        let rest = path.skip(partial.len() as int + 1);
                        let left = children.update(slot, None);
                        match remove_stops_at(store, children[slot], rest) {
                            Some(x) => Some(x),
                            None => if remove_empties(store, children[slot], rest) && occupied(
                                left,
                            ) == 1 && lone_child_unread(store, left) {
                                Some(h)
                            } else {
                                None
                            },
                        }
                    }
                },
                _ => None,
            }
        },
    }
}

/// Whether `store` lacks, or cannot read as a node, the first child in `slots`.
pub open spec fn lone_child_unread(
    store: Map<Seq<u8>, Seq<u8>>,
    slots: Seq<Option<Seq<u8>>>,
) -> bool {
    let i = first_occupied(slots);
    !(0 <= i < slots.len() && slots[i] is Some && store.contains_key(slots[i]->0) && decode_node(
        store[slots[i]->0],
    ) is Some)
}

/// The digest of a subtrie that may be absent.
pub open spec fn digest_of_trie(t: Option<Subtrie>) -> Option<Seq<u8>> {
    match t {
        Some(s) => Some(s.digest()),
        None => None,
    }
}

/// The node to start a walk at for a root: none for the root of the empty
/// trie.
pub open spec fn start_of(root: Seq<u8>) -> Option<Seq<u8>> {
    if root == crate::hash::empty_root() {
        None
    } else {
        Some(root)
    }
}

/// In a store that holds a trie whose paths have the length of `path`, a
/// look-up ends at what the trie has at the path.
pub proof fn lemma_read_at(store: Map<Seq<u8>, Seq<u8>>, t: Option<Subtrie>, path: Seq<u8>)
    requires
        t is Some ==> t->0.stored(store) && t->0.height_ok(path.len()),
    ensures
        read_at(store, digest_of_trie(t), path) == Ok::<Option<Seq<u8>>, Seq<u8>>(
            lookup(t, path),
        ),
    decreases path.len(),
{
    match t {
        None => {},
        Some(s) => {
            lemma_stored_valid(s, store, path.len());
            lemma_node_round_trip(s.node());
            match s {
                Subtrie::Leaf { .. } => {},
                Subtrie::Branch { partial, children } => {
                    let p = partial.len() as int;
                    if partial.is_prefix_of(path) && p < path.len() && path[p] < children.len() {
                        let slot = path[p] as int;
                        if children[slot] is Some {
                            assert(children[slot]->0.stored(store));
                        }
                        lemma_read_at(store, children[slot], path.skip(p + 1));
                    }
                },
            }
        },
    }
}

/// What the look-ups from `root` find in `store`: the value at each path at
/// which a look-up ends with one.
pub open spec fn found(store: Map<Seq<u8>, Seq<u8>>, root: Seq<u8>) -> Map<Seq<u8>, Seq<u8>> {
    Map::new(
        |q: Seq<u8>|
            is_path(q) && read_at(store, start_of(root), q) is Ok && read_at(
                store,
                start_of(root),
                q,
            )->Ok_0 is Some,
        |q: Seq<u8>| read_at(store, start_of(root), q)->Ok_0->0,
    )
}

/// From the root of a trie in a store, the look-ups find what the trie holds.
pub proof fn lemma_found(store: Map<Seq<u8>, Seq<u8>>, root: Seq<u8>, t: Option<Subtrie>)
    requires
        represents(store, root, t),
    ensures
        found(store, root) == contents(t),
{
    assert forall|q: Seq<u8>| is_path(q) implies read_at(store, start_of(root), q) == Ok::<
        Option<Seq<u8>>,
        Seq<u8>,
    >(lookup(t, q)) by {
        lemma_read_at(store, t, q);
    }
    assert(found(store, root) =~= contents(t));
}

/// In a store that holds a trie whose paths have the length of `path`, the
/// insertion of `path` finds nothing wanting.
pub proof fn law_insert_goes_through(
    store: Map<Seq<u8>, Seq<u8>>,
    t: Option<Subtrie>,
    path: Seq<u8>,
)
    requires
        t is Some ==> t->0.stored(store) && t->0.height_ok(path.len()),
    ensures
        insert_stops_at(store, digest_of_trie(t), path) is None,
    decreases path.len(),
{
    match t {
        None => {},
        Some(s) => {
            lemma_stored_valid(s, store, path.len());
            lemma_node_round_trip(s.node());
            lemma_common_prefix(s.partial(), path);
            match s {
                Subtrie::Leaf { partial, .. } => {
                    let c = common_prefix_len(partial, path);
                    if partial != path {
                        if c >= partial.len() {
                            assert(partial =~= path.subrange(0, partial.len() as int));
                        }
                    }
                },
                Subtrie::Branch { partial, children } => {
                    let c = common_prefix_len(partial, path) as int;
                    if c >= partial.len() && path[c] < children.len() {
                        let slot = path[c] as int;
                        if children[slot] is Some {
                            assert(children[slot]->0.stored(store));
                        }
                        law_insert_goes_through(store, children[slot], path.skip(c + 1));
                    }
                },
            }
        },
    }
}

/// In a store that holds a trie whose paths have the length of `path`, the
/// removal of `path` finds nothing wanting, and leaves nothing exactly where
/// `remove_from` leaves nothing.
pub proof fn law_remove_goes_through(
    store: Map<Seq<u8>, Seq<u8>>,
    t: Option<Subtrie>,
    path: Seq<u8>,
)
    requires
        t is Some ==> t->0.stored(store) && t->0.height_ok(path.len()),
    ensures
        remove_stops_at(store, digest_of_trie(t), path) is None,
        remove_empties(store, digest_of_trie(t), path) == (remove_from(t, path) is None),
    decreases path.len(),
{
    match t {
        None => {},
        Some(s) => {
            lemma_stored_valid(s, store, path.len());
            lemma_node_round_trip(s.node());
            match s {
                Subtrie::Leaf { .. } => {},
                Subtrie::Branch { partial, children } => {
                    let p = partial.len() as int;
                    let slots = s.node()->Branch_children;
                    if partial.is_prefix_of(path) && p < path.len() && path[p] < children.len() {
                        let slot = path[p] as int;
                        let rest = path.skip(p + 1);
                        if children[slot] is Some {
                            assert(children[slot]->0.stored(store));
                        }
                        law_remove_goes_through(store, children[slot], rest);
                        let child = remove_from(children[slot], rest);
                        let after = children.update(slot, child);
                        let left = slots.update(slot, None);
                        if child is None {
                            assert(same_occupancy(left, after)) by {
                                assert forall|i: int| 0 <= i < left.len() implies ((
                                #[trigger] left[i]) is Some <==> after[i] is Some) by {}
                            }
                            lemma_same_occupancy(left, after);
                            lemma_first_occupied(after);
                            if occupied(after) == 1 {
                                let i = first_occupied(after);
                                assert(children[i] is Some);
                                let only = children[i]->0;
                                assert(only.stored(store));
                                lemma_stored_valid(only, store, (path.len() - p - 1) as nat);
                                lemma_node_round_trip(only.node());
                            }
                        }
                    }
                },
            }
        },
    }
}

/// What a change that goes through leaves: the store, the digest of the node
/// that stands where the walk began, or none where nothing stands there any
/// more, and what the change found at its path.
pub struct Change {
    pub store: Map<Seq<u8>, Seq<u8>>,
    pub root: Option<Seq<u8>>,
    pub found: Option<Seq<u8>>,
}

/// The change that puts the one byte string `bytes` into `store`.
pub open spec fn written(
    store: Map<Seq<u8>, Seq<u8>>,
    bytes: Seq<u8>,
    found: Option<Seq<u8>>,
) -> Change {
    Change { store: put(store, bytes), root: Some(digest_of(bytes)), found }
}

/// Sixteen empty slots of a written branch.
pub open spec fn no_slots() -> Seq<Option<Seq<u8>>> {
    Seq::new(16, |i: int| None)
}

/// The written form of the branch that takes the place of a node whose prefix
/// parts from a path after `c` nibbles: the first `c` nibbles of `partial` for
/// its prefix, and the two children `a` and `b` in the slots of the nibbles
/// `x` and `y`.
pub open spec fn fork_bytes(partial: Seq<u8>, c: int, x: u8, a: Seq<u8>, y: u8, b: Seq<u8>) -> Seq<
    u8,
> {
    encode_node(
        NodeView::Branch {
            partial: partial.take(c),
            children: no_slots().update(x as int, Some(digest_of(a))).update(
                y as int,
                Some(digest_of(b)),
            ),
        },
    )
}

/// What setting `node` into `store` below the node at `cur` leaves, at the
/// path that is the prefix of `node`, where the walk finds nothing wanting. An
/// absent node, or stored bytes that are no node, give way to `node`. A leaf
/// with the same path is replaced; it is found as its value, or as its written
/// form where `raw` is set. A leaf with another path, and a branch whose prefix
/// the path leaves early, go below a new branch, beside `node`. Else the
/// branch is written anew with the child that the path selects changed.
pub open spec fn set_change(
    store: Map<Seq<u8>, Seq<u8>>,
    cur: Option<Seq<u8>>,
    node: NodeView,
    raw: bool,
) -> Change
    decreases node.partial().len(),
{
    let path = node.partial();
    match cur {
        None => written(store, encode_node(node), None),
        Some(h) => match decode_node(store[h]) {
            None => written(store, encode_node(node), None),
            Some(NodeView::Leaf { partial, value }) => {
                let c = common_prefix_len(partial, path) as int;
                if partial == path {
                    written(
                        store,
                        encode_node(node),
                        Some(
                            if raw {
                                store[h]
                            } else {
                                value
                            },
                        ),
                    )
                } else {
                    let a = encode_node(NodeView::Leaf { partial: partial.skip(c + 1), value });
                    let b = encode_node(node.with_partial(path.skip(c + 1)));
                    written(
                        put(put(store, a), b),
                        fork_bytes(partial, c, partial[c], a, path[c], b),
                        None,
                    )
                }
            },
            Some(NodeView::Branch { partial, children }) => {
                let c = common_prefix_len(partial, path) as int;
                if c < partial.len() {
                    let a = encode_node(
                        NodeView::Branch { partial: partial.skip(c + 1), children },
                    );
                    let b = encode_node(node.with_partial(path.skip(c + 1)));
                    written(
                        put(put(store, a), b),
                        fork_bytes(partial, c, partial[c], a, path[c], b),
                        None,
                    )
                } else if c < path.len() {
                    let below = set_change(
                        store,
                        children[path[c] as int],
                        node.with_partial(path.skip(c + 1)),
                        raw,
                    );
                    written(
                        below.store,
                        encode_node(
                            NodeView::Branch {
                                partial,
                                children: children.update(path[c] as int, below.root),
                            },
                        ),
                        below.found,
                    )
                } else {
                    written(store, encode_node(node), None)
                }
            },
        },
    }
}

/// What taking `path` out of `store` below the node at `cur` leaves, where the
/// walk finds nothing wanting. A leaf with that path goes, and its value is
/// found. A branch hands the removal on to the child that the path selects and
/// is written anew with what is left of that child; where nothing is left of
/// it and a single child remains, that child is written in the place of the
/// branch, behind the prefix of the branch and the nibble of its slot; where
/// no child remains, nothing is left. Anything else stays as it is.
pub open spec fn remove_change(
    store: Map<Seq<u8>, Seq<u8>>,
    cur: Option<Seq<u8>>,
    path: Seq<u8>,
) -> Change
    decreases path.len(),
{
    match cur {
        None => Change { store, root: None, found: None },
        Some(h) => match decode_node(store[h]) {
            Some(NodeView::Leaf { partial, value }) => if partial == path {
                Change { store, root: None, found: Some(value) }
            } else {
                Change { store, root: cur, found: None }
            },
            Some(NodeView::Branch { partial, children }) => {
                if partial.is_prefix_of(path) && partial.len() < path.len() && path[partial.len() as int]
                    < children.len() {
                    let slot = path[partial.len() as int] as int;
                    let below = remove_change(
                        store,
                        children[slot],
                        path.skip(partial.len() as int + 1),
                    );
                    let left = children.update(slot, below.root);
                    if below.root is Some || occupied(left) >= 2 {
                        written(
                            below.store,
                            encode_node(NodeView::Branch { partial, children: left }),
                            below.found,
                        )
                    } else if occupied(left) == 0 {
                        Change { store: below.store, root: None, found: below.found }
                    } else {
                        let i = first_occupied(left);
                        let only = decode_node(below.store[left[i]->0])->0;
                        written(
                            below.store,
                            encode_node(
                                only.with_partial(partial + seq![i as u8] + only.partial()),
                            ),
                            below.found,
                        )
                    }
                } else {
                    Change { store, root: cur, found: None }
                }
            },
            None => Change { store, root: cur, found: None },
        },
    }
}

/// The digest of a branch with two children is the digest of the written
/// branch that refers to the two by their digests.
proof fn lemma_fork(partial: Seq<u8>, c: int, x: u8, a: Subtrie, y: u8, b: Subtrie)
    requires
        x < 16,
        y < 16,
    ensures
        (Subtrie::Branch {
            partial: partial.take(c),
            children: no_children().update(x as int, Some(a)).update(y as int, Some(b)),
        }).digest() == digest_of(
            fork_bytes(partial, c, x, encode_node(a.node()), y, encode_node(b.node())),
        ),
{
    let forked = Subtrie::Branch {
        partial: partial.take(c),
        children: no_children().update(x as int, Some(a)).update(y as int, Some(b)),
    };
    assert(forked.node()->Branch_children =~= no_slots().update(
        x as int,
        Some(a.digest()),
    ).update(y as int, Some(b.digest())));
}

/// The node of a branch with one child changed refers to that child by its
/// digest and to the others as before.
proof fn lemma_child_changed(s: Subtrie, slot: int, below: Subtrie)
    requires
        s is Branch,
        0 <= slot < s->Branch_children.len(),
    ensures
        (Subtrie::Branch {
            partial: s->Branch_partial,
            children: s->Branch_children.update(slot, Some(below)),
        }).node() == (NodeView::Branch {
            partial: s->Branch_partial,
            children: s.node()->Branch_children.update(slot, Some(below.digest())),
        }),
{
    let changed = Subtrie::Branch {
        partial: s->Branch_partial,
        children: s->Branch_children.update(slot, Some(below)),
    };
    assert(changed.node()->Branch_children =~= s.node()->Branch_children.update(
        slot,
        Some(below.digest()),
    ));
}

/// In a store that holds a trie, a write leaves the root of the trie that
/// `insert_into` gives, and finds what the trie had at the path.
pub proof fn law_set_change_on_trie(
    store: Map<Seq<u8>, Seq<u8>>,
    t: Option<Subtrie>,
    path: Seq<u8>,
    value: Seq<u8>,
)
    requires
        all_nibbles(path),
        t is Some ==> t->0.stored(store) && t->0.height_ok(path.len()),
    ensures
        set_change(
            store,
            digest_of_trie(t),
            NodeView::Leaf { partial: path, value },
            false,
        ).root == Some(insert_into(t, path, value).digest()),
        set_change(
            store,
            digest_of_trie(t),
            NodeView::Leaf { partial: path, value },
            false,
        ).found == lookup(t, path),
    decreases path.len(),
{
    match t {
        None => {},
        Some(s) => {
            lemma_stored_valid(s, store, path.len());
            lemma_node_round_trip(s.node());
            lemma_common_prefix(s.partial(), path);
            let c = common_prefix_len(s.partial(), path) as int;
            let tail = Subtrie::Leaf { partial: path.skip(c + 1), value };
            match s {
                Subtrie::Leaf { partial, value: old } => {
                    if partial != path {
                        if c >= partial.len() {
                            assert(partial =~= path.subrange(0, partial.len() as int));
                        }
                        assert(partial[c] < 16 && path[c] < 16);
                        lemma_fork(
                            partial,
                            c,
                            partial[c],
                            Subtrie::Leaf { partial: partial.skip(c + 1), value: old },
                            path[c],
                            tail,
                        );
                    }
                },
                Subtrie::Branch { partial, children } => {
                    assert(c < path.len());
                    assert(path[c] < 16);
                    if c < partial.len() {
                        assert(partial[c] < 16);
                        let pushed = Subtrie::Branch { partial: partial.skip(c + 1), children };
                        assert(pushed.node()->Branch_children =~= s.node()->Branch_children);
                        lemma_fork(partial, c, partial[c], pushed, path[c], tail);
                    } else {
                        let slot = path[c] as int;
                        if children[slot] is Some {
                            assert(children[slot]->0.stored(store));
                        }
                        assert(all_nibbles(path.skip(c + 1))) by {
                            assert forall|i: int| 0 <= i < path.skip(c + 1).len() implies (
                            #[trigger] path.skip(c + 1)[i]) < 16 by {
                                assert(path[i + c + 1] < 16);
                            }
                        }
                        law_set_change_on_trie(store, children[slot], path.skip(c + 1), value);
                        assert(s.node()->Branch_children[slot] == digest_of_trie(children[slot]));
                        lemma_child_changed(
                            s,
                            slot,
                            insert_into(children[slot], path.skip(c + 1), value),
                        );
                    }
                },
            }
        },
    }
}

/// What a removal leaves where the walk began is nothing exactly if it leaves
/// the store untouched in the way of `remove_empties`.
pub proof fn lemma_remove_change_store(
    store: Map<Seq<u8>, Seq<u8>>,
    cur: Option<Seq<u8>>,
    path: Seq<u8>,
)
    ensures
        remove_change(store, cur, path).root is None ==> remove_change(store, cur, path).store
            == store,
    decreases path.len(),
{
    match cur {
        None => {},
        Some(h) => match decode_node(store[h]) {
            Some(NodeView::Branch { partial, children }) => {
                if partial.is_prefix_of(path) && partial.len() < path.len() && path[partial.len() as int]
                    < children.len() {
                    let slot = path[partial.len() as int] as int;
                    lemma_remove_change_store(
                        store,
                        children[slot],
                        path.skip(partial.len() as int + 1),
                    );
                }
            },
            _ => {},
        },
    }
}

/// In a store that holds a trie, a removal leaves the root of the trie that
/// `remove_from` gives, and finds what the trie had at the path.
pub proof fn law_remove_change_on_trie(
    store: Map<Seq<u8>, Seq<u8>>,
    t: Option<Subtrie>,
    path: Seq<u8>,
)
    requires
        t is Some ==> t->0.stored(store) && t->0.height_ok(path.len()),
    ensures
        remove_change(store, digest_of_trie(t), path).root == digest_of_trie(
            remove_from(t, path),
        ),
        remove_change(store, digest_of_trie(t), path).found == lookup(t, path),
    decreases path.len(),
{
    match t {
        None => {},
        Some(s) => {
            lemma_stored_valid(s, store, path.len());
            lemma_node_round_trip(s.node());
            match s {
                Subtrie::Leaf { .. } => {},
                Subtrie::Branch { partial, children } => {
                    let p = partial.len() as int;
                    let slots = s.node()->Branch_children;
                    if partial.is_prefix_of(path) && p < path.len() && path[p] < children.len() {
                        let slot = path[p] as int;
                        let rest = path.skip(p + 1);
                        if children[slot] is Some {
                            assert(children[slot]->0.stored(store));
                        }
                        assert(slots[slot] == digest_of_trie(children[slot]));
                        law_remove_change_on_trie(store, children[slot], rest);
                        lemma_remove_change_store(store, slots[slot], rest);
                        let below = remove_change(store, slots[slot], rest);
                        let child = remove_from(children[slot], rest);
                        let after = children.update(slot, child);
                        let left = slots.update(slot, below.root);
                        assert(same_occupancy(left, after)) by {
                            assert forall|i: int| 0 <= i < left.len() implies ((
                            #[trigger] left[i]) is Some <==> after[i] is Some) by {}
                        }
                        lemma_same_occupancy(left, after);
                        lemma_first_occupied(after);
                        if child is Some || occupied(after) >= 2 {
                            let kept = Subtrie::Branch { partial, children: after };
                            assert(kept.node()->Branch_children =~= left);
                        } else if occupied(after) == 0 {
                        } else {
                            let i = first_occupied(after);
                            assert(children[i] is Some);
                            let only = children[i]->0;
                            assert(only.stored(store));
                            assert(left[i] == Some(only.digest()));
                            lemma_stored_valid(only, store, (path.len() - p - 1) as nat);
                            lemma_node_round_trip(only.node());
                            lemma_with_partial_node(
                                only,
                                partial + seq![i as u8] + only.partial(),
                            );
                            assert(only.node().partial() == only.partial());
                        }
                    }
                },
            }
        },
    }
}

} // verus!
