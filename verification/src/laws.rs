//! What holds of the tries that insertion and removal build.

use crate::nibbleslice::{all_nibbles, common_prefix_len, lemma_common_prefix};
use crate::node::lemma_encode_injective;
use crate::subtrie::{
    children_stored, contents, first_occupied, graft, graft_fits, insert_into, is_path, lemma_first_occupied, lemma_occupied_update, lookup, no_children,
    occupied, remove_from, represents, Subtrie,
};
use vstd::prelude::*;

verus! {

/// The topmost node of a stored subtrie of some height is one that can be
/// written and read back.
pub proof fn lemma_stored_valid(s: Subtrie, store: Map<Seq<u8>, Seq<u8>>, height: nat)
    requires
        s.stored(store),
        s.height_ok(height),
    ensures
        s.node().valid(),
{
    match s {
        Subtrie::Leaf { .. } => {},
        Subtrie::Branch { partial, children } => {
            let slots = s.node()->Branch_children;
            assert forall|i: int| 0 <= i < 16 && (#[trigger] slots[i]) is Some implies slots[i]->0.len()
                == 32 by {
                assert(children[i] is Some);
                assert(children[i]->0.stored(store));
            }
        },
    }
}

/// Two subtries of one height with the same topmost node, whose children a
/// store holds, are the same subtrie.
pub proof fn lemma_same_node_unique(
    a: Subtrie,
    b: Subtrie,
    store: Map<Seq<u8>, Seq<u8>>,
    height: nat,
)
    requires
        a.node() == b.node(),
        a.height_ok(height),
        b.height_ok(height),
        children_stored(a, store),
        children_stored(b, store),
    ensures
        a == b,
    decreases a, 0nat,
{
    match a {
        Subtrie::Leaf { .. } => {},
        Subtrie::Branch { partial, children } => {
            let others = b->Branch_children;
            let below = (height - partial.len() - 1) as nat;
            assert forall|i: int| 0 <= i < 16 implies children[i] == others[i] by {
                assert(a.node()->Branch_children[i] == b.node()->Branch_children[i]);
                if children[i] is Some {
                    assert(others[i] is Some);
                    assert(children[i]->0.stored(store));
                    assert(others[i]->0.stored(store));
                    lemma_stored_unique(children[i]->0, others[i]->0, store, below);
                }
            }
            assert(children =~= others);
        },
    }
}

/// A store holds at most one subtrie of a given height under a given digest.
pub proof fn lemma_stored_unique(
    a: Subtrie,
    b: Subtrie,
    store: Map<Seq<u8>, Seq<u8>>,
    height: nat,
)
    requires
        a.stored(store),
        b.stored(store),
        a.height_ok(height),
        b.height_ok(height),
        a.digest() == b.digest(),
    ensures
        a == b,
    decreases a, 1nat,
{
    lemma_stored_valid(a, store, height);
    lemma_stored_valid(b, store, height);
    lemma_encode_injective(a.node(), b.node());
    lemma_same_node_unique(a, b, store, height);
}

/// A root stands for at most one trie in a store.
pub proof fn lemma_represents_unique(
    store: Map<Seq<u8>, Seq<u8>>,
    root: Seq<u8>,
    a: Option<Subtrie>,
    b: Option<Subtrie>,
)
    requires
        represents(store, root, a),
        represents(store, root, b),
    ensures
        a == b,
{
    if a is Some && b is Some {
        lemma_stored_unique(a->0, b->0, store, 64);
    }
}

/// Insertion keeps every path at its length.
pub proof fn lemma_insert_height(t: Option<Subtrie>, path: Seq<u8>, value: Seq<u8>)
    requires
        all_nibbles(path),
        t is Some ==> t->0.height_ok(path.len()),
    ensures
        insert_into(t, path, value).height_ok(path.len()),
    decreases path.len(),
{
    let height = path.len();
    match t {
        None => {},
        Some(Subtrie::Leaf { partial, value: old }) => {
            lemma_common_prefix(partial, path);
            let c = common_prefix_len(partial, path) as int;
            if partial == path || c >= partial.len() || c >= path.len() {
            } else {
                let after = insert_into(t, path, value);
                let kids = after->Branch_children;
                assert(partial[c] < 16 && path[c] < 16);
                assert forall|i: int| 0 <= i < kids.len() && (#[trigger] kids[i]) is Some implies kids[i]->0.height_ok(
                    (height - c - 1) as nat,
                ) by {
                    assert(all_nibbles(partial.skip(c + 1))) by {
                        assert forall|k: int| 0 <= k < partial.skip(c + 1).len() implies (
                        #[trigger] partial.skip(c + 1)[k]) < 16 by {
                            assert(partial[k + c + 1] < 16);
                        }
                    }
                    assert(all_nibbles(path.skip(c + 1))) by {
                        assert forall|k: int| 0 <= k < path.skip(c + 1).len() implies (
                        #[trigger] path.skip(c + 1)[k]) < 16 by {
                            assert(path[k + c + 1] < 16);
                        }
                    }
                }
                assert(all_nibbles(partial.take(c))) by {
                    assert forall|k: int| 0 <= k < partial.take(c).len() implies (
                    #[trigger] partial.take(c)[k]) < 16 by {
                        assert(partial[k] < 16);
                    }
                }
            }
        },
        Some(Subtrie::Branch { partial, children }) => {
            lemma_common_prefix(partial, path);
            let c = common_prefix_len(partial, path) as int;
            let after = insert_into(t, path, value);
            assert(c < path.len());
            assert(path[c] < 16);
            assert(all_nibbles(path.skip(c + 1))) by {
                assert forall|k: int| 0 <= k < path.skip(c + 1).len() implies (#[trigger] path.skip(
                    c + 1,
                )[k]) < 16 by {
                    assert(path[k + c + 1] < 16);
                }
            }
            if c < partial.len() {
                let kids = after->Branch_children;
                assert(partial[c] < 16);
                let pushed = Subtrie::Branch { partial: partial.skip(c + 1), children };
                assert(pushed.height_ok((height - c - 1) as nat)) by {
                    assert forall|k: int| 0 <= k < partial.skip(c + 1).len() implies (
                    #[trigger] partial.skip(c + 1)[k]) < 16 by {
                        assert(partial[k + c + 1] < 16);
                    }
                }
                assert forall|i: int| 0 <= i < kids.len() && (#[trigger] kids[i]) is Some implies kids[i]->0.height_ok(
                    (height - c - 1) as nat,
                ) by {}
                assert(all_nibbles(partial.take(c))) by {
                    assert forall|k: int| 0 <= k < partial.take(c).len() implies (
                    #[trigger] partial.take(c)[k]) < 16 by {
                        assert(partial[k] < 16);
                    }
                }
            } else {
                let slot = path[c] as int;
                let kids = after->Branch_children;
                if children[slot] is Some {
                    assert(children[slot]->0.height_ok((height - c - 1) as nat));
                }
                lemma_insert_height(children[slot], path.skip(c + 1), value);
                assert forall|i: int| 0 <= i < kids.len() && (#[trigger] kids[i]) is Some implies kids[i]->0.height_ok(
                    (height - c - 1) as nat,
                ) by {
                    if i != slot {
                        assert(children[i] is Some);
                    }
                }
            }
        },
    }
}

/// A suffix of a sequence of nibbles is a sequence of nibbles, and so is a
/// leading part of it.
pub proof fn lemma_nibbles_parts(s: Seq<u8>, k: int)
    requires
        all_nibbles(s),
        0 <= k <= s.len(),
    ensures
        all_nibbles(s.skip(k)),
        all_nibbles(s.take(k)),
{
    assert forall|i: int| 0 <= i < s.skip(k).len() implies (#[trigger] s.skip(k)[i]) < 16 by {
        assert(s[i + k] < 16);
    }
    assert forall|i: int| 0 <= i < s.take(k).len() implies (#[trigger] s.take(k)[i]) < 16 by {
        assert(s[i] < 16);
    }
}

/// A subtrie set one level lower, without the nibbles of its prefix that lie
/// above it, has its paths at the length that is left.
pub proof fn lemma_with_partial_height(g: Subtrie, c: int, height: nat)
    requires
        g.height_ok(height),
        0 <= c < g.partial().len(),
    ensures
        g.with_partial(g.partial().skip(c + 1)).height_ok((height - c - 1) as nat),
{
    lemma_nibbles_parts(g.partial(), c + 1);
    match g {
        Subtrie::Leaf { .. } => {},
        Subtrie::Branch { partial, children } => {
            assert forall|i: int|
                0 <= i < children.len() && (#[trigger] children[i]) is Some implies children[i]->0.height_ok(
                ((height - c - 1) - partial.skip(c + 1).len() - 1) as nat,
            ) by {}
        },
    }
}

/// Setting a subtrie into a trie keeps every path at its length.
pub proof fn lemma_graft_height(t: Option<Subtrie>, g: Subtrie, height: nat)
    requires
        g.height_ok(height),
        t is Some ==> t->0.height_ok(height),
        graft_fits(t, g),
    ensures
        graft(t, g).height_ok(height),
    decreases g.partial().len(),
{
    let path = g.partial();
    match t {
        None => {},
        Some(Subtrie::Leaf { partial, value: old }) => {
            lemma_common_prefix(partial, path);
            let c = common_prefix_len(partial, path) as int;
            if partial == path || c >= partial.len() || c >= path.len() {
            } else {
                let after = graft(t, g);
                let kids = after->Branch_children;
                assert(partial[c] < 16 && path[c] < 16);
                lemma_nibbles_parts(partial, c + 1);
                lemma_nibbles_parts(partial, c);
                lemma_with_partial_height(g, c, height);
                assert forall|i: int| 0 <= i < kids.len() && (#[trigger] kids[i]) is Some implies kids[i]->0.height_ok(
                    (height - c - 1) as nat,
                ) by {}
            }
        },
        Some(Subtrie::Branch { partial, children }) => {
            lemma_common_prefix(partial, path);
            let c = common_prefix_len(partial, path) as int;
            let after = graft(t, g);
            assert(path[c] < 16);
            lemma_with_partial_height(g, c, height);
            if c < partial.len() {
                let kids = after->Branch_children;
                assert(partial[c] < 16);
                lemma_nibbles_parts(partial, c + 1);
                lemma_nibbles_parts(partial, c);
                let pushed = Subtrie::Branch { partial: partial.skip(c + 1), children };
                assert(pushed.height_ok((height - c - 1) as nat));
                assert forall|i: int| 0 <= i < kids.len() && (#[trigger] kids[i]) is Some implies kids[i]->0.height_ok(
                    (height - c - 1) as nat,
                ) by {}
            } else {
                let slot = path[c] as int;
                let kids = after->Branch_children;
                let sub = g.with_partial(path.skip(c + 1));
                if children[slot] is Some {
                    assert(children[slot]->0.height_ok((height - c - 1) as nat));
                }
                lemma_graft_height(children[slot], sub, (height - c - 1) as nat);
                assert forall|i: int| 0 <= i < kids.len() && (#[trigger] kids[i]) is Some implies kids[i]->0.height_ok(
                    (height - c - 1) as nat,
                ) by {
                    if i != slot {
                        assert(children[i] is Some);
                    }
                }
            }
        },
    }
}

/// Removal keeps every path at its length.
pub proof fn lemma_remove_height(t: Option<Subtrie>, path: Seq<u8>)
    requires
        t is Some ==> t->0.height_ok(path.len()),
    ensures
        remove_from(t, path) is Some ==> remove_from(t, path)->0.height_ok(path.len()),
    decreases path.len(),
{
    let height = path.len();
    match t {
        None => {},
        Some(Subtrie::Leaf { .. }) => {},
        Some(Subtrie::Branch { partial, children }) => {
            if partial.is_prefix_of(path) && partial.len() < path.len() && path[partial.len() as int]
                < children.len() {
                let p = partial.len() as int;
                let slot = path[p] as int;
                let below = (height - p - 1) as nat;
                if children[slot] is Some {
                    assert(children[slot]->0.height_ok(below));
                }
                lemma_remove_height(children[slot], path.skip(p + 1));
                let child = remove_from(children[slot], path.skip(p + 1));
                let after = children.update(slot, child);
                assert forall|i: int| 0 <= i < after.len() && (#[trigger] after[i]) is Some implies after[i]->0.height_ok(
                    below,
                ) by {
                    if i != slot {
                        assert(children[i] is Some);
                    }
                }
                if child is Some || occupied(after) >= 2 {
                } else if occupied(after) == 0 {
                } else {
                    lemma_first_occupied(after);
                    let i = first_occupied(after);
                    let only = after[i]->0;
                    assert(only.height_ok(below));
                    let merged = partial + seq![i as u8] + only.partial();
                    assert(all_nibbles(merged)) by {
                        assert forall|k: int| 0 <= k < merged.len() implies (#[trigger] merged[k])
                            < 16 by {
                            if k < p {
                                assert(partial[k] < 16);
                            } else if k > p {
                                assert(only.partial()[k - p - 1] < 16);
                            }
                        }
                    }
                    match only {
                        Subtrie::Leaf { .. } => {},
                        Subtrie::Branch { partial: q, children: kids } => {
                            assert forall|k: int|
                                0 <= k < kids.len() && (#[trigger] kids[k]) is Some implies kids[k]->0.height_ok(
                                (height - merged.len() - 1) as nat,
                            ) by {}
                        },
                    }
                }
            }
        },
    }
}

/// Two sequences that agree before, at and behind a position are the same.
pub proof fn lemma_same_parts(a: Seq<u8>, b: Seq<u8>, c: int)
    requires
        0 <= c < a.len(),
        c < b.len(),
        a.take(c) == b.take(c),
        a[c] == b[c],
        a.skip(c + 1) == b.skip(c + 1),
    ensures
        a == b,
{
    assert(a.len() == b.len()) by {
        assert(a.skip(c + 1).len() == a.len() - (c + 1));
        assert(b.skip(c + 1).len() == b.len() - (c + 1));
    }
    assert forall|i: int| 0 <= i < a.len() implies a[i] == b[i] by {
        if i < c {
            assert(a.take(c)[i] == a[i]);
            assert(b.take(c)[i] == b[i]);
        } else if i > c {
            assert(a.skip(c + 1)[i - c - 1] == a[i]);
            assert(b.skip(c + 1)[i - c - 1] == b[i]);
        } else {
            assert(a[c] == b[c]);
        }
    }
    assert(a =~= b);
}

/// A sequence begins with `p` exactly if it is long enough and its leading part
/// of that length is `p`.
pub proof fn lemma_prefix_take(p: Seq<u8>, q: Seq<u8>)
    ensures
        p.is_prefix_of(q) <==> p.len() <= q.len() && q.take(p.len() as int) == p,
{
    if p.len() <= q.len() {
        assert(q.take(p.len() as int) =~= q.subrange(0, p.len() as int));
        if p.is_prefix_of(q) {
            assert(p =~= q.subrange(0, p.len() as int));
        }
    }
}

/// Looking up `other` after `value` was written at `path`: the value written
/// at `path` itself, and what was there before at any other path.
pub proof fn lemma_lookup_insert(t: Option<Subtrie>, path: Seq<u8>, value: Seq<u8>, other: Seq<u8>)
    requires
        all_nibbles(path),
        all_nibbles(other),
        other.len() == path.len(),
        t is Some ==> t->0.height_ok(path.len()),
    ensures
        lookup(Some(insert_into(t, path, value)), other) == (if other == path {
            Some(value)
        } else {
            lookup(t, other)
        }),
    decreases path.len(),
{
    reveal_with_fuel(Subtrie::lookup, 3);
    let after = insert_into(t, path, value);
    match t {
        None => {},
        Some(Subtrie::Leaf { partial, value: old }) => {
            lemma_common_prefix(partial, path);
            let c = common_prefix_len(partial, path) as int;
            if partial == path || c >= partial.len() || c >= path.len() {
            } else {
                let head = partial.take(c);
                lemma_prefix_take(head, other);
                assert(partial[c] < 16 && path[c] < 16 && other[c] < 16);
                if head.is_prefix_of(other) {
                    assert(other.take(c) == head);
                    if other[c] == path[c] {
                        if other.skip(c + 1) == path.skip(c + 1) {
                            lemma_same_parts(other, path, c);
                        }
                    }
                    if other[c] == partial[c] {
                        if other.skip(c + 1) == partial.skip(c + 1) {
                            lemma_same_parts(other, partial, c);
                        }
                    }
                } else {
                    if other == path {
                        assert(other.take(c) == head);
                    }
                    if other == partial {
                        assert(other.take(c) == head);
                    }
                }
            }
        },
        Some(Subtrie::Branch { partial, children }) => {
            lemma_common_prefix(partial, path);
            let c = common_prefix_len(partial, path) as int;
            let p = partial.len() as int;
            lemma_prefix_take(partial, other);
            assert(path[c] < 16 && other[c] < 16);
            if c < p {
                let head = partial.take(c);
                lemma_prefix_take(head, other);
                assert(partial[c] < 16);
                let pushed = Subtrie::Branch { partial: partial.skip(c + 1), children };
                if head.is_prefix_of(other) {
                    assert(other.take(c) == head);
                    if other[c] == path[c] {
                        if other.skip(c + 1) == path.skip(c + 1) {
                            lemma_same_parts(other, path, c);
                        }
                        if partial.is_prefix_of(other) {
                            assert(other.take(p)[c] == partial[c]);
                        }
                    } else if other[c] == partial[c] {
                        let rest = other.skip(c + 1);
                        let tail = partial.skip(c + 1);
                        lemma_prefix_take(tail, rest);
                        if partial.is_prefix_of(other) {
                            assert(rest.take(tail.len() as int) =~= tail) by {
                                assert forall|i: int| 0 <= i < tail.len() implies rest.take(
                                    tail.len() as int,
                                )[i] == tail[i] by {
                                    assert(other.take(p)[i + c + 1] == partial[i + c + 1]);
                                }
                            }
                        }
                        if tail.is_prefix_of(rest) {
                            assert(other.take(p) =~= partial) by {
                                assert forall|i: int| 0 <= i < p implies other.take(p)[i]
                                    == partial[i] by {
                                    if i < c {
                                        assert(other.take(c)[i] == head[i]);
                                    } else if i > c {
                                        assert(rest.take(tail.len() as int)[i - c - 1] == tail[i
                                            - c - 1]);
                                    }
                                }
                            }
                        }
                        if partial.is_prefix_of(other) {
                            assert(rest[tail.len() as int] == other[p]);
                            assert(rest.skip(tail.len() as int + 1) =~= other.skip(p + 1));
                        }
                    } else {
                        if partial.is_prefix_of(other) {
                            assert(other.take(p)[c] == partial[c]);
                        }
                    }
                } else {
                    if other == path {
                        assert(other.take(c) == head);
                    }
                    if partial.is_prefix_of(other) {
                        assert(other.take(c) =~= head) by {
                            assert forall|i: int| 0 <= i < c implies other.take(c)[i]
                                == head[i] by {
                                assert(other.take(p)[i] == partial[i]);
                            }
                        }
                    }
                }
            } else {
                let slot = path[c] as int;
                if partial.is_prefix_of(other) {
                    if other[c] == path[c] {
                        if children[slot] is Some {
                            assert(children[slot]->0.height_ok((path.len() - c - 1) as nat));
                        }
                        lemma_nibbles_parts(path, c + 1);
                        lemma_nibbles_parts(other, c + 1);
                        lemma_lookup_insert(
                            children[slot],
                            path.skip(c + 1),
                            value,
                            other.skip(c + 1),
                        );
                        lemma_prefix_take(partial, path);
                        if other.skip(c + 1) == path.skip(c + 1) {
                            lemma_same_parts(other, path, c);
                        }
                    }
                } else {
                    if other == path {
                    }
                }
            }
        },
    }
}

/// Slots of which none is taken count zero.
pub proof fn lemma_occupied_none<T>(slots: Seq<Option<T>>)
    requires
        forall|i: int| 0 <= i < slots.len() ==> (#[trigger] slots[i]) is None,
    ensures
        occupied(slots) == 0,
    decreases slots.len(),
{
    if slots.len() > 0 {
        assert(slots.last() is None) by {
            assert(slots[slots.len() - 1] is None);
        }
        assert forall|i: int| 0 <= i < slots.drop_last().len() implies (#[trigger] slots.drop_last()[i])
            is None by {
            assert(slots[i] is None);
        }
        lemma_occupied_none(slots.drop_last());
    }
}

/// Two children in different slots of an empty branch count two.
pub proof fn lemma_occupied_two(a: int, x: Subtrie, b: int, y: Subtrie)
    requires
        0 <= a < 16,
        0 <= b < 16,
        a != b,
    ensures
        occupied(no_children().update(a, Some(x)).update(b, Some(y))) == 2,
{
    lemma_occupied_none(no_children());
    lemma_occupied_update(no_children(), a, Some(x));
    lemma_occupied_update(no_children().update(a, Some(x)), b, Some(y));
}

/// Where a single slot is taken, every slot but the first taken one is empty.
pub proof fn lemma_occupied_one<T>(slots: Seq<Option<T>>, j: int)
    requires
        occupied(slots) == 1,
        0 <= j < slots.len(),
        j != first_occupied(slots),
    ensures
        slots[j] is None,
{
    lemma_first_occupied(slots);
    let i = first_occupied(slots);
    let without = slots.update(i, None);
    lemma_occupied_update(slots, i, None);
    lemma_first_occupied(without);
    if slots[j] is Some {
        assert(without[j] is Some);
        let k = first_occupied(without);
        assert forall|n: int| 0 <= n < without.len() implies (#[trigger] without[n]) is None by {
            if without[n] is Some {
                assert(k == without.len());
            }
        }
    }
}

/// Insertion leaves no branch with fewer than two children.
pub proof fn lemma_insert_minimal(t: Option<Subtrie>, path: Seq<u8>, value: Seq<u8>)
    requires
        all_nibbles(path),
        t is Some ==> t->0.height_ok(path.len()) && t->0.minimal(),
    ensures
        insert_into(t, path, value).minimal(),
    decreases path.len(),
{
    reveal_with_fuel(Subtrie::minimal, 3);
    let after = insert_into(t, path, value);
    match t {
        None => {},
        Some(Subtrie::Leaf { partial, value: old }) => {
            lemma_common_prefix(partial, path);
            let c = common_prefix_len(partial, path) as int;
            if partial == path || c >= partial.len() || c >= path.len() {
            } else {
                assert(partial[c] < 16 && path[c] < 16);
                lemma_occupied_two(
                    partial[c] as int,
                    Subtrie::Leaf { partial: partial.skip(c + 1), value: old },
                    path[c] as int,
                    Subtrie::Leaf { partial: path.skip(c + 1), value },
                );
            }
        },
        Some(Subtrie::Branch { partial, children }) => {
            lemma_common_prefix(partial, path);
            let c = common_prefix_len(partial, path) as int;
            assert(path[c] < 16);
            if c < partial.len() {
                assert(partial[c] < 16);
                let pushed = Subtrie::Branch { partial: partial.skip(c + 1), children };
                assert(pushed.minimal());
                lemma_occupied_two(
                    partial[c] as int,
                    pushed,
                    path[c] as int,
                    Subtrie::Leaf { partial: path.skip(c + 1), value },
                );
            } else {
                let slot = path[c] as int;
                let kids = after->Branch_children;
                if children[slot] is Some {
                    assert(children[slot]->0.height_ok((path.len() - c - 1) as nat));
                    assert(children[slot]->0.minimal());
                }
                lemma_nibbles_parts(path, c + 1);
                lemma_insert_minimal(children[slot], path.skip(c + 1), value);
                lemma_occupied_update(
                    children,
                    slot,
                    Some(insert_into(children[slot], path.skip(c + 1), value)),
                );
                assert forall|i: int| 0 <= i < kids.len() && (#[trigger] kids[i]) is Some implies kids[i]->0.minimal() by {
                    if i != slot {
                        assert(children[i] is Some);
                    }
                }
            }
        },
    }
}

/// Removal leaves no branch with fewer than two children.
pub proof fn lemma_remove_minimal(t: Option<Subtrie>, path: Seq<u8>)
    requires
        t is Some ==> t->0.minimal(),
    ensures
        remove_from(t, path) is Some ==> remove_from(t, path)->0.minimal(),
    decreases path.len(),
{
    match t {
        None => {},
        Some(Subtrie::Leaf { .. }) => {},
        Some(Subtrie::Branch { partial, children }) => {
            if partial.is_prefix_of(path) && partial.len() < path.len() && path[partial.len() as int]
                < children.len() {
                let p = partial.len() as int;
                let slot = path[p] as int;
                if children[slot] is Some {
                    assert(children[slot]->0.minimal());
                }
                lemma_remove_minimal(children[slot], path.skip(p + 1));
                let child = remove_from(children[slot], path.skip(p + 1));
                let after = children.update(slot, child);
                lemma_occupied_update(children, slot, child);
                assert forall|i: int| 0 <= i < after.len() && (#[trigger] after[i]) is Some implies after[i]->0.minimal() by {
                    if i != slot {
                        assert(children[i] is Some);
                    }
                }
                if child is Some || occupied(after) >= 2 {
                } else if occupied(after) == 0 {
                } else {
                    lemma_first_occupied(after);
                    let i = first_occupied(after);
                    let only = after[i]->0;
                    assert(only.minimal());
                    match only {
                        Subtrie::Leaf { .. } => {},
                        Subtrie::Branch { partial: q, children: kids } => {
                            assert forall|k: int|
                                0 <= k < kids.len() && (#[trigger] kids[k]) is Some implies kids[k]->0.minimal() by {}
                        },
                    }
                }
            }
        },
    }
}

/// Removing a path that a trie does not have leaves the trie as it is.
pub proof fn lemma_remove_absent(t: Option<Subtrie>, path: Seq<u8>)
    requires
        t is Some ==> t->0.minimal(),
        lookup(t, path) is None,
    ensures
        remove_from(t, path) == t,
    decreases path.len(),
{
    match t {
        None => {},
        Some(Subtrie::Leaf { .. }) => {},
        Some(Subtrie::Branch { partial, children }) => {
            if partial.is_prefix_of(path) && partial.len() < path.len() && path[partial.len() as int]
                < children.len() {
                let p = partial.len() as int;
                let slot = path[p] as int;
                if children[slot] is Some {
                    assert(children[slot]->0.minimal());
                }
                lemma_remove_absent(children[slot], path.skip(p + 1));
                assert(children.update(slot, children[slot]) =~= children);
            }
        },
    }
}

/// A path that a subtrie has: down the first child of every branch.
pub open spec fn some_path(t: Subtrie) -> Seq<u8>
    decreases t,
{
    match t {
        Subtrie::Leaf { partial, .. } => partial,
        Subtrie::Branch { partial, children } => {
            let i = first_occupied(children);
            if 0 <= i < children.len() && children[i] is Some {
                partial + seq![i as u8] + some_path(children[i]->0)
            } else {
                partial
            }
        },
    }
}

/// A subtrie whose branches all have children has a path.
pub proof fn lemma_some_path(t: Subtrie, height: nat)
    requires
        t.minimal(),
        t.height_ok(height),
    ensures
        some_path(t).len() == height,
        all_nibbles(some_path(t)),
        t.lookup(some_path(t)) is Some,
    decreases t,
{
    match t {
        Subtrie::Leaf { .. } => {},
        Subtrie::Branch { partial, children } => {
            lemma_first_occupied(children);
            let i = first_occupied(children);
            let p = partial.len() as int;
            let child = children[i]->0;
            lemma_some_path(child, (height - p - 1) as nat);
            let q = some_path(t);
            let sub = some_path(child);
            assert(q.subrange(0, p) =~= partial);
            assert(q[p] == i as u8);
            assert(q.skip(p + 1) =~= sub);
            assert forall|k: int| 0 <= k < q.len() implies (#[trigger] q[k]) < 16 by {
                if k < p {
                    assert(partial[k] < 16);
                } else if k > p {
                    assert(sub[k - p - 1] < 16);
                }
            }
        },
    }
}

/// Whether a sequence begins with, or is, a prefix followed by one element
/// and a rest, told by its parts.
pub proof fn lemma_joined(partial: Seq<u8>, i: u8, rest: Seq<u8>, other: Seq<u8>)
    ensures
        (partial + seq![i] + rest).is_prefix_of(other) <==> partial.is_prefix_of(other)
            && partial.len() < other.len() && other[partial.len() as int] == i
            && rest.is_prefix_of(other.skip(partial.len() as int + 1)),
        (partial + seq![i] + rest) == other <==> partial.is_prefix_of(other) && partial.len()
            < other.len() && other[partial.len() as int] == i && rest == other.skip(
            partial.len() as int + 1,
        ),
{
    let m = partial + seq![i] + rest;
    let p = partial.len() as int;
    lemma_prefix_take(m, other);
    lemma_prefix_take(partial, other);
    if p < other.len() {
        let tail = other.skip(p + 1);
        lemma_prefix_take(rest, tail);
        if m.is_prefix_of(other) {
            let head = other.take(m.len() as int);
            assert(other.take(p) =~= partial) by {
                assert forall|k: int| 0 <= k < p implies other.take(p)[k] == partial[k] by {
                    assert(head[k] == m[k]);
                }
            }
            assert(head[p] == m[p]);
            assert(tail.take(rest.len() as int) =~= rest) by {
                assert forall|k: int| 0 <= k < rest.len() implies tail.take(rest.len() as int)[k]
                    == rest[k] by {
                    assert(head[k + p + 1] == m[k + p + 1]);
                }
            }
        }
        if partial.is_prefix_of(other) && other[p] == i && rest.is_prefix_of(tail) {
            assert(other.take(m.len() as int) =~= m) by {
                assert forall|k: int| 0 <= k < m.len() implies other.take(m.len() as int)[k]
                    == m[k] by {
                    if k < p {
                        assert(other.take(p)[k] == partial[k]);
                    } else if k > p {
                        assert(tail.take(rest.len() as int)[k - p - 1] == rest[k - p - 1]);
                    }
                }
            }
        }
        if m == other {
            assert(m.is_prefix_of(other)) by {
                assert(other.take(m.len() as int) =~= m);
            }
            assert(tail =~= rest);
        }
        if partial.is_prefix_of(other) && other[p] == i && rest == tail {
            assert(m =~= other) by {
                assert(m.len() == other.len());
                assert forall|k: int| 0 <= k < m.len() implies m[k] == other[k] by {
                    if k < p {
                        assert(other.take(p)[k] == partial[k]);
                    } else if k > p {
                        assert(tail[k - p - 1] == other[k]);
                    }
                }
            }
        }
    } else {
        if m == other {
            assert(m.len() == other.len());
        }
    }
}

/// Looking up in a child that took the place of its branch is looking up in
/// the child behind the prefix of the branch and the nibble of its slot.
pub proof fn lemma_lookup_merged(partial: Seq<u8>, i: u8, only: Subtrie, other: Seq<u8>)
    ensures
        only.with_partial(partial + seq![i] + only.partial()).lookup(other) == (
        if partial.is_prefix_of(other) && partial.len() < other.len() && other[partial.len() as int]
            == i {
            only.lookup(other.skip(partial.len() as int + 1))
        } else {
            None
        }),
{
    let p = partial.len() as int;
    lemma_joined(partial, i, only.partial(), other);
    match only {
        Subtrie::Leaf { .. } => {},
        Subtrie::Branch { partial: bp, children: kids } => {
            let m = partial + seq![i] + bp;
            if m.is_prefix_of(other) && m.len() < other.len() {
                let tail = other.skip(p + 1);
                assert(tail[bp.len() as int] == other[m.len() as int]);
                assert(tail.skip(bp.len() as int + 1) =~= other.skip(m.len() as int + 1));
            }
            if partial.is_prefix_of(other) && p < other.len() && other[p] == i {
                let tail = other.skip(p + 1);
                if bp.is_prefix_of(tail) && bp.len() < tail.len() {
                    assert(tail[bp.len() as int] == other[m.len() as int]);
                    assert(tail.skip(bp.len() as int + 1) =~= other.skip(m.len() as int + 1));
                }
            }
        },
    }
}

/// Looking up `other` after `path` was taken out: nothing at `path` itself, and
/// what was there before at any other path.
pub proof fn lemma_lookup_remove(t: Option<Subtrie>, path: Seq<u8>, other: Seq<u8>)
    requires
        all_nibbles(path),
        all_nibbles(other),
        other.len() == path.len(),
        t is Some ==> t->0.height_ok(path.len()),
    ensures
        lookup(remove_from(t, path), other) == (if other == path {
            None
        } else {
            lookup(t, other)
        }),
    decreases path.len(),
{
    reveal_with_fuel(Subtrie::lookup, 2);
    match t {
        None => {},
        Some(Subtrie::Leaf { .. }) => {},
        Some(Subtrie::Branch { partial, children }) => {
            let p = partial.len() as int;
            lemma_prefix_take(partial, path);
            lemma_prefix_take(partial, other);
            if partial.is_prefix_of(path) && partial.len() < path.len() && path[p] < children.len() {
                let slot = path[p] as int;
                let sub = path.skip(p + 1);
                let rest = other.skip(p + 1);
                let child = remove_from(children[slot], sub);
                let after = children.update(slot, child);
                assert(other[p] < 16);
                if children[slot] is Some {
                    assert(children[slot]->0.height_ok((path.len() - p - 1) as nat));
                }
                lemma_nibbles_parts(path, p + 1);
                lemma_nibbles_parts(other, p + 1);
                lemma_lookup_remove(children[slot], sub, rest);
                if partial.is_prefix_of(other) && other[p] == path[p] && rest == sub {
                    lemma_same_parts(other, path, p);
                }
                lemma_first_occupied(after);
                if child is Some || occupied(after) >= 2 {
                } else if occupied(after) == 0 {
                    if partial.is_prefix_of(other) && other[p] != slot {
                        assert(after[other[p] as int] is None);
                    }
                } else {
                    let i = first_occupied(after);
                    let only = after[i]->0;
                    assert(i != slot);
                    lemma_lookup_merged(partial, i as u8, only, other);
                    if partial.is_prefix_of(other) && other[p] != slot && other[p] != i {
                        lemma_occupied_one(after, other[p] as int);
                    }
                }
            }
        },
    }
}

/// The second slot that is taken, or the number of slots where fewer than two
/// are.
pub open spec fn second_occupied<T>(slots: Seq<Option<T>>) -> int {
    first_occupied(slots.update(first_occupied(slots), None))
}

/// Where two slots are taken, the first and the second taken slot are two
/// different slots that are taken.
pub proof fn lemma_second_occupied<T>(slots: Seq<Option<T>>)
    requires
        occupied(slots) >= 2,
    ensures
        0 <= first_occupied(slots) < slots.len(),
        0 <= second_occupied(slots) < slots.len(),
        first_occupied(slots) != second_occupied(slots),
        slots[first_occupied(slots)] is Some,
        slots[second_occupied(slots)] is Some,
{
    lemma_first_occupied(slots);
    let i = first_occupied(slots);
    let without = slots.update(i, None);
    lemma_occupied_update(slots, i, None);
    lemma_first_occupied(without);
}

/// The path through a branch that goes down to its child in slot `i` and then
/// along a path that this child has.
pub open spec fn path_through(t: Subtrie, i: int) -> Seq<u8> {
    t.partial() + seq![i as u8] + some_path(t->Branch_children[i]->0)
}

/// A branch has the path that goes through any of its children.
pub proof fn lemma_path_through(t: Subtrie, i: int, height: nat)
    requires
        t is Branch,
        t.minimal(),
        t.height_ok(height),
        0 <= i < 16,
        t->Branch_children[i] is Some,
    ensures
        path_through(t, i).len() == height,
        all_nibbles(path_through(t, i)),
        t.lookup(path_through(t, i)) is Some,
        t.partial().is_prefix_of(path_through(t, i)),
        path_through(t, i)[t.partial().len() as int] == i,
{
    let partial = t.partial();
    let p = partial.len() as int;
    let child = t->Branch_children[i]->0;
    lemma_some_path(child, (height - p - 1) as nat);
    let q = path_through(t, i);
    let sub = some_path(child);
    assert(q.subrange(0, p) =~= partial);
    assert(q[p] == i as u8);
    assert(q.skip(p + 1) =~= sub);
    assert forall|k: int| 0 <= k < q.len() implies (#[trigger] q[k]) < 16 by {
        if k < p {
            assert(partial[k] < 16);
        } else if k > p {
            assert(sub[k - p - 1] < 16);
        }
    }
}

/// Whether two tries give the same value at every path of `height` nibbles.
pub open spec fn same_lookups(a: Option<Subtrie>, b: Option<Subtrie>, height: nat) -> bool {
    forall|q: Seq<u8>|
        q.len() == height && all_nibbles(q) ==> #[trigger] lookup(a, q) == lookup(b, q)
}

/// The prefix of a branch is no longer than that of another branch that has
/// the same keys.
proof fn lemma_prefix_not_longer(a: Subtrie, b: Subtrie, height: nat)
    requires
        a is Branch,
        b is Branch,
        a.minimal(),
        b.minimal(),
        a.height_ok(height),
        b.height_ok(height),
        same_lookups(Some(a), Some(b), height),
    ensures
        b.partial().len() <= a.partial().len(),
{
    let ca = a->Branch_children;
    let pa = a.partial();
    let pb = b.partial();
    lemma_second_occupied(ca);
    let i1 = first_occupied(ca);
    let i2 = second_occupied(ca);
    lemma_path_through(a, i1, height);
    lemma_path_through(a, i2, height);
    let q1 = path_through(a, i1);
    let q2 = path_through(a, i2);
    assert(lookup(Some(a), q1) == lookup(Some(b), q1));
    assert(lookup(Some(a), q2) == lookup(Some(b), q2));
    lemma_prefix_take(pb, q1);
    lemma_prefix_take(pb, q2);
    lemma_prefix_take(pa, q1);
    lemma_prefix_take(pa, q2);
    if pb.len() > pa.len() {
        let k = pa.len() as int;
        assert(q1.take(pb.len() as int)[k] == pb[k]);
        assert(q2.take(pb.len() as int)[k] == pb[k]);
    }
}

/// Tries without a branch of fewer than two children that give the same value
/// at every path are the same trie.
pub proof fn lemma_same_lookups_same_trie(a: Option<Subtrie>, b: Option<Subtrie>, height: nat)
    requires
        a is Some ==> a->0.minimal() && a->0.height_ok(height),
        b is Some ==> b->0.minimal() && b->0.height_ok(height),
        same_lookups(a, b, height),
    ensures
        a == b,
    decreases height,
{
    if a is None && b is None {
    } else if a is None {
        lemma_some_path(b->0, height);
        assert(lookup(a, some_path(b->0)) == lookup(b, some_path(b->0)));
    } else if b is None {
        lemma_some_path(a->0, height);
        assert(lookup(a, some_path(a->0)) == lookup(b, some_path(a->0)));
    } else {
        let x = a->0;
        let y = b->0;
        match (x, y) {
            (Subtrie::Leaf { partial: pa, value: va }, Subtrie::Leaf { partial: pb, value: vb }) => {
                assert(lookup(a, pa) == lookup(b, pa));
            },
            (Subtrie::Leaf { partial: pa, .. }, Subtrie::Branch { partial: pb, children: cb }) => {
                lemma_second_occupied(cb);
                let i1 = first_occupied(cb);
                let i2 = second_occupied(cb);
                lemma_path_through(y, i1, height);
                lemma_path_through(y, i2, height);
                assert(lookup(a, path_through(y, i1)) == lookup(b, path_through(y, i1)));
                assert(lookup(a, path_through(y, i2)) == lookup(b, path_through(y, i2)));
            },
            (Subtrie::Branch { partial: pa, children: ca }, Subtrie::Leaf { partial: pb, .. }) => {
                lemma_second_occupied(ca);
                let i1 = first_occupied(ca);
                let i2 = second_occupied(ca);
                lemma_path_through(x, i1, height);
                lemma_path_through(x, i2, height);
                assert(lookup(a, path_through(x, i1)) == lookup(b, path_through(x, i1)));
                assert(lookup(a, path_through(x, i2)) == lookup(b, path_through(x, i2)));
            },
            (
                Subtrie::Branch { partial: pa, children: ca },
                Subtrie::Branch { partial: pb, children: cb },
            ) => {
                assert(same_lookups(b, a, height)) by {
                    assert forall|q: Seq<u8>| q.len() == height && all_nibbles(q) implies #[trigger] lookup(
                        b,
                        q,
                    ) == lookup(a, q) by {
                        assert(lookup(a, q) == lookup(b, q));
                    }
                }
                lemma_prefix_not_longer(x, y, height);
                lemma_prefix_not_longer(y, x, height);
                let p = pa.len() as int;
                lemma_second_occupied(ca);
                let i1 = first_occupied(ca);
                lemma_path_through(x, i1, height);
                let q1 = path_through(x, i1);
                assert(lookup(a, q1) == lookup(b, q1));
                lemma_prefix_take(pa, q1);
                lemma_prefix_take(pb, q1);
                assert(pa == pb);
                let below = (height - p - 1) as nat;
                assert forall|i: int| 0 <= i < 16 implies ca[i] == cb[i] by {
                    assert(same_lookups(ca[i], cb[i], below)) by {
                        assert forall|r: Seq<u8>| r.len() == below && all_nibbles(r) implies #[trigger] lookup(
                            ca[i],
                            r,
                        ) == lookup(cb[i], r) by {
                            let q = pa + seq![i as u8] + r;
                            assert(q.subrange(0, p) =~= pa);
                            assert(q[p] == i as u8);
                            assert(q.skip(p + 1) =~= r);
                            assert(all_nibbles(q)) by {
                                assert forall|k: int| 0 <= k < q.len() implies (#[trigger] q[k])
                                    < 16 by {
                                    if k < p {
                                        assert(pa[k] < 16);
                                    } else if k > p {
                                        assert(r[k - p - 1] < 16);
                                    }
                                }
                            }
                            assert(lookup(a, q) == lookup(b, q));
                        }
                    }
                    if ca[i] is Some {
                        assert(ca[i]->0.minimal() && ca[i]->0.height_ok(below));
                    }
                    if cb[i] is Some {
                        assert(cb[i]->0.minimal() && cb[i]->0.height_ok(below));
                    }
                    lemma_same_lookups_same_trie(ca[i], cb[i], below);
                }
                assert(ca =~= cb);
            },
        }
    }
}

/// The trie that comes of writing `entries`, each a path and a value, one after
/// the other into an empty trie.
pub open spec fn insert_all(entries: Seq<(Seq<u8>, Seq<u8>)>) -> Option<Subtrie>
    decreases entries.len(),
{
    if entries.len() == 0 {
        None
    } else {
        Some(insert_into(insert_all(entries.drop_last()), entries.last().0, entries.last().1))
    }
}

/// The trie that comes of taking `paths` one after the other out of `t`.
pub open spec fn remove_all(t: Option<Subtrie>, paths: Seq<Seq<u8>>) -> Option<Subtrie>
    decreases paths.len(),
{
    if paths.len() == 0 {
        t
    } else {
        remove_from(remove_all(t, paths.drop_last()), paths.last())
    }
}

/// The value of the last of `entries` that has the path `q`.
pub open spec fn last_value(entries: Seq<(Seq<u8>, Seq<u8>)>, q: Seq<u8>) -> Option<Seq<u8>>
    decreases entries.len(),
{
    if entries.len() == 0 {
        None
    } else if entries.last().0 == q {
        Some(entries.last().1)
    } else {
        last_value(entries.drop_last(), q)
    }
}

/// Whether every path of `entries` has `height` nibbles.
pub open spec fn entries_ok(entries: Seq<(Seq<u8>, Seq<u8>)>, height: nat) -> bool {
    forall|i: int|
        0 <= i < entries.len() ==> (#[trigger] entries[i]).0.len() == height && all_nibbles(
            entries[i].0,
        )
}

/// Whether every one of `paths` has `height` nibbles.
pub open spec fn paths_ok(paths: Seq<Seq<u8>>, height: nat) -> bool {
    forall|i: int|
        0 <= i < paths.len() ==> (#[trigger] paths[i]).len() == height && all_nibbles(paths[i])
}

/// Whether no two of `entries` have the same path.
pub open spec fn unique_paths(entries: Seq<(Seq<u8>, Seq<u8>)>) -> bool {
    forall|i: int, j: int|
        0 <= i < j < entries.len() ==> (#[trigger] entries[i]).0 != (#[trigger] entries[j]).0
}

/// A sequence holds what it held before its last element, and that element.
pub proof fn lemma_contains_last<T>(s: Seq<T>, x: T)
    requires
        s.len() > 0,
    ensures
        s.contains(x) <==> s.drop_last().contains(x) || s.last() == x,
{
    if s.contains(x) {
        let i = choose|i: int| 0 <= i < s.len() && s[i] == x;
        if i < s.len() - 1 {
            assert(s.drop_last()[i] == x);
        }
    }
    if s.drop_last().contains(x) {
        let i = choose|i: int| 0 <= i < s.drop_last().len() && s.drop_last()[i] == x;
        assert(s[i] == x);
    }
    if s.last() == x {
        assert(s[s.len() - 1] == x);
    }
}

/// The trie of a list of entries has no branch of fewer than two children, has
/// all its paths at their length, and gives at each path the value of the last
/// entry with that path.
pub proof fn lemma_insert_all(entries: Seq<(Seq<u8>, Seq<u8>)>, height: nat)
    requires
        entries_ok(entries, height),
    ensures
        insert_all(entries) is Some ==> insert_all(entries)->0.minimal() && insert_all(
            entries,
        )->0.height_ok(height),
        forall|q: Seq<u8>|
            q.len() == height && all_nibbles(q) ==> #[trigger] lookup(insert_all(entries), q)
                == last_value(entries, q),
    decreases entries.len(),
{
    if entries.len() > 0 {
        let head = entries.drop_last();
        let last = entries.last();
        assert(last == entries[entries.len() - 1]);
        assert(entries_ok(head, height)) by {
            assert forall|i: int| 0 <= i < head.len() implies (#[trigger] head[i]).0.len()
                == height && all_nibbles(head[i].0) by {
                assert(head[i] == entries[i]);
            }
        }
        lemma_insert_all(head, height);
        let before = insert_all(head);
        lemma_insert_minimal(before, last.0, last.1);
        lemma_insert_height(before, last.0, last.1);
        assert forall|q: Seq<u8>| q.len() == height && all_nibbles(q) implies #[trigger] lookup(
            insert_all(entries),
            q,
        ) == last_value(entries, q) by {
            lemma_lookup_insert(before, last.0, last.1, q);
            assert(lookup(before, q) == last_value(head, q));
        }
    }
}

/// What is left of a trie after paths were taken out of it has no branch of
/// fewer than two children, has all its paths at their length, and gives
/// nothing at the paths taken out and what the trie gave at any other.
pub proof fn lemma_remove_all(t: Option<Subtrie>, paths: Seq<Seq<u8>>, height: nat)
    requires
        t is Some ==> t->0.minimal() && t->0.height_ok(height),
        paths_ok(paths, height),
    ensures
        remove_all(t, paths) is Some ==> remove_all(t, paths)->0.minimal() && remove_all(
            t,
            paths,
        )->0.height_ok(height),
        forall|q: Seq<u8>|
            q.len() == height && all_nibbles(q) ==> #[trigger] lookup(remove_all(t, paths), q) == (
            if paths.contains(q) {
                None
            } else {
                lookup(t, q)
            }),
    decreases paths.len(),
{
    if paths.len() > 0 {
        let head = paths.drop_last();
        let last = paths.last();
        assert(last == paths[paths.len() - 1]);
        assert(paths_ok(head, height)) by {
            assert forall|i: int| 0 <= i < head.len() implies (#[trigger] head[i]).len()
                == height && all_nibbles(head[i]) by {
                assert(head[i] == paths[i]);
            }
        }
        lemma_remove_all(t, head, height);
        let before = remove_all(t, head);
        lemma_remove_minimal(before, last);
        lemma_remove_height(before, last);
        assert forall|q: Seq<u8>| q.len() == height && all_nibbles(q) implies #[trigger] lookup(
            remove_all(t, paths),
            q,
        ) == (if paths.contains(q) {
            None
        } else {
            lookup(t, q)
        }) by {
            lemma_lookup_remove(before, last, q);
            lemma_contains_last(paths, q);
            assert(lookup(before, q) == (if head.contains(q) {
                None
            } else {
                lookup(t, q)
            }));
        }
    } else {
        assert forall|q: Seq<u8>| !paths.contains(q) by {}
    }
}

/// Among entries with unique paths, the last value at a path is the value of
/// the entry with that path, if there is one.
pub proof fn lemma_last_value(entries: Seq<(Seq<u8>, Seq<u8>)>, q: Seq<u8>)
    requires
        unique_paths(entries),
    ensures
        forall|v: Seq<u8>| last_value(entries, q) == Some(v) <==> entries.contains((q, v)),
        last_value(entries, q) is None <==> forall|i: int|
            0 <= i < entries.len() ==> (#[trigger] entries[i]).0 != q,
    decreases entries.len(),
{
    if entries.len() > 0 {
        let head = entries.drop_last();
        let last = entries.last();
        let n = entries.len() - 1;
        assert(last == entries[n]);
        assert(unique_paths(head)) by {
            assert forall|i: int, j: int| 0 <= i < j < head.len() implies (#[trigger] head[i]).0
                != (#[trigger] head[j]).0 by {
                assert(head[i] == entries[i]);
                assert(head[j] == entries[j]);
            }
        }
        lemma_last_value(head, q);
        assert forall|v: Seq<u8>| last_value(entries, q) == Some(v) <==> entries.contains(
            (q, v),
        ) by {
            lemma_contains_last(entries, (q, v));
            if last.0 == q {
                if head.contains((q, v)) {
                    let i = choose|i: int| 0 <= i < head.len() && head[i] == (q, v);
                    assert(entries[i].0 == q);
                }
            }
        }
        if last.0 != q {
            if forall|i: int| 0 <= i < head.len() ==> (#[trigger] head[i]).0 != q {
                assert forall|i: int| 0 <= i < entries.len() implies (#[trigger] entries[i]).0
                    != q by {
                    if i < n {
                        assert(head[i] == entries[i]);
                    }
                }
            }
            if forall|i: int| 0 <= i < entries.len() ==> (#[trigger] entries[i]).0 != q {
                assert forall|i: int| 0 <= i < head.len() implies (#[trigger] head[i]).0 != q by {
                    assert(head[i] == entries[i]);
                }
            }
        }
    } else {
        assert forall|v: Seq<u8>| !entries.contains((q, v)) by {}
    }
}

/// Order independence: two lists of the same entries, no path twice in either,
/// give the same trie, and so the same root, in whatever order each has them.
pub proof fn law_order_independence(
    a: Seq<(Seq<u8>, Seq<u8>)>,
    b: Seq<(Seq<u8>, Seq<u8>)>,
    height: nat,
)
    requires
        entries_ok(a, height),
        entries_ok(b, height),
        unique_paths(a),
        unique_paths(b),
        forall|e: (Seq<u8>, Seq<u8>)| a.contains(e) <==> b.contains(e),
    ensures
        insert_all(a) == insert_all(b),
{
    lemma_insert_all(a, height);
    lemma_insert_all(b, height);
    assert(same_lookups(insert_all(a), insert_all(b), height)) by {
        assert forall|q: Seq<u8>| q.len() == height && all_nibbles(q) implies #[trigger] lookup(
            insert_all(a),
            q,
        ) == lookup(insert_all(b), q) by {
            lemma_last_value(a, q);
            lemma_last_value(b, q);
            assert(lookup(insert_all(b), q) == last_value(b, q));
            match last_value(a, q) {
                Some(v) => {
                    assert(a.contains((q, v)));
                    assert(b.contains((q, v)));
                },
                None => {
                    match last_value(b, q) {
                        Some(w) => {
                            assert(b.contains((q, w)));
                            assert(a.contains((q, w)));
                        },
                        None => {},
                    }
                },
            }
        }
    }
    lemma_same_lookups_same_trie(insert_all(a), insert_all(b), height);
}

/// Same contents, same trie: two tries that insertion and removal built and
/// that give the same value at every path are the same trie, and so have the
/// same root.
pub proof fn law_same_contents_same_root(a: Option<Subtrie>, b: Option<Subtrie>)
    requires
        a is Some ==> a->0.minimal() && a->0.height_ok(64),
        b is Some ==> b->0.minimal() && b->0.height_ok(64),
        same_lookups(a, b, 64),
    ensures
        a == b,
        a is Some ==> a->0.digest() == b->0.digest(),
{
    lemma_same_lookups_same_trie(a, b, 64);
}

/// Empty round trip: when every path that was written has been taken out
/// again, in whatever order, nothing is left.
pub proof fn law_empty_round_trip(
    entries: Seq<(Seq<u8>, Seq<u8>)>,
    paths: Seq<Seq<u8>>,
    height: nat,
)
    requires
        entries_ok(entries, height),
        paths_ok(paths, height),
        forall|i: int| 0 <= i < entries.len() ==> paths.contains((#[trigger] entries[i]).0),
    ensures
        remove_all(insert_all(entries), paths) is None,
{
    let full = insert_all(entries);
    let left = remove_all(full, paths);
    lemma_insert_all(entries, height);
    lemma_remove_all(full, paths, height);
    if left is Some {
        lemma_some_path(left->0, height);
        let q = some_path(left->0);
        assert(lookup(left, q) == (if paths.contains(q) {
            None
        } else {
            lookup(full, q)
        }));
        assert(lookup(full, q) == last_value(entries, q));
        lemma_last_value_absent(entries, q);
        if !paths.contains(q) {
            assert forall|i: int| 0 <= i < entries.len() implies (#[trigger] entries[i]).0
                != q by {
                assert(paths.contains(entries[i].0));
            }
        }
    }
}

/// No entry with the path, no value at it.
pub proof fn lemma_last_value_absent(entries: Seq<(Seq<u8>, Seq<u8>)>, q: Seq<u8>)
    ensures
        (forall|i: int| 0 <= i < entries.len() ==> (#[trigger] entries[i]).0 != q)
            ==> last_value(entries, q) is None,
    decreases entries.len(),
{
    if entries.len() > 0 {
        let head = entries.drop_last();
        lemma_last_value_absent(head, q);
        if forall|i: int| 0 <= i < entries.len() ==> (#[trigger] entries[i]).0 != q {
            assert(entries[entries.len() - 1].0 != q);
            assert forall|i: int| 0 <= i < head.len() implies (#[trigger] head[i]).0 != q by {
                assert(head[i] == entries[i]);
            }
        }
    }
}

/// Get after insert: a trie gives at a path the value that was last written
/// there.
pub proof fn law_get_after_insert(t: Option<Subtrie>, path: Seq<u8>, value: Seq<u8>)
    requires
        all_nibbles(path),
        t is Some ==> t->0.height_ok(path.len()),
    ensures
        lookup(Some(insert_into(t, path, value)), path) == Some(value),
{
    lemma_lookup_insert(t, path, value, path);
}

/// Insert returns the old value: what a trie gives at a path before a write,
/// which is what the write hands back, is the value of the write before it at
/// that path, and nothing in an empty trie.
pub proof fn law_insert_returns_old(
    t: Option<Subtrie>,
    path: Seq<u8>,
    first: Seq<u8>,
    second: Seq<u8>,
)
    requires
        all_nibbles(path),
        t is Some ==> t->0.height_ok(path.len()),
    ensures
        lookup(None, path) is None,
        lookup(Some(insert_into(t, path, first)), path) == Some(first),
        lookup(Some(insert_into(Some(insert_into(t, path, first)), path, second)), path) == Some(
            second,
        ),
{
    lemma_lookup_insert(t, path, first, path);
    lemma_insert_height(t, path, first);
    lemma_lookup_insert(Some(insert_into(t, path, first)), path, second, path);
}

/// Remove after insert: a path that was written and taken out again is gone
/// and every other path is as it was; where the path was new, the trie is again
/// what it was before the write, and empty where it was empty.
pub proof fn law_remove_after_insert(
    t: Option<Subtrie>,
    path: Seq<u8>,
    value: Seq<u8>,
    other: Seq<u8>,
)
    requires
        all_nibbles(path),
        all_nibbles(other),
        other.len() == path.len(),
        t is Some ==> t->0.height_ok(path.len()) && t->0.minimal(),
    ensures
        lookup(remove_from(Some(insert_into(t, path, value)), path), path) is None,
        other != path ==> lookup(remove_from(Some(insert_into(t, path, value)), path), other)
            == lookup(t, other),
        lookup(t, path) is None ==> remove_from(Some(insert_into(t, path, value)), path) == t,
        t is None ==> remove_from(Some(insert_into(t, path, value)), path) is None,
{
    let written = Some(insert_into(t, path, value));
    let left = remove_from(written, path);
    lemma_insert_height(t, path, value);
    lemma_insert_minimal(t, path, value);
    lemma_remove_height(written, path);
    lemma_remove_minimal(written, path);
    lemma_lookup_remove(written, path, path);
    lemma_lookup_remove(written, path, other);
    lemma_lookup_insert(t, path, value, other);
    if lookup(t, path) is None {
        assert(same_lookups(left, t, path.len())) by {
            assert forall|q: Seq<u8>| q.len() == path.len() && all_nibbles(q) implies #[trigger] lookup(
                left,
                q,
            ) == lookup(t, q) by {
                lemma_lookup_remove(written, path, q);
                lemma_lookup_insert(t, path, value, q);
            }
        }
        lemma_same_lookups_same_trie(left, t, path.len());
    }
}

/// Remove returns the old value: what a trie gives at a path before a removal,
/// which is what the removal hands back, is the value written there, and
/// nothing once the path was taken out.
pub proof fn law_remove_returns_old(t: Option<Subtrie>, path: Seq<u8>, value: Seq<u8>)
    requires
        all_nibbles(path),
        t is Some ==> t->0.height_ok(path.len()),
    ensures
        lookup(Some(insert_into(t, path, value)), path) == Some(value),
        lookup(remove_from(Some(insert_into(t, path, value)), path), path) is None,
{
    lemma_lookup_insert(t, path, value, path);
    lemma_insert_height(t, path, value);
    lemma_lookup_remove(Some(insert_into(t, path, value)), path, path);
}

/// No-op remove: taking out a path that a trie does not have leaves the trie,
/// and so its root, as it was.
pub proof fn law_remove_absent(t: Option<Subtrie>, path: Seq<u8>)
    requires
        t is Some ==> t->0.minimal(),
        lookup(t, path) is None,
    ensures
        remove_from(t, path) == t,
{
    lemma_remove_absent(t, path);
}

/// Construct from existing: the root of a trie that is not empty is in the
/// store that holds the trie, so that a handle can be opened at it.
pub proof fn law_root_is_stored(store: Map<Seq<u8>, Seq<u8>>, root: Seq<u8>, t: Subtrie)
    requires
        represents(store, root, Some(t)),
    ensures
        store.contains_key(root),
        root != crate::hash::empty_root(),
{
}

/// Branch minimality: neither a write nor a removal leaves a branch with fewer
/// than two children, so that no trie built by them from the empty trie has
/// one.
pub proof fn law_branch_minimality(t: Option<Subtrie>, path: Seq<u8>, value: Seq<u8>)
    requires
        all_nibbles(path),
        t is Some ==> t->0.height_ok(path.len()) && t->0.minimal(),
    ensures
        insert_into(t, path, value).minimal(),
        remove_from(t, path) is Some ==> remove_from(t, path)->0.minimal(),
{
    lemma_insert_minimal(t, path, value);
    lemma_remove_minimal(t, path);
}

/// Insertion is the insertion into a map: a trie holds after a write what it
/// held before, with the value written at the path written.
pub proof fn law_insert_as_map(t: Option<Subtrie>, path: Seq<u8>, value: Seq<u8>)
    requires
        is_path(path),
        t is Some ==> t->0.height_ok(64),
    ensures
        contents(Some(insert_into(t, path, value))) == contents(t).insert(path, value),
{
    let after = Some(insert_into(t, path, value));
    assert forall|q: Seq<u8>| is_path(q) implies lookup(after, q) == (if q == path {
        Some(value)
    } else {
        lookup(t, q)
    }) by {
        lemma_lookup_insert(t, path, value, q);
    }
    assert(contents(after) =~= contents(t).insert(path, value));
}

/// Removal is the removal from a map: a trie holds after a removal what it
/// held before, without the path taken out.
pub proof fn law_remove_as_map(t: Option<Subtrie>, path: Seq<u8>)
    requires
        is_path(path),
        t is Some ==> t->0.height_ok(64),
    ensures
        contents(remove_from(t, path)) == contents(t).remove(path),
{
    let after = remove_from(t, path);
    assert forall|q: Seq<u8>| is_path(q) implies lookup(after, q) == (if q == path {
        None
    } else {
        lookup(t, q)
    }) by {
        lemma_lookup_remove(t, path, q);
    }
    assert(contents(after) =~= contents(t).remove(path));
}

/// What a trie holds decides the trie: two tries without a branch of fewer
/// than two children that hold the same are the same trie, and so have the
/// same root.
pub proof fn law_contents_decide_trie(a: Option<Subtrie>, b: Option<Subtrie>)
    requires
        a is Some ==> a->0.minimal() && a->0.height_ok(64),
        b is Some ==> b->0.minimal() && b->0.height_ok(64),
        contents(a) == contents(b),
    ensures
        a == b,
{
    assert(same_lookups(a, b, 64)) by {
        assert forall|q: Seq<u8>| q.len() == 64 && all_nibbles(q) implies #[trigger] lookup(a, q)
            == lookup(b, q) by {
            assert(is_path(q));
            assert(contents(a).contains_key(q) <==> lookup(a, q) is Some);
            assert(contents(b).contains_key(q) <==> lookup(b, q) is Some);
            if lookup(a, q) is Some {
                assert(contents(a)[q] == lookup(a, q)->0);
                assert(contents(b)[q] == lookup(b, q)->0);
            }
        }
    }
    lemma_same_lookups_same_trie(a, b, 64);
}

/// Setting in a leaf is insertion: a leaf with the path and the value of a
/// write can always be set into a trie whose paths have the length of that
/// path, and gives the trie that the write gives.
pub proof fn law_graft_leaf_is_insert(t: Option<Subtrie>, path: Seq<u8>, value: Seq<u8>)
    requires
        all_nibbles(path),
        t is Some ==> t->0.height_ok(path.len()),
    ensures
        graft_fits(t, Subtrie::Leaf { partial: path, value }),
        graft(t, Subtrie::Leaf { partial: path, value }) == insert_into(t, path, value),
    decreases path.len(),
{
    let g = Subtrie::Leaf { partial: path, value };
    match t {
        None => {},
        Some(Subtrie::Leaf { partial, .. }) => {
            lemma_common_prefix(partial, path);
            let c = common_prefix_len(partial, path) as int;
            if partial != path {
                if c >= partial.len() {
                    assert(partial =~= path.subrange(0, partial.len() as int));
                }
                assert(g.with_partial(path.skip(c + 1)) == Subtrie::Leaf {
                    partial: path.skip(c + 1),
                    value,
                });
            }
        },
        Some(Subtrie::Branch { partial, children }) => {
            lemma_common_prefix(partial, path);
            let c = common_prefix_len(partial, path) as int;
            assert(c < path.len());
            assert(path[c] < 16);
            let sub = Subtrie::Leaf { partial: path.skip(c + 1), value };
            assert(g.with_partial(path.skip(c + 1)) == sub);
            if c >= partial.len() {
                let slot = path[c] as int;
                if children[slot] is Some {
                    assert(children[slot]->0.height_ok((path.len() - c - 1) as nat));
                }
                lemma_nibbles_parts(path, c + 1);
                law_graft_leaf_is_insert(children[slot], path.skip(c + 1), value);
            }
        },
    }
}

/// Whether a trie is one that insertion and removal build: every path has 64
/// nibbles and no branch has fewer than two children.
pub open spec fn well_built(t: Option<Subtrie>) -> bool {
    t is Some ==> t->0.minimal() && t->0.height_ok(64)
}

/// The trie that holds `m`, if there is one.
pub open spec fn trie_of(m: Map<Seq<u8>, Seq<u8>>) -> Option<Subtrie> {
    choose|t: Option<Subtrie>| well_built(t) && contents(t) == m
}

/// The root of the trie that holds `m`.
pub open spec fn root_of(m: Map<Seq<u8>, Seq<u8>>) -> Seq<u8> {
    match trie_of(m) {
        Some(s) => s.digest(),
        None => crate::hash::empty_root(),
    }
}

/// The root is a function of the contents: a trie that insertion and removal
/// built is the trie of what it holds, whatever the writes and removals were
/// that led to it.
pub proof fn law_root_of_contents(t: Option<Subtrie>)
    requires
        well_built(t),
    ensures
        trie_of(contents(t)) == t,
        t is Some ==> root_of(contents(t)) == t->0.digest(),
        t is None ==> root_of(contents(t)) == crate::hash::empty_root(),
{
    let other = trie_of(contents(t));
    assert(well_built(other) && contents(other) == contents(t));
    law_contents_decide_trie(other, t);
}

/// Tries that writes and removals build from the empty trie are well built.
pub proof fn law_well_built(t: Option<Subtrie>, path: Seq<u8>, value: Seq<u8>)
    requires
        well_built(t),
        is_path(path),
    ensures
        well_built(None),
        well_built(Some(insert_into(t, path, value))),
        well_built(remove_from(t, path)),
{
    lemma_insert_minimal(t, path, value);
    lemma_insert_height(t, path, value);
    lemma_remove_minimal(t, path);
    lemma_remove_height(t, path);
}

} // verus!
