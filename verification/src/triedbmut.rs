//! The mutable trie: insertion and removal by rewriting the nodes along one
//! path, bottom up, each under the digest of its written form.

use crate::cache::{cache_get, cache_insert, cache_limit, cache_new, cached, within_limit};
use crate::error::TrieError;
use crate::hash::{blake256, blake_null_rlp, digest_of, empty_root, H256};
use crate::hashdb::{grows, put, HashDB};
use crate::laws::{
    law_insert_as_map, law_remove_as_map, law_root_of_contents, law_well_built,
    lemma_graft_height, lemma_insert_height, lemma_remove_height, lemma_represents_unique,
    lemma_same_node_unique, lemma_stored_valid, root_of, trie_of, well_built,
};
use crate::nibbleslice::{common_prefix_len, lemma_common_prefix, NibbleSlice};
use crate::node::{
    children_view, decode_node, empty_children, encode_node, lemma_node_round_trip, Node,
    NodeView,
};
use crate::subtrie::{
    children_stored, clash_free, first_occupied, graft, graft_fits, holds, insert_into, key_path,
    leaf_at, lemma_children_stored_grows, lemma_first_occupied, lemma_occupied_update,
    lemma_put_grows, lemma_put_sealed, lemma_same_occupancy, lemma_stored_grows,
    lemma_with_partial_node, lookup, no_children, occupied, remove_from, represents,
    same_occupancy, sealed, Subtrie,
};
use crate::triedb::{bytes_of, complete, reads, TrieDB};
use crate::walk::{
    digest_view, found, insert_stops_at, lemma_found, no_slots, read_at, remove_change,
    remove_empties, remove_stops_at, set_change, start_of, Change,
};
use lru_cache::LruCache;
use std::collections::hash_map::RandomState;
use vstd::prelude::*;
use vstd::slice::slice_to_vec;

verus! {

/// The number of entries that the node cache of a mutable trie may hold.
pub const CACHE_CAPACITY: usize = 3000;

/// A handle on a trie for reading and changing it. It borrows the store and the
/// slot that holds the root for as long as it lives, and keeps a cache of the
/// written nodes that it has read or written.
pub struct TrieDBMut<'a, D: HashDB> {
    /// The store that holds the nodes.
    pub db: &'a mut D,
    /// The slot that holds the root; it is written once for each change that
    /// goes through.
    pub root: &'a mut H256,
    /// Written nodes by their digests, for the reads of insertion and removal.
    pub cache: LruCache<[u8; 32], Vec<u8>, RandomState>,
}

/// The slots of a written branch are the digests of the children of the
/// subtrie that it stands for.
pub open spec fn slots_of(slots: Seq<Option<H256>>, children: Seq<Option<Subtrie>>) -> bool {
    &&& slots.len() == children.len()
    &&& forall|i: int|
        0 <= i < slots.len() ==> (match (#[trigger] slots[i]) {
            Some(h) => children[i] is Some && children[i]->0.digest() == h@,
            None => children[i] is None,
        })
}

/// The slots read from the written form of a stored branch are the digests of
/// its children.
pub proof fn lemma_slots_of(slots: Seq<Option<H256>>, branch: Subtrie)
    requires
        branch is Branch,
        children_view(slots) == branch.node()->Branch_children,
    ensures
        slots_of(slots, branch->Branch_children),
{
    let kids = branch->Branch_children;
    assert(children_view(slots).len() == slots.len());
    assert(branch.node()->Branch_children.len() == kids.len());
    assert forall|i: int| 0 <= i < slots.len() implies (match (#[trigger] slots[i]) {
        Some(h) => kids[i] is Some && kids[i]->0.digest() == h@,
        None => kids[i] is None,
    }) by {
        assert(children_view(slots)[i] == branch.node()->Branch_children[i]);
    }
}

/// What an insertion below one node owes: the digest of the subtrie that
/// `insert_into` gives, the value that stood at the path before, and, where no
/// two byte strings of `universe` share a digest, a store that holds that
/// subtrie and a cache that still agrees with the store.
pub open spec fn inserted(
    store0: Map<Seq<u8>, Seq<u8>>,
    cache0: bool,
    old0: Option<Seq<u8>>,
    store1: Map<Seq<u8>, Seq<u8>>,
    cache1: bool,
    old1: Option<Seq<u8>>,
    r: Result<H256, TrieError>,
    t: Option<Subtrie>,
    path: Seq<u8>,
    value: Seq<u8>,
    universe: Set<Seq<u8>>,
) -> bool {
    let after = insert_into(t, path, value);
    &&& r is Ok
    &&& r->Ok_0@ == after.digest()
    &&& old1 == (match lookup(t, path) {
        Some(v) => Some(v),
        None => old0,
    })
    &&& sealed(store0, universe) && after.within(universe) ==> {
        &&& sealed(store1, universe)
        &&& after.stored(store1)
        &&& cache0 ==> cache1
    }
}

/// What a removal below one node owes: the digest of the subtrie that
/// `remove_from` gives, or none where nothing is left; the value that stood at
/// the path; a store that is untouched where nothing is left; and, where no two
/// byte strings of `universe` share a digest, a store that holds what is left
/// and a cache that still agrees with the store.
pub open spec fn removed(
    store0: Map<Seq<u8>, Seq<u8>>,
    cache0: bool,
    old0: Option<Seq<u8>>,
    store1: Map<Seq<u8>, Seq<u8>>,
    cache1: bool,
    old1: Option<Seq<u8>>,
    r: Result<Option<H256>, TrieError>,
    t: Option<Subtrie>,
    path: Seq<u8>,
    universe: Set<Seq<u8>>,
) -> bool {
    let after = remove_from(t, path);
    &&& r is Ok
    &&& match after {
        Some(s) => r->Ok_0 is Some && r->Ok_0->0@ == s.digest(),
        None => r->Ok_0 is None && store1 == store0 && (cache0 ==> cache1),
    }
    &&& old1 == (match lookup(t, path) {
        Some(v) => Some(v),
        None => old0,
    })
    &&& sealed(store0, universe) && (after is Some ==> after->0.within(universe)) ==> {
        &&& sealed(store1, universe)
        &&& after is Some ==> after->0.stored(store1)
        &&& cache0 ==> cache1
    }
}

/// What setting a subtrie into the trie below one node owes: the digest of the
/// subtrie that `graft` gives, the written form of the leaf that stood at the
/// path before, and, where no two byte strings of `universe` share a digest, a
/// store that holds the new subtrie and a cache that still agrees with the
/// store.
pub open spec fn grafted(
    store0: Map<Seq<u8>, Seq<u8>>,
    cache0: bool,
    old0: Option<Seq<u8>>,
    store1: Map<Seq<u8>, Seq<u8>>,
    cache1: bool,
    old1: Option<Seq<u8>>,
    r: Result<H256, TrieError>,
    t: Option<Subtrie>,
    g: Subtrie,
    universe: Set<Seq<u8>>,
) -> bool {
    let after = graft(t, g);
    &&& r is Ok
    &&& r->Ok_0@ == after.digest()
    &&& old1 == (match leaf_at(t, g.partial()) {
        Some(b) => Some(b),
        None => old0,
    })
    &&& sealed(store0, universe) && after.within(universe) ==> {
        &&& sealed(store1, universe)
        &&& after.stored(store1)
        &&& cache0 ==> cache1
    }
}

/// Whether the outcome `r` of a walk is the error that names the digest `stop`
/// at which the walk finds the store wanting, or a success where there is no
/// such digest.
pub open spec fn stopped<T>(r: Result<T, TrieError>, stop: Option<Seq<u8>>) -> bool {
    match stop {
        Some(h) => r is Err && r->Err_0 is IncompleteDatabase && r->Err_0->IncompleteDatabase_0@
            == h,
        None => r is Ok,
    }
}

/// Whether the outcome `r` of setting in a node, the store `store1` after it
/// and the old value `old1` after it are what `change` says.
pub open spec fn set_done(
    r: Result<H256, TrieError>,
    store1: Map<Seq<u8>, Seq<u8>>,
    old0: Option<Seq<u8>>,
    old1: Option<Seq<u8>>,
    change: Change,
) -> bool {
    &&& r is Ok
    &&& Some(r->Ok_0@) == change.root
    &&& store1 == change.store
    &&& old1 == (match change.found {
        Some(v) => Some(v),
        None => old0,
    })
}

/// Whether the outcome `r` of a removal, the store `store1` after it and the
/// old value `old1` after it are what `change` says.
pub open spec fn remove_done(
    r: Result<Option<H256>, TrieError>,
    store1: Map<Seq<u8>, Seq<u8>>,
    old0: Option<Seq<u8>>,
    old1: Option<Seq<u8>>,
    change: Change,
) -> bool {
    &&& r is Ok
    &&& digest_view(r->Ok_0) == change.root
    &&& store1 == change.store
    &&& old1 == (match change.found {
        Some(v) => Some(v),
        None => old0,
    })
}

/// Whether `store` holds, under `hash`, the written form of the leaf with the
/// prefix `partial` and the value `value`.
pub open spec fn leaf_read(
    store: Map<Seq<u8>, Seq<u8>>,
    hash: Seq<u8>,
    partial: Seq<u8>,
    value: Seq<u8>,
) -> bool {
    store.contains_key(hash) && decode_node(store[hash]) == Some(
        NodeView::Leaf { partial, value },
    )
}

/// Whether `store` holds, under `hash`, the written form of the branch with
/// the prefix `partial` and the children `slots`.
pub open spec fn branch_read(
    store: Map<Seq<u8>, Seq<u8>>,
    hash: Seq<u8>,
    partial: Seq<u8>,
    slots: Seq<Option<H256>>,
) -> bool {
    store.contains_key(hash) && decode_node(store[hash]) == Some(
        NodeView::Branch { partial, children: children_view(slots) },
    )
}

/// Counts the slots that are taken and finds the first of them.
fn count_occupied(slots: &[Option<H256>; 16]) -> (r: (usize, usize))
    ensures
        r.0 == occupied(slots@),
        r.1 == first_occupied(slots@),
{
    let mut count: usize = 0;
    let mut first: usize = 0;
    let mut i: usize = 0;
    while i < 16
        invariant
            i <= 16,
            count <= i,
            first <= i,
            count == occupied(slots@.take(i as int)),
            first == first_occupied(slots@.take(i as int)),
        decreases 16 - i,
    {
        proof {
            let next = slots@.take(i + 1);
            assert(next.drop_last() =~= slots@.take(i as int));
            assert(next.last() == slots@[i as int]);
        }
        if slots[i].is_some() {
            count += 1;
        } else if first == i {
            first = i + 1;
        }
        i += 1;
    }
    assert(slots@.take(16) =~= slots@);
    (count, first)
}

impl<'a, D: HashDB> View for TrieDBMut<'a, D> {
    type V = Map<Seq<u8>, Seq<u8>>;

    /// What the look-ups find: a value for each path that the trie has.
    open spec fn view(&self) -> Map<Seq<u8>, Seq<u8>> {
        found(self.db.contents(), self.root@)
    }
}

impl<'a, D: HashDB> TrieDBMut<'a, D> {
    /// What the store holds.
    pub open spec fn store(&self) -> Map<Seq<u8>, Seq<u8>> {
        self.db.contents()
    }

    /// The current root.
    pub open spec fn root_digest(&self) -> Seq<u8> {
        self.root@
    }

    /// Whether all that the cache holds is in the store, under the same digest.
    pub open spec fn cache_ok(&self) -> bool {
        forall|h: Seq<u8>| #[trigger]
            cached(self.cache).contains_key(h) ==> self.store().contains_key(h) && self.store()[h]
                == cached(self.cache)[h]
    }

    /// Whether the cache holds no more than `CACHE_CAPACITY` entries.
    pub open spec fn cache_bounded(&self) -> bool {
        within_limit(self.cache) && cache_limit(self.cache) == CACHE_CAPACITY
    }

    /// Whether the handle stands on the trie `t`: its root is the root of `t` in
    /// its store, and its cache agrees with the store.
    pub open spec fn is_trie(&self, t: Option<Subtrie>) -> bool {
        represents(self.store(), self.root_digest(), t) && self.cache_ok()
    }

    /// Whether the handle stands on a trie that insertion and removal build.
    pub open spec fn built(&self) -> bool {
        exists|t: Option<Subtrie>| self.is_trie(t) && well_built(t)
    }

    /// A handle on the empty trie in `db`: the root slot is set to the root of
    /// the empty trie.
    pub fn new(db: &'a mut D, root: &'a mut H256) -> (r: Self)
        ensures
            r.store() == old(db).contents(),
            r.root_digest() == empty_root(),
            r.is_trie(None),
            r.built(),
            r.cache_bounded(),
            r@ == Map::<Seq<u8>, Seq<u8>>::empty(),
            *final(db) == *final(r.db),
            *final(root) == *final(r.root),
    {
        *root = blake_null_rlp();
        let cache = cache_new(CACHE_CAPACITY);
        let r = TrieDBMut { db, root, cache };
        assert(r@ =~= Map::<Seq<u8>, Seq<u8>>::empty());
        assert(r.is_trie(None) && well_built(None));
        r
    }

    /// A handle on the trie in `db` that the root slot names. The root of the
    /// empty trie is taken as it is; any other must be in the store.
    pub fn from_existing(db: &'a mut D, root: &'a mut H256) -> (r: Result<Self, TrieError>)
        ensures
            r is Ok <==> old(root)@ == empty_root() || old(db).contents().contains_key(
                old(root)@,
            ),
            r is Ok ==> {
                &&& r->Ok_0.store() == old(db).contents()
                &&& r->Ok_0.root_digest() == old(root)@
                &&& r->Ok_0.cache_ok()
                &&& r->Ok_0.cache_bounded()
                &&& *final(db) == *final(r->Ok_0.db)
                &&& *final(root) == *final(r->Ok_0.root)
            },
            r is Err ==> {
                &&& r->Err_0 == TrieError::InvalidStateRoot(*old(root))
                &&& *final(db) == *old(db)
                &&& *final(root) == *old(root)
            },
    {
        if !(*root == blake_null_rlp()) && !db.contains(root) {
            return Err(TrieError::InvalidStateRoot(*root));
        }
        let cache = cache_new(CACHE_CAPACITY);
        Ok(TrieDBMut { db, root, cache })
    }

    /// The current root.
    pub fn root(&self) -> (r: &H256)
        ensures
            r@ == self.root_digest(),
    {
        &*self.root
    }

    /// Whether the trie holds nothing.
    pub fn is_empty(&self) -> (r: bool)
        ensures
            r == (self.root_digest() == empty_root()),
    {
        *self.root == blake_null_rlp()
    }

    /// The value that the trie holds for `key`, if any. The look-up goes to the
    /// store, not to the cache.
    ///
    /// A root that the store lacks is refused. Else the outcome is where the
    /// walk from the root ends in the store, whatever the store holds; it is
    /// what the view has at the path of the key; and where the handle stands on
    /// a trie, it is what that trie has there.
    pub fn get(&self, key: &[u8]) -> (r: Result<Option<Vec<u8>>, TrieError>)
        ensures
            self.root_digest() != empty_root() && !self.store().contains_key(self.root_digest())
                ==> r is Err && r->Err_0 is InvalidStateRoot && r->Err_0->InvalidStateRoot_0@
                == self.root_digest(),
            self.root_digest() == empty_root() || self.store().contains_key(self.root_digest())
                ==> reads(
                r,
                read_at(self.store(), start_of(self.root_digest()), key_path(key@)),
            ),
            r is Ok ==> bytes_of(r->Ok_0) == self@.get(key_path(key@)),
            forall|t: Option<Subtrie>| #[trigger]
                represents(self.store(), self.root_digest(), t) ==> r is Ok && bytes_of(r->Ok_0)
                    == lookup(t, key_path(key@)),
    {
        let t = match TrieDB::try_new(&*self.db, &*self.root) {
            Ok(t) => t,
            Err(e) => {
                return Err(e);
            },
        };
        t.get(key)
    }

    /// Whether the store holds every node of the trie.
    pub fn is_complete(&self) -> (r: bool)
        ensures
            r == (self.root_digest() == empty_root() || complete(
                self.store(),
                self.root_digest(),
                64,
            )),
            forall|t: Option<Subtrie>| #[trigger]
                represents(self.store(), self.root_digest(), t) ==> r,
    {
        match TrieDB::try_new(&*self.db, &*self.root) {
            Ok(t) => t.is_complete(),
            Err(_) => false,
        }
    }

    /// Sets the value of `key` to `value`, and returns the value that `key` had
    /// before, if any. Where the store lacks a node on the way the trie stays
    /// as it was.
    ///
    /// The contract says three things. Of a handle whose cache agrees with its
    /// store, whatever that store holds: on which stores the call fails and
    /// with which digest, and what it returns, writes and leaves as the root
    /// where it goes through. Of a handle that stands on a trie which insertion
    /// and removal built: the map that the trie holds afterwards, and the root,
    /// which that map decides. Of every trie that the handle stands on: the
    /// trie that it stands on afterwards.
    pub fn insert(&mut self, key: &[u8], value: &[u8]) -> (r: Result<Option<Vec<u8>>, TrieError>)
        ensures
            *final(final(self).db) == *final(old(self).db),
            *final(final(self).root) == *final(old(self).root),
            old(self).cache_bounded() ==> final(self).cache_bounded(),
            grows(old(self).store(), final(self).store()),
            r is Err ==> r->Err_0 is IncompleteDatabase && final(self).root_digest() == old(
                self,
            ).root_digest() && final(self).store() == old(self).store() && (old(self).cache_ok()
                ==> final(self).cache_ok()),
            r is Ok ==> final(self).store().contains_key(final(self).root_digest()),
            old(self).cache_ok() ==> stopped(
                r,
                insert_stops_at(
                    old(self).store(),
                    start_of(old(self).root_digest()),
                    key_path(key@),
                ),
            ),
            old(self).cache_ok() && insert_stops_at(
                old(self).store(),
                start_of(old(self).root_digest()),
                key_path(key@),
            ) is None ==> {
                let change = set_change(
                    old(self).store(),
                    start_of(old(self).root_digest()),
                    NodeView::Leaf { partial: key_path(key@), value: value@ },
                    false,
                );
                &&& r is Ok
                &&& bytes_of(r->Ok_0) == change.found
                &&& Some(final(self).root_digest()) == change.root
                &&& final(self).store() == change.store
            },
            old(self).built() ==> {
                let held = old(self)@.insert(key_path(key@), value@);
                &&& r is Ok
                &&& bytes_of(r->Ok_0) == old(self)@.get(key_path(key@))
                &&& final(self).root_digest() == root_of(held)
                &&& trie_of(held) is Some
                &&& clash_free(old(self).store(), trie_of(held)->0) ==> final(self).built()
                    && final(self)@ == held
            },
            forall|t: Option<Subtrie>| #[trigger]
                old(self).is_trie(t) ==> {
                    let after = insert_into(t, key_path(key@), value@);
                    &&& r is Ok
                    &&& bytes_of(r->Ok_0) == lookup(t, key_path(key@))
                    &&& final(self).root_digest() == after.digest()
                    &&& clash_free(old(self).store(), after) ==> final(self).is_trie(Some(after))
                        && final(self)@ == old(self)@.insert(key_path(key@), value@)
                },
    {
        let hashed = blake256(key);
        let path = NibbleSlice::new(hashed.as_bytes().as_slice());
        let mut old_val: Option<Vec<u8>> = None;
        let cur_hash = *self.root;
        let cur = if cur_hash == blake_null_rlp() {
            None
        } else {
            Some(cur_hash)
        };
        let ghost store0 = self.store();
        let ghost chosen = choose|t: Option<Subtrie>| old(self).is_trie(t);
        let ghost after = insert_into(chosen, path@, value@);
        let ghost universe = choose|universe: Set<Seq<u8>>|
            sealed(store0, universe) && after.within(universe);
        proof {
            path.lemma_nibbles();
        }
        match self.insert_aux(path, value, cur, &mut old_val, Ghost(chosen), Ghost(universe)) {
            Ok(h) => {
                *self.root = h;
                proof {
                    assert forall|t: Option<Subtrie>| #[trigger] old(self).is_trie(t) implies ({
                        let after = insert_into(t, key_path(key@), value@);
                        &&& bytes_of(old_val) == lookup(t, key_path(key@))
                        &&& self.root_digest() == after.digest()
                        &&& clash_free(old(self).store(), after) ==> self.is_trie(Some(after))
                            && self@ == old(self)@.insert(key_path(key@), value@)
                    }) by {
                        lemma_represents_unique(store0, old(self).root_digest(), t, chosen);
                        lemma_insert_height(t, path@, value@);
                        let after = insert_into(t, path@, value@);
                        if clash_free(store0, after) {
                            lemma_found(store0, old(self).root_digest(), t);
                            lemma_found(self.store(), self.root_digest(), Some(after));
                            law_insert_as_map(t, path@, value@);
                        }
                    }
                    if old(self).built() {
                        let t = choose|t: Option<Subtrie>| old(self).is_trie(t) && well_built(t);
                        let after = insert_into(t, path@, value@);
                        assert(old(self).is_trie(t));
                        lemma_found(store0, old(self).root_digest(), t);
                        law_insert_as_map(t, path@, value@);
                        law_well_built(t, path@, value@);
                        law_root_of_contents(Some(after));
                        if clash_free(store0, after) {
                            assert(self.is_trie(Some(after)) && well_built(Some(after)));
                        }
                    }
                }
                Ok(old_val)
            },
            Err(e) => {
                proof {
                    assert forall|t: Option<Subtrie>| #[trigger]
                        old(self).is_trie(t) implies false by {
                        lemma_represents_unique(store0, old(self).root_digest(), t, chosen);
                    }
                }
                Err(e)
            },
        }
    }

    /// Takes `key` out of the trie, and returns the value that it had, if any.
    /// Where the store lacks a node on the way the trie stays as it was.
    ///
    /// The contract says of removal what the contract of `insert` says of
    /// insertion: when it fails, what it returns and writes on any store, and
    /// the map, the root and the trie that it leaves.
    pub fn remove(&mut self, key: &[u8]) -> (r: Result<Option<Vec<u8>>, TrieError>)
        ensures
            *final(final(self).db) == *final(old(self).db),
            *final(final(self).root) == *final(old(self).root),
            old(self).cache_bounded() ==> final(self).cache_bounded(),
            grows(old(self).store(), final(self).store()),
            r is Err ==> r->Err_0 is IncompleteDatabase && final(self).root_digest() == old(
                self,
            ).root_digest() && final(self).store() == old(self).store() && (old(self).cache_ok()
                ==> final(self).cache_ok()),
            old(self).cache_ok() && r is Ok ==> final(self).root_digest() == empty_root()
                || final(self).store().contains_key(final(self).root_digest()),
            old(self).cache_ok() ==> stopped(
                r,
                remove_stops_at(
                    old(self).store(),
                    start_of(old(self).root_digest()),
                    key_path(key@),
                ),
            ) && (r is Ok ==> (final(self).root_digest() == empty_root() <== remove_empties(
                old(self).store(),
                start_of(old(self).root_digest()),
                key_path(key@),
            ))),
            old(self).cache_ok() && remove_stops_at(
                old(self).store(),
                start_of(old(self).root_digest()),
                key_path(key@),
            ) is None ==> {
                let change = remove_change(
                    old(self).store(),
                    start_of(old(self).root_digest()),
                    key_path(key@),
                );
                &&& r is Ok
                &&& bytes_of(r->Ok_0) == change.found
                &&& final(self).root_digest() == (match change.root {
                    Some(h) => h,
                    None => empty_root(),
                })
                &&& final(self).store() == change.store
            },
            old(self).built() ==> {
                let held = old(self)@.remove(key_path(key@));
                &&& r is Ok
                &&& bytes_of(r->Ok_0) == old(self)@.get(key_path(key@))
                &&& final(self).root_digest() == root_of(held)
                &&& (trie_of(held) is Some ==> clash_free(old(self).store(), trie_of(held)->0))
                    ==> final(self).built() && final(self)@ == held
            },
            forall|t: Option<Subtrie>| #[trigger]
                old(self).is_trie(t) ==> {
                    let after = remove_from(t, key_path(key@));
                    &&& r is Ok
                    &&& bytes_of(r->Ok_0) == lookup(t, key_path(key@))
                    &&& final(self).root_digest() == (match after {
                        Some(s) => s.digest(),
                        None => empty_root(),
                    })
                    &&& (after is Some ==> clash_free(old(self).store(), after->0))
                        ==> final(self).is_trie(after) && final(self)@ == old(self)@.remove(
                        key_path(key@),
                    )
                },
    {
        let hashed = blake256(key);
        let path = NibbleSlice::new(hashed.as_bytes().as_slice());
        let mut old_val: Option<Vec<u8>> = None;
        let cur_hash = *self.root;
        let cur = if cur_hash == blake_null_rlp() {
            None
        } else {
            Some(cur_hash)
        };
        let ghost store0 = self.store();
        let ghost chosen = choose|t: Option<Subtrie>| old(self).is_trie(t);
        let ghost after = remove_from(chosen, path@);
        let ghost universe = choose|universe: Set<Seq<u8>>|
            sealed(store0, universe) && (after is Some ==> after->0.within(universe));
        proof {
            path.lemma_nibbles();
        }
        match self.remove_aux(&path, cur, &mut old_val, Ghost(chosen), Ghost(universe)) {
            Ok(left) => {
                *self.root = match left {
                    Some(hash) => hash,
                    None => blake_null_rlp(),
                };
                proof {
                    assert forall|t: Option<Subtrie>| #[trigger] old(self).is_trie(t) implies ({
                        let after = remove_from(t, key_path(key@));
                        &&& bytes_of(old_val) == lookup(t, key_path(key@))
                        &&& self.root_digest() == (match after {
                            Some(s) => s.digest(),
                            None => empty_root(),
                        })
                        &&& (after is Some ==> clash_free(old(self).store(), after->0))
                            ==> self.is_trie(after) && self@ == old(self)@.remove(key_path(key@))
                    }) by {
                        lemma_represents_unique(store0, old(self).root_digest(), t, chosen);
                        lemma_remove_height(t, path@);
                        let after = remove_from(t, path@);
                        if after is Some ==> clash_free(store0, after->0) {
                            lemma_found(store0, old(self).root_digest(), t);
                            lemma_found(self.store(), self.root_digest(), after);
                            law_remove_as_map(t, path@);
                        }
                    }
                    if old(self).built() {
                        let t = choose|t: Option<Subtrie>| old(self).is_trie(t) && well_built(t);
                        let after = remove_from(t, path@);
                        assert(old(self).is_trie(t));
                        lemma_found(store0, old(self).root_digest(), t);
                        law_remove_as_map(t, path@);
                        law_well_built(t, path@, Seq::empty());
                        law_root_of_contents(after);
                        if after is Some ==> clash_free(store0, after->0) {
                            assert(self.is_trie(after) && well_built(after));
                        }
                    }
                }
                Ok(old_val)
            },
            Err(e) => {
                proof {
                    assert forall|t: Option<Subtrie>| #[trigger]
                        old(self).is_trie(t) implies false by {
                        lemma_represents_unique(store0, old(self).root_digest(), t, chosen);
                    }
                }
                Err(e)
            },
        }
    }

    /// Whether `node` is the topmost node of the subtrie `g`, which can be set
    /// into the trie `t` that the handle stands on: the store holds what lies
    /// below `g`, and the paths through `g` have 64 nibbles.
    pub open spec fn can_graft(&self, t: Option<Subtrie>, g: Subtrie, node: NodeView) -> bool {
        &&& self.is_trie(t)
        &&& g.node() == node
        &&& g.height_ok(64)
        &&& children_stored(g, self.store())
        &&& graft_fits(t, g)
    }

    /// Sets an already shaped node into the trie, at the path that is its
    /// prefix, and returns the written form of the leaf that stood at that
    /// path, if any. Where the store lacks a node on the way the trie stays as
    /// it was.
    ///
    /// The node is to be the topmost node of a subtrie whose paths, with the
    /// prefix of the node, have 64 nibbles; what lies below it is found under
    /// the digests that it holds. The contract says when the call fails, what
    /// it returns and writes on any store and for any node, and, of every trie
    /// that the handle stands on and every such subtrie, the trie that it
    /// leaves.
    pub fn insert_raw(&mut self, node: Node<'_>) -> (r: Result<Option<Vec<u8>>, TrieError>)
        ensures
            *final(final(self).db) == *final(old(self).db),
            *final(final(self).root) == *final(old(self).root),
            old(self).cache_bounded() ==> final(self).cache_bounded(),
            grows(old(self).store(), final(self).store()),
            r is Err ==> r->Err_0 is IncompleteDatabase && final(self).root_digest() == old(
                self,
            ).root_digest() && final(self).store() == old(self).store() && (old(self).cache_ok()
                ==> final(self).cache_ok()),
            r is Ok ==> final(self).store().contains_key(final(self).root_digest()),
            old(self).cache_ok() ==> stopped(
                r,
                insert_stops_at(
                    old(self).store(),
                    start_of(old(self).root_digest()),
                    node@.partial(),
                ),
            ),
            old(self).cache_ok() && insert_stops_at(
                old(self).store(),
                start_of(old(self).root_digest()),
                node@.partial(),
            ) is None ==> {
                let change = set_change(
                    old(self).store(),
                    start_of(old(self).root_digest()),
                    node@,
                    true,
                );
                &&& r is Ok
                &&& bytes_of(r->Ok_0) == change.found
                &&& Some(final(self).root_digest()) == change.root
                &&& final(self).store() == change.store
            },
            forall|t: Option<Subtrie>, g: Subtrie| #[trigger]
                old(self).can_graft(t, g, node@) ==> {
                    let after = graft(t, g);
                    &&& r is Ok
                    &&& bytes_of(r->Ok_0) == leaf_at(t, g.partial())
                    &&& final(self).root_digest() == after.digest()
                    &&& clash_free(old(self).store(), after) ==> final(self).is_trie(Some(after))
                },
    {
        let mut old_val: Option<Vec<u8>> = None;
        let cur_hash = *self.root;
        let cur = if cur_hash == blake_null_rlp() {
            None
        } else {
            Some(cur_hash)
        };
        let ghost store0 = self.store();
        let ghost chosen = choose|c: (Option<Subtrie>, Subtrie)|
            old(self).can_graft(c.0, c.1, node@);
        let ghost after = graft(chosen.0, chosen.1);
        let ghost universe = choose|universe: Set<Seq<u8>>|
            sealed(store0, universe) && after.within(universe);
        match self.insert_raw_aux(
            node,
            cur,
            &mut old_val,
            Ghost(chosen.0),
            Ghost(chosen.1),
            Ghost(64nat),
            Ghost(universe),
        ) {
            Ok(h) => {
                *self.root = h;
                proof {
                    assert forall|t: Option<Subtrie>, g: Subtrie| #[trigger]
                        old(self).can_graft(t, g, node@) implies ({
                        let after = graft(t, g);
                        &&& bytes_of(old_val) == leaf_at(t, g.partial())
                        &&& self.root_digest() == after.digest()
                        &&& clash_free(old(self).store(), after) ==> self.is_trie(Some(after))
                    }) by {
                        assert(old(self).can_graft(chosen.0, chosen.1, node@)) by {
                            let c = (t, g);
                            assert(old(self).can_graft(c.0, c.1, node@));
                        }
                        lemma_represents_unique(store0, old(self).root_digest(), t, chosen.0);
                        lemma_same_node_unique(g, chosen.1, store0, 64);
                        lemma_graft_height(t, g, 64);
                    }
                }
                Ok(old_val)
            },
            Err(e) => {
                proof {
                    assert forall|t: Option<Subtrie>, g: Subtrie| #[trigger]
                        old(self).can_graft(t, g, node@) implies false by {
                        assert(old(self).can_graft(chosen.0, chosen.1, node@)) by {
                            let c = (t, g);
                            assert(old(self).can_graft(c.0, c.1, node@));
                        }
                        lemma_represents_unique(store0, old(self).root_digest(), t, chosen.0);
                        lemma_same_node_unique(g, chosen.1, store0, 64);
                    }
                }
                Err(e)
            },
        }
    }

    /// Reads the written node under `hash`, from the cache if it is there, else
    /// from the store, whence it goes into the cache.
    fn read_cached(&mut self, hash: &H256) -> (r: Option<Vec<u8>>)
        ensures
            *final(final(self).db) == *final(old(self).db),
            *final(final(self).root) == *final(old(self).root),
            old(self).cache_bounded() ==> final(self).cache_bounded(),
            final(self).root_digest() == old(self).root_digest(),
            final(self).store() == old(self).store(),
            r is None ==> !old(self).store().contains_key(hash@),
            old(self).cache_ok() ==> final(self).cache_ok() && (r is Some ==> old(
                self,
            ).store().contains_key(hash@) && r->0@ == old(self).store()[hash@]),
    {
        match cache_get(&mut self.cache, hash) {
            Some(bytes) => Some(bytes),
            None => match self.db.get(hash) {
                Some(bytes) => {
                    cache_insert(&mut self.cache, hash, slice_to_vec(bytes.as_slice()));
                    Some(bytes)
                },
                None => None,
            },
        }
    }

    /// Puts a written node into the store and into the cache, and returns its
    /// digest.
    fn write_cached(&mut self, node_rlp: Vec<u8>, Ghost(universe): Ghost<Set<Seq<u8>>>) -> (h: H256)
        ensures
            *final(final(self).db) == *final(old(self).db),
            *final(final(self).root) == *final(old(self).root),
            old(self).cache_bounded() ==> final(self).cache_bounded(),
            final(self).root_digest() == old(self).root_digest(),
            h@ == digest_of(node_rlp@),
            node_rlp@.len() <= usize::MAX,
            final(self).store() == put(old(self).store(), node_rlp@),
            final(self).store().contains_key(h@),
            grows(old(self).store(), final(self).store()),
            sealed(old(self).store(), universe) && universe.contains(node_rlp@) ==> {
                &&& sealed(final(self).store(), universe)
                &&& final(self).store().contains_key(h@)
                &&& final(self).store()[h@] == node_rlp@
                &&& old(self).cache_ok() ==> final(self).cache_ok()
            },
    {
        let h = self.db.insert(node_rlp.as_slice());
        proof {
            assert(node_rlp@.len() == node_rlp.len());
            lemma_put_grows(old(self).store(), node_rlp@);
            if sealed(old(self).store(), universe) && universe.contains(node_rlp@) {
                lemma_put_sealed(old(self).store(), universe, node_rlp@);
            }
        }
        cache_insert(&mut self.cache, &h, node_rlp);
        h
    }

    /// Writes the leaf that ends `path` with `value`.
    fn put_leaf(
        &mut self,
        path: NibbleSlice<'_>,
        value: &[u8],
        Ghost(universe): Ghost<Set<Seq<u8>>>,
    ) -> (h: H256)
        ensures
            *final(final(self).db) == *final(old(self).db),
            *final(final(self).root) == *final(old(self).root),
            old(self).cache_bounded() ==> final(self).cache_bounded(),
            final(self).root_digest() == old(self).root_digest(),
            grows(old(self).store(), final(self).store()),
            final(self).store().contains_key(h@),
            final(self).store() == put(
                old(self).store(),
                encode_node(NodeView::Leaf { partial: path@, value: value@ }),
            ),
            h@ == digest_of(encode_node(NodeView::Leaf { partial: path@, value: value@ })),
            h@ == (Subtrie::Leaf { partial: path@, value: value@ }).digest(),
            sealed(old(self).store(), universe) && (Subtrie::Leaf {
                partial: path@,
                value: value@,
            }).within(universe) ==> {
                &&& sealed(final(self).store(), universe)
                &&& (Subtrie::Leaf { partial: path@, value: value@ }).stored(final(self).store())
                &&& old(self).cache_ok() ==> final(self).cache_ok()
            },
    {
        let node_rlp = Node::encoded(Node::Leaf(path, value));
        self.write_cached(node_rlp, Ghost(universe))
    }

    /// Writes the branch that has the first `keep` nibbles of `partial` for its
    /// prefix and `slots` for its children.
    fn put_branch(
        &mut self,
        partial: NibbleSlice<'_>,
        keep: usize,
        slots: [Option<H256>; 16],
        Ghost(branch): Ghost<Subtrie>,
        Ghost(universe): Ghost<Set<Seq<u8>>>,
    ) -> (h: H256)
        ensures
            *final(final(self).db) == *final(old(self).db),
            *final(final(self).root) == *final(old(self).root),
            old(self).cache_bounded() ==> final(self).cache_bounded(),
            final(self).root_digest() == old(self).root_digest(),
            grows(old(self).store(), final(self).store()),
            final(self).store().contains_key(h@),
            keep <= partial@.len() ==> {
                let bytes = encode_node(
                    NodeView::Branch {
                        partial: partial@.take(keep as int),
                        children: children_view(slots@),
                    },
                );
                final(self).store() == put(old(self).store(), bytes) && h@ == digest_of(bytes)
            },
            keep <= partial@.len() && branch is Branch && branch->Branch_partial == partial@.take(
                keep as int,
            ) && slots_of(slots@, branch->Branch_children) ==> {
                &&& h@ == branch.digest()
                &&& encode_node(branch.node()).len() <= usize::MAX
                &&& sealed(old(self).store(), universe) && universe.contains(
                    encode_node(branch.node()),
                ) ==> {
                    &&& sealed(final(self).store(), universe)
                    &&& final(self).store().contains_key(h@)
                    &&& final(self).store()[h@] == encode_node(branch.node())
                    &&& old(self).cache_ok() ==> final(self).cache_ok()
                }
            },
    {
        let node = Node::Branch(partial, slots);
        let node_rlp = Node::encoded_until(node, keep);
        proof {
            if keep <= partial@.len() && branch is Branch && branch->Branch_partial
                == partial@.take(keep as int) && slots_of(slots@, branch->Branch_children) {
                let written = node@.with_partial(node@.partial().take(keep as int));
                assert(written->Branch_children =~= branch.node()->Branch_children);
                assert(written == branch.node());
            }
        }
        self.write_cached(node_rlp, Ghost(universe))
    }

    /// Puts a branch in the place of a leaf whose path parts from `path` after
    /// `common` nibbles, with that leaf and a new one below it.
    fn split_leaf(
        &mut self,
        partial: NibbleSlice<'_>,
        value: &[u8],
        path: NibbleSlice<'_>,
        insert_value: &[u8],
        common: usize,
        old_val: &mut Option<Vec<u8>>,
        Ghost(hash): Ghost<Seq<u8>>,
        Ghost(universe): Ghost<Set<Seq<u8>>>,
    ) -> (r: Result<H256, TrieError>)
        requires
            common == common_prefix_len(partial@, path@),
            common < partial@.len(),
            common < path@.len(),
        ensures
            *final(final(self).db) == *final(old(self).db),
            *final(final(self).root) == *final(old(self).root),
            old(self).cache_bounded() ==> final(self).cache_bounded(),
            final(self).root_digest() == old(self).root_digest(),
            grows(old(self).store(), final(self).store()),
            r is Ok,
            final(self).store().contains_key(r->Ok_0@),
            leaf_read(old(self).store(), hash, partial@, value@) ==> set_done(
                r,
                final(self).store(),
                bytes_of(*old(old_val)),
                bytes_of(*final(old_val)),
                set_change(
                    old(self).store(),
                    Some(hash),
                    NodeView::Leaf { partial: path@, value: insert_value@ },
                    false,
                ),
            ),
            inserted(
                old(self).store(),
                old(self).cache_ok(),
                bytes_of(*old(old_val)),
                final(self).store(),
                final(self).cache_ok(),
                bytes_of(*final(old_val)),
                r,
                Some(Subtrie::Leaf { partial: partial@, value: value@ }),
                path@,
                insert_value@,
                universe,
            ),
        decreases 1nat, path@.len(), 0nat,
    {
        let ghost store0 = old(self).store();
        let ghost t = Subtrie::Leaf { partial: partial@, value: value@ };
        let ghost after = insert_into(Some(t), path@, insert_value@);
        let ghost tight = sealed(store0, universe) && after.within(universe);
        let mut new_child = empty_children();
        let new_partial = partial.mid(common);
        let new_path = path.mid(common);
        let slot_a: usize = new_partial.at(0) as usize;
        let slot_b: usize = new_path.at(0) as usize;
        let ghost leaf_a = Subtrie::Leaf { partial: partial@.skip(common + 1), value: value@ };
        let ghost leaf_b = Subtrie::Leaf {
            partial: path@.skip(common + 1),
            value: insert_value@,
        };
        let ghost kids = no_children().update(slot_a as int, Some(leaf_a)).update(
            slot_b as int,
            Some(leaf_b),
        );
        let ghost branch = Subtrie::Branch { partial: partial@.take(common as int), children: kids };
        proof {
            lemma_common_prefix(partial@, path@);
            assert(new_partial@.skip(1) =~= partial@.skip(common + 1));
            assert(new_path@.skip(1) =~= path@.skip(common + 1));
            assert(slot_a != slot_b);
            assert(after == branch);
            assert(kids[slot_a as int] == Some(leaf_a));
            assert(kids[slot_b as int] == Some(leaf_b));
            if tight {
                assert(leaf_a.within(universe));
                assert(leaf_b.within(universe));
            }
        }
        let a = match self.insert_aux(
            new_partial.mid(1),
            value,
            new_child[slot_a],
            old_val,
            Ghost(None),
            Ghost(universe),
        ) {
            Ok(a) => a,
            Err(e) => {
                return Err(e);
            },
        };
        new_child[slot_a] = Some(a);
        let ghost mid1 = self.store();
        let b = match self.insert_aux(
            new_path.mid(1),
            insert_value,
            new_child[slot_b],
            old_val,
            Ghost(None),
            Ghost(universe),
        ) {
            Ok(b) => b,
            Err(e) => {
                return Err(e);
            },
        };
        new_child[slot_b] = Some(b);
        let ghost mid2 = self.store();
        proof {
            assert(slots_of(new_child@, kids));
            assert(children_view(new_child@) =~= no_slots().update(
                slot_a as int,
                Some(a@),
            ).update(slot_b as int, Some(b@)));
        }
        let h = self.put_branch(partial, common, new_child, Ghost(branch), Ghost(universe));
        proof {
            if tight {
                lemma_stored_grows(leaf_a, mid1, self.store());
                lemma_stored_grows(leaf_b, mid2, self.store());
                assert forall|i: int| 0 <= i < 16 && (#[trigger] kids[i]) is Some implies kids[i]->0.stored(
                    self.store(),
                ) by {}
            }
        }
        Ok(h)
    }

    /// Puts a branch in the place of a branch whose prefix parts from `path`
    /// after `common` nibbles, with that branch and a new leaf below it.
    fn split_branch(
        &mut self,
        partial: NibbleSlice<'_>,
        children: [Option<H256>; 16],
        path: NibbleSlice<'_>,
        insert_value: &[u8],
        common: usize,
        old_val: &mut Option<Vec<u8>>,
        Ghost(hash): Ghost<Seq<u8>>,
        Ghost(t): Ghost<Subtrie>,
        Ghost(universe): Ghost<Set<Seq<u8>>>,
    ) -> (r: Result<H256, TrieError>)
        requires
            common == common_prefix_len(partial@, path@),
            common < partial@.len(),
            common < path@.len(),
        ensures
            *final(final(self).db) == *final(old(self).db),
            *final(final(self).root) == *final(old(self).root),
            old(self).cache_bounded() ==> final(self).cache_bounded(),
            final(self).root_digest() == old(self).root_digest(),
            grows(old(self).store(), final(self).store()),
            r is Ok,
            final(self).store().contains_key(r->Ok_0@),
            branch_read(old(self).store(), hash, partial@, children@) ==> set_done(
                r,
                final(self).store(),
                bytes_of(*old(old_val)),
                bytes_of(*final(old_val)),
                set_change(
                    old(self).store(),
                    Some(hash),
                    NodeView::Leaf { partial: path@, value: insert_value@ },
                    false,
                ),
            ),
            t is Branch && t->Branch_partial == partial@ && t.stored(old(self).store())
                && slots_of(children@, t->Branch_children) ==> inserted(
                old(self).store(),
                old(self).cache_ok(),
                bytes_of(*old(old_val)),
                final(self).store(),
                final(self).cache_ok(),
                bytes_of(*final(old_val)),
                r,
                Some(t),
                path@,
                insert_value@,
                universe,
            ),
        decreases 1nat, path@.len(), 0nat,
    {
        let ghost store0 = old(self).store();
        let ghost given = t is Branch && t->Branch_partial == partial@ && t.stored(store0)
            && slots_of(children@, t->Branch_children);
        let ghost after = insert_into(Some(t), path@, insert_value@);
        let ghost tight = sealed(store0, universe) && after.within(universe);
        let mut new_child = empty_children();
        let new_partial = partial.mid(common);
        let new_path = path.mid(common);
        let slot_a: usize = new_partial.at(0) as usize;
        let slot_b: usize = new_path.at(0) as usize;
        let ghost pushed = Subtrie::Branch {
            partial: partial@.skip(common + 1),
            children: t->Branch_children,
        };
        let ghost leaf_b = Subtrie::Leaf {
            partial: path@.skip(common + 1),
            value: insert_value@,
        };
        let ghost kids = no_children().update(slot_a as int, Some(pushed)).update(
            slot_b as int,
            Some(leaf_b),
        );
        let ghost branch = Subtrie::Branch { partial: partial@.take(common as int), children: kids };
        proof {
            lemma_common_prefix(partial@, path@);
            assert(new_partial@.skip(1) =~= partial@.skip(common + 1));
            assert(new_path@.skip(1) =~= path@.skip(common + 1));
            assert(slot_a != slot_b);
            assert(kids[slot_a as int] == Some(pushed));
            assert(kids[slot_b as int] == Some(leaf_b));
            assert(new_partial@.skip(1).take(new_partial@.skip(1).len() as int)
                =~= new_partial@.skip(1));
            if given {
                assert(after == branch);
                if tight {
                    assert(pushed.within(universe));
                    assert(leaf_b.within(universe));
                }
            }
        }
        let b_hash = self.put_branch(
            new_partial.mid(1),
            new_partial.mid(1).len(),
            children,
            Ghost(pushed),
            Ghost(universe),
        );
        new_child[slot_a] = Some(b_hash);
        let ghost mid1 = self.store();
        proof {
            if given && tight {
                lemma_stored_grows(t, store0, mid1);
                assert(pushed.node()->Branch_children =~= t.node()->Branch_children);
                assert forall|i: int|
                    0 <= i < 16 && (#[trigger] pushed->Branch_children[i])
                        is Some implies pushed->Branch_children[i]->0.stored(mid1) by {
                    assert(t->Branch_children[i] is Some);
                }
                assert(pushed.stored(mid1));
            }
        }
        let b = match self.insert_aux(
            new_path.mid(1),
            insert_value,
            new_child[slot_b],
            old_val,
            Ghost(None),
            Ghost(universe),
        ) {
            Ok(b) => b,
            Err(e) => {
                return Err(e);
            },
        };
        new_child[slot_b] = Some(b);
        let ghost mid2 = self.store();
        proof {
            if given {
                assert(slots_of(new_child@, kids));
            }
            assert(children_view(new_child@) =~= no_slots().update(
                slot_a as int,
                Some(b_hash@),
            ).update(slot_b as int, Some(b@)));
        }
        let h = self.put_branch(partial, common, new_child, Ghost(branch), Ghost(universe));
        proof {
            if given && tight {
                lemma_stored_grows(pushed, mid1, self.store());
                lemma_stored_grows(leaf_b, mid2, self.store());
                assert forall|i: int| 0 <= i < 16 && (#[trigger] kids[i]) is Some implies kids[i]->0.stored(
                    self.store(),
                ) by {}
            }
        }
        Ok(h)
    }

    /// Goes on with the insertion in the child that `path` selects behind the
    /// whole prefix of a branch, and writes the branch anew with that child.
    fn insert_below(
        &mut self,
        partial: NibbleSlice<'_>,
        children: [Option<H256>; 16],
        path: NibbleSlice<'_>,
        insert_value: &[u8],
        old_val: &mut Option<Vec<u8>>,
        Ghost(hash): Ghost<Seq<u8>>,
        Ghost(t): Ghost<Subtrie>,
        Ghost(universe): Ghost<Set<Seq<u8>>>,
    ) -> (r: Result<H256, TrieError>)
        requires
            partial@.len() == common_prefix_len(partial@, path@),
            partial@.len() < path@.len(),
        ensures
            *final(final(self).db) == *final(old(self).db),
            *final(final(self).root) == *final(old(self).root),
            old(self).cache_bounded() ==> final(self).cache_bounded(),
            final(self).root_digest() == old(self).root_digest(),
            grows(old(self).store(), final(self).store()),
            r is Err ==> r->Err_0 is IncompleteDatabase && final(self).store() == old(self).store()
                && (old(self).cache_ok() ==> final(self).cache_ok()),
            r is Ok ==> final(self).store().contains_key(r->Ok_0@),
            old(self).cache_ok() && branch_read(old(self).store(), hash, partial@, children@)
                ==> stopped(r, insert_stops_at(old(self).store(), Some(hash), path@)),
            old(self).cache_ok() && branch_read(old(self).store(), hash, partial@, children@)
                && insert_stops_at(old(self).store(), Some(hash), path@) is None ==> set_done(
                r,
                final(self).store(),
                bytes_of(*old(old_val)),
                bytes_of(*final(old_val)),
                set_change(
                    old(self).store(),
                    Some(hash),
                    NodeView::Leaf { partial: path@, value: insert_value@ },
                    false,
                ),
            ),
            t is Branch && t->Branch_partial == partial@ && t.stored(old(self).store())
                && t.height_ok(path@.len()) && slots_of(children@, t->Branch_children) && old(
                self,
            ).cache_ok() ==> inserted(
                old(self).store(),
                old(self).cache_ok(),
                bytes_of(*old(old_val)),
                final(self).store(),
                final(self).cache_ok(),
                bytes_of(*final(old_val)),
                r,
                Some(t),
                path@,
                insert_value@,
                universe,
            ),
        decreases 1nat, path@.len(), 0nat,
    {
        let ghost store0 = old(self).store();
        let ghost given = t is Branch && t->Branch_partial == partial@ && t.stored(store0)
            && t.height_ok(path@.len()) && slots_of(children@, t->Branch_children) && old(
            self,
        ).cache_ok();
        let ghost after = insert_into(Some(t), path@, insert_value@);
        let ghost tight = sealed(store0, universe) && after.within(universe);
        let mut children = children;
        let common: usize = partial.len();
        let new_path = path.mid(common);
        let slot: usize = new_path.at(0) as usize;
        let ghost kids = t->Branch_children;
        let ghost below = insert_into(kids[slot as int], path@.skip(common + 1), insert_value@);
        let ghost after_kids = kids.update(slot as int, Some(below));
        let ghost branch = Subtrie::Branch { partial: partial@, children: after_kids };
        proof {
            lemma_common_prefix(partial@, path@);
            assert(new_path@.skip(1) =~= path@.skip(common + 1));
            assert(digest_view(children[slot as int]) == children_view(children@)[slot as int]);
            if given {
                assert(after == branch);
                assert(after_kids[slot as int] == Some(below));
                if kids[slot as int] is Some {
                    assert(kids[slot as int]->0.stored(store0));
                }
            }
        }
        let b = match self.insert_aux(
            new_path.mid(1),
            insert_value,
            children[slot],
            old_val,
            Ghost(kids[slot as int]),
            Ghost(universe),
        ) {
            Ok(b) => b,
            Err(e) => {
                return Err(e);
            },
        };
        let ghost before = children@;
        children[slot] = Some(b);
        let ghost mid1 = self.store();
        proof {
            assert(children_view(children@) =~= children_view(before).update(
                slot as int,
                Some(b@),
            ));
            assert(partial@.take(common as int) =~= partial@);
            if given {
                assert(slots_of(children@, after_kids)) by {
                    assert forall|i: int| 0 <= i < 16 implies (match (#[trigger] children@[i]) {
                        Some(h) => after_kids[i] is Some && after_kids[i]->0.digest() == h@,
                        None => after_kids[i] is None,
                    }) by {
                        if i != slot {
                            assert(children@[i] == before[i]);
                        }
                    }
                }
                assert(partial@.take(common as int) =~= partial@);
            }
        }
        let h = self.put_branch(partial, common, children, Ghost(branch), Ghost(universe));
        proof {
            if given && tight {
                let now = self.store();
                lemma_stored_grows(t, store0, now);
                lemma_stored_grows(below, mid1, now);
                assert forall|i: int|
                    0 <= i < 16 && (#[trigger] after_kids[i]) is Some implies after_kids[i]->0.stored(
                    now,
                ) by {
                    if i != slot {
                        assert(kids[i] is Some);
                    }
                }
            }
        }
        Ok(h)
    }

    /// Writes `insert_value` at the end of `path` below the node at
    /// `cur_node_hash`, and returns the digest of the node that takes its place.
    /// A value that stood there before goes to `old_val`.
    fn insert_aux(
        &mut self,
        path: NibbleSlice<'_>,
        insert_value: &[u8],
        cur_node_hash: Option<H256>,
        old_val: &mut Option<Vec<u8>>,
        Ghost(t): Ghost<Option<Subtrie>>,
        Ghost(universe): Ghost<Set<Seq<u8>>>,
    ) -> (r: Result<H256, TrieError>)
        ensures
            *final(final(self).db) == *final(old(self).db),
            *final(final(self).root) == *final(old(self).root),
            old(self).cache_bounded() ==> final(self).cache_bounded(),
            final(self).root_digest() == old(self).root_digest(),
            grows(old(self).store(), final(self).store()),
            r is Err ==> r->Err_0 is IncompleteDatabase && final(self).store() == old(self).store()
                && (old(self).cache_ok() ==> final(self).cache_ok()),
            r is Ok ==> final(self).store().contains_key(r->Ok_0@),
            cur_node_hash is None || old(self).cache_ok() ==> stopped(
                r,
                insert_stops_at(old(self).store(), digest_view(cur_node_hash), path@),
            ),
            (cur_node_hash is None || old(self).cache_ok()) && insert_stops_at(
                old(self).store(),
                digest_view(cur_node_hash),
                path@,
            ) is None ==> set_done(
                r,
                final(self).store(),
                bytes_of(*old(old_val)),
                bytes_of(*final(old_val)),
                set_change(
                    old(self).store(),
                    digest_view(cur_node_hash),
                    NodeView::Leaf { partial: path@, value: insert_value@ },
                    false,
                ),
            ),
            holds(old(self).store(), cur_node_hash, t, path@.len()) && (cur_node_hash is None
                || old(self).cache_ok()) ==> inserted(
                old(self).store(),
                old(self).cache_ok(),
                bytes_of(*old(old_val)),
                final(self).store(),
                final(self).cache_ok(),
                bytes_of(*final(old_val)),
                r,
                t,
                path@,
                insert_value@,
                universe,
            ),
        decreases
                (if cur_node_hash is Some {
                    1nat
                } else {
                    0nat
                }),
                path@.len(),
                1nat,
    {
        let ghost store0 = old(self).store();
        let ghost given = holds(store0, cur_node_hash, t, path@.len()) && (cur_node_hash is None
            || old(self).cache_ok());
        proof {
            path.lemma_nibbles();
        }
        let hash = match cur_node_hash {
            Some(hash) => hash,
            None => {
                return Ok(self.put_leaf(path, insert_value, Ghost(universe)));
            },
        };
        let node_rlp = match self.read_cached(&hash) {
            Some(node_rlp) => node_rlp,
            None => {
                return Err(TrieError::IncompleteDatabase(hash));
            },
        };
        proof {
            if given {
                assert(node_rlp@ == encode_node(t->0.node()));
                lemma_stored_valid(t->0, store0, path@.len());
                lemma_node_round_trip(t->0.node());
            }
        }
        match Node::decoded(node_rlp.as_slice()) {
            Some(Node::Leaf(partial, value)) => {
                proof {
                    lemma_common_prefix(partial@, path@);
                }
                if partial.equals(&path) {
                    let h = self.put_leaf(path, insert_value, Ghost(universe));
                    *old_val = Some(slice_to_vec(value));
                    Ok(h)
                } else {
                    let common: usize = partial.common_prefix(&path);
                    if common >= partial.len() || common >= path.len() {
                        proof {
                            if given {
                                assert(partial@.len() == path@.len());
                                if common >= partial@.len() {
                                    assert(partial@ =~= path@.subrange(0, partial@.len() as int));
                                } else {
                                    assert(path@ =~= partial@.subrange(0, path@.len() as int));
                                }
                            }
                        }
                        return Err(TrieError::IncompleteDatabase(hash));
                    }
                    self.split_leaf(
                        partial,
                        value,
                        path,
                        insert_value,
                        common,
                        old_val,
                        Ghost(hash@),
                        Ghost(universe),
                    )
                }
            },
            Some(Node::Branch(partial, children)) => {
                proof {
                    lemma_common_prefix(partial@, path@);
                    if given {
                        lemma_slots_of(children@, t->0);
                    }
                }
                let common: usize = partial.common_prefix(&path);
                if common >= path.len() {
                    return Err(TrieError::IncompleteDatabase(hash));
                }
                if common < partial.len() {
                    self.split_branch(
                        partial,
                        children,
                        path,
                        insert_value,
                        common,
                        old_val,
                        Ghost(hash@),
                        Ghost(t->0),
                        Ghost(universe),
                    )
                } else {
                    self.insert_below(
                        partial,
                        children,
                        path,
                        insert_value,
                        old_val,
                        Ghost(hash@),
                        Ghost(t->0),
                        Ghost(universe),
                    )
                }
            },
            None => Ok(self.put_leaf(path, insert_value, Ghost(universe))),
        }
    }

    /// Writes `node` into the store and into the cache, and returns its digest.
    fn put_node(&mut self, node: Node<'_>, Ghost(universe): Ghost<Set<Seq<u8>>>) -> (h: H256)
        ensures
            *final(final(self).db) == *final(old(self).db),
            *final(final(self).root) == *final(old(self).root),
            old(self).cache_bounded() ==> final(self).cache_bounded(),
            final(self).root_digest() == old(self).root_digest(),
            grows(old(self).store(), final(self).store()),
            final(self).store().contains_key(h@),
            final(self).store() == put(old(self).store(), encode_node(node@)),
            h@ == digest_of(encode_node(node@)),
            encode_node(node@).len() <= usize::MAX,
            sealed(old(self).store(), universe) && universe.contains(encode_node(node@)) ==> {
                &&& sealed(final(self).store(), universe)
                &&& final(self).store().contains_key(h@)
                &&& final(self).store()[h@] == encode_node(node@)
                &&& old(self).cache_ok() ==> final(self).cache_ok()
            },
    {
        let node_rlp = Node::encoded(node);
        self.write_cached(node_rlp, Ghost(universe))
    }

    /// Puts the only child that a branch has left in the place of the branch:
    /// the child's node with the prefix of the branch and the nibble of the
    /// child's slot in front of its own prefix.
    fn collapse(
        &mut self,
        hash: H256,
        partial: NibbleSlice<'_>,
        index: usize,
        child_hash: H256,
        Ghost(only): Ghost<Subtrie>,
        Ghost(universe): Ghost<Set<Seq<u8>>>,
    ) -> (r: Result<Option<H256>, TrieError>)
        requires
            index < 16,
        ensures
            *final(final(self).db) == *final(old(self).db),
            *final(final(self).root) == *final(old(self).root),
            old(self).cache_bounded() ==> final(self).cache_bounded(),
            final(self).root_digest() == old(self).root_digest(),
            grows(old(self).store(), final(self).store()),
            r is Err ==> r->Err_0 is IncompleteDatabase && r->Err_0->IncompleteDatabase_0@
                == hash@ && final(self).store() == old(self).store() && (old(self).cache_ok()
                ==> final(self).cache_ok()),
            r is Ok ==> r->Ok_0 is Some && final(self).store().contains_key(r->Ok_0->0@),
            old(self).cache_ok() ==> (r is Err <==> !old(self).store().contains_key(child_hash@)
                || decode_node(old(self).store()[child_hash@]) is None),
            old(self).cache_ok() && r is Ok ==> {
                let only = decode_node(old(self).store()[child_hash@])->0;
                let bytes = encode_node(
                    only.with_partial(partial@ + seq![index as u8] + only.partial()),
                );
                r->Ok_0->0@ == digest_of(bytes) && final(self).store() == put(
                    old(self).store(),
                    bytes,
                )
            },
            only.stored(old(self).store()) && only.node().valid() && child_hash@ == only.digest()
                && old(self).cache_ok() ==> {
                let merged = only.with_partial(partial@ + seq![index as u8] + only.partial());
                &&& r is Ok
                &&& r->Ok_0 is Some
                &&& r->Ok_0->0@ == merged.digest()
                &&& sealed(old(self).store(), universe) && universe.contains(
                    encode_node(merged.node()),
                ) ==> sealed(final(self).store(), universe) && merged.stored(final(self).store())
                    && final(self).cache_ok()
            },
    {
        let ghost store0 = old(self).store();
        let ghost given = only.stored(store0) && only.node().valid() && child_hash@
            == only.digest() && old(self).cache_ok();
        let child_rlp = match self.read_cached(&child_hash) {
            Some(child_rlp) => child_rlp,
            None => {
                return Err(TrieError::IncompleteDatabase(hash));
            },
        };
        proof {
            if given {
                assert(child_rlp@ == encode_node(only.node()));
                lemma_node_round_trip(only.node());
            }
        }
        match Node::decoded(child_rlp.as_slice()) {
            Some(child) => {
                let child_partial = child.partial();
                let mut nibbles = partial.to_vec();
                nibbles.push(index as u8);
                let mut tail = child_partial.to_vec();
                nibbles.append(&mut tail);
                let (packed, offset) = NibbleSlice::from_vec(&nibbles);
                let new_partial = NibbleSlice::new_offset(packed.as_slice(), offset);
                proof {
                    partial.lemma_nibbles();
                    child_partial.lemma_nibbles();
                    assert(nibbles@ =~= partial@ + seq![index as u8] + child_partial@);
                    assert(new_partial@ =~= nibbles@) by {
                        assert forall|i: int| 0 <= i < nibbles@.len() implies nibbles@[i] % 16
                            == nibbles@[i] by {
                            if i < partial@.len() {
                                assert(partial@[i] < 16);
                            } else if i > partial@.len() {
                                assert(child_partial@[i - partial@.len() - 1] < 16);
                            }
                        }
                    }
                }
                let merged = match child {
                    Node::Leaf(_, value) => Node::Leaf(new_partial, value),
                    Node::Branch(_, children) => Node::Branch(new_partial, children),
                };
                let h = self.put_node(merged, Ghost(universe));
                proof {
                    if given {
                        let ghost_merged = only.with_partial(
                            partial@ + seq![index as u8] + only.partial(),
                        );
                        assert(child@ == only.node());
                        match only {
                            Subtrie::Leaf { .. } => {
                                assert(merged@ == ghost_merged.node());
                            },
                            Subtrie::Branch { partial: p, children: kids } => {
                                assert(ghost_merged.node()->Branch_children =~= only.node()->Branch_children);
                                assert(merged@ == ghost_merged.node());
                                if sealed(store0, universe) && universe.contains(
                                    encode_node(ghost_merged.node()),
                                ) {
                                    lemma_stored_grows(only, store0, self.store());
                                    assert forall|i: int|
                                        0 <= i < kids.len() && (#[trigger] kids[i])
                                            is Some implies kids[i]->0.stored(self.store()) by {}
                                }
                            },
                        }
                    }
                }
                Ok(Some(h))
            },
            None => Err(TrieError::IncompleteDatabase(hash)),
        }
    }

    /// Goes on with the removal in the child that `path` selects behind the
    /// prefix of a branch, and puts in the place of the branch what is left of
    /// it: the branch with that child changed, its only child, or nothing.
    #[verifier::rlimit(60)]
    fn remove_below(
        &mut self,
        hash: H256,
        partial: NibbleSlice<'_>,
        children: [Option<H256>; 16],
        path: &NibbleSlice<'_>,
        old_val: &mut Option<Vec<u8>>,
        Ghost(t): Ghost<Subtrie>,
        Ghost(universe): Ghost<Set<Seq<u8>>>,
    ) -> (r: Result<Option<H256>, TrieError>)
        requires
            partial@.is_prefix_of(path@),
            partial@.len() < path@.len(),
        ensures
            *final(final(self).db) == *final(old(self).db),
            *final(final(self).root) == *final(old(self).root),
            old(self).cache_bounded() ==> final(self).cache_bounded(),
            final(self).root_digest() == old(self).root_digest(),
            grows(old(self).store(), final(self).store()),
            r is Err ==> r->Err_0 is IncompleteDatabase && final(self).store() == old(self).store()
                && (old(self).cache_ok() ==> final(self).cache_ok()),
            (old(self).cache_ok()) && r is Ok && r->Ok_0 is Some ==> final(self).store().contains_key(
                r->Ok_0->0@,
            ),
            r is Ok && r->Ok_0 is None ==> final(self).store() == old(self).store() && (old(
                self,
            ).cache_ok() ==> final(self).cache_ok()),
            old(self).cache_ok() && branch_read(old(self).store(), hash@, partial@, children@)
                ==> stopped(r, remove_stops_at(old(self).store(), Some(hash@), path@)) && (r is Ok
                ==> (r->Ok_0 is None <==> remove_empties(
                old(self).store(),
                Some(hash@),
                path@,
            ))),
            old(self).cache_ok() && branch_read(old(self).store(), hash@, partial@, children@)
                && remove_stops_at(old(self).store(), Some(hash@), path@) is None
                ==> remove_done(
                r,
                final(self).store(),
                bytes_of(*old(old_val)),
                bytes_of(*final(old_val)),
                remove_change(old(self).store(), Some(hash@), path@),
            ),
            t is Branch && t->Branch_partial == partial@ && t.stored(old(self).store())
                && t.height_ok(path@.len()) && slots_of(children@, t->Branch_children) && old(
                self,
            ).cache_ok() ==> removed(
                old(self).store(),
                old(self).cache_ok(),
                bytes_of(*old(old_val)),
                final(self).store(),
                final(self).cache_ok(),
                bytes_of(*final(old_val)),
                r,
                Some(t),
                path@,
                universe,
            ),
        decreases path@.len(), 0nat,
    {
        let ghost store0 = old(self).store();
        let ghost given = t is Branch && t->Branch_partial == partial@ && t.stored(store0)
            && t.height_ok(path@.len()) && slots_of(children@, t->Branch_children) && old(
            self,
        ).cache_ok();
        let ghost after = remove_from(Some(t), path@);
        let ghost tight = sealed(store0, universe) && (after is Some ==> after->0.within(
            universe,
        ));
        let mut children = children;
        let new_path = path.mid(partial.len());
        let slot: usize = new_path.at(0) as usize;
        let sub = new_path.mid(1);
        let ghost kids = t->Branch_children;
        let ghost below = remove_from(kids[slot as int], path@.skip(partial@.len() as int + 1));
        let ghost left = kids.update(slot as int, below);
        let ghost branch = Subtrie::Branch { partial: partial@, children: left };
        let ghost slots0 = children_view(children@);
        let ghost leftv = slots0.update(slot as int, None);
        proof {
            assert(sub@ =~= path@.skip(partial@.len() as int + 1));
            assert(digest_view(children[slot as int]) == slots0[slot as int]);
            if given {
                if kids[slot as int] is Some {
                    assert(kids[slot as int]->0.stored(store0));
                }
                lemma_occupied_update(kids, slot as int, below);
                lemma_first_occupied(left);
                if below is Some {
                    assert(after == Some(branch));
                    assert(left[slot as int] == below);
                }
            }
        }
        let new_child = match self.remove_aux(
            &sub,
            children[slot],
            old_val,
            Ghost(kids[slot as int]),
            Ghost(universe),
        ) {
            Ok(new_child) => new_child,
            Err(e) => {
                return Err(e);
            },
        };
        let ghost before = children@;
        let ghost mid1 = self.store();
        children[slot] = new_child;
        proof {
            assert(children_view(children@) =~= slots0.update(slot as int, digest_view(new_child)));
            if new_child is None {
                assert(same_occupancy(children@, leftv)) by {
                    assert forall|i: int| 0 <= i < 16 implies ((#[trigger] children@[i]) is Some
                        <==> leftv[i] is Some) by {
                        if i != slot {
                            assert(children@[i] == before[i]);
                            assert(slots0[i] is Some <==> before[i] is Some);
                        }
                    }
                }
                lemma_same_occupancy(children@, leftv);
                lemma_first_occupied(children@);
                let i = first_occupied(children@);
                if 0 <= i < 16 {
                    assert(children@[i] == before[i]);
                    assert(leftv[i] == digest_view(children@[i]));
                }
            }
            if given {
                assert(slots_of(children@, left)) by {
                    assert forall|i: int| 0 <= i < 16 implies (match (#[trigger] children@[i]) {
                        Some(h) => left[i] is Some && left[i]->0.digest() == h@,
                        None => left[i] is None,
                    }) by {
                        if i != slot {
                            assert(children@[i] == before[i]);
                        }
                    }
                }
                assert(same_occupancy(children@, left)) by {
                    assert forall|i: int| 0 <= i < 16 implies ((#[trigger] children@[i]) is Some
                        <==> left[i] is Some) by {}
                }
                lemma_same_occupancy(children@, left);
                if below is None {
                    assert(mid1 == store0);
                }
            }
        }
        if new_child.is_none() {
            let (count, index) = count_occupied(&children);
            if count == 0 {
                return Ok(None);
            } else if count == 1 {
                proof {
                    lemma_first_occupied(children@);
                }
                let child_hash = match children[index] {
                    Some(child_hash) => child_hash,
                    None => {
                        return Err(TrieError::IncompleteDatabase(hash));
                    },
                };
                proof {
                    if given {
                        let only = left[index as int]->0;
                        assert(kids[index as int] == left[index as int]);
                        assert(only.stored(store0));
                        assert(only.height_ok((path@.len() - partial@.len() - 1) as nat));
                        lemma_stored_valid(
                            only,
                            store0,
                            (path@.len() - partial@.len() - 1) as nat,
                        );
                    }
                }
                return self.collapse(
                    hash,
                    partial,
                    index,
                    child_hash,
                    Ghost(left[index as int]->0),
                    Ghost(universe),
                );
            }
        }
        let h = self.put_node(Node::Branch(partial, children), Ghost(universe));
        proof {
            if given {
                assert(after == Some(branch));
                let written = Node::Branch(partial, children)@;
                assert(written->Branch_children =~= branch.node()->Branch_children);
                assert(written == branch.node());
                if tight {
                    let now = self.store();
                    lemma_stored_grows(t, store0, now);
                    if below is Some {
                        assert(below->0.within(universe));
                        lemma_stored_grows(below->0, mid1, now);
                    }
                    assert forall|i: int|
                        0 <= i < 16 && (#[trigger] left[i]) is Some implies left[i]->0.stored(
                        now,
                    ) by {
                        if i != slot {
                            assert(kids[i] is Some);
                        }
                    }
                }
            }
        }
        Ok(Some(h))
    }

    /// Takes `path` out of what lies below the node at `cur_node_hash`, and
    /// returns the digest of the node that takes its place, or none where
    /// nothing is left. A value that stood at the path goes to `old_val`.
    fn remove_aux(
        &mut self,
        path: &NibbleSlice<'_>,
        cur_node_hash: Option<H256>,
        old_val: &mut Option<Vec<u8>>,
        Ghost(t): Ghost<Option<Subtrie>>,
        Ghost(universe): Ghost<Set<Seq<u8>>>,
    ) -> (r: Result<Option<H256>, TrieError>)
        ensures
            *final(final(self).db) == *final(old(self).db),
            *final(final(self).root) == *final(old(self).root),
            old(self).cache_bounded() ==> final(self).cache_bounded(),
            final(self).root_digest() == old(self).root_digest(),
            grows(old(self).store(), final(self).store()),
            r is Err ==> r->Err_0 is IncompleteDatabase && final(self).store() == old(self).store()
                && (old(self).cache_ok() ==> final(self).cache_ok()),
            (cur_node_hash is None || old(self).cache_ok()) && r is Ok && r->Ok_0 is Some ==> final(self).store().contains_key(
                r->Ok_0->0@,
            ),
            r is Ok && r->Ok_0 is None ==> final(self).store() == old(self).store() && (old(
                self,
            ).cache_ok() ==> final(self).cache_ok()),
            cur_node_hash is None || old(self).cache_ok() ==> stopped(
                r,
                remove_stops_at(old(self).store(), digest_view(cur_node_hash), path@),
            ) && (r is Ok ==> (r->Ok_0 is None <==> remove_empties(
                old(self).store(),
                digest_view(cur_node_hash),
                path@,
            ))),
            (cur_node_hash is None || old(self).cache_ok()) && remove_stops_at(
                old(self).store(),
                digest_view(cur_node_hash),
                path@,
            ) is None ==> remove_done(
                r,
                final(self).store(),
                bytes_of(*old(old_val)),
                bytes_of(*final(old_val)),
                remove_change(old(self).store(), digest_view(cur_node_hash), path@),
            ),
            holds(old(self).store(), cur_node_hash, t, path@.len()) && (cur_node_hash is None
                || old(self).cache_ok()) ==> removed(
                old(self).store(),
                old(self).cache_ok(),
                bytes_of(*old(old_val)),
                final(self).store(),
                final(self).cache_ok(),
                bytes_of(*final(old_val)),
                r,
                t,
                path@,
                universe,
            ),
        decreases path@.len(), 1nat,
    {
        let ghost store0 = old(self).store();
        let ghost given = holds(store0, cur_node_hash, t, path@.len()) && (cur_node_hash is None
            || old(self).cache_ok());
        let hash = match cur_node_hash {
            Some(hash) => hash,
            None => {
                return Ok(None);
            },
        };
        let node_rlp = match self.read_cached(&hash) {
            Some(node_rlp) => node_rlp,
            None => {
                return Err(TrieError::IncompleteDatabase(hash));
            },
        };
        proof {
            if given {
                assert(node_rlp@ == encode_node(t->0.node()));
                lemma_stored_valid(t->0, store0, path@.len());
                lemma_node_round_trip(t->0.node());
            }
        }
        match Node::decoded(node_rlp.as_slice()) {
            Some(Node::Leaf(partial, value)) => {
                if path.equals(&partial) {
                    *old_val = Some(slice_to_vec(value));
                    Ok(None)
                } else {
                    Ok(cur_node_hash)
                }
            },
            Some(Node::Branch(partial, children)) => {
                if path.starts_with(&partial) {
                    if path.len() == partial.len() {
                        return Err(TrieError::IncompleteDatabase(hash));
                    }
                    proof {
                        if given {
                            lemma_slots_of(children@, t->0);
                        }
                    }
                    self.remove_below(
                        hash,
                        partial,
                        children,
                        path,
                        old_val,
                        Ghost(t->0),
                        Ghost(universe),
                    )
                } else {
                    Ok(cur_node_hash)
                }
            },
            None => Ok(cur_node_hash),
        }
    }

    /// Writes `node` as it is, for the subtrie `g` that it is the topmost node
    /// of.
    fn put_graft(
        &mut self,
        node: Node<'_>,
        Ghost(g): Ghost<Subtrie>,
        Ghost(universe): Ghost<Set<Seq<u8>>>,
    ) -> (h: H256)
        ensures
            *final(final(self).db) == *final(old(self).db),
            *final(final(self).root) == *final(old(self).root),
            old(self).cache_bounded() ==> final(self).cache_bounded(),
            final(self).root_digest() == old(self).root_digest(),
            grows(old(self).store(), final(self).store()),
            final(self).store().contains_key(h@),
            final(self).store() == put(old(self).store(), encode_node(node@)),
            h@ == digest_of(encode_node(node@)),
            g.node() == node@ ==> h@ == g.digest(),
            g.node() == node@ && children_stored(g, old(self).store()) && sealed(
                old(self).store(),
                universe,
            ) && g.within(universe) ==> sealed(final(self).store(), universe) && g.stored(
                final(self).store(),
            ) && (old(self).cache_ok() ==> final(self).cache_ok()),
    {
        let h = self.put_node(node, Ghost(universe));
        proof {
            if g.node() == node@ && children_stored(g, old(self).store()) {
                lemma_children_stored_grows(g, old(self).store(), self.store());
            }
        }
        h
    }

    /// Puts a branch in the place of a leaf whose path parts from the prefix
    /// of `node` after `common` nibbles, with that leaf and `node` below it.
    fn graft_split_leaf(
        &mut self,
        partial: NibbleSlice<'_>,
        value: &[u8],
        node: Node<'_>,
        common: usize,
        old_val: &mut Option<Vec<u8>>,
        Ghost(hash): Ghost<Seq<u8>>,
        Ghost(g): Ghost<Subtrie>,
        Ghost(universe): Ghost<Set<Seq<u8>>>,
    ) -> (r: Result<H256, TrieError>)
        requires
            common == common_prefix_len(partial@, node@.partial()),
            common < partial@.len(),
            common < node@.partial().len() <= usize::MAX,
        ensures
            *final(final(self).db) == *final(old(self).db),
            *final(final(self).root) == *final(old(self).root),
            old(self).cache_bounded() ==> final(self).cache_bounded(),
            final(self).root_digest() == old(self).root_digest(),
            grows(old(self).store(), final(self).store()),
            r is Ok,
            final(self).store().contains_key(r->Ok_0@),
            leaf_read(old(self).store(), hash, partial@, value@) ==> set_done(
                r,
                final(self).store(),
                bytes_of(*old(old_val)),
                bytes_of(*final(old_val)),
                set_change(old(self).store(), Some(hash), node@, true),
            ),
            g.node() == node@ && children_stored(g, old(self).store()) ==> grafted(
                old(self).store(),
                old(self).cache_ok(),
                bytes_of(*old(old_val)),
                final(self).store(),
                final(self).cache_ok(),
                bytes_of(*final(old_val)),
                r,
                Some(Subtrie::Leaf { partial: partial@, value: value@ }),
                g,
                universe,
            ),
        decreases 1nat, node@.partial().len(), 0nat,
    {
        let ghost store0 = old(self).store();
        let ghost given = g.node() == node@ && children_stored(g, store0);
        let ghost t = Subtrie::Leaf { partial: partial@, value: value@ };
        let ghost after = graft(Some(t), g);
        let ghost tight = sealed(store0, universe) && after.within(universe);
        let path = node.partial();
        let mut new_child = empty_children();
        let new_partial = partial.mid(common);
        let new_path = path.mid(common);
        let slot_a: usize = new_partial.at(0) as usize;
        let slot_b: usize = new_path.at(0) as usize;
        let ghost leaf_a = Subtrie::Leaf { partial: partial@.skip(common + 1), value: value@ };
        let ghost sub = g.with_partial(path@.skip(common + 1));
        let ghost kids = no_children().update(slot_a as int, Some(leaf_a)).update(
            slot_b as int,
            Some(sub),
        );
        let ghost branch = Subtrie::Branch { partial: partial@.take(common as int), children: kids };
        proof {
            lemma_common_prefix(partial@, path@);
            lemma_with_partial_node(g, path@.skip(common + 1));
            assert(new_partial@.skip(1) =~= partial@.skip(common + 1));
            assert(slot_a != slot_b);
            assert(kids[slot_a as int] == Some(leaf_a));
            assert(kids[slot_b as int] == Some(sub));
            if given {
                assert(after == branch);
                if tight {
                    assert(leaf_a.within(universe));
                    assert(sub.within(universe));
                }
            }
        }
        let a = match self.insert_aux(
            new_partial.mid(1),
            value,
            new_child[slot_a],
            old_val,
            Ghost(None),
            Ghost(universe),
        ) {
            Ok(a) => a,
            Err(e) => {
                return Err(e);
            },
        };
        new_child[slot_a] = Some(a);
        let ghost mid1 = self.store();
        proof {
            if given {
                lemma_children_stored_grows(sub, store0, mid1);
            }
        }
        let b = match self.insert_raw_aux(
            node.mid(common + 1),
            new_child[slot_b],
            old_val,
            Ghost(None),
            Ghost(sub),
            Ghost(0nat),
            Ghost(universe),
        ) {
            Ok(b) => b,
            Err(e) => {
                return Err(e);
            },
        };
        new_child[slot_b] = Some(b);
        let ghost mid2 = self.store();
        proof {
            if given {
                assert(slots_of(new_child@, kids));
            }
            assert(children_view(new_child@) =~= no_slots().update(
                slot_a as int,
                Some(a@),
            ).update(slot_b as int, Some(b@)));
        }
        let h = self.put_branch(partial, common, new_child, Ghost(branch), Ghost(universe));
        proof {
            if given && tight {
                lemma_stored_grows(leaf_a, mid1, self.store());
                lemma_stored_grows(sub, mid2, self.store());
                assert forall|i: int| 0 <= i < 16 && (#[trigger] kids[i]) is Some implies kids[i]->0.stored(
                    self.store(),
                ) by {}
            }
        }
        Ok(h)
    }

    /// Puts a branch in the place of a branch whose prefix parts from the
    /// prefix of `node` after `common` nibbles, with that branch and `node`
    /// below it.
    fn graft_split_branch(
        &mut self,
        partial: NibbleSlice<'_>,
        children: [Option<H256>; 16],
        node: Node<'_>,
        common: usize,
        old_val: &mut Option<Vec<u8>>,
        Ghost(hash): Ghost<Seq<u8>>,
        Ghost(t): Ghost<Subtrie>,
        Ghost(g): Ghost<Subtrie>,
        Ghost(universe): Ghost<Set<Seq<u8>>>,
    ) -> (r: Result<H256, TrieError>)
        requires
            common == common_prefix_len(partial@, node@.partial()),
            common < partial@.len(),
            common < node@.partial().len() <= usize::MAX,
        ensures
            *final(final(self).db) == *final(old(self).db),
            *final(final(self).root) == *final(old(self).root),
            old(self).cache_bounded() ==> final(self).cache_bounded(),
            final(self).root_digest() == old(self).root_digest(),
            grows(old(self).store(), final(self).store()),
            r is Ok,
            final(self).store().contains_key(r->Ok_0@),
            branch_read(old(self).store(), hash, partial@, children@) ==> set_done(
                r,
                final(self).store(),
                bytes_of(*old(old_val)),
                bytes_of(*final(old_val)),
                set_change(old(self).store(), Some(hash), node@, true),
            ),
            t is Branch && t->Branch_partial == partial@ && t.stored(old(self).store())
                && slots_of(children@, t->Branch_children) && g.node() == node@
                && children_stored(g, old(self).store()) ==> grafted(
                old(self).store(),
                old(self).cache_ok(),
                bytes_of(*old(old_val)),
                final(self).store(),
                final(self).cache_ok(),
                bytes_of(*final(old_val)),
                r,
                Some(t),
                g,
                universe,
            ),
        decreases 1nat, node@.partial().len(), 0nat,
    {
        let ghost store0 = old(self).store();
        let ghost given = t is Branch && t->Branch_partial == partial@ && t.stored(store0)
            && slots_of(children@, t->Branch_children) && g.node() == node@ && children_stored(
            g,
            store0,
        );
        let ghost after = graft(Some(t), g);
        let ghost tight = sealed(store0, universe) && after.within(universe);
        let path = node.partial();
        let mut new_child = empty_children();
        let new_partial = partial.mid(common);
        let new_path = path.mid(common);
        let slot_a: usize = new_partial.at(0) as usize;
        let slot_b: usize = new_path.at(0) as usize;
        let ghost pushed = Subtrie::Branch {
            partial: partial@.skip(common + 1),
            children: t->Branch_children,
        };
        let ghost sub = g.with_partial(path@.skip(common + 1));
        let ghost kids = no_children().update(slot_a as int, Some(pushed)).update(
            slot_b as int,
            Some(sub),
        );
        let ghost branch = Subtrie::Branch { partial: partial@.take(common as int), children: kids };
        proof {
            lemma_common_prefix(partial@, path@);
            lemma_with_partial_node(g, path@.skip(common + 1));
            assert(new_partial@.skip(1) =~= partial@.skip(common + 1));
            assert(slot_a != slot_b);
            assert(kids[slot_a as int] == Some(pushed));
            assert(kids[slot_b as int] == Some(sub));
            assert(new_partial@.skip(1).take(new_partial@.skip(1).len() as int)
                =~= new_partial@.skip(1));
            if given {
                assert(after == branch);
                if tight {
                    assert(pushed.within(universe));
                    assert(sub.within(universe));
                }
            }
        }
        let b_hash = self.put_branch(
            new_partial.mid(1),
            new_partial.mid(1).len(),
            children,
            Ghost(pushed),
            Ghost(universe),
        );
        new_child[slot_a] = Some(b_hash);
        let ghost mid1 = self.store();
        proof {
            if given {
                lemma_children_stored_grows(sub, store0, mid1);
                if tight {
                    lemma_stored_grows(t, store0, mid1);
                    assert(pushed.node()->Branch_children =~= t.node()->Branch_children);
                    assert forall|i: int|
                        0 <= i < 16 && (#[trigger] pushed->Branch_children[i])
                            is Some implies pushed->Branch_children[i]->0.stored(mid1) by {
                        assert(t->Branch_children[i] is Some);
                    }
                    assert(pushed.stored(mid1));
                }
            }
        }
        let b = match self.insert_raw_aux(
            node.mid(common + 1),
            new_child[slot_b],
            old_val,
            Ghost(None),
            Ghost(sub),
            Ghost(0nat),
            Ghost(universe),
        ) {
            Ok(b) => b,
            Err(e) => {
                return Err(e);
            },
        };
        new_child[slot_b] = Some(b);
        let ghost mid2 = self.store();
        proof {
            if given {
                assert(slots_of(new_child@, kids));
            }
            assert(children_view(new_child@) =~= no_slots().update(
                slot_a as int,
                Some(b_hash@),
            ).update(slot_b as int, Some(b@)));
        }
        let h = self.put_branch(partial, common, new_child, Ghost(branch), Ghost(universe));
        proof {
            if given && tight {
                lemma_stored_grows(pushed, mid1, self.store());
                lemma_stored_grows(sub, mid2, self.store());
                assert forall|i: int| 0 <= i < 16 && (#[trigger] kids[i]) is Some implies kids[i]->0.stored(
                    self.store(),
                ) by {}
            }
        }
        Ok(h)
    }

    /// Goes on setting `node` into the child that its prefix selects behind
    /// the whole prefix of a branch, and writes the branch anew with that child.
    fn graft_below(
        &mut self,
        partial: NibbleSlice<'_>,
        children: [Option<H256>; 16],
        node: Node<'_>,
        old_val: &mut Option<Vec<u8>>,
        Ghost(hash): Ghost<Seq<u8>>,
        Ghost(t): Ghost<Subtrie>,
        Ghost(g): Ghost<Subtrie>,
        Ghost(height): Ghost<nat>,
        Ghost(universe): Ghost<Set<Seq<u8>>>,
    ) -> (r: Result<H256, TrieError>)
        requires
            partial@.len() == common_prefix_len(partial@, node@.partial()),
            partial@.len() < node@.partial().len() <= usize::MAX,
        ensures
            *final(final(self).db) == *final(old(self).db),
            *final(final(self).root) == *final(old(self).root),
            old(self).cache_bounded() ==> final(self).cache_bounded(),
            final(self).root_digest() == old(self).root_digest(),
            grows(old(self).store(), final(self).store()),
            r is Err ==> r->Err_0 is IncompleteDatabase && final(self).store() == old(self).store()
                && (old(self).cache_ok() ==> final(self).cache_ok()),
            r is Ok ==> final(self).store().contains_key(r->Ok_0@),
            old(self).cache_ok() && branch_read(old(self).store(), hash, partial@, children@)
                ==> stopped(r, insert_stops_at(old(self).store(), Some(hash), node@.partial())),
            old(self).cache_ok() && branch_read(old(self).store(), hash, partial@, children@)
                && insert_stops_at(old(self).store(), Some(hash), node@.partial()) is None
                ==> set_done(
                r,
                final(self).store(),
                bytes_of(*old(old_val)),
                bytes_of(*final(old_val)),
                set_change(old(self).store(), Some(hash), node@, true),
            ),
            t is Branch && t->Branch_partial == partial@ && t.stored(old(self).store())
                && t.height_ok(height) && slots_of(children@, t->Branch_children)
                && g.node() == node@ && children_stored(g, old(self).store()) && graft_fits(
                Some(t),
                g,
            ) && old(self).cache_ok() ==> grafted(
                old(self).store(),
                old(self).cache_ok(),
                bytes_of(*old(old_val)),
                final(self).store(),
                final(self).cache_ok(),
                bytes_of(*final(old_val)),
                r,
                Some(t),
                g,
                universe,
            ),
        decreases 1nat, node@.partial().len(), 0nat,
    {
        let ghost store0 = old(self).store();
        let ghost given = t is Branch && t->Branch_partial == partial@ && t.stored(store0)
            && t.height_ok(height) && slots_of(children@, t->Branch_children)
            && g.node() == node@ && children_stored(g, store0) && graft_fits(Some(t), g) && old(
            self,
        ).cache_ok();
        let ghost after = graft(Some(t), g);
        let ghost tight = sealed(store0, universe) && after.within(universe);
        let path = node.partial();
        let mut children = children;
        let common: usize = partial.len();
        let new_path = path.mid(common);
        let slot: usize = new_path.at(0) as usize;
        let ghost kids = t->Branch_children;
        let ghost sub = g.with_partial(path@.skip(common + 1));
        let ghost below = graft(kids[slot as int], sub);
        let ghost after_kids = kids.update(slot as int, Some(below));
        let ghost branch = Subtrie::Branch { partial: partial@, children: after_kids };
        proof {
            lemma_common_prefix(partial@, path@);
            lemma_with_partial_node(g, path@.skip(common + 1));
            assert(digest_view(children[slot as int]) == children_view(children@)[slot as int]);
            if given {
                assert(after == branch);
                assert(after_kids[slot as int] == Some(below));
                if kids[slot as int] is Some {
                    assert(kids[slot as int]->0.stored(store0));
                }
            }
        }
        let b = match self.insert_raw_aux(
            node.mid(common + 1),
            children[slot],
            old_val,
            Ghost(kids[slot as int]),
            Ghost(sub),
            Ghost((height - common - 1) as nat),
            Ghost(universe),
        ) {
            Ok(b) => b,
            Err(e) => {
                return Err(e);
            },
        };
        let ghost before = children@;
        children[slot] = Some(b);
        let ghost mid1 = self.store();
        proof {
            assert(children_view(children@) =~= children_view(before).update(
                slot as int,
                Some(b@),
            ));
            assert(partial@.take(common as int) =~= partial@);
            if given {
                assert(slots_of(children@, after_kids)) by {
                    assert forall|i: int| 0 <= i < 16 implies (match (#[trigger] children@[i]) {
                        Some(h) => after_kids[i] is Some && after_kids[i]->0.digest() == h@,
                        None => after_kids[i] is None,
                    }) by {
                        if i != slot {
                            assert(children@[i] == before[i]);
                        }
                    }
                }
                assert(partial@.take(common as int) =~= partial@);
            }
        }
        let h = self.put_branch(partial, common, children, Ghost(branch), Ghost(universe));
        proof {
            if given && tight {
                let now = self.store();
                lemma_stored_grows(t, store0, now);
                lemma_stored_grows(below, mid1, now);
                assert forall|i: int|
                    0 <= i < 16 && (#[trigger] after_kids[i]) is Some implies after_kids[i]->0.stored(
                    now,
                ) by {
                    if i != slot {
                        assert(kids[i] is Some);
                    }
                }
            }
        }
        Ok(h)
    }

    /// Sets `node`, the topmost node of a subtrie that the store holds the rest
    /// of, into what lies below the node at `cur_node_hash`, at the path that is
    /// the prefix of `node`, and returns the digest of the node that takes the
    /// place of the one at `cur_node_hash`. The written form of a leaf that
    /// stood at that path goes to `old_val`.
    fn insert_raw_aux(
        &mut self,
        node: Node<'_>,
        cur_node_hash: Option<H256>,
        old_val: &mut Option<Vec<u8>>,
        Ghost(t): Ghost<Option<Subtrie>>,
        Ghost(g): Ghost<Subtrie>,
        Ghost(height): Ghost<nat>,
        Ghost(universe): Ghost<Set<Seq<u8>>>,
    ) -> (r: Result<H256, TrieError>)
        ensures
            *final(final(self).db) == *final(old(self).db),
            *final(final(self).root) == *final(old(self).root),
            old(self).cache_bounded() ==> final(self).cache_bounded(),
            final(self).root_digest() == old(self).root_digest(),
            grows(old(self).store(), final(self).store()),
            r is Err ==> r->Err_0 is IncompleteDatabase && final(self).store() == old(self).store()
                && (old(self).cache_ok() ==> final(self).cache_ok()),
            r is Ok ==> final(self).store().contains_key(r->Ok_0@),
            cur_node_hash is None || old(self).cache_ok() ==> stopped(
                r,
                insert_stops_at(old(self).store(), digest_view(cur_node_hash), node@.partial()),
            ),
            (cur_node_hash is None || old(self).cache_ok()) && insert_stops_at(
                old(self).store(),
                digest_view(cur_node_hash),
                node@.partial(),
            ) is None ==> set_done(
                r,
                final(self).store(),
                bytes_of(*old(old_val)),
                bytes_of(*final(old_val)),
                set_change(old(self).store(), digest_view(cur_node_hash), node@, true),
            ),
            holds(old(self).store(), cur_node_hash, t, height) && g.node()
                == node@ && children_stored(g, old(self).store()) && graft_fits(t, g) && (
            cur_node_hash is None || old(self).cache_ok()) ==> grafted(
                old(self).store(),
                old(self).cache_ok(),
                bytes_of(*old(old_val)),
                final(self).store(),
                final(self).cache_ok(),
                bytes_of(*final(old_val)),
                r,
                t,
                g,
                universe,
            ),
        decreases
                (if cur_node_hash is Some {
                    1nat
                } else {
                    0nat
                }),
                node@.partial().len(),
                1nat,
    {
        let ghost store0 = old(self).store();
        let ghost given = holds(store0, cur_node_hash, t, height) && g.node()
            == node@ && children_stored(g, store0) && graft_fits(t, g) && (cur_node_hash is None
            || old(self).cache_ok());
        let path = node.partial();
        let hash = match cur_node_hash {
            Some(hash) => hash,
            None => {
                return Ok(self.put_graft(node, Ghost(g), Ghost(universe)));
            },
        };
        let existing_node_rlp = match self.read_cached(&hash) {
            Some(existing_node_rlp) => existing_node_rlp,
            None => {
                return Err(TrieError::IncompleteDatabase(hash));
            },
        };
        proof {
            if given {
                lemma_stored_valid(t->0, store0, height);
                lemma_node_round_trip(t->0.node());
            }
        }
        match Node::decoded(existing_node_rlp.as_slice()) {
            Some(Node::Leaf(partial, value)) => {
                proof {
                    lemma_common_prefix(partial@, path@);
                }
                if partial.equals(&path) {
                    let h = self.put_graft(node, Ghost(g), Ghost(universe));
                    *old_val = Some(slice_to_vec(existing_node_rlp.as_slice()));
                    Ok(h)
                } else {
                    let common: usize = partial.common_prefix(&path);
                    if common >= partial.len() || common >= path.len() {
                        return Err(TrieError::IncompleteDatabase(hash));
                    }
                    self.graft_split_leaf(
                        partial,
                        value,
                        node,
                        common,
                        old_val,
                        Ghost(hash@),
                        Ghost(g),
                        Ghost(universe),
                    )
                }
            },
            Some(Node::Branch(partial, children)) => {
                proof {
                    lemma_common_prefix(partial@, path@);
                    if given {
                        lemma_slots_of(children@, t->0);
                    }
                }
                let common: usize = partial.common_prefix(&path);
                if common >= path.len() {
                    return Err(TrieError::IncompleteDatabase(hash));
                }
                if common < partial.len() {
                    self.graft_split_branch(
                        partial,
                        children,
                        node,
                        common,
                        old_val,
                        Ghost(hash@),
                        Ghost(t->0),
                        Ghost(g),
                        Ghost(universe),
                    )
                } else {
                    self.graft_below(
                        partial,
                        children,
                        node,
                        old_val,
                        Ghost(hash@),
                        Ghost(t->0),
                        Ghost(g),
                        Ghost(height),
                        Ghost(universe),
                    )
                }
            },
            None => Ok(self.put_graft(node, Ghost(g), Ghost(universe))),
        }
    }
}

} // verus!
