//! The store that a trie keeps its nodes in: byte strings, each found again
//! under its digest.

use crate::hash::{blake256, digest_of, H256};
use vstd::prelude::*;
use vstd::slice::slice_to_vec;

verus! {

/// The store after `value` was put into it: where its digest is already taken
/// the store stays as it is, else the value stands under its digest.
pub open spec fn put(store: Map<Seq<u8>, Seq<u8>>, value: Seq<u8>) -> Map<Seq<u8>, Seq<u8>> {
    if store.contains_key(digest_of(value)) {
        store
    } else {
        store.insert(digest_of(value), value)
    }
}

/// Whether `after` holds all that `before` holds, unchanged.
pub open spec fn grows(before: Map<Seq<u8>, Seq<u8>>, after: Map<Seq<u8>, Seq<u8>>) -> bool {
    forall|h: Seq<u8>| #[trigger]
        before.contains_key(h) ==> after.contains_key(h) && after[h] == before[h]
}

/// A content-addressed store of byte strings.
pub trait HashDB {
    /// What the store holds: the bytes under each digest.
    spec fn contents(&self) -> Map<Seq<u8>, Seq<u8>>;

    /// The bytes under `key`, if the store holds any.
    fn get(&self, key: &H256) -> (r: Option<Vec<u8>>)
        ensures
            r is Some == self.contents().contains_key(key@),
            r is Some ==> r->0@ == self.contents()[key@],
    ;

    /// Whether the store holds bytes under `key`.
    fn contains(&self, key: &H256) -> (r: bool)
        ensures
            r == self.contents().contains_key(key@),
    ;

    /// Puts `value` into the store and returns its digest.
    fn insert(&mut self, value: &[u8]) -> (h: H256)
        ensures
            h@ == digest_of(value@),
            final(self).contents() == put(old(self).contents(), value@),
    ;
}

/// The map that a list of entries stands for: of two entries with one key the
/// earlier counts.
pub open spec fn entries_map(entries: Seq<(H256, Vec<u8>)>) -> Map<Seq<u8>, Seq<u8>>
    decreases entries.len(),
{
    if entries.len() == 0 {
        Map::empty()
    } else {
        entries_map(entries.skip(1)).insert(entries[0].0@, entries[0].1@)
    }
}

/// An entry under a new key, added at the end, adds that key to the map.
pub proof fn lemma_entries_push(entries: Seq<(H256, Vec<u8>)>, entry: (H256, Vec<u8>))
    requires
        !entries_map(entries).contains_key(entry.0@),
    ensures
        entries_map(entries.push(entry)) == entries_map(entries).insert(entry.0@, entry.1@),
    decreases entries.len(),
{
    let longer = entries.push(entry);
    if entries.len() == 0 {
        assert(longer.skip(1).len() == 0);
        assert(entries_map(longer.skip(1)) =~= Map::<Seq<u8>, Seq<u8>>::empty());
        assert(longer[0] == entry);
        assert(entries_map(longer) =~= entries_map(entries).insert(entry.0@, entry.1@));
    } else {
        lemma_entries_push(entries.skip(1), entry);
        assert(longer.skip(1) =~= entries.skip(1).push(entry));
        assert(entries_map(longer) =~= entries_map(entries).insert(entry.0@, entry.1@));
    }
}

/// A store that lives in memory.
pub struct MemoryDB {
    entries: Vec<(H256, Vec<u8>)>,
}

impl MemoryDB {
    /// A store that holds nothing.
    pub fn new() -> (r: MemoryDB)
        ensures
            r.contents() == Map::<Seq<u8>, Seq<u8>>::empty(),
    {
        MemoryDB { entries: Vec::new() }
    }

    /// The position of the first entry under `key`, if there is one.
    fn find(&self, key: &H256) -> (r: Option<usize>)
        ensures
            r is Some == self.contents().contains_key(key@),
            r is Some ==> r->0 < self.entries@.len() && self.entries@[r->0 as int].1@
                == self.contents()[key@],
    {
        let mut i: usize = 0;
        assert(self.entries@.skip(0) =~= self.entries@);
        while i < self.entries.len()
            invariant
                i <= self.entries@.len(),
                self.contents().contains_key(key@) == entries_map(
                    self.entries@.skip(i as int),
                ).contains_key(key@),
                self.contents().contains_key(key@) ==> self.contents()[key@] == entries_map(
                    self.entries@.skip(i as int),
                )[key@],
            decreases self.entries@.len() - i,
        {
            let ghost rest = self.entries@.skip(i as int);
            assert(rest[0] == self.entries@[i as int]);
            assert(rest.skip(1) =~= self.entries@.skip(i + 1));
            if self.entries[i].0 == *key {
                return Some(i);
            }
            i += 1;
        }
        None
    }
}

impl HashDB for MemoryDB {
    closed spec fn contents(&self) -> Map<Seq<u8>, Seq<u8>> {
        entries_map(self.entries@)
    }

    fn get(&self, key: &H256) -> (r: Option<Vec<u8>>) {
        match self.find(key) {
            Some(i) => Some(slice_to_vec(self.entries[i].1.as_slice())),
            None => None,
        }
    }

    fn contains(&self, key: &H256) -> (r: bool) {
        self.find(key).is_some()
    }

    fn insert(&mut self, value: &[u8]) -> (h: H256) {
        let h = blake256(value);
        if self.find(&h).is_none() {
            let entry = (h, slice_to_vec(value));
            proof {
                lemma_entries_push(self.entries@, entry);
            }
            self.entries.push(entry);
        }
        h
    }
}

} // verus!
