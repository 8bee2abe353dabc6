//! The bounded cache of written nodes that a mutable trie reads through.

use crate::hash::H256;
use lru_cache::LruCache;
use std::collections::hash_map::RandomState;
use std::hash::BuildHasher;
use std::hash::Hash;
use vstd::prelude::*;

verus! {

/// `lru_cache::LruCache`, held as a value that nothing is known of but what the
/// functions below state.
#[verifier::external_type_specification]
#[verifier::external_body]
#[verifier::reject_recursive_types(K)]
#[verifier::reject_recursive_types(V)]
#[verifier::reject_recursive_types(S)]
pub struct ExLruCache<K: Eq + Hash, V, S: BuildHasher>(LruCache<K, V, S>);

/// What a cache holds: the bytes under each digest.
pub uninterp spec fn cached(cache: LruCache<[u8; 32], Vec<u8>, RandomState>) -> Map<
    Seq<u8>,
    Seq<u8>,
>;

/// The number of entries that a cache was made to hold at most.
pub uninterp spec fn cache_limit(cache: LruCache<[u8; 32], Vec<u8>, RandomState>) -> nat;

/// Whether a cache holds no more entries than it was made to hold.
pub open spec fn within_limit(cache: LruCache<[u8; 32], Vec<u8>, RandomState>) -> bool {
    cached(cache).dom().finite() && cached(cache).len() <= cache_limit(cache)
}

/// `LruCache::new`: a cache that holds nothing yet and is to hold at most
/// `capacity` entries.
#[verifier::external_body]
pub(crate) fn cache_new(capacity: usize) -> (cache: LruCache<[u8; 32], Vec<u8>, RandomState>)
    ensures
        cached(cache).dom() == Set::<Seq<u8>>::empty(),
        cache_limit(cache) == capacity,
{
    LruCache::new(capacity)
}

/// `LruCache::get_mut`, with a copy of the bytes found: the bytes under `key`
/// if the cache holds any. The look-up marks the entry as used and leaves what
/// the cache holds as it was.
#[verifier::external_body]
pub(crate) fn cache_get(cache: &mut LruCache<[u8; 32], Vec<u8>, RandomState>, key: &H256) -> (r:
    Option<Vec<u8>>)
    ensures
        cached(*final(cache)) == cached(*old(cache)),
        cache_limit(*final(cache)) == cache_limit(*old(cache)),
        r is Some == cached(*old(cache)).contains_key(key@),
        r is Some ==> r->0@ == cached(*old(cache))[key@],
{
    cache.get_mut(&key.0).map(|bytes| bytes.to_vec())
}

/// `LruCache::insert`: afterwards the cache holds `value` under `key` and what
/// it held before under other digests, but for entries that it dropped to keep
/// within its capacity. Which entries it dropped is left open; a cache that
/// was within its capacity is within it again.
#[verifier::external_body]
pub(crate) fn cache_insert(
    cache: &mut LruCache<[u8; 32], Vec<u8>, RandomState>,
    key: &H256,
    value: Vec<u8>,
)
    ensures
        cache_limit(*final(cache)) == cache_limit(*old(cache)),
        within_limit(*old(cache)) ==> within_limit(*final(cache)),
        forall|k: Seq<u8>| #[trigger]
            cached(*final(cache)).contains_key(k) ==> cached(*old(cache)).insert(
                key@,
                value@,
            ).contains_key(k) && cached(*final(cache))[k] == cached(*old(cache)).insert(
                key@,
                value@,
            )[k],
{
    cache.insert(key.0, value);
}

} // verus!
