//! The least-recently-used cache of the `lru` crate, as the local store uses it.
//!
//! Everything here is trusted: the contracts say what the crate's source does to the
//! entries of a cache, listed from the least to the most recently used.

use vstd::prelude::*;

use crate::hash::Key;

use lru::LruCache;
use std::num::NonZeroUsize;

verus! {

/// Declares `lru::LruCache`; nothing is claimed of its inside.
#[verifier::external_type_specification]
#[verifier::external_body]
#[verifier::reject_recursive_types(K)]
#[verifier::reject_recursive_types(V)]
#[verifier::reject_recursive_types(S)]
pub struct ExLruCache<K, V, S>(LruCache<K, V, S>);

/// Declares `lru::DefaultHasher`, the hasher of a cache made by `LruCache::new`.
#[verifier::external_type_specification]
#[verifier::external_body]
pub struct ExDefaultHasher(lru::DefaultHasher);

/// The entries of a cache, least recently used first.
pub uninterp spec fn lru_entries(cache: LruCache<Key, Vec<u8>>) -> Seq<(Key, Seq<u8>)>;

/// The number of entries a cache was made to hold.
pub uninterp spec fn lru_capacity(cache: LruCache<Key, Vec<u8>>) -> nat;

/// Whether some entry has this key.
pub open spec fn has_key(entries: Seq<(Key, Seq<u8>)>, key: Key) -> bool {
    exists|i: int| 0 <= i < entries.len() && #[trigger] entries[i].0 == key
}

/// The index of an entry with this key.
pub open spec fn key_index(entries: Seq<(Key, Seq<u8>)>, key: Key) -> int {
    choose|i: int| 0 <= i < entries.len() && #[trigger] entries[i].0 == key
}

/// Calls `LruCache::new`: the new cache is empty and holds up to `capacity` entries. It makes
/// room for all of them at once; the bound leaves out capacities for which that could fail.
#[verifier::external_body]
pub(crate) fn lru_new(capacity: usize) -> (cache: LruCache<Key, Vec<u8>>)
    requires
        0 < capacity <= 1_000_000,
    ensures
        lru_entries(cache) == Seq::<(Key, Seq<u8>)>::empty(),
        lru_capacity(cache) == capacity,
{
    LruCache::new(NonZeroUsize::new(capacity).unwrap())
}

/// Calls `LruCache::len`: the number of entries.
#[verifier::external_body]
pub(crate) fn lru_len(cache: &LruCache<Key, Vec<u8>>) -> (len: usize)
    ensures
        len == lru_entries(*cache).len(),
{
    cache.len()
}

/// Calls `LruCache::pop`: removes the entry with this key, if there is one, and returns
/// its value. The other entries keep their order.
#[verifier::external_body]
pub(crate) fn lru_pop(cache: &mut LruCache<Key, Vec<u8>>, key: &Key) -> (value: Option<Vec<u8>>)
    ensures
        lru_capacity(*final(cache)) == lru_capacity(*old(cache)),
        match value {
            Some(v) => {
                let i = key_index(lru_entries(*old(cache)), *key);
                &&& has_key(lru_entries(*old(cache)), *key)
                &&& v@ == lru_entries(*old(cache))[i].1
                &&& lru_entries(*final(cache)) == lru_entries(*old(cache)).remove(i)
            },
            None => {
                &&& !has_key(lru_entries(*old(cache)), *key)
                &&& lru_entries(*final(cache)) == lru_entries(*old(cache))
            },
        },
{
    cache.pop(key)
}

/// Calls `LruCache::put`: an entry with this key gets the new value and becomes the most
/// recently used. Otherwise a new entry becomes the most recently used, and when the
/// cache was full the least recently used entry is dropped for it.
#[verifier::external_body]
pub(crate) fn lru_put(cache: &mut LruCache<Key, Vec<u8>>, key: Key, value: Vec<u8>) -> (replaced:
    Option<Vec<u8>>)
    ensures
        lru_capacity(*final(cache)) == lru_capacity(*old(cache)),
        match replaced {
            Some(v) => {
                let i = key_index(lru_entries(*old(cache)), key);
                &&& has_key(lru_entries(*old(cache)), key)
                &&& v@ == lru_entries(*old(cache))[i].1
                &&& lru_entries(*final(cache)) == lru_entries(*old(cache)).remove(i).push(
                    (key, value@),
                )
            },
            None => {
                &&& !has_key(lru_entries(*old(cache)), key)
                &&& lru_entries(*final(cache)) == if lru_entries(*old(cache)).len()
                    == lru_capacity(*old(cache)) {
                    lru_entries(*old(cache)).drop_first().push((key, value@))
                } else {
                    lru_entries(*old(cache)).push((key, value@))
                }
            },
        },
{
    cache.put(key, value)
}

/// Calls `LruCache::get` and copies the value out: an entry with this key becomes the most
/// recently used, and its value is returned.
#[verifier::external_body]
pub(crate) fn lru_get(cache: &mut LruCache<Key, Vec<u8>>, key: &Key) -> (value: Option<Vec<u8>>)
    ensures
        lru_capacity(*final(cache)) == lru_capacity(*old(cache)),
        match value {
            Some(v) => {
                let i = key_index(lru_entries(*old(cache)), *key);
                &&& has_key(lru_entries(*old(cache)), *key)
                &&& v@ == lru_entries(*old(cache))[i].1
                &&& lru_entries(*final(cache)) == lru_entries(*old(cache)).remove(i).push(
                    lru_entries(*old(cache))[i],
                )
            },
            None => {
                &&& !has_key(lru_entries(*old(cache)), *key)
                &&& lru_entries(*final(cache)) == lru_entries(*old(cache))
            },
        },
{
    cache.get(key).cloned()
}

/// Calls `LruCache::pop_lru`: removes and returns the least recently used entry.
#[verifier::external_body]
pub(crate) fn lru_pop_lru(cache: &mut LruCache<Key, Vec<u8>>) -> (entry: Option<(Key, Vec<u8>)>)
    ensures
        lru_capacity(*final(cache)) == lru_capacity(*old(cache)),
        match entry {
            Some((k, v)) => {
                &&& lru_entries(*old(cache)).len() > 0
                &&& (k, v@) == lru_entries(*old(cache))[0]
                &&& lru_entries(*final(cache)) == lru_entries(*old(cache)).drop_first()
            },
            None => {
                &&& lru_entries(*old(cache)).len() == 0
                &&& lru_entries(*final(cache)) == lru_entries(*old(cache))
            },
        },
{
    cache.pop_lru()
}

} // verus!
