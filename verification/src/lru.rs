//! The least-recently-used cache that the raster cache keeps its cells in.
//!
//! The cache comes from the `lru_cache` crate. Nothing in this file is
//! proved: each item states what the crate's source shows of one method.

use lru_cache::LruCache;
use std::hash::{BuildHasher, Hash};
use vstd::prelude::*;

verus! {

#[verifier::external_type_specification]
#[verifier::external_body]
#[verifier::reject_recursive_types(K)]
#[verifier::reject_recursive_types(V)]
#[verifier::reject_recursive_types(S)]
pub struct ExLruCache<K: Eq + Hash, V, S: BuildHasher>(LruCache<K, V, S>);

/// The entries of a cache from cells to slot numbers, the entry that was
/// used least recently first.
pub uninterp spec fn lru_entries(cache: LruCache<(i16, i16), usize>) -> Seq<((i16, i16), usize)>;

/// The number of entries that the cache was made to hold.
pub uninterp spec fn lru_capacity(cache: LruCache<(i16, i16), usize>) -> nat;

/// Whether some entry of `entries` has the key `key`.
pub open spec fn has_cell(entries: Seq<((i16, i16), usize)>, key: (i16, i16)) -> bool {
    exists|i: int| 0 <= i < entries.len() && (#[trigger] entries[i]).0 == key
}

/// `LruCache::new`: an empty cache for at most `capacity` entries.
#[verifier::external_body]
pub(crate) fn lru_new(capacity: usize) -> (cache: LruCache<(i16, i16), usize>)
    ensures
        lru_entries(cache) == Seq::<((i16, i16), usize)>::empty(),
        lru_capacity(cache) == capacity,
{
    LruCache::new(capacity)
}

/// `LruCache::len`: the number of entries.
#[verifier::external_body]
pub(crate) fn lru_len(cache: &LruCache<(i16, i16), usize>) -> (len: usize)
    ensures
        len == lru_entries(*cache).len(),
{
    cache.len()
}

/// `LruCache::capacity`: the number of entries that the cache was made to
/// hold.
#[verifier::external_body]
pub(crate) fn lru_limit(cache: &LruCache<(i16, i16), usize>) -> (capacity: usize)
    ensures
        capacity == lru_capacity(*cache),
{
    cache.capacity()
}

/// `LruCache::get_mut`: the value of the entry with the given key, which
/// becomes the most recently used entry; `None`, and no change, where no
/// entry has that key.
#[verifier::external_body]
pub(crate) fn lru_get(cache: &mut LruCache<(i16, i16), usize>, key: (i16, i16)) -> (value: Option<
    usize,
>)
    ensures
        lru_capacity(*final(cache)) == lru_capacity(*old(cache)),
        value is None ==> !has_cell(lru_entries(*old(cache)), key) && lru_entries(*final(cache))
            == lru_entries(*old(cache)),
        value is Some ==> exists|i: int|
            0 <= i < lru_entries(*old(cache)).len() && #[trigger] lru_entries(*old(cache))[i] == (
                key,
                value.unwrap(),
            ) && lru_entries(*final(cache)) == lru_entries(*old(cache)).remove(i).push(
                (key, value.unwrap()),
            ),
{
    cache.get_mut(&key).copied()
}

/// `LruCache::insert`, for a key that the cache does not hold and a cache
/// that is not full: the new entry becomes the most recently used one, and
/// the others stay as they are.
#[verifier::external_body]
pub(crate) fn lru_insert(cache: &mut LruCache<(i16, i16), usize>, key: (i16, i16), value: usize)
    requires
        !has_cell(lru_entries(*old(cache)), key),
        lru_entries(*old(cache)).len() < lru_capacity(*old(cache)),
    ensures
        lru_capacity(*final(cache)) == lru_capacity(*old(cache)),
        lru_entries(*final(cache)) == lru_entries(*old(cache)).push((key, value)),
{
    cache.insert(key, value);
}

/// `LruCache::remove_lru`: takes the least recently used entry out and
/// returns it; an empty cache gives `None`.
#[verifier::external_body]
pub(crate) fn lru_remove_lru(cache: &mut LruCache<(i16, i16), usize>) -> (entry: Option<
    ((i16, i16), usize),
>)
    ensures
        lru_capacity(*final(cache)) == lru_capacity(*old(cache)),
        lru_entries(*old(cache)).len() == 0 ==> entry is None && lru_entries(*final(cache))
            == lru_entries(*old(cache)),
        lru_entries(*old(cache)).len() > 0 ==> entry == Some(lru_entries(*old(cache))[0])
            && lru_entries(*final(cache)) == lru_entries(*old(cache)).subrange(
            1,
            lru_entries(*old(cache)).len() as int,
        ),
{
    cache.remove_lru()
}

} // verus!
