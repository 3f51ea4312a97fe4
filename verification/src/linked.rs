//! The insertion-ordered hash map that the tile caches keep their keys in.
//!
//! The map comes from the `linked_hash_map` crate. Nothing in this file is
//! proved: each item states what the crate's source shows of one method.

use linked_hash_map::LinkedHashMap;
use vstd::prelude::*;

verus! {

#[verifier::external_type_specification]
#[verifier::external_body]
#[verifier::reject_recursive_types(K)]
#[verifier::reject_recursive_types(V)]
#[verifier::reject_recursive_types(S)]
pub struct ExLinkedHashMap<K, V, S>(LinkedHashMap<K, V, S>);

/// The entries of a map from keys to slot numbers, in list order: the entry
/// at the front, which `pop_front` takes, comes first, and the entry that
/// was inserted last comes last.
pub uninterp spec fn linked_entries(map: LinkedHashMap<u64, usize>) -> Seq<(u64, usize)>;

/// Whether some entry of `entries` has the key `key`.
pub open spec fn has_key(entries: Seq<(u64, usize)>, key: u64) -> bool {
    exists|i: int| 0 <= i < entries.len() && (#[trigger] entries[i]).0 == key
}

/// `LinkedHashMap::new`: the new map has no entries.
#[verifier::external_body]
pub(crate) fn linked_new() -> (map: LinkedHashMap<u64, usize>)
    ensures
        linked_entries(map) == Seq::<(u64, usize)>::empty(),
{
    LinkedHashMap::new()
}

/// `LinkedHashMap::len`: the number of entries.
#[verifier::external_body]
pub(crate) fn linked_len(map: &LinkedHashMap<u64, usize>) -> (len: usize)
    ensures
        len == linked_entries(*map).len(),
{
    map.len()
}

/// `LinkedHashMap::get`: the value of an entry with the given key, or `None`
/// where no entry has that key. The map is left as it was.
#[verifier::external_body]
pub(crate) fn linked_get(map: &LinkedHashMap<u64, usize>, key: u64) -> (value: Option<usize>)
    ensures
        value is Some <==> has_key(linked_entries(*map), key),
        value is Some ==> linked_entries(*map).contains((key, value.unwrap())),
{
    map.get(&key).copied()
}

/// `LinkedHashMap::insert`, for a key that the map does not hold: the new
/// entry goes to the back of the list, and the others stay as they are.
#[verifier::external_body]
pub(crate) fn linked_insert(map: &mut LinkedHashMap<u64, usize>, key: u64, value: usize)
    requires
        !has_key(linked_entries(*old(map)), key),
    ensures
        linked_entries(*final(map)) == linked_entries(*old(map)).push((key, value)),
{
    map.insert(key, value);
}

/// `LinkedHashMap::pop_front`: takes the entry at the front of the list out
/// and returns it; an empty map gives `None`.
#[verifier::external_body]
pub(crate) fn linked_pop_front(map: &mut LinkedHashMap<u64, usize>) -> (front: Option<
    (u64, usize),
>)
    ensures
        linked_entries(*old(map)).len() == 0 ==> front is None && linked_entries(*final(map))
            == linked_entries(*old(map)),
        linked_entries(*old(map)).len() > 0 ==> front == Some(linked_entries(*old(map))[0])
            && linked_entries(*final(map)) == linked_entries(*old(map)).subrange(
            1,
            linked_entries(*old(map)).len() as int,
        ),
{
    map.pop_front()
}

} // verus!
