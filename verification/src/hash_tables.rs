//! Hash maps and sets keyed by structural hashes, hashed with FNV.
//!
//! The tables are `std` collections built on the `fnv` hasher. Their
//! behaviour is not proved here: each function below states what the
//! collection's documentation promises, over the table's view as a
//! mathematical map or set.
use vstd::prelude::*;
use fnv::{FnvHashMap, FnvHashSet, FnvHasher};

verus! {

/// `fnv::FnvHasher`, carried through opaquely.
#[verifier::external_type_specification]
#[verifier::external_body]
pub struct ExFnvHasher(FnvHasher);

/// `std::hash::BuildHasherDefault`, carried through opaquely.
#[verifier::external_type_specification]
#[verifier::external_body]
#[verifier::reject_recursive_types(H)]
pub struct ExBuildHasherDefault<H>(std::hash::BuildHasherDefault<H>);

/// `fnv::FnvHashMap::default`: a new map holds nothing.
#[verifier::external_body]
pub(crate) fn map_new<V>() -> (map: FnvHashMap<u64, V>)
    ensures
        map@.dom() == Set::<u64>::empty(),
{
    FnvHashMap::default()
}

/// `std::collections::HashMap::get` on an FNV-hashed map: the value stored
/// under `key`, if there is one.
#[verifier::external_body]
pub(crate) fn map_get<V: Copy>(map: &FnvHashMap<u64, V>, key: u64) -> (r: Option<V>)
    ensures
        r == if map@.contains_key(key) {
            Some(map@[key])
        } else {
            None
        },
{
    map.get(&key).copied()
}

/// `std::collections::HashMap::insert` on an FNV-hashed map: afterwards
/// `key` maps to `value` and every other key is as before.
#[verifier::external_body]
pub(crate) fn map_insert<V>(map: &mut FnvHashMap<u64, V>, key: u64, value: V)
    ensures
        final(map)@ == old(map)@.insert(key, value),
{
    map.insert(key, value);
}

/// `std::collections::HashMap::len` on an FNV-hashed map: the number of
/// keys.
#[verifier::external_body]
pub(crate) fn map_len<V>(map: &FnvHashMap<u64, V>) -> (r: usize)
    ensures
        r == map@.dom().len(),
{
    map.len()
}

/// `std::collections::HashMap::clear` on an FNV-hashed map: afterwards the
/// map holds nothing.
#[verifier::external_body]
pub(crate) fn map_clear<V>(map: &mut FnvHashMap<u64, V>)
    ensures
        final(map)@.dom() == Set::<u64>::empty(),
{
    map.clear();
}

/// `fnv::FnvHashSet::default`: a new set holds nothing.
#[verifier::external_body]
pub(crate) fn set_new() -> (set: FnvHashSet<u64>)
    ensures
        set@ == Set::<u64>::empty(),
{
    FnvHashSet::default()
}

/// `std::collections::HashSet::contains` on an FNV-hashed set: whether
/// `key` is in the set.
#[verifier::external_body]
pub(crate) fn set_contains(set: &FnvHashSet<u64>, key: u64) -> (r: bool)
    ensures
        r == set@.contains(key),
{
    set.contains(&key)
}

/// `std::collections::HashSet::insert` on an FNV-hashed set: afterwards
/// `key` is in the set beside what was there.
#[verifier::external_body]
pub(crate) fn set_insert(set: &mut FnvHashSet<u64>, key: u64)
    ensures
        final(set)@ == old(set)@.insert(key),
{
    set.insert(key);
}

} // verus!
