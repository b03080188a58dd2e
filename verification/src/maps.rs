//! Hash maps with the hasher of the `fxhash` crate: the outside types, and the calls that are made
//! on them. What a map holds is its view, a map from keys to values.
use fxhash::FxHashMap;
use fxhash::FxHasher;
use std::hash::BuildHasherDefault;
use vstd::prelude::*;

verus! {

/// The builder that makes default hashers.
#[verifier::external_type_specification]
#[verifier::external_body]
#[verifier::reject_recursive_types(T)]
pub struct ExBuildHasherDefault<T>(BuildHasherDefault<T>);

/// The hasher of the `fxhash` crate.
#[verifier::external_type_specification]
#[verifier::external_body]
pub struct ExFxHasher(FxHasher);

/// Calls `FxHashMap::default`: the result holds nothing.
#[verifier::external_body]
pub(crate) fn map_new<V>() -> (map: FxHashMap<usize, V>)
    ensures
        map@.dom() == Set::<usize>::empty(),
{
    FxHashMap::default()
}

/// Calls `HashMap::get`: the value that is held for a key, if any.
#[verifier::external_body]
pub(crate) fn map_get<'a, V>(map: &'a FxHashMap<usize, V>, key: usize) -> (value: Option<&'a V>)
    ensures
        match value {
            Some(value) => map@.dom().contains(key) && *value == map@[key],
            None => !map@.dom().contains(key),
        },
{
    map.get(&key)
}

/// Calls `HashMap::get_mut`: access to the value that is held for a key, if any. What is written
/// to it is held for that key from then on, and nothing else changes.
#[verifier::external_body]
pub(crate) fn map_get_mut<'a, V>(map: &'a mut FxHashMap<usize, V>, key: usize) -> (value: Option<
    &'a mut V,
>)
    ensures
        match value {
            Some(value) => old(map)@.dom().contains(key) && *value == old(map)@[key] && final(map)@
                == old(map)@.insert(key, *final(value)),
            None => !old(map)@.dom().contains(key) && final(map)@ == old(map)@,
        },
{
    map.get_mut(&key)
}

/// Calls `HashMap::insert`: the value is held for the key from then on, in place of an earlier
/// one.
#[verifier::external_body]
pub(crate) fn map_insert<V>(map: &mut FxHashMap<usize, V>, key: usize, value: V)
    ensures
        final(map)@ == old(map)@.insert(key, value),
{
    map.insert(key, value);
}

/// Calls `HashMap::remove`: nothing is held for the key from then on.
#[verifier::external_body]
pub(crate) fn map_remove<V>(map: &mut FxHashMap<usize, V>, key: usize)
    ensures
        final(map)@ == old(map)@.remove(key),
{
    map.remove(&key);
}

/// Calls `HashMap::clear`: nothing is held from then on.
#[verifier::external_body]
pub(crate) fn map_clear<V>(map: &mut FxHashMap<usize, V>)
    ensures
        final(map)@.dom() == Set::<usize>::empty(),
{
    map.clear();
}

/// Calls `HashMap::len`: the number of keys for which a value is held.
#[verifier::external_body]
pub(crate) fn map_len<V>(map: &FxHashMap<usize, V>) -> (len: usize)
    ensures
        len == map@.dom().len(),
{
    map.len()
}

/// Calls `HashMap::keys`: every key for which a value is held, once each. The order is left open.
#[verifier::external_body]
pub(crate) fn map_keys<V>(map: &FxHashMap<usize, V>) -> (keys: Vec<usize>)
    ensures
        keys@.no_duplicates(),
        keys@.to_set() == map@.dom(),
        keys@.len() == map@.dom().len(),
{
    map.keys().copied().collect()
}

} // verus!
