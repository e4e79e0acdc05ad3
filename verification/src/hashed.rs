//! The hashed collections of the tree, keyed by node index and hashed with
//! `ahash`. What is assumed of them is gathered here; everything is stated
//! over the `Set` or `Map` that vstd gives as the view of a collection.

use ahash::RandomState;
use std::collections::{HashMap, HashSet};
use vstd::prelude::*;

verus! {

/// `ahash::RandomState`, the hasher builder of every collection here.
#[verifier::external_type_specification]
#[verifier::external_body]
pub struct ExRandomState(ahash::RandomState);

/// Node indices, hashed with `ahash`.
pub type IdSet = HashSet<usize, RandomState>;

/// A map from node indices, hashed with `ahash`.
pub type IdMap<V> = HashMap<usize, V, RandomState>;

/// `std::collections::HashSet::insert`, on a set that hashes with
/// `ahash::RandomState`: the index is in the set afterwards, and the result
/// tells whether it was new.
#[verifier::external_body]
pub(crate) fn set_insert(set: &mut IdSet, id: usize) -> (fresh: bool)
    ensures
        final(set)@ == old(set)@.insert(id),
        fresh == !old(set)@.contains(id),
{
    set.insert(id)
}

/// `std::collections::HashSet::remove`, on a set that hashes with
/// `ahash::RandomState`: the index is not in the set afterwards, and the
/// result tells whether it was there.
#[verifier::external_body]
pub(crate) fn set_remove(set: &mut IdSet, id: usize) -> (found: bool)
    ensures
        final(set)@ == old(set)@.remove(id),
        found == old(set)@.contains(id),
{
    set.remove(&id)
}

/// `Clone::clone` of a `std::collections::HashSet` that hashes with
/// `ahash::RandomState`: the copy holds the same indices.
#[verifier::external_body]
pub(crate) fn set_copy(set: &IdSet) -> (copy: IdSet)
    ensures
        copy@ == set@,
{
    set.clone()
}

/// `std::collections::HashMap::insert`, on a map that hashes with
/// `ahash::RandomState`: the key maps to the value afterwards, and the
/// result is what it mapped to before.
#[verifier::external_body]
pub(crate) fn map_insert<V>(map: &mut IdMap<V>, key: usize, value: V) -> (previous: Option<V>)
    ensures
        final(map)@ == old(map)@.insert(key, value),
        previous == (if old(map)@.contains_key(key) {
            Some(old(map)@[key])
        } else {
            None
        }),
{
    map.insert(key, value)
}

/// `std::collections::HashMap::get`, on a map that hashes with
/// `ahash::RandomState`: the value that the key maps to, if any.
#[verifier::external_body]
pub(crate) fn map_get<V>(map: &IdMap<V>, key: usize) -> (value: Option<&V>)
    ensures
        value == (if map@.contains_key(key) {
            Some(&map@[key])
        } else {
            None
        }),
{
    map.get(&key)
}

/// `std::collections::HashMap::remove`, on a map that hashes with
/// `ahash::RandomState`: the key is not mapped afterwards, and the result is
/// what it mapped to before.
#[verifier::external_body]
pub(crate) fn map_remove<V>(map: &mut IdMap<V>, key: usize) -> (previous: Option<V>)
    ensures
        final(map)@ == old(map)@.remove(key),
        previous == (if old(map)@.contains_key(key) {
            Some(old(map)@[key])
        } else {
            None
        }),
{
    map.remove(&key)
}

/// `std::collections::HashMap::keys`, on a map that hashes with
/// `ahash::RandomState`: every key once, in the order in which the map
/// happens to be walked. Nothing is claimed of that order.
#[verifier::external_body]
pub(crate) fn map_keys<V>(map: &IdMap<V>) -> (keys: Vec<usize>)
    ensures
        keys@.no_duplicates(),
        forall|key: usize| keys@.contains(key) <==> map@.contains_key(key),
{
    map.keys().copied().collect()
}

} // verus!
