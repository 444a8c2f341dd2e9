//! Maps keyed by 64-bit hashes, kept in `nohash_hasher::IntMap`: a hash map
//! that takes the key itself for its hash value.
//!
//! What such a map holds is its view, a `Map` from keys to values. The
//! functions here make the calls and say what each does to that view.

use vstd::prelude::*;
use nohash_hasher::IntMap;

verus! {

/// `nohash_hasher::NoHashHasher`, the hasher that hands back the integer
/// written to it.
#[verifier::external_type_specification]
#[verifier::external_body]
#[verifier::reject_recursive_types(T)]
pub struct ExNoHashHasher<T>(nohash_hasher::NoHashHasher<T>);

/// `std::hash::BuildHasherDefault`, which makes a hasher from its `Default`.
#[verifier::external_type_specification]
#[verifier::external_body]
#[verifier::reject_recursive_types(H)]
pub struct ExBuildHasherDefault<H>(std::hash::BuildHasherDefault<H>);

/// `IntMap::default()`. Trusted: that the new map holds nothing.
#[verifier::external_body]
pub(crate) fn empty<V>() -> (made: IntMap<u64, V>)
    ensures
        forall|key: u64| !made@.contains_key(key),
{
    IntMap::default()
}

/// `HashMap::contains_key` on an `IntMap`. Trusted: that it tells whether
/// the map holds the key.
#[verifier::external_body]
pub(crate) fn contains_key<V>(map: &IntMap<u64, V>, key: u64) -> (held: bool)
    ensures
        held == map@.contains_key(key),
{
    map.contains_key(&key)
}

/// `HashMap::insert` on an `IntMap`. Trusted: that afterwards the map holds
/// `value` under `key` and is unchanged at every other key.
#[verifier::external_body]
pub(crate) fn insert<V>(map: &mut IntMap<u64, V>, key: u64, value: V)
    ensures
        final(map)@ == old(map)@.insert(key, value),
{
    map.insert(key, value);
}

/// `HashMap::get` on an `IntMap`. Trusted: that it hands out the value held
/// under the key, and `None` if the map does not hold the key.
#[verifier::external_body]
pub(crate) fn get<V>(map: &IntMap<u64, V>, key: u64) -> (value: Option<&V>)
    ensures
        match value {
            Some(v) => map@.contains_key(key) && *v == map@[key],
            None => !map@.contains_key(key),
        },
{
    map.get(&key)
}

} // verus!
