//! The concurrent hash maps that index keys and prefixes.
//!
//! The maps are `dashmap::DashMap` and `dashmap::DashSet`, keyed by byte
//! strings.  Verus sees a map through [`map_contents`] and a set through
//! [`set_contents`]; the functions below are the only calls into the crate,
//! and their contracts are taken on trust from its source.

use dashmap::{DashMap, DashSet};
use vstd::prelude::*;

verus! {

#[verifier::external_type_specification]
#[verifier::external_body]
#[verifier::reject_recursive_types(K)]
#[verifier::reject_recursive_types(V)]
#[verifier::reject_recursive_types(S)]
pub struct ExDashMap<K, V, S>(DashMap<K, V, S>);

#[verifier::external_type_specification]
#[verifier::external_body]
#[verifier::reject_recursive_types(K)]
#[verifier::reject_recursive_types(S)]
pub struct ExDashSet<K, S>(DashSet<K, S>);

/// A map from byte strings to positions in a vector.
pub type ByteMap = DashMap<Vec<u8>, usize>;

/// A set of byte strings.
pub type ByteSet = DashSet<Vec<u8>>;

/// The entries of a map from byte strings to positions.
pub uninterp spec fn map_contents(m: DashMap<Vec<u8>, usize>) -> Map<Seq<u8>, usize>;

/// The members of a set of byte strings.
pub uninterp spec fn set_contents(s: DashSet<Vec<u8>>) -> Set<Seq<u8>>;

/// `m` maps each name to its position in `names`, and nothing else.
pub open spec fn positions(m: Map<Seq<u8>, usize>, names: Seq<Seq<u8>>) -> bool {
    &&& forall|k: Seq<u8>| #[trigger]
        m.contains_key(k) ==> m[k] < names.len() && names[m[k] as int] == k
    &&& forall|i: int|
        0 <= i < names.len() ==> m.contains_key(#[trigger] names[i]) && m[names[i]] == i
}

/// The map without entries.
pub open spec fn no_entries() -> Map<Seq<u8>, usize> {
    Map::empty()
}

/// `DashMap::new()`: a map without entries.
#[verifier::external_body]
pub(crate) fn map_new() -> (m: ByteMap)
    ensures
        map_contents(m) == no_entries(),
{
    DashMap::new()
}

/// `DashMap::get`: the value stored under `key`, copied out of the guard
/// that the crate returns, or `None` where the map has no such key.
#[verifier::external_body]
pub(crate) fn map_get(m: &ByteMap, key: &[u8]) -> (r: Option<usize>)
    ensures
        r == if map_contents(*m).contains_key(key@) {
            Some(map_contents(*m)[key@])
        } else {
            None::<usize>
        },
{
    m.get(key).map(|entry| *entry.value())
}

/// `DashMap::insert`: afterwards `key` maps to `value`, and every other key
/// maps to what it did before.
#[verifier::external_body]
pub(crate) fn map_insert(m: &mut ByteMap, key: Vec<u8>, value: usize)
    ensures
        map_contents(*final(m)) == map_contents(*old(m)).insert(key@, value),
{
    m.insert(key, value);
}

/// `DashSet::contains`: whether `key` is a member.
#[verifier::external_body]
pub(crate) fn set_contains(s: &ByteSet, key: &[u8]) -> (r: bool)
    ensures
        r == set_contents(*s).contains(key@),
{
    s.contains(key)
}

} // verus!
