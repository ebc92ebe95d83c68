//! The integer-keyed hash map of the `intmap` crate, seen through the
//! contents that its operations read and write.
use vstd::prelude::*;
use intmap::IntMap;

verus! {

#[verifier::external_type_specification]
#[verifier::external_body]
#[verifier::reject_recursive_types(V)]
pub struct ExIntMap<V>(IntMap<V>);

/// The key-to-count pairs that a map of counters holds.
pub uninterp spec fn counter_contents(m: IntMap<u64>) -> Map<u64, u64>;

/// The key-to-list pairs that a map of position lists holds.
pub uninterp spec fn list_contents(m: IntMap<Vec<usize>>) -> Map<u64, Seq<usize>>;

/// Relies on `IntMap::new`: a new map holds no key.
#[verifier::external_body]
pub(crate) fn counters_new() -> (r: IntMap<u64>)
    ensures
        counter_contents(r).dom().is_empty(),
{
    IntMap::new()
}

/// Relies on `IntMap::get`: the value stored under `key`, if any.
#[verifier::external_body]
pub(crate) fn counters_get(m: &IntMap<u64>, key: u64) -> (r: Option<u64>)
    ensures
        r == (if counter_contents(*m).contains_key(key) {
            Some(counter_contents(*m)[key])
        } else {
            None
        }),
{
    m.get(key).copied()
}

/// Relies on `IntMap::insert`: `key` now maps to `value`, other keys keep theirs.
#[verifier::external_body]
pub(crate) fn counters_insert(m: &mut IntMap<u64>, key: u64, value: u64)
    ensures
        counter_contents(*final(m)) == counter_contents(*old(m)).insert(key, value),
{
    m.insert(key, value);
}

/// Relies on `IntMap::new`: a new map holds no key.
#[verifier::external_body]
pub(crate) fn lists_new() -> (r: IntMap<Vec<usize>>)
    ensures
        list_contents(r).dom().is_empty(),
{
    IntMap::new()
}

/// Relies on `IntMap::get`: the list stored under `key`, if any.
#[verifier::external_body]
pub(crate) fn lists_get(m: &IntMap<Vec<usize>>, key: u64) -> (r: Option<&Vec<usize>>)
    ensures
        list_contents(*m).contains_key(key) <==> r.is_some(),
        r.is_some() ==> r.unwrap()@ == list_contents(*m)[key],
{
    m.get(key)
}

/// Relies on `IntMap::insert`: `key` now maps to `value`, other keys keep theirs.
#[verifier::external_body]
pub(crate) fn lists_insert(m: &mut IntMap<Vec<usize>>, key: u64, value: Vec<usize>)
    ensures
        list_contents(*final(m)) == list_contents(*old(m)).insert(key, value@),
{
    m.insert(key, value);
}

/// Relies on `IntMap::remove`: takes out the list stored under `key`, if any.
#[verifier::external_body]
pub(crate) fn lists_remove(m: &mut IntMap<Vec<usize>>, key: u64) -> (r: Option<Vec<usize>>)
    ensures
        list_contents(*old(m)).contains_key(key) <==> r.is_some(),
        r.is_some() ==> r.unwrap()@ == list_contents(*old(m))[key],
        list_contents(*final(m)) == list_contents(*old(m)).remove(key),
{
    m.remove(key)
}

} // verus!
