//! Lookup tables from keys to positions, kept in an `indexmap::IndexMap`.
//!
//! The entity store and the staging area both find "which slot holds the data
//! for this key" through an `IndexMap`; the data itself lives in vectors of
//! this library.  What a map holds is given a name below, and every method
//! that the library calls has a wrapper whose contract says, over that name,
//! what the method does.
use indexmap::IndexMap;
use std::hash::RandomState;
use vstd::prelude::*;

verus! {

/// Declares `indexmap::IndexMap` so that it may stand in fields and signatures.
#[verifier::external_type_specification]
#[verifier::external_body]
#[verifier::reject_recursive_types(K)]
#[verifier::reject_recursive_types(V)]
#[verifier::reject_recursive_types(S)]
pub struct ExIndexMap<K, V, S>(IndexMap<K, V, S>);

/// The key/value pairs held by a map from component type flags to slots.
pub uninterp spec fn flag_slots(m: IndexMap<u32, usize, RandomState>) -> Map<u32, usize>;

/// The key/value pairs held by a map from entity ids to slots.
pub uninterp spec fn id_slots(m: IndexMap<usize, usize, RandomState>) -> Map<usize, usize>;

/// `Some(m[k])` when `k` is a key of `m`, else `None`.
pub open spec fn lookup<K, V>(m: Map<K, V>, k: K) -> Option<V> {
    if m.dom().contains(k) {
        Some(m[k])
    } else {
        None
    }
}

/// `m` maps each key of `ks` to its position in `ks`, and holds no other key.
pub open spec fn indexes<K>(m: Map<K, usize>, ks: Seq<K>) -> bool {
    &&& forall|k: K| #[trigger] m.dom().contains(k) <==> ks.contains(k)
    &&& forall|j: int| 0 <= j < ks.len() ==> #[trigger] m[ks[j]] == j
}

/// Appending a new key to the list and mapping it to its position keeps the
/// map an index of the list.
pub proof fn lemma_indexes_push<K>(m: Map<K, usize>, ks: Seq<K>, k: K, v: usize)
    requires
        indexes(m, ks),
        !ks.contains(k),
        v == ks.len(),
    ensures
        indexes(m.insert(k, v), ks.push(k)),
{
    let nm = m.insert(k, v);
    let nks = ks.push(k);
    assert forall|k2: K| #[trigger] nm.dom().contains(k2) <==> nks.contains(k2) by {
        if nks.contains(k2) && k2 != k {
            let j = choose|j: int| 0 <= j < nks.len() && nks[j] == k2;
            assert(ks[j] == k2);
        }
        if k2 == k {
            assert(nks[ks.len() as int] == k2);
        }
        if m.dom().contains(k2) {
            let j = choose|j: int| 0 <= j < ks.len() && ks[j] == k2;
            assert(nks[j] == k2);
        }
    }
    assert forall|j: int| 0 <= j < nks.len() implies #[trigger] nm[nks[j]] == j by {
        if j < ks.len() {
            assert(nks[j] == ks[j]);
            assert(ks.contains(ks[j]));
        }
    }
}

/// `IndexMap::new`: a map that holds no pair.
#[verifier::external_body]
pub(crate) fn flag_slots_new() -> (r: IndexMap<u32, usize, RandomState>)
    ensures
        forall|k: u32| !flag_slots(r).dom().contains(k),
{
    IndexMap::new()
}

/// `IndexMap::get`: the value stored under `key`, if the key is present.
#[verifier::external_body]
pub(crate) fn flag_slots_get(m: &IndexMap<u32, usize, RandomState>, key: u32) -> (r: Option<usize>)
    ensures
        r == lookup(flag_slots(*m), key),
{
    m.get(&key).copied()
}

/// `IndexMap::insert`: stores `value` under `key` (replacing the value of a
/// present key, adding the pair otherwise) and returns the value it replaced.
#[verifier::external_body]
pub(crate) fn flag_slots_insert(m: &mut IndexMap<u32, usize, RandomState>, key: u32, value: usize) -> (r: Option<usize>)
    ensures
        flag_slots(*final(m)) == flag_slots(*old(m)).insert(key, value),
        r == lookup(flag_slots(*old(m)), key),
{
    m.insert(key, value)
}

/// `IndexMap::new`: a map that holds no pair.
#[verifier::external_body]
pub(crate) fn id_slots_new() -> (r: IndexMap<usize, usize, RandomState>)
    ensures
        forall|k: usize| !id_slots(r).dom().contains(k),
{
    IndexMap::new()
}

/// `IndexMap::get`: the value stored under `key`, if the key is present.
#[verifier::external_body]
pub(crate) fn id_slots_get(m: &IndexMap<usize, usize, RandomState>, key: usize) -> (r: Option<usize>)
    ensures
        r == lookup(id_slots(*m), key),
{
    m.get(&key).copied()
}

/// `IndexMap::insert`: stores `value` under `key` (replacing the value of a
/// present key, adding the pair otherwise) and returns the value it replaced.
#[verifier::external_body]
pub(crate) fn id_slots_insert(m: &mut IndexMap<usize, usize, RandomState>, key: usize, value: usize) -> (r: Option<usize>)
    ensures
        id_slots(*final(m)) == id_slots(*old(m)).insert(key, value),
        r == lookup(id_slots(*old(m)), key),
{
    m.insert(key, value)
}

} // verus!
