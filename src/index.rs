//! The world's two indexes, kept in dashmap's concurrent maps.
//!
//! Every change goes through a wrapper that takes the map by `&mut`, so no
//! other reference can observe or change it meanwhile; the wrappers that read
//! take `&`, and the maps are private to the world, which changes them only
//! through the `&mut` wrappers.

use crate::metadata::TypeKey;
use dashmap::DashMap;
use vstd::prelude::*;

verus! {

#[verifier::external_type_specification]
#[verifier::external_body]
#[verifier::reject_recursive_types(K)]
#[verifier::reject_recursive_types(V)]
#[verifier::reject_recursive_types(S)]
pub struct ExDashMap<K, V, S>(DashMap<K, V, S>);

/// The entries of an entity index: entity identifier to concrete type.
pub uninterp spec fn entity_entries(m: DashMap<u32, u64>) -> Map<u32, u64>;

/// The entries of a type index: component type to the concrete types that
/// provide it.
pub uninterp spec fn type_entries(m: DashMap<u64, Vec<u64>>) -> Map<u64, Vec<u64>>;

/// Relies on `DashMap::new`: a new map holds no entry.
#[verifier::external_body]
pub(crate) fn entity_index_new() -> (r: DashMap<u32, TypeKey>)
    ensures
        entity_entries(r).dom() == Set::<u32>::empty(),
{
    DashMap::new()
}

/// Relies on `DashMap::insert`: the entry for `k` becomes `v`; the value it
/// replaced, if any, comes back.
#[verifier::external_body]
pub(crate) fn entity_index_insert(m: &mut DashMap<u32, TypeKey>, k: u32, v: TypeKey) -> (r: Option<TypeKey>)
    ensures
        entity_entries(*final(m)) == entity_entries(*old(m)).insert(k, v),
        r == (if entity_entries(*old(m)).contains_key(k) {
            Some(entity_entries(*old(m))[k])
        } else {
            None::<u64>
        }),
{
    m.insert(k, v)
}

/// Relies on `DashMap::remove`: the entry for `k` goes, and its value comes back.
#[verifier::external_body]
pub(crate) fn entity_index_remove(m: &mut DashMap<u32, TypeKey>, k: u32) -> (r: Option<TypeKey>)
    ensures
        entity_entries(*final(m)) == entity_entries(*old(m)).remove(k),
        r == (if entity_entries(*old(m)).contains_key(k) {
            Some(entity_entries(*old(m))[k])
        } else {
            None::<u64>
        }),
{
    m.remove(&k).map(|(_, v)| v)
}

/// Relies on `DashMap::get`: the value of the entry for `k`.
#[verifier::external_body]
pub(crate) fn entity_index_get(m: &DashMap<u32, TypeKey>, k: u32) -> (r: Option<TypeKey>)
    ensures
        r == (if entity_entries(*m).contains_key(k) {
            Some(entity_entries(*m)[k])
        } else {
            None::<u64>
        }),
{
    m.get(&k).map(|e| *e.value())
}

/// Relies on `DashMap::contains_key`.
#[verifier::external_body]
pub(crate) fn entity_index_contains(m: &DashMap<u32, TypeKey>, k: u32) -> (r: bool)
    ensures
        r == entity_entries(*m).contains_key(k),
{
    m.contains_key(&k)
}

/// Relies on `DashMap::len`: the number of entries, summed over the shards.
#[verifier::external_body]
pub(crate) fn entity_index_len(m: &DashMap<u32, TypeKey>) -> (r: usize)
    ensures
        r == entity_entries(*m).len(),
{
    m.len()
}

/// Relies on `DashMap::iter`: every entry is visited once; its key is kept.
#[verifier::external_body]
pub(crate) fn entity_index_keys(m: &DashMap<u32, TypeKey>) -> (r: Vec<u32>)
    ensures
        r@.no_duplicates(),
        forall|k: u32| #[trigger] entity_entries(*m).contains_key(k) <==> r@.contains(k),
{
    m.iter().map(|e| *e.key()).collect()
}

/// Relies on `DashMap::new`: a new map holds no entry.
#[verifier::external_body]
pub(crate) fn type_index_new() -> (r: DashMap<TypeKey, Vec<TypeKey>>)
    ensures
        type_entries(r).dom() == Set::<u64>::empty(),
{
    DashMap::new()
}

/// Relies on `DashMap::insert`: the entry for `k` becomes `v`.
#[verifier::external_body]
pub(crate) fn type_index_insert(m: &mut DashMap<TypeKey, Vec<TypeKey>>, k: TypeKey, v: Vec<TypeKey>)
    ensures
        type_entries(*final(m)) == type_entries(*old(m)).insert(k, v),
{
    m.insert(k, v);
}

/// Relies on `DashMap::remove`: the entry for `k` goes, and its value comes back.
#[verifier::external_body]
pub(crate) fn type_index_remove(m: &mut DashMap<TypeKey, Vec<TypeKey>>, k: TypeKey) -> (r: Option<Vec<TypeKey>>)
    ensures
        type_entries(*final(m)) == type_entries(*old(m)).remove(k),
        r == (if type_entries(*old(m)).contains_key(k) {
            Some(type_entries(*old(m))[k])
        } else {
            None::<Vec<u64>>
        }),
{
    m.remove(&k).map(|(_, v)| v)
}

/// Relies on `DashMap::get`: a copy of the value of the entry for `k`
/// (`Vec::clone` of integers copies each one).
#[verifier::external_body]
pub(crate) fn type_index_get(m: &DashMap<TypeKey, Vec<TypeKey>>, k: TypeKey) -> (r: Option<Vec<TypeKey>>)
    ensures
        match r {
            Some(v) => type_entries(*m).contains_key(k) && v@ == type_entries(*m)[k]@,
            None => !type_entries(*m).contains_key(k),
        },
{
    m.get(&k).map(|e| e.value().clone())
}

/// Relies on `DashMap::clear`: no entry remains.
#[verifier::external_body]
pub(crate) fn type_index_clear(m: &mut DashMap<TypeKey, Vec<TypeKey>>)
    ensures
        type_entries(*final(m)).dom() == Set::<u64>::empty(),
{
    m.clear()
}

} // verus!
