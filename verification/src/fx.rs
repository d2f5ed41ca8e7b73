//! Hash maps and sets with the Fx hash of `rustc_hash`.
//!
//! `FxHashMap` and `FxHashSet` are the standard library's `HashMap` and `HashSet` with
//! `FxBuildHasher`, which hashes equal integers, and equal tuples of integers, to equal values.
//! The functions below state what each map and set operation does to the contents. Everything in
//! this module is trusted.

use vstd::prelude::*;
use rustc_hash::{FxHashMap, FxHashSet};

verus! {

/// The hasher of `FxHashMap` and `FxHashSet`: `rustc_hash::FxBuildHasher`.
#[verifier::external_type_specification]
#[verifier::external_body]
pub struct ExFxBuildHasher(rustc_hash::FxBuildHasher);

/// `FxHashMap::default`: a map without entries.
#[verifier::external_body]
pub(crate) fn map_new<V>() -> (m: FxHashMap<u64, V>)
    ensures
        (m@ == Map::<u64, V>::empty()),
{
    FxHashMap::default()
}

/// `HashMap::get`: the value under `key`, if there is one.
#[verifier::external_body]
pub(crate) fn map_get<V>(m: &FxHashMap<u64, V>, key: u64) -> (v: Option<&V>)
    ensures
        v == if m@.contains_key(key) {
            Some(&m@[key])
        } else {
            None::<&V>
        },
{
    m.get(&key)
}

/// `HashMap::get_mut`: the value under `key` for change, if there is one; nothing else changes.
#[verifier::external_body]
pub(crate) fn map_get_mut<V>(m: &mut FxHashMap<u64, V>, key: u64) -> (v: Option<&mut V>)
    ensures
        v is Some <==> old(m)@.contains_key(key),
        v is Some ==> *v->0 == old(m)@[key] && final(m)@ == old(m)@.insert(key, *final(v->0)),
        v is None ==> final(m)@ == old(m)@,
{
    m.get_mut(&key)
}

/// `HashMap::insert`: puts `value` under `key` and returns what was there.
#[verifier::external_body]
pub(crate) fn map_insert<V>(m: &mut FxHashMap<u64, V>, key: u64, value: V) -> (v: Option<V>)
    ensures
        final(m)@ == old(m)@.insert(key, value),
        v == if old(m)@.contains_key(key) {
            Some(old(m)@[key])
        } else {
            None::<V>
        },
{
    m.insert(key, value)
}

/// `HashMap::remove`: takes the entry under `key` out and returns its value.
#[verifier::external_body]
pub(crate) fn map_remove<V>(m: &mut FxHashMap<u64, V>, key: u64) -> (v: Option<V>)
    ensures
        final(m)@ == old(m)@.remove(key),
        v == if old(m)@.contains_key(key) {
            Some(old(m)@[key])
        } else {
            None::<V>
        },
{
    m.remove(&key)
}

/// `HashMap::keys`: every key once. In which order they come is left open.
#[verifier::external_body]
pub(crate) fn map_keys<V>(m: &FxHashMap<u64, V>) -> (keys: Vec<u64>)
    ensures
        keys@.no_duplicates(),
        forall|k: u64| #[trigger] keys@.contains(k) <==> m@.contains_key(k),
{
    m.keys().copied().collect()
}

/// `HashMap::len`: the number of entries.
#[verifier::external_body]
pub(crate) fn map_len<V>(m: &FxHashMap<u64, V>) -> (n: usize)
    ensures
        n == m@.len(),
        n == 0 <==> (m@ == Map::<u64, V>::empty()),
{
    m.len()
}

/// `FxHashSet::default`: a set without members.
#[verifier::external_body]
pub(crate) fn set_new() -> (s: FxHashSet<(u32, u32, u32)>)
    ensures
        (s@ == Set::<(u32, u32, u32)>::empty()),
{
    FxHashSet::default()
}

/// `HashSet::insert`: adds `item` and tells whether it was absent.
#[verifier::external_body]
pub(crate) fn set_insert(s: &mut FxHashSet<(u32, u32, u32)>, item: (u32, u32, u32)) -> (b: bool)
    ensures
        final(s)@ == old(s)@.insert(item),
        b == !old(s)@.contains(item),
{
    s.insert(item)
}

/// `HashSet::remove`: takes `item` out and tells whether it was there.
#[verifier::external_body]
pub(crate) fn set_remove(s: &mut FxHashSet<(u32, u32, u32)>, item: (u32, u32, u32)) -> (b: bool)
    ensures
        final(s)@ == old(s)@.remove(item),
        b == old(s)@.contains(item),
{
    s.remove(&item)
}

/// `HashSet::contains`: whether `item` is a member.
#[verifier::external_body]
pub(crate) fn set_contains(s: &FxHashSet<(u32, u32, u32)>, item: (u32, u32, u32)) -> (b: bool)
    ensures
        b == s@.contains(item),
{
    s.contains(&item)
}

/// `HashSet::iter`: every member once. In which order they come is left open.
#[verifier::external_body]
pub(crate) fn set_items(s: &FxHashSet<(u32, u32, u32)>) -> (items: Vec<(u32, u32, u32)>)
    ensures
        items@.no_duplicates(),
        forall|x: (u32, u32, u32)| #[trigger] items@.contains(x) <==> s@.contains(x),
{
    s.iter().copied().collect()
}

} // verus!
