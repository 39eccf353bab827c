//! Trusted wrappers around `linked_hash_map::LinkedHashMap`, used as an
//! insertion-ordered set of constraint ids for deterministic diagnostic
//! listings.
//!
//! The map's contents are described by `ordered_keys`, the sequence of
//! its keys from oldest to newest insertion. Each wrapper states how its
//! call moves that sequence, as the crate's source shows: inserting a
//! key puts it at the back (moving it there if it was already present),
//! removing a key drops it and keeps the order of the rest, and `keys`
//! iterates in insertion order.

use vstd::prelude::*;

use linked_hash_map::LinkedHashMap;

verus! {

#[verifier::external_type_specification]
#[verifier::external_body]
#[verifier::reject_recursive_types(K)]
#[verifier::reject_recursive_types(V)]
#[verifier::reject_recursive_types(S)]
pub struct ExLinkedHashMap<K, V, S>(LinkedHashMap<K, V, S>);

/// The keys of the map, oldest insertion first.
pub uninterp spec fn ordered_keys(m: LinkedHashMap<u64, ()>) -> Seq<u64>;

/// Relies on `LinkedHashMap::new`: a fresh map holds no keys.
#[verifier::external_body]
pub(crate) fn lh_new() -> (m: LinkedHashMap<u64, ()>)
    ensures
        ordered_keys(m) == Seq::<u64>::empty(),
{
    LinkedHashMap::new()
}

/// Relies on `LinkedHashMap::insert`: the key ends up at the back of the
/// insertion order, leaving from wherever it was before.
#[verifier::external_body]
pub(crate) fn lh_insert(m: &mut LinkedHashMap<u64, ()>, k: u64)
    ensures
        ordered_keys(*final(m)) == ordered_keys(*old(m)).filter(|x: u64| x != k).push(k),
{
    m.insert(k, ());
}

/// Relies on `LinkedHashMap::remove`: the key leaves, the rest keep
/// their order.
#[verifier::external_body]
pub(crate) fn lh_remove(m: &mut LinkedHashMap<u64, ()>, k: u64)
    ensures
        ordered_keys(*final(m)) == ordered_keys(*old(m)).filter(|x: u64| x != k),
{
    m.remove(&k);
}

/// Relies on `LinkedHashMap::keys`: iteration visits the keys in
/// insertion order.
#[verifier::external_body]
pub(crate) fn lh_keys(m: &LinkedHashMap<u64, ()>) -> (r: Vec<u64>)
    ensures
        r@ == ordered_keys(*m),
{
    m.keys().cloned().collect()
}

} // verus!
