//! The capability binding: the client-supplied object that gives the engine
//! its per-entry semantics — hashing, key equality, and the assignments that
//! materialise key and value bytes in a slot.
//!
//! The engine is generic over the concrete key and value types, so the raw
//! byte addresses of the original design become typed references here; the
//! contracts pin each capability to the mathematical meaning the table's
//! proofs rely on.

use vstd::prelude::*;

verus! {

/// The per-entry capability set injected by the client.
///
/// `hash` must be a pure function of the key — the table recomputes hashes
/// during growth and expects to find every entry again — and `equals` must
/// decide exactly key equality.
pub trait EntrySpec<K, V> {
    /// The hash this binding assigns to a key.
    spec fn hash_spec(&self, k: K) -> u64;

    /// Calculates the key's hash value; it drives bucket locating.
    fn hash(&self, k: &K) -> (h: u64)
        ensures
            h == self.hash_spec(*k),
    ;

    /// Decides whether two keys are equal; it drives entry comparison.
    fn equals(&self, k1: &K, k2: &K) -> (r: bool)
        ensures
            r == (*k1 == *k2),
    ;

    /// Materialises a copy of a key into a slot: `slot.key = *other`.
    fn assign_key(&self, other: &K) -> (r: K)
        ensures
            r == *other,
    ;

    /// Materialises a copy of a value into a slot: `slot.value = *other`.
    fn assign_value(&self, other: &V) -> (r: V)
        ensures
            r == *other,
    ;
}

/// A ready-made binding for tables keyed and valued by `u64`: the key is its
/// own hash.
pub struct U64Spec;

impl EntrySpec<u64, u64> for U64Spec {
    open spec fn hash_spec(&self, k: u64) -> u64 {
        k
    }

    fn hash(&self, k: &u64) -> (h: u64) {
        *k
    }

    fn equals(&self, k1: &u64, k2: &u64) -> (r: bool) {
        *k1 == *k2
    }

    fn assign_key(&self, other: &u64) -> (r: u64) {
        *other
    }

    fn assign_value(&self, other: &u64) -> (r: u64) {
        *other
    }
}

} // verus!
