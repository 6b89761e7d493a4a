//! Capabilities that element and key types supply to the containers.
//!
//! The containers define no hashing, ordering or comparison of their own;
//! an element type declares what it can do by implementing these traits,
//! and every implementation carries a contract that the containers'
//! proofs rely on.
use vstd::prelude::*;

verus! {

/// Value equality and explicit duplication.
///
/// `eq_val` must decide logical equality of the two values, and `dup`
/// must return a value equal to the original.  Containers duplicate
/// elements only through `dup`, so the copies they hand out are provably
/// the stored values.
pub trait EquatableAndCloneable: Sized {
    /// Decides whether the two values are equal.
    fn eq_val(&self, other: &Self) -> (r: bool)
        ensures
            r == (*self == *other),
    ;

    /// Returns a value equal to this one.
    fn dup(&self) -> (r: Self)
        ensures
            r == *self,
    ;
}

/// A strict total order over a key type.
///
/// `lt_spec` is the mathematical order the contracts speak of; `lt`
/// computes it.  `lt_properties` obliges every implementation to prove
/// that the order is transitive, asymmetric, and connected, which is
/// what the ordered containers' search-tree invariants rest on.
pub trait TotallyOrdered: EquatableAndCloneable {
    /// The order itself, as a specification-level relation.
    spec fn lt_spec(self, other: Self) -> bool;

    /// The laws of a strict total order.
    proof fn lt_properties(x: Self, y: Self, z: Self)
        ensures
            x.lt_spec(y) && y.lt_spec(z) ==> x.lt_spec(z),
            x.lt_spec(y) ==> !y.lt_spec(x),
            !x.lt_spec(y) && !y.lt_spec(x) ==> x == y,
    ;

    /// Decides whether `self` comes strictly before `other`.
    fn lt(&self, other: &Self) -> (r: bool)
        ensures
            r == self.lt_spec(*other),
    ;
}

/// A 64-bit hash that is a function of the value alone.
pub trait Hashable: EquatableAndCloneable {
    /// The hash of the value, as a specification-level function.
    spec fn hash_spec(self) -> u64;

    /// Computes the hash.
    fn hash(&self) -> (r: u64)
        ensures
            r == self.hash_spec(),
    ;
}

impl EquatableAndCloneable for u32 {
    fn eq_val(&self, other: &Self) -> (r: bool) {
        *self == *other
    }

    fn dup(&self) -> (r: Self) {
        *self
    }
}

impl EquatableAndCloneable for u64 {
    fn eq_val(&self, other: &Self) -> (r: bool) {
        *self == *other
    }

    fn dup(&self) -> (r: Self) {
        *self
    }
}

impl EquatableAndCloneable for usize {
    fn eq_val(&self, other: &Self) -> (r: bool) {
        *self == *other
    }

    fn dup(&self) -> (r: Self) {
        *self
    }
}

impl EquatableAndCloneable for i32 {
    fn eq_val(&self, other: &Self) -> (r: bool) {
        *self == *other
    }

    fn dup(&self) -> (r: Self) {
        *self
    }
}

impl EquatableAndCloneable for i64 {
    fn eq_val(&self, other: &Self) -> (r: bool) {
        *self == *other
    }

    fn dup(&self) -> (r: Self) {
        *self
    }
}

impl EquatableAndCloneable for () {
    fn eq_val(&self, _other: &Self) -> (r: bool) {
        true
    }

    fn dup(&self) -> (r: Self) {
    }
}

impl TotallyOrdered for u32 {
    open spec fn lt_spec(self, other: Self) -> bool {
        self < other
    }

    proof fn lt_properties(x: Self, y: Self, z: Self) {
    }

    fn lt(&self, other: &Self) -> (r: bool) {
        *self < *other
    }
}

impl TotallyOrdered for u64 {
    open spec fn lt_spec(self, other: Self) -> bool {
        self < other
    }

    proof fn lt_properties(x: Self, y: Self, z: Self) {
    }

    fn lt(&self, other: &Self) -> (r: bool) {
        *self < *other
    }
}

impl TotallyOrdered for usize {
    open spec fn lt_spec(self, other: Self) -> bool {
        self < other
    }

    proof fn lt_properties(x: Self, y: Self, z: Self) {
    }

    fn lt(&self, other: &Self) -> (r: bool) {
        *self < *other
    }
}

impl TotallyOrdered for i32 {
    open spec fn lt_spec(self, other: Self) -> bool {
        self < other
    }

    proof fn lt_properties(x: Self, y: Self, z: Self) {
    }

    fn lt(&self, other: &Self) -> (r: bool) {
        *self < *other
    }
}

impl TotallyOrdered for i64 {
    open spec fn lt_spec(self, other: Self) -> bool {
        self < other
    }

    proof fn lt_properties(x: Self, y: Self, z: Self) {
    }

    fn lt(&self, other: &Self) -> (r: bool) {
        *self < *other
    }
}

impl Hashable for u32 {
    open spec fn hash_spec(self) -> u64 {
        self as u64
    }

    fn hash(&self) -> (r: u64) {
        *self as u64
    }
}

impl Hashable for u64 {
    open spec fn hash_spec(self) -> u64 {
        self
    }

    fn hash(&self) -> (r: u64) {
        *self
    }
}

impl Hashable for usize {
    open spec fn hash_spec(self) -> u64 {
        self as u64
    }

    fn hash(&self) -> (r: u64) {
        *self as u64
    }
}

impl Hashable for i32 {
    open spec fn hash_spec(self) -> u64 {
        self as u64
    }

    fn hash(&self) -> (r: u64) {
        *self as u64
    }
}

impl Hashable for i64 {
    open spec fn hash_spec(self) -> u64 {
        self as u64
    }

    fn hash(&self) -> (r: u64) {
        *self as u64
    }
}

} // verus!
