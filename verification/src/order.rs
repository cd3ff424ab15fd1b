//! Comparison interfaces for the values stored in the graph and in the
//! ordered tree.
//!
//! The graph only needs a decidable equality that agrees with mathematical
//! equality; the ordered tree additionally needs a strict total order.

use vstd::prelude::*;

verus! {

/// Outcome of a three-way comparison.
#[derive(Clone, Copy, Debug, PartialEq, Eq, Structural)]
pub enum Rel {
    Less,
    Equal,
    Greater,
}

/// A value whose equality can be decided at run time and coincides with
/// mathematical (spec-level) equality.
pub trait ValueEq: Sized {
    /// Decides whether two values are equal.
    fn equals(&self, other: &Self) -> (r: bool)
        ensures
            r == (self == other),
    ;
}

/// A strict total order on a value type, with an executable three-way
/// comparison that agrees with it.
pub trait TotalOrder: Sized {
    /// The strict order: `a.before(b)` means `a` comes strictly before `b`.
    spec fn before(self, other: Self) -> bool;

    /// A value strictly before another is distinct from it, and the order
    /// never holds in both directions.
    proof fn asymmetry(a: Self, b: Self)
        requires
            a.before(b),
        ensures
            !b.before(a),
            a != b,
    ;

    /// The order is transitive.
    proof fn transitivity(a: Self, b: Self, c: Self)
        requires
            a.before(b),
            b.before(c),
        ensures
            a.before(c),
    ;

    /// Any two distinct values are ordered one way or the other.
    proof fn totality(a: Self, b: Self)
        ensures
            a == b || a.before(b) || b.before(a),
    ;

    /// Decides how `self` stands to `other` in the order.
    fn compare(&self, other: &Self) -> (r: Rel)
        ensures
            match r {
                Rel::Less => self.before(*other),
                Rel::Equal => self == other,
                Rel::Greater => other.before(*self),
            },
    ;
}

impl ValueEq for i32 {
    fn equals(&self, other: &Self) -> (r: bool) {
        *self == *other
    }
}

impl ValueEq for char {
    fn equals(&self, other: &Self) -> (r: bool) {
        *self == *other
    }
}

impl TotalOrder for i32 {
    open spec fn before(self, other: Self) -> bool {
        self < other
    }

    proof fn asymmetry(a: Self, b: Self) {
    }

    proof fn transitivity(a: Self, b: Self, c: Self) {
    }

    proof fn totality(a: Self, b: Self) {
    }

    fn compare(&self, other: &Self) -> (r: Rel) {
        if *self < *other {
            Rel::Less
        } else if *self > *other {
            Rel::Greater
        } else {
            Rel::Equal
        }
    }
}

} // verus!
