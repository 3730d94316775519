//! The total order that keys are compared under.

use vstd::prelude::*;

verus! {

/// The outcome of a three-way comparison of two keys.
pub enum Cmp {
    Lt,
    Eq,
    Gt,
}

/// A total order on a key type, with an executable three-way comparison.
///
/// The specification side is the relation `le`, required to be a total order
/// that respects logical equality; the executable side is `cmp`, required to
/// decide that relation.
pub trait TotalOrder: Sized {
    /// `self` comes no later than `other` in the order.
    spec fn le(self, other: Self) -> bool;

    proof fn lemma_reflexive(x: Self)
        ensures
            Self::le(x, x),
    ;

    proof fn lemma_transitive(x: Self, y: Self, z: Self)
        requires
            Self::le(x, y),
            Self::le(y, z),
        ensures
            Self::le(x, z),
    ;

    proof fn lemma_antisymmetric(x: Self, y: Self)
        requires
            Self::le(x, y),
            Self::le(y, x),
        ensures
            x == y,
    ;

    proof fn lemma_total(x: Self, y: Self)
        ensures
            Self::le(x, y) || Self::le(y, x),
    ;

    /// Decide the order on two values.
    fn cmp(&self, other: &Self) -> (c: Cmp)
        ensures
            match c {
                Cmp::Lt => self.le(*other) && *self != *other,
                Cmp::Eq => *self == *other,
                Cmp::Gt => other.le(*self) && *self != *other,
            },
    ;
}

/// `a` comes strictly before `b` in the order.
pub open spec fn lt<K: TotalOrder>(a: K, b: K) -> bool {
    a.le(b) && a != b
}

/// The strict order is transitive.
pub proof fn lemma_lt_trans<K: TotalOrder>(a: K, b: K, c: K)
    requires
        lt(a, b),
        lt(b, c),
    ensures
        lt(a, c),
{
    K::lemma_transitive(a, b, c);
    if a == c {
        K::lemma_antisymmetric(a, b);
    }
}

impl TotalOrder for u64 {
    open spec fn le(self, other: Self) -> bool {
        self <= other
    }

    proof fn lemma_reflexive(x: Self) {
    }

    proof fn lemma_transitive(x: Self, y: Self, z: Self) {
    }

    proof fn lemma_antisymmetric(x: Self, y: Self) {
    }

    proof fn lemma_total(x: Self, y: Self) {
    }

    fn cmp(&self, other: &Self) -> (c: Cmp) {
        if *self < *other {
            Cmp::Lt
        } else if *self == *other {
            Cmp::Eq
        } else {
            Cmp::Gt
        }
    }
}

impl TotalOrder for usize {
    open spec fn le(self, other: Self) -> bool {
        self <= other
    }

    proof fn lemma_reflexive(x: Self) {
    }

    proof fn lemma_transitive(x: Self, y: Self, z: Self) {
    }

    proof fn lemma_antisymmetric(x: Self, y: Self) {
    }

    proof fn lemma_total(x: Self, y: Self) {
    }

    fn cmp(&self, other: &Self) -> (c: Cmp) {
        if *self < *other {
            Cmp::Lt
        } else if *self == *other {
            Cmp::Eq
        } else {
            Cmp::Gt
        }
    }
}

impl TotalOrder for i64 {
    open spec fn le(self, other: Self) -> bool {
        self <= other
    }

    proof fn lemma_reflexive(x: Self) {
    }

    proof fn lemma_transitive(x: Self, y: Self, z: Self) {
    }

    proof fn lemma_antisymmetric(x: Self, y: Self) {
    }

    proof fn lemma_total(x: Self, y: Self) {
    }

    fn cmp(&self, other: &Self) -> (c: Cmp) {
        if *self < *other {
            Cmp::Lt
        } else if *self == *other {
            Cmp::Eq
        } else {
            Cmp::Gt
        }
    }
}

impl TotalOrder for char {
    open spec fn le(self, other: Self) -> bool {
        self <= other
    }

    proof fn lemma_reflexive(x: Self) {
    }

    proof fn lemma_transitive(x: Self, y: Self, z: Self) {
    }

    proof fn lemma_antisymmetric(x: Self, y: Self) {
    }

    proof fn lemma_total(x: Self, y: Self) {
    }

    fn cmp(&self, other: &Self) -> (c: Cmp) {
        if *self < *other {
            Cmp::Lt
        } else if *self == *other {
            Cmp::Eq
        } else {
            Cmp::Gt
        }
    }
}

/// Lexicographic order on pairs of ordered values.
impl<A: TotalOrder, B: TotalOrder> TotalOrder for (A, B) {
    open spec fn le(self, other: Self) -> bool {
        lt(self.0, other.0) || (self.0 == other.0 && self.1.le(other.1))
    }

    proof fn lemma_reflexive(x: Self) {
        B::lemma_reflexive(x.1);
    }

    proof fn lemma_transitive(x: Self, y: Self, z: Self) {
        if lt(x.0, y.0) && lt(y.0, z.0) {
            A::lemma_transitive(x.0, y.0, z.0);
            if x.0 == z.0 {
                A::lemma_antisymmetric(x.0, y.0);
            }
        } else if x.0 == y.0 && y.0 == z.0 {
            B::lemma_transitive(x.1, y.1, z.1);
        }
    }

    proof fn lemma_antisymmetric(x: Self, y: Self) {
        if lt(x.0, y.0) && lt(y.0, x.0) {
            A::lemma_antisymmetric(x.0, y.0);
        } else {
            B::lemma_antisymmetric(x.1, y.1);
        }
    }

    proof fn lemma_total(x: Self, y: Self) {
        A::lemma_total(x.0, y.0);
        B::lemma_total(x.1, y.1);
    }

    fn cmp(&self, other: &Self) -> (c: Cmp) {
        match self.0.cmp(&other.0) {
            Cmp::Lt => Cmp::Lt,
            Cmp::Gt => Cmp::Gt,
            Cmp::Eq => self.1.cmp(&other.1),
        }
    }
}

} // verus!
