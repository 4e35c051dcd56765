//! The two kinds of leaves of an expression: numeric constants and variables.

use vstd::prelude::*;

verus! {

/// A machine number that can stand as a constant of an expression.
///
/// Its mathematical meaning is `value`; arithmetic is only offered where the
/// exact result is representable (`in_range`).
pub trait Scalar: Copy + Sized {
    spec fn value(self) -> int;

    spec fn in_range(v: int) -> bool;

    proof fn lemma_value_in_range(self)
        ensures
            Self::in_range(self.value()),
    ;

    proof fn lemma_value_injective(self, other: Self)
        ensures
            self.value() == other.value() ==> self == other,
    ;

    fn one() -> (r: Self)
        ensures
            r.value() == 1,
    ;

    fn plus(self, rhs: Self) -> (r: Self)
        requires
            Self::in_range(self.value() + rhs.value()),
        ensures
            r.value() == self.value() + rhs.value(),
    ;

    fn times(self, rhs: Self) -> (r: Self)
        requires
            Self::in_range(self.value() * rhs.value()),
        ensures
            r.value() == self.value() * rhs.value(),
    ;

    fn equals(self, rhs: Self) -> (r: bool)
        ensures
            r == (self.value() == rhs.value()),
    ;
}

/// A variable name: anything that can be duplicated and compared for identity.
pub trait Symbol: Sized {
    fn same(&self, other: &Self) -> (r: bool)
        ensures
            r == (*self == *other),
    ;

    fn duplicate(&self) -> (r: Self)
        ensures
            r == *self,
    ;
}

impl Scalar for i32 {
    open spec fn value(self) -> int {
        self as int
    }

    open spec fn in_range(v: int) -> bool {
        i32::MIN <= v <= i32::MAX
    }

    proof fn lemma_value_in_range(self) {
    }

    proof fn lemma_value_injective(self, other: Self) {
    }

    fn one() -> (r: Self) {
        1
    }

    fn plus(self, rhs: Self) -> (r: Self) {
        self + rhs
    }

    fn times(self, rhs: Self) -> (r: Self) {
        self * rhs
    }

    fn equals(self, rhs: Self) -> (r: bool) {
        self == rhs
    }
}

impl Scalar for i64 {
    open spec fn value(self) -> int {
        self as int
    }

    open spec fn in_range(v: int) -> bool {
        i64::MIN <= v <= i64::MAX
    }

    proof fn lemma_value_in_range(self) {
    }

    proof fn lemma_value_injective(self, other: Self) {
    }

    fn one() -> (r: Self) {
        1
    }

    fn plus(self, rhs: Self) -> (r: Self) {
        self + rhs
    }

    fn times(self, rhs: Self) -> (r: Self) {
        self * rhs
    }

    fn equals(self, rhs: Self) -> (r: bool) {
        self == rhs
    }
}

impl Symbol for i64 {
    fn same(&self, other: &Self) -> (r: bool) {
        *self == *other
    }

    fn duplicate(&self) -> (r: Self) {
        *self
    }
}

impl Symbol for i32 {
    fn same(&self, other: &Self) -> (r: bool) {
        *self == *other
    }

    fn duplicate(&self) -> (r: Self) {
        *self
    }
}

impl Symbol for char {
    fn same(&self, other: &Self) -> (r: bool) {
        *self == *other
    }

    fn duplicate(&self) -> (r: Self) {
        *self
    }
}

impl Symbol for () {
    fn same(&self, other: &Self) -> (r: bool) {
        true
    }

    fn duplicate(&self) -> (r: Self) {
        ()
    }
}

} // verus!
