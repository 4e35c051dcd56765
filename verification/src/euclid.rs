//! The Euclidean algorithm on machine integers, as a mathematical object.

use vstd::prelude::*;
use crate::arith::{abs, tdiv, tmod, lemma_trunc_division};

verus! {

/// One row of the quotient table: `(a, quotient, b, remainder)` with
/// `a == quotient * b + remainder`.
pub type Step = (int, int, int, int);

/// The row that divides `a` by `b`.
pub open spec fn step(a: int, b: int) -> Step {
    (a, tdiv(a, b), b, tmod(a, b))
}

/// The rows of the Euclidean algorithm started on `a` and `b`: each row
/// divides the divisor of the row before by its remainder, until a remainder
/// is zero.
pub open spec fn euclid_steps(a: int, b: int) -> Seq<Step>
    decreases abs(b),
{
    if b == 0 {
        Seq::empty()
    } else {
        proof {
            lemma_trunc_division(a, b);
        }
        let e = step(a, b);
        if e.3 == 0 {
            seq![e]
        } else {
            seq![e] + euclid_steps(b, e.3)
        }
    }
}

/// The rows that follow row `e`.
pub open spec fn steps_after(e: Step) -> Seq<Step> {
    if e.3 == 0 {
        Seq::empty()
    } else {
        euclid_steps(e.2, e.3)
    }
}

/// The larger of two numbers (the second one on a tie).
pub open spec fn upper(a: int, b: int) -> int {
    if a > b {
        a
    } else {
        b
    }
}

/// The smaller of two numbers.
pub open spec fn lower(a: int, b: int) -> int {
    if a > b {
        b
    } else {
        a
    }
}

/// The table that `gcd(a, b)` builds: the larger number divided by the smaller.
pub open spec fn gcd_table(a: int, b: int) -> Seq<Step> {
    euclid_steps(upper(a, b), lower(a, b))
}

/// The divisor that `gcd(a, b)` returns: the last nonzero remainder of the
/// table, or the smaller number when the first remainder is already zero.
pub open spec fn gcd_value(a: int, b: int) -> int {
    let s = gcd_table(a, b);
    if s.len() == 1 {
        lower(a, b)
    } else {
        s[s.len() - 2].3
    }
}

pub proof fn lemma_steps_unfold(a: int, b: int)
    requires
        b != 0,
    ensures
        euclid_steps(a, b) == seq![step(a, b)] + steps_after(step(a, b)),
{
    lemma_trunc_division(a, b);
    if step(a, b).3 == 0 {
        assert(seq![step(a, b)] + Seq::<Step>::empty() =~= seq![step(a, b)]);
    }
}

} // verus!
