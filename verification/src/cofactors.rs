//! The quotient table of the Euclidean algorithm as a chain of remainders,
//! with the cofactors that write each remainder in terms of the first two
//! numbers, and the bounds that keep those cofactors small.

use vstd::prelude::*;
use crate::arith::{abs, tdiv, tmod, lemma_trunc_division};
use crate::euclid::{Step, step, euclid_steps, steps_after, lemma_steps_unfold};

verus! {

/// The shape of a table produced by the Euclidean algorithm: each row divides
/// the divisor of the row before by its remainder, only the last remainder is
/// zero.
#[verifier::opaque]
pub open spec fn is_chain(es: Seq<Step>) -> bool {
    &&& es.len() >= 1
    &&& forall|k: int| 0 <= k < es.len() ==> (#[trigger] es[k]).2 != 0 && es[k] == step(es[k].0, es[k].2)
    &&& forall|k: int| 0 < k < es.len() ==> (#[trigger] es[k]).0 == es[k - 1].2 && es[k].2 == es[k - 1].3
    &&& forall|k: int| 0 <= k < es.len() - 1 ==> (#[trigger] es[k]).3 != 0
    &&& es[es.len() - 1].3 == 0
}

pub proof fn lemma_chain_len(es: Seq<Step>)
    requires
        is_chain(es),
    ensures
        es.len() >= 1,
{
    reveal(is_chain);
}

pub proof fn lemma_euclid_chain(a: int, b: int)
    requires
        b != 0,
    ensures
        is_chain(euclid_steps(a, b)),
        euclid_steps(a, b)[0] == step(a, b),
    decreases abs(b),
{
    reveal(is_chain);
    lemma_steps_unfold(a, b);
    lemma_trunc_division(a, b);
    let e = step(a, b);
    let es = euclid_steps(a, b);
    if e.3 != 0 {
        lemma_euclid_chain(b, e.3);
        let tail = euclid_steps(b, e.3);
        assert(es == seq![e] + tail);
        assert forall|k: int| 0 < k < es.len() implies (#[trigger] es[k]).0 == es[k - 1].2 && es[k].2
            == es[k - 1].3 by {
            assert(es[k] == tail[k - 1]);
            if k > 1 {
                assert(es[k - 1] == tail[k - 2]);
            }
        }
        assert forall|k: int| 0 <= k < es.len() - 1 implies (#[trigger] es[k]).3 != 0 by {
            if k > 0 {
                assert(es[k] == tail[k - 1]);
            }
        }
        assert forall|k: int| 0 <= k < es.len() implies (#[trigger] es[k]).2 != 0 && es[k] == step(
            es[k].0,
            es[k].2,
        ) by {
            if k > 0 {
                assert(es[k] == tail[k - 1]);
            }
        }
    }
}

/// The `j`-th number of the chain: the two numbers the table starts from,
/// then the successive remainders, ending with zero at `j == es.len() + 1`.
pub open spec fn chain_x(es: Seq<Step>, j: int) -> int {
    if j < es.len() {
        es[j].0
    } else if j == es.len() {
        es[es.len() - 1].2
    } else {
        es[es.len() - 1].3
    }
}

/// The `j`-th quotient of the chain.
pub open spec fn chain_q(es: Seq<Step>, j: int) -> int {
    es[j].1
}

pub proof fn lemma_chain_rows(es: Seq<Step>, k: int)
    requires
        is_chain(es),
        0 <= k < es.len(),
    ensures
        es[k] == (chain_x(es, k), chain_q(es, k), chain_x(es, k + 1), chain_x(es, k + 2)),
        chain_x(es, k + 1) != 0,
        chain_x(es, k + 2) == tmod(chain_x(es, k), chain_x(es, k + 1)),
        chain_q(es, k) == tdiv(chain_x(es, k), chain_x(es, k + 1)),
        k + 2 <= es.len() ==> chain_x(es, k + 2) != 0,
        k + 1 == es.len() ==> chain_x(es, k + 2) == 0,
{
    reveal(is_chain);
    if k + 1 < es.len() {
        assert(es[k + 1].0 == es[k].2 && es[k + 1].2 == es[k].3);
        if k + 2 < es.len() {
            assert(es[k + 2].0 == es[k + 1].2);
        }
    }
    assert(es[k].2 != 0 && es[k] == step(es[k].0, es[k].2));
}

/// The coefficient of the first number in the `j`-th number of the chain.
pub open spec fn cofactor_s(es: Seq<Step>, j: int) -> int
    decreases j,
{
    if j <= 0 {
        1
    } else if j == 1 {
        0
    } else {
        cofactor_s(es, j - 2) - chain_q(es, j - 2) * cofactor_s(es, j - 1)
    }
}

/// The coefficient of the second number in the `j`-th number of the chain.
pub open spec fn cofactor_t(es: Seq<Step>, j: int) -> int
    decreases j,
{
    if j <= 0 {
        0
    } else if j == 1 {
        1
    } else {
        cofactor_t(es, j - 2) - chain_q(es, j - 2) * cofactor_t(es, j - 1)
    }
}

proof fn lemma_combine_step(
    s0: int,
    s1: int,
    t0: int,
    t1: int,
    q: int,
    x0: int,
    x1: int,
    xa: int,
    xb: int,
    xc: int,
)
    requires
        s0 * x0 + t0 * x1 == xa,
        s1 * x0 + t1 * x1 == xb,
        xa == q * xb + xc,
    ensures
        (s0 - q * s1) * x0 + (t0 - q * t1) * x1 == xc,
{
    assert((s0 - q * s1) * x0 + (t0 - q * t1) * x1 == (s0 * x0 + t0 * x1) - q * (s1 * x0 + t1
        * x1)) by (nonlinear_arith);
}

/// Each number of the chain is a combination of the first two.
pub proof fn lemma_cofactors_combine(es: Seq<Step>, j: int)
    requires
        is_chain(es),
        0 <= j <= es.len() + 1,
    ensures
        cofactor_s(es, j) * chain_x(es, 0) + cofactor_t(es, j) * chain_x(es, 1) == chain_x(es, j),
    decreases j,
{
    if j >= 2 {
        lemma_cofactors_combine(es, j - 2);
        lemma_cofactors_combine(es, j - 1);
        lemma_chain_rows(es, j - 2);
        lemma_trunc_division(chain_x(es, j - 2), chain_x(es, j - 1));
        let x0 = chain_x(es, 0);
        let x1 = chain_x(es, 1);
        let q = chain_q(es, j - 2);
        let (s0, s1) = (cofactor_s(es, j - 2), cofactor_s(es, j - 1));
        let (t0, t1) = (cofactor_t(es, j - 2), cofactor_t(es, j - 1));
        let (xa, xb, xc) = (chain_x(es, j - 2), chain_x(es, j - 1), chain_x(es, j));
        assert(xa == q * xb + xc);
        lemma_combine_step(s0, s1, t0, t1, q, x0, x1, xa, xb, xc);
    } else if j == 1 {
    } else {
    }
}

pub open spec fn sg(x: int) -> int {
    if x < 0 {
        -1
    } else {
        1
    }
}

/// One step of the cofactor recurrence keeps the signs alternating and the
/// weighted sum of magnitudes constant.
proof fn lemma_cofactor_step(xj: int, xj1: int, xj2: int, q: int, sj: int, sj1: int, m: int)
    requires
        xj != 0,
        xj1 != 0,
        xj2 != 0,
        xj == q * xj1 + xj2,
        abs(xj) == abs(q) * abs(xj1) + abs(xj2),
        (xj2 < 0) == (xj < 0),
        q == 0 || (q < 0) == ((xj < 0) != (xj1 < 0)),
        (sj * sg(xj)) * (sj1 * sg(xj1)) <= 0,
        abs(sj1) * abs(xj) + abs(sj) * abs(xj1) == m,
    ensures
        (sj1 * sg(xj1)) * ((sj - q * sj1) * sg(xj2)) <= 0,
        abs(sj - q * sj1) * abs(xj1) + abs(sj1) * abs(xj2) == m,
        abs(sj - q * sj1) == abs(sj) + abs(q) * abs(sj1),
{
    let a = sj * sg(xj);
    let b = sj1 * sg(xj1);
    let p = abs(q);
    let sj2 = sj - q * sj1;
    assert(q * sg(xj) == p * sg(xj1));
    assert(sj2 * sg(xj2) == a - p * b) by (nonlinear_arith)
        requires
            sg(xj2) == sg(xj),
            q * sg(xj) == p * sg(xj1),
            a == sj * sg(xj),
            b == sj1 * sg(xj1),
            sj2 == sj - q * sj1,
    ;
    assert(b * (a - p * b) <= 0) by (nonlinear_arith)
        requires
            a * b <= 0,
            p >= 0,
    ;
    assert(abs(a) == abs(sj) && abs(b) == abs(sj1)) by (nonlinear_arith)
        requires
            a == sj * sg(xj),
            b == sj1 * sg(xj1),
            sg(xj) == 1 || sg(xj) == -1,
            sg(xj1) == 1 || sg(xj1) == -1,
    ;
    assert(abs(sj2) == abs(sj2 * sg(xj2))) by (nonlinear_arith)
        requires
            sg(xj2) == 1 || sg(xj2) == -1,
    ;
    assert(abs(a - p * b) == abs(a) + p * abs(b)) by (nonlinear_arith)
        requires
            a * b <= 0,
            p >= 0,
    ;
    assert(abs(sj2) * abs(xj1) + abs(sj1) * abs(xj2) == abs(sj) * abs(xj1) + abs(sj1) * (p * abs(
        xj1,
    ) + abs(xj2))) by (nonlinear_arith)
        requires
            abs(sj2) == abs(sj) + p * abs(sj1),
    ;
}

/// The signs of consecutive cofactors alternate (once each is multiplied by
/// the sign of its number), and the magnitudes weighted by the numbers of the
/// chain sum to the magnitudes of the starting numbers.
#[verifier::spinoff_prover]
pub proof fn lemma_cofactor_magnitudes(es: Seq<Step>, j: int)
    requires
        is_chain(es),
        0 <= j < es.len(),
        chain_x(es, 0) != 0,
    ensures
        (cofactor_s(es, j) * sg(chain_x(es, j))) * (cofactor_s(es, j + 1) * sg(chain_x(es, j + 1)))
            <= 0,
        abs(cofactor_s(es, j + 1)) * abs(chain_x(es, j)) + abs(cofactor_s(es, j)) * abs(
            chain_x(es, j + 1),
        ) == abs(chain_x(es, 1)),
        (cofactor_t(es, j) * sg(chain_x(es, j))) * (cofactor_t(es, j + 1) * sg(chain_x(es, j + 1)))
            <= 0,
        abs(cofactor_t(es, j + 1)) * abs(chain_x(es, j)) + abs(cofactor_t(es, j)) * abs(
            chain_x(es, j + 1),
        ) == abs(chain_x(es, 0)),
        j >= 1 ==> abs(cofactor_s(es, j + 1)) == abs(cofactor_s(es, j - 1)) + abs(chain_q(es, j - 1))
            * abs(cofactor_s(es, j)),
        j >= 1 ==> abs(cofactor_t(es, j + 1)) == abs(cofactor_t(es, j - 1)) + abs(chain_q(es, j - 1))
            * abs(cofactor_t(es, j)),
    decreases j,
{
    lemma_chain_rows(es, 0);
    if j > 0 {
        lemma_cofactor_magnitudes(es, j - 1);
        lemma_chain_rows(es, j - 1);
        let (xj, xj1, xj2) = (chain_x(es, j - 1), chain_x(es, j), chain_x(es, j + 1));
        let q = chain_q(es, j - 1);
        lemma_trunc_division(xj, xj1);
        if j - 1 > 0 {
            lemma_chain_rows(es, j - 2);
        }
        assert(xj != 0);
        assert(cofactor_s(es, j + 1) == cofactor_s(es, j - 1) - q * cofactor_s(es, j));
        assert(cofactor_t(es, j + 1) == cofactor_t(es, j - 1) - q * cofactor_t(es, j));
        lemma_cofactor_step(
            xj,
            xj1,
            xj2,
            q,
            cofactor_s(es, j - 1),
            cofactor_s(es, j),
            abs(chain_x(es, 1)),
        );
        let sj = cofactor_s(es, j);
        let sj2 = cofactor_s(es, j + 1);
        assert((sj * sg(xj1)) * ((cofactor_s(es, j - 1) - q * sj) * sg(xj2)) <= 0);
        assert(sj2 == cofactor_s(es, j - 1) - q * sj);
        assert((sj * sg(xj1)) * (sj2 * sg(xj2)) <= 0);
        assert(abs(sj2) * abs(xj1) + abs(sj) * abs(xj2) == abs(chain_x(es, 1)));
        lemma_cofactor_step(
            xj,
            xj1,
            xj2,
            q,
            cofactor_t(es, j - 1),
            cofactor_t(es, j),
            abs(chain_x(es, 0)),
        );
    } else {
        assert(cofactor_s(es, 1) == 0 && cofactor_t(es, 0) == 0);
        assert(cofactor_s(es, 0) == 1 && cofactor_t(es, 1) == 1);
        assert(cofactor_s(es, 1) * sg(chain_x(es, 1)) == 0);
        assert(cofactor_t(es, 0) * sg(chain_x(es, 0)) == 0);
        let x0 = abs(chain_x(es, 0));
        let x1 = abs(chain_x(es, 1));
        assert(0 * x0 + 1 * x1 == x1 && 1 * x0 + 0 * x1 == x0) by (nonlinear_arith);
        let a = cofactor_s(es, 0) * sg(chain_x(es, 0));
        assert(a * 0 == 0) by (nonlinear_arith);
        assert((cofactor_s(es, j) * sg(chain_x(es, j))) * (cofactor_s(es, j + 1) * sg(chain_x(es, j + 1)))
            <= 0);
    }
}

pub proof fn lemma_abs_mul(a: int, b: int)
    ensures
        abs(a * b) == abs(a) * abs(b),
{
    assert(abs(a * b) == abs(a) * abs(b)) by (nonlinear_arith);
}

/// From the second number on, the magnitudes of the chain strictly decrease.
pub proof fn lemma_chain_decreasing(es: Seq<Step>, j: int, k: int)
    requires
        is_chain(es),
        1 <= j <= k <= es.len() + 1,
    ensures
        abs(chain_x(es, j)) >= abs(chain_x(es, k)) + (k - j),
    decreases k - j,
{
    if j < k {
        lemma_chain_decreasing(es, j + 1, k);
        lemma_chain_rows(es, j - 1);
        lemma_trunc_division(chain_x(es, j - 1), chain_x(es, j));
    }
}

/// The bound `2^62` that every cofactor and every quotient it is multiplied
/// by stays within, as long as the chain starts from machine integers.
pub open spec fn cofactor_bound() -> int {
    0x4000_0000_0000_0000
}

pub proof fn lemma_cofactor_bounds(es: Seq<Step>, i: int)
    requires
        is_chain(es),
        chain_x(es, 0) != 0,
        abs(chain_x(es, 0)) <= 2 * cofactor_bound(),
        abs(chain_x(es, 1)) <= 2 * cofactor_bound(),
        2 <= i <= es.len(),
    ensures
        abs(cofactor_s(es, i)) <= cofactor_bound(),
        abs(cofactor_t(es, i)) <= cofactor_bound(),
        abs(chain_q(es, i - 2)) <= cofactor_bound(),
        abs(chain_q(es, i - 2) * cofactor_s(es, i - 1)) <= cofactor_bound(),
        abs(chain_q(es, i - 2) * cofactor_t(es, i - 1)) <= cofactor_bound(),
{
    let n = es.len() as int;
    lemma_cofactor_magnitudes(es, i - 1);
    lemma_chain_decreasing(es, i - 1, n);
    lemma_chain_rows(es, n - 1);
    lemma_chain_rows(es, i - 2);
    lemma_trunc_division(chain_x(es, i - 2), chain_x(es, i - 1));
    if i - 2 >= 1 {
        lemma_chain_decreasing(es, 1, i - 2);
    }
    let b = cofactor_bound();
    let xm = abs(chain_x(es, i - 1));
    assert(xm >= 2);
    let (si, ti) = (abs(cofactor_s(es, i)), abs(cofactor_t(es, i)));
    let (si1, ti1) = (abs(cofactor_s(es, i - 1)), abs(cofactor_t(es, i - 1)));
    let (si2, ti2) = (abs(cofactor_s(es, i - 2)), abs(cofactor_t(es, i - 2)));
    let xi = abs(chain_x(es, i));
    let q = abs(chain_q(es, i - 2));
    assert(si * xm <= 2 * b) by (nonlinear_arith)
        requires
            si * xm + si1 * xi == abs(chain_x(es, 1)),
            abs(chain_x(es, 1)) <= 2 * b,
            si1 >= 0,
            xi >= 0,
    ;
    assert(si <= b) by (nonlinear_arith)
        requires
            si * xm <= 2 * b,
            xm >= 2,
            si >= 0,
    ;
    assert(ti * xm <= 2 * b) by (nonlinear_arith)
        requires
            ti * xm + ti1 * xi == abs(chain_x(es, 0)),
            abs(chain_x(es, 0)) <= 2 * b,
            ti1 >= 0,
            xi >= 0,
    ;
    assert(ti <= b) by (nonlinear_arith)
        requires
            ti * xm <= 2 * b,
            xm >= 2,
            ti >= 0,
    ;
    assert(abs(chain_x(es, i - 2)) <= 2 * b);
    assert(q <= b) by (nonlinear_arith)
        requires
            abs(chain_x(es, i - 2)) == q * xm + xi,
            abs(chain_x(es, i - 2)) <= 2 * b,
            xm >= 2,
            xi >= 0,
            q >= 0,
    ;
    lemma_abs_mul(chain_q(es, i - 2), cofactor_s(es, i - 1));
    lemma_abs_mul(chain_q(es, i - 2), cofactor_t(es, i - 1));
    assert(q * si1 >= 0 && q * ti1 >= 0) by (nonlinear_arith)
        requires
            q >= 0,
            si1 >= 0,
            ti1 >= 0,
    ;
}

} // verus!
