//! Why reading coefficients off the back-substituted expression gives
//! Bezout coefficients: the expression is the linear form that the cofactor
//! recurrence describes, its coefficients stay within machine range, and its
//! value is the last nonzero remainder.

use vstd::prelude::*;
use crate::algebra::Algebra;
use crate::arith::{abs, tdiv, tmod, divides, lemma_trunc_division};
use crate::euclid::{Step, step, euclid_steps, upper, lower, gcd_table, gcd_value};
use crate::cofactors::{
    lemma_chain_len,
    lemma_chain_decreasing,
    is_chain,
    lemma_euclid_chain,
    chain_x,
    chain_q,
    lemma_chain_rows,
    cofactor_s,
    cofactor_t,
    lemma_cofactors_combine,
    cofactor_bound,
    lemma_cofactor_bounds,
};
use crate::unit3::{
    GcdEntry,
    table_view,
    replacement,
    back_substitution,
    bezout_expression,
    bezout_defined,
    bezout_coefficients,
};

verus! {

/// The expression for the `j`-th number of the chain in terms of the
/// numbers `k` and `k + 1`: `x[j] = x[j - 2] + (-q[j - 2]) * x[j - 1]`.
pub open spec fn chain_tree(m: Seq<GcdEntry>, k: int, j: int) -> Algebra<i64, i64>
    decreases j - k,
{
    if j <= k {
        Algebra::Var(m[k].a)
    } else if j == k + 1 {
        Algebra::Var(m[k].b)
    } else {
        Algebra::Add(
            Box::new(chain_tree(m, k, j - 2)),
            Box::new(
                Algebra::Mul(
                    Box::new(Algebra::Val((-m[j - 2].quotient) as i64)),
                    Box::new(chain_tree(m, k, j - 1)),
                ),
            ),
        )
    }
}

proof fn lemma_table_links(m: Seq<GcdEntry>, k: int)
    requires
        is_chain(table_view(m)),
        0 <= k < m.len() - 1,
    ensures
        m[k + 1].a == m[k].b,
        m[k + 1].b == m[k].remainder,
        m[k].b != m[k].remainder,
{
    let es = table_view(m);
    assert(es[k + 1] == m[k + 1].view_step());
    assert(es[k] == m[k].view_step());
    lemma_chain_rows(es, k);
    lemma_chain_rows(es, k + 1);
    lemma_trunc_division(chain_x(es, k), chain_x(es, k + 1));
}

/// Replacing the remainder of row `k` turns the expression in terms of
/// numbers `k + 1, k + 2` into the one in terms of numbers `k, k + 1`.
proof fn lemma_chain_tree_subst(m: Seq<GcdEntry>, k: int, j: int)
    requires
        0 <= k < m.len() - 1,
        j >= k + 1,
        m[k + 1].a == m[k].b,
        m[k + 1].b == m[k].remainder,
        m[k].b != m[k].remainder,
    ensures
        chain_tree(m, k + 1, j).subst(m[k].remainder, replacement(m[k])) == chain_tree(m, k, j),
    decreases j - k,
{
    if j == k + 1 {
        assert(chain_tree(m, k + 1, j) == Algebra::<i64, i64>::Var(m[k].b));
        assert(chain_tree(m, k, j) == Algebra::<i64, i64>::Var(m[k].b));
        assert(Algebra::<i64, i64>::Var(m[k].b).subst(m[k].remainder, replacement(m[k]))
            == Algebra::<i64, i64>::Var(m[k].b));
    } else if j == k + 2 {
        assert(chain_tree(m, k, k) == Algebra::<i64, i64>::Var(m[k].a));
        assert(chain_tree(m, k, k + 1) == Algebra::<i64, i64>::Var(m[k].b));
        assert(chain_tree(m, k, k + 2) == replacement(m[k]));
        assert(chain_tree(m, k + 1, k + 2) == Algebra::<i64, i64>::Var(m[k].remainder));
        assert(Algebra::<i64, i64>::Var(m[k].remainder).subst(m[k].remainder, replacement(m[k]))
            == replacement(m[k]));
    } else {
        lemma_chain_tree_subst(m, k, j - 2);
        lemma_chain_tree_subst(m, k, j - 1);
        let c = Algebra::<i64, i64>::Val((-m[j - 2].quotient) as i64);
        let f = m[k].remainder;
        let t = replacement(m[k]);
        assert(c.subst(f, t) == c);
        let l = chain_tree(m, k + 1, j - 2);
        let r = chain_tree(m, k + 1, j - 1);
        let mul = Algebra::Mul(Box::new(c), Box::new(r));
        assert(mul.subst(f, t) == Algebra::Mul(Box::new(c), Box::new(r.subst(f, t))));
        assert(chain_tree(m, k + 1, j) == Algebra::Add(Box::new(l), Box::new(mul)));
        assert(chain_tree(m, k + 1, j).subst(f, t) == Algebra::Add(
            Box::new(l.subst(f, t)),
            Box::new(mul.subst(f, t)),
        ));
    }
}

/// The back substitution from row `k` on builds the chain expression for the
/// divisor in terms of numbers `k` and `k + 1`.
proof fn lemma_back_substitution(m: Seq<GcdEntry>, k: int)
    requires
        is_chain(table_view(m)),
        m.len() >= 2,
        0 <= k <= m.len() - 1,
    ensures
        back_substitution(m[m.len() - 2].remainder, m, k) == chain_tree(m, k, m.len() as int),
    decreases m.len() - k,
{
    let n = m.len() as int;
    if k == n - 1 {
        lemma_table_links(m, n - 2);
    } else {
        lemma_back_substitution(m, k + 1);
        lemma_table_links(m, k);
        lemma_chain_tree_subst(m, k, n);
    }
}

/// The chain expression from the first row is a linear form in the first two
/// numbers, whose coefficients are the cofactors, that stays in machine range.
proof fn lemma_chain_tree_linear(m: Seq<GcdEntry>, j: int)
    requires
        is_chain(table_view(m)),
        chain_x(table_view(m), 0) != 0,
        m[0].a != m[0].b,
        m.len() >= 1,
        0 <= j <= m.len(),
    ensures
        chain_tree(m, 0, j).is_linear_in(m[0].a, m[0].b),
        chain_tree(m, 0, j).coef(m[0].a) == cofactor_s(table_view(m), j),
        chain_tree(m, 0, j).coef(m[0].b) == cofactor_t(table_view(m), j),
        chain_tree(m, 0, j).linear_fits(m[0].a, m[0].b),
        j >= 2 ==> chain_tree(m, 0, j).occurs(m[0].a) && chain_tree(m, 0, j).occurs(m[0].b),
    decreases j,
{
    let es = table_view(m);
    let (p, q) = (m[0].a, m[0].b);
    assert(es[0] == m[0].view_step());
    if j >= 2 {
        lemma_chain_tree_linear(m, j - 2);
        lemma_chain_tree_linear(m, j - 1);
        assert(es[j - 2] == m[j - 2].view_step());
        assert(abs(chain_x(es, 0)) <= 2 * cofactor_bound());
        assert(abs(chain_x(es, 1)) <= 2 * cofactor_bound());
        lemma_cofactor_bounds(es, j);
        let c = Algebra::<i64, i64>::Val((-m[j - 2].quotient) as i64);
        assert(c.constant() == -chain_q(es, j - 2));
        let prod = Algebra::Mul(Box::new(c), Box::new(chain_tree(m, 0, j - 1)));
        assert(prod.coef(p) == -chain_q(es, j - 2) * cofactor_s(es, j - 1));
        assert(prod.coef(q) == -chain_q(es, j - 2) * cofactor_t(es, j - 1));
        assert(-chain_q(es, j - 2) * cofactor_s(es, j - 1) == -(chain_q(es, j - 2) * cofactor_s(
            es,
            j - 1,
        ))) by (nonlinear_arith);
        assert(-chain_q(es, j - 2) * cofactor_t(es, j - 1) == -(chain_q(es, j - 2) * cofactor_t(
            es,
            j - 1,
        ))) by (nonlinear_arith);
        assert(cofactor_s(es, j) == cofactor_s(es, j - 2) - chain_q(es, j - 2) * cofactor_s(es, j - 1));
        assert(cofactor_t(es, j) == cofactor_t(es, j - 2) - chain_q(es, j - 2) * cofactor_t(es, j - 1));
        if j == 2 {
            assert(chain_tree(m, 0, 0).occurs(p));
            assert(chain_tree(m, 0, 1).occurs(q));
        }
        let l = chain_tree(m, 0, j - 2);
        let r = chain_tree(m, 0, j - 1);
        assert(chain_tree(m, 0, j) == Algebra::Add(Box::new(l), Box::new(prod)));
        assert(prod.is_linear_in(p, q));
        assert(prod.linear_fits(p, q));
        assert(chain_tree(m, 0, j).coef(p) == cofactor_s(es, j));
        assert(chain_tree(m, 0, j).coef(q) == cofactor_t(es, j));
        assert(l.occurs(p) || r.occurs(p));
        assert(l.occurs(q) || r.occurs(q));
        assert(!c.occurs(p) && !c.occurs(q));
        assert(prod.occurs(p) == r.occurs(p) && prod.occurs(q) == r.occurs(q));
    }
}

/// Bezout's identity for `gcd`'s table: `bezout_with_gcd` is defined on it, and
/// the two coefficients it returns combine `a` and `b` into the divisor that
/// `gcd` returns. Both coefficients are at most `2^62` in magnitude.
pub proof fn lemma_bezout_identity(a: i64, b: i64, m: Seq<GcdEntry>)
    requires
        !(a == -1 && b == i64::MIN),
        !(a == i64::MIN && b == -1),
        lower(a as int, b as int) != 0,
        table_view(m) == gcd_table(a as int, b as int),
    ensures
        bezout_defined(a, b, gcd_value(a as int, b as int) as i64, m),
        ({
            let (u, v) = bezout_coefficients(a, b, gcd_value(a as int, b as int) as i64, m);
            &&& a * u + b * v == gcd_value(a as int, b as int)
            &&& abs(u) <= cofactor_bound()
            &&& abs(v) <= cofactor_bound()
        }),
{
    let hi = upper(a as int, b as int);
    let lo = lower(a as int, b as int);
    let es = table_view(m);
    lemma_euclid_chain(hi, lo);
    let n = m.len() as int;
    assert(es.len() == n);
    assert(es[0] == m[0].view_step());
    let g = gcd_value(a as int, b as int);
    lemma_trunc_division(hi, lo);
    if n == 1 {
        assert(g == lo);
        assert(bezout_expression(g as i64, m) == Algebra::<i64, i64>::Var(g as i64));
        assert(bezout_expression(g as i64, m).zip() =~= seq![(seq![g as i64], 1int)]);
        let (u, v) = bezout_coefficients(a, b, g as i64, m);
        if a == g {
            assert(u == 1 && v == 0);
            assert(a * 1 + b * 0 == a) by (nonlinear_arith);
        } else {
            assert(b == g);
            assert(u == 0 && v == 1);
            assert(a * 0 + b * 1 == b) by (nonlinear_arith);
        }
    } else {
        lemma_chain_rows(es, 0);
        lemma_chain_rows(es, n - 2);
        assert(es[n - 2] == m[n - 2].view_step());
        assert(g == m[n - 2].remainder);
        assert(es[0] == step(hi, lo));
        assert(hi != 0) by {
            if hi == 0 {
                assert(tmod(hi, lo) == 0);
            }
        }
        assert(hi != lo) by {
            if hi == lo {
                vstd::arithmetic::div_mod::lemma_mod_self_0(abs(lo));
                assert(tmod(hi, lo) == 0);
            }
        }
        let p = m[0].a;
        let q = m[0].b;
        lemma_back_substitution(m, 0);
        let e = chain_tree(m, 0, n);
        assert(bezout_expression(g as i64, m) == e);
        lemma_chain_tree_linear(m, n);
        e.lemma_linear_zip(p, q);
        lemma_cofactors_combine(es, n);
        lemma_cofactor_bounds(es, n);
        assert forall|k: int| 0 <= k < m.len() - 1 implies (#[trigger] m[k]).quotient != i64::MIN by {
            lemma_cofactor_bounds(es, k + 2);
            assert(es[k] == m[k].view_step());
        }
        let z = e.zip();
        assert(z[0].0[0] == p || z[0].0[0] == q);
        let (u, v) = bezout_coefficients(a, b, g as i64, m);
        assert(p == hi && q == lo);
        if a > b {
            assert(p == a && q == b);
        } else {
            assert(p == b && q == a);
        }
        assert(u == e.coef(a) && v == e.coef(b));
        assert(e.coef(p) == cofactor_s(es, n) && e.coef(q) == cofactor_t(es, n));
        assert(chain_x(es, 0) == p && chain_x(es, 1) == q);
        assert(cofactor_s(es, n) * p + cofactor_t(es, n) * q == g);
        let (cp, cq) = (e.coef(p), e.coef(q));
        assert(p * cp + q * cq == cp * p + cq * q) by (nonlinear_arith);
        assert(q * cq + p * cp == cp * p + cq * q) by (nonlinear_arith);
        assert(a * u + b * v == g);
    }
}

/// The rows of `gcd`'s table hold machine integers.
pub proof fn lemma_table_in_range(a: i64, b: i64, i: int)
    requires
        !(a == -1 && b == i64::MIN),
        !(a == i64::MIN && b == -1),
        lower(a as int, b as int) != 0,
        0 <= i < gcd_table(a as int, b as int).len(),
    ensures
        i64::MIN <= gcd_table(a as int, b as int)[i].0 <= i64::MAX,
        i64::MIN <= gcd_table(a as int, b as int)[i].1 <= i64::MAX,
        i64::MIN <= gcd_table(a as int, b as int)[i].2 <= i64::MAX,
        i64::MIN <= gcd_table(a as int, b as int)[i].3 <= i64::MAX,
{
    let hi = upper(a as int, b as int);
    let lo = lower(a as int, b as int);
    let es = gcd_table(a as int, b as int);
    lemma_euclid_chain(hi, lo);
    lemma_chain_rows(es, 0);
    lemma_chain_rows(es, i);
    let n = es.len() as int;
    lemma_chain_decreasing(es, 1, i + 2);
    if i >= 1 {
        lemma_chain_decreasing(es, 1, i);
        lemma_chain_decreasing(es, 1, i + 1);
    }
    let x = chain_x(es, i);
    let d = chain_x(es, i + 1);
    lemma_trunc_division(x, d);
    let q = chain_q(es, i);
    assert(abs(x) <= 0x8000_0000_0000_0000);
    if abs(d) >= 2 {
        assert(abs(q) <= 0x4000_0000_0000_0000) by (nonlinear_arith)
            requires
                abs(x) == abs(q) * abs(d) + abs(tmod(x, d)),
                abs(x) <= 0x8000_0000_0000_0000,
                abs(d) >= 2,
                abs(tmod(x, d)) >= 0,
                abs(q) >= 0,
        ;
    } else {
        assert(abs(d) == 1);
        assert(abs(q) == abs(x)) by (nonlinear_arith)
            requires
                abs(x) == abs(q) * abs(d) + abs(tmod(x, d)),
                abs(d) == 1,
                abs(tmod(x, d)) < abs(d),
                abs(tmod(x, d)) >= 0,
        ;
        if x == i64::MIN {
            if i == 0 {
                assert(lo == i64::MIN);
            } else if i == 1 {
                lemma_chain_rows(es, 1);
                assert(x == lo);
                assert(hi != i64::MIN);
                assert(abs(hi) < abs(lo));
                vstd::arithmetic::div_mod::lemma_small_mod(
                    abs(hi) as nat,
                    abs(lo) as nat,
                );
                assert(d == hi);
            }
        }
    }
}

proof fn lemma_chain_divisible(es: Seq<Step>, j: int)
    requires
        is_chain(es),
        0 <= j <= es.len(),
    ensures
        divides(chain_x(es, es.len() as int), chain_x(es, j)),
        divides(chain_x(es, es.len() as int), chain_x(es, j + 1)),
    decreases es.len() - j,
{
    let n = es.len() as int;
    let g = chain_x(es, n);
    lemma_chain_len(es);
    if j == n {
        lemma_chain_rows(es, n - 1);
        assert(g == g * 1);
        assert(0 == g * 0);
    } else {
        lemma_chain_divisible(es, j + 1);
        lemma_chain_rows(es, j);
        lemma_trunc_division(chain_x(es, j), chain_x(es, j + 1));
        let k1 = choose|k: int| chain_x(es, j + 1) == #[trigger] (g * k);
        let k2 = choose|k: int| chain_x(es, j + 2) == #[trigger] (g * k);
        let q = chain_q(es, j);
        assert(chain_x(es, j) == g * (q * k1 + k2)) by (nonlinear_arith)
            requires
                chain_x(es, j) == q * chain_x(es, j + 1) + chain_x(es, j + 2),
                chain_x(es, j + 1) == g * k1,
                chain_x(es, j + 2) == g * k2,
        ;
    }
}

/// The divisor that `gcd(a, b)` returns divides both `a` and `b`.
pub proof fn lemma_gcd_divides(a: int, b: int)
    requires
        lower(a, b) != 0,
    ensures
        gcd_value(a, b) != 0,
        divides(gcd_value(a, b), a),
        divides(gcd_value(a, b), b),
{
    let es = gcd_table(a, b);
    lemma_euclid_chain(upper(a, b), lower(a, b));
    lemma_chain_len(es);
    lemma_chain_rows(es, 0);
    let n = es.len() as int;
    lemma_chain_rows(es, n - 1);
    if n >= 2 {
        lemma_chain_rows(es, n - 2);
    }
    assert(gcd_value(a, b) == chain_x(es, n));
    lemma_chain_divisible(es, 0);
}

/// Every common divisor of `a` and `b` divides the divisor that `gcd(a, b)`
/// returns: it is a greatest common divisor (up to sign).
pub proof fn lemma_gcd_greatest(a: i64, b: i64, d: int)
    requires
        !(a == -1 && b == i64::MIN),
        !(a == i64::MIN && b == -1),
        lower(a as int, b as int) != 0,
        divides(d, a as int),
        divides(d, b as int),
    ensures
        divides(d, gcd_value(a as int, b as int)),
{
    let m = crate::unit3::gcd_entries(a as int, b as int);
    let es = gcd_table(a as int, b as int);
    lemma_euclid_chain(upper(a as int, b as int), lower(a as int, b as int));
    assert(table_view(m) =~= es) by {
        assert forall|i: int| 0 <= i < es.len() implies #[trigger] table_view(m)[i] == es[i] by {
            lemma_table_in_range(a, b, i);
        }
    }
    lemma_bezout_identity(a, b, m);
    let (u, v) = bezout_coefficients(a, b, gcd_value(a as int, b as int) as i64, m);
    let k1 = choose|k: int| a as int == #[trigger] (d * k);
    let k2 = choose|k: int| b as int == #[trigger] (d * k);
    assert(gcd_value(a as int, b as int) == d * (k1 * u + k2 * v)) by (nonlinear_arith)
        requires
            a * u + b * v == gcd_value(a as int, b as int),
            a as int == d * k1,
            b as int == d * k2,
    ;
}

} // verus!
