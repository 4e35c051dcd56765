//! Number theory: the Euclidean algorithm with its table, Bezout
//! coefficients, modular inverses, linear congruences and the affine cipher.

use vstd::prelude::*;
use vstd::arithmetic::power::pow;
use crate::algebra::{Algebra, terms_view};
use crate::fermat::{is_prime, lemma_fast_exponentiation_agrees};
use crate::bezout_laws::{lemma_bezout_identity, lemma_gcd_divides};
use crate::arith::{abs, tdiv, tmod, lemma_trunc_division, lemma_mod_by_abs, lemma_divides_tmod};
use crate::euclid::{Step, step, euclid_steps, steps_after, upper, lower, gcd_table, gcd_value, lemma_steps_unfold};

verus! {

/// One row of the table of the Euclidean algorithm:
/// `a == quotient * b + remainder`.
#[derive(Clone, Copy, Debug)]
pub struct GcdEntry {
    pub a: i64,
    pub quotient: i64,
    pub b: i64,
    pub remainder: i64,
}

impl GcdEntry {
    pub open spec fn view_step(self) -> Step {
        (self.a as int, self.quotient as int, self.b as int, self.remainder as int)
    }
}

/// The rows of a table, as mathematical integers.
pub open spec fn table_view(v: Seq<GcdEntry>) -> Seq<Step> {
    Seq::new(v.len(), |i: int| v[i].view_step())
}

/// A table of mathematical integers as a table of machine rows.
pub open spec fn entries_of(es: Seq<Step>) -> Seq<GcdEntry> {
    Seq::new(
        es.len(),
        |i: int|
            GcdEntry {
                a: es[i].0 as i64,
                quotient: es[i].1 as i64,
                b: es[i].2 as i64,
                remainder: es[i].3 as i64,
            },
    )
}

/// The rows that `gcd(a, b)` returns.
pub open spec fn gcd_entries(a: int, b: int) -> Seq<GcdEntry> {
    entries_of(gcd_table(a, b))
}

proof fn lemma_entries_of_view(m: Seq<GcdEntry>)
    ensures
        entries_of(table_view(m)) == m,
{
    assert(entries_of(table_view(m)) =~= m);
}

/// `num_traits::CheckedDiv::checked_div` on `i64`, which defers to
/// `i64::checked_div`: nothing when `v` is zero or the quotient overflows
/// (`i64::MIN / -1`), else the quotient rounded toward zero.
#[verifier::external_body]
fn checked_quotient(a: i64, v: i64) -> (r: Option<i64>)
    ensures
        r == (if v == 0 || (a == i64::MIN && v == -1) {
            None
        } else {
            Some(tdiv(a as int, v as int) as i64)
        }),
{
    num_traits::CheckedDiv::checked_div(&a, &v)
}

/// The remainder of `a` by `b`, with the sign of `a`.
fn remainder(a: i64, b: i64) -> (r: i64)
    requires
        b != 0,
        !(a == i64::MIN && b == -1),
    ensures
        r == tmod(a as int, b as int),
{
    proof {
        if a >= 0 {
            lemma_mod_by_abs(a as int, b as int);
        } else {
            lemma_mod_by_abs(-(a as int), b as int);
        }
    }
    a % b
}

/// The quotient of `a` by `b`, rounded toward zero.
fn quotient(a: i64, b: i64) -> (q: i64)
    requires
        b != 0,
        !(a == i64::MIN && b == -1),
    ensures
        q == tdiv(a as int, b as int),
{
    proof {
        lemma_trunc_division(a as int, b as int);
        lemma_tdiv_in_range(a, b);
    }
    a.checked_div(b).unwrap()
}

proof fn lemma_tdiv_in_range(a: i64, b: i64)
    requires
        b != 0,
        !(a == i64::MIN && b == -1),
    ensures
        i64::MIN <= tdiv(a as int, b as int) <= i64::MAX,
{
    let q = tdiv(a as int, b as int);
    lemma_trunc_division(a as int, b as int);
    assert(abs(q) <= abs(a as int)) by (nonlinear_arith)
        requires
            abs(a as int) == abs(q) * abs(b as int) + abs(tmod(a as int, b as int)),
            abs(b as int) >= 1,
            abs(q) >= 0,
            abs(tmod(a as int, b as int)) >= 0,
    ;
    if a == i64::MIN && abs(q) == abs(a as int) {
        assert(abs(b as int) == 1) by (nonlinear_arith)
            requires
                abs(a as int) == abs(q) * abs(b as int) + abs(tmod(a as int, b as int)),
                abs(q) == abs(a as int),
                abs(a as int) > 0,
                abs(b as int) >= 1,
                abs(tmod(a as int, b as int)) >= 0,
        ;
    }
}

/// The row that divides `a` by `b`.
fn divide(a: i64, b: i64) -> (e: GcdEntry)
    requires
        b != 0,
        !(a == i64::MIN && b == -1),
    ensures
        e.view_step() == step(a as int, b as int),
{
    GcdEntry { a, quotient: quotient(a, b), b, remainder: remainder(a, b) }
}

/// `|x| < |d|` leaves `x` as its own remainder.
proof fn lemma_small_tmod(x: int, d: int)
    requires
        abs(x) < abs(d),
    ensures
        tmod(x, d) == x,
{
    lemma_trunc_division(x, d);
    if x >= 0 {
        vstd::arithmetic::div_mod::lemma_small_mod(x as nat, abs(d) as nat);
    } else {
        vstd::arithmetic::div_mod::lemma_small_mod((-x) as nat, abs(d) as nat);
    }
}

/// Runs the Euclidean algorithm on the larger and the smaller of `a` and `b`,
/// and returns the last nonzero remainder (the smaller number when it divides
/// the larger) with the table of all the divisions. Nothing when the smaller
/// number is zero.
pub fn gcd(a: i64, b: i64) -> (r: Option<(i64, Vec<GcdEntry>)>)
    requires
        !(a == -1 && b == i64::MIN),
        !(a == i64::MIN && b == -1),
    ensures
        r is None <==> lower(a as int, b as int) == 0,
        r matches Some((g, m)) ==> table_view(m@) == gcd_table(a as int, b as int) && m@
            == gcd_entries(a as int, b as int) && g == gcd_value(a as int, b as int),
{
    let ghost (a0, b0) = (a as int, b as int);
    let (a, b) = if a > b {
        (a, b)
    } else {
        (b, a)
    };
    let quotient = match checked_quotient(a, b) {
        Some(q) => q,
        None => {
            return None;
        },
    };
    let first = GcdEntry { a, quotient, b, remainder: remainder(a, b) };
    let mut out: Vec<GcdEntry> = Vec::new();
    out.push(first);
    proof {
        lemma_steps_unfold(a as int, b as int);
        assert(first.view_step() == step(a as int, b as int));
        assert(out@ =~= seq![first]);
        assert(table_view(out@) =~= seq![step(a as int, b as int)]);
    }
    while out[out.len() - 1].remainder != 0
        invariant
            out.len() >= 1,
            out@[0].view_step() == step(a as int, b as int),
            table_view(out@) + steps_after(out@[out.len() - 1].view_step()) == euclid_steps(
                a as int,
                b as int,
            ),
            out.len() > 1 ==> out@[out.len() - 1].b != i64::MIN,
            out@[out.len() - 1].b != 0,
            out@[out.len() - 1].view_step() == step(
                out@[out.len() - 1].a as int,
                out@[out.len() - 1].b as int,
            ),
            b == i64::MIN ==> a != -1,
            a >= b,
            b != 0,
        decreases abs(out@[out.len() - 1].remainder as int),
    {
        let last = out[out.len() - 1];
        proof {
            lemma_trunc_division(last.a as int, last.b as int);
            if last.b == i64::MIN {
                assert(out.len() == 1);
                assert(last.a == a);
                if a != i64::MIN {
                    lemma_small_tmod(a as int, b as int);
                }
            }
        }
        let (a, b) = (last.b, last.remainder);
        let e = divide(a, b);
        proof {
            lemma_steps_unfold(a as int, b as int);
            lemma_trunc_division(a as int, b as int);
            assert(table_view(out@.push(e)) =~= table_view(out@).push(e.view_step()));
        }
        out.push(e);
    }
    proof {
        assert(table_view(out@) + Seq::<Step>::empty() =~= table_view(out@));
    }
    let g = if out.len() == 1 {
        b
    } else {
        out[out.len() - 2].remainder
    };
    proof {
        lemma_entries_of_view(out@);
    }
    Some((g, out))
}

/// Whether `least_res(base, modulo)` computes without overflow.
pub open spec fn least_res_fits(base: int, modulo: int) -> bool {
    &&& modulo != 0
    &&& !(base == i64::MIN && modulo == -1)
    &&& i64::MIN <= tmod(base, modulo) + modulo <= i64::MAX
}

/// What `least_res(base, modulo)` returns.
pub open spec fn least_residue(base: int, modulo: int) -> int {
    tmod(tmod(base, modulo) + modulo, modulo)
}

/// The residue of `base` modulo `modulo`: `((base % modulo) + modulo) % modulo`.
/// For a positive modulus it is the one in `0 .. modulo`.
pub fn least_res(base: i64, modulo: i64) -> (r: i64)
    requires
        least_res_fits(base as int, modulo as int),
    ensures
        r == least_residue(base as int, modulo as int),
        modulo > 0 ==> r == (base as int) % (modulo as int),
{
    let x = remainder(base, modulo);
    proof {
        lemma_trunc_division(base as int, modulo as int);
    }
    let r = remainder(x + modulo, modulo);
    proof {
        if modulo > 0 {
            lemma_least_residue_positive(base as int, modulo as int);
        }
    }
    r
}

/// With a positive modulus, `least_residue` is the Euclidean remainder.
pub proof fn lemma_least_residue_positive(base: int, modulo: int)
    requires
        modulo > 0,
    ensures
        least_residue(base, modulo) == base % modulo,
        0 <= least_residue(base, modulo) < modulo,
{
    let t = tmod(base, modulo);
    lemma_trunc_division(base, modulo);
    lemma_trunc_division(t + modulo, modulo);
    assert(t + modulo > 0);
    vstd::arithmetic::div_mod::lemma_fundamental_div_mod(base, modulo);
    vstd::arithmetic::div_mod::lemma_fundamental_div_mod(t + modulo, modulo);
    let q = tdiv(base, modulo);
    // base == q * modulo + t, so t + modulo == base + (1 - q) * modulo
    assert(t + modulo == base + (1 - q) * modulo) by (nonlinear_arith)
        requires
            base == q * modulo + t,
    ;
    vstd::arithmetic::div_mod::lemma_mod_multiples_vanish(1 - q, base, modulo);
    assert((t + modulo) % modulo == base % modulo) by {
        assert((1 - q) * modulo + base == t + modulo);
    }
}

/// The expression that replaces the remainder of row `e`:
/// `a + (-quotient) * b`.
pub open spec fn replacement(e: GcdEntry) -> Algebra<i64, i64> {
    Algebra::Add(
        Box::new(Algebra::Var(e.a)),
        Box::new(Algebra::Mul(Box::new(Algebra::Val((-e.quotient) as i64)), Box::new(Algebra::Var(e.b)))),
    )
}

/// The expression for the divisor `g` after the remainders of rows
/// `k .. m.len() - 2` have been replaced, last row first.
pub open spec fn back_substitution(g: i64, m: Seq<GcdEntry>, k: int) -> Algebra<i64, i64>
    decreases m.len() - k,
{
    if k >= m.len() - 1 {
        Algebra::Var(g)
    } else {
        back_substitution(g, m, k + 1).subst(m[k].remainder, replacement(m[k]))
    }
}

/// The expression for `g` in terms of the first row.
pub open spec fn bezout_expression(g: i64, m: Seq<GcdEntry>) -> Algebra<i64, i64> {
    back_substitution(g, m, 0)
}

/// Whether `bezout_with_gcd(a, b, (g, m))` computes without overflow and
/// without unwrapping nothing.
pub open spec fn bezout_defined(a: i64, b: i64, g: i64, m: Seq<GcdEntry>) -> bool {
    let z = bezout_expression(g, m).zip();
    &&& forall|k: int| 0 <= k < m.len() - 1 ==> (#[trigger] m[k]).quotient != i64::MIN
    &&& bezout_expression(g, m).zip_fits()
    &&& (z.len() == 1 || (z.len() >= 2 && z[0].0.len() >= 1))
}

/// What `bezout_with_gcd(a, b, (g, m))` returns: the coefficients read off the
/// expanded expression, the one of the monomial in `a` first.
pub open spec fn bezout_coefficients(a: i64, b: i64, g: i64, m: Seq<GcdEntry>) -> (int, int) {
    let z = bezout_expression(g, m).zip();
    if z.len() == 1 {
        (if a == g { 1 } else { 0 }, if b == g && a != g { 1 } else { 0 })
    } else if z[0].0[0] == a {
        (z[0].1, z[1].1)
    } else {
        (z[1].1, z[0].1)
    }
}

fn zow(v: bool) -> (r: i64)
    ensures
        r == (if v { 1int } else { 0int }),
{
    if v {
        1
    } else {
        0
    }
}

/// Reads Bezout coefficients off the table of `gcd(a, b)`: starting from the
/// variable `gcd`, replaces the remainder of each row, from the last but one
/// row up to the first, by `a - quotient * b`; expands the result into
/// monomials; and returns the coefficient of `a` and that of `b`.
pub fn bezout_with_gcd(a: i64, b: i64, gm: (i64, Vec<GcdEntry>)) -> (r: (i64, i64))
    requires
        bezout_defined(a, b, gm.0, gm.1@),
    ensures
        (r.0 as int, r.1 as int) == bezout_coefficients(a, b, gm.0, gm.1@),
{
    let (gcd, m) = gm;
    let mut x: Algebra<i64, i64> = Algebra::Var(gcd);
    let mut k: usize = if m.len() == 0 {
        0
    } else {
        m.len() - 1
    };
    while k > 0
        invariant
            k <= m.len(),
            k == 0 || k < m.len(),
            x == back_substitution(gcd, m@, k as int),
            forall|j: int| 0 <= j < m.len() - 1 ==> (#[trigger] m@[j]).quotient != i64::MIN,
        decreases k,
    {
        k = k - 1;
        let e = m[k];
        let t = Algebra::Add(
            Box::new(Algebra::Var(e.a)),
            Box::new(Algebra::Mul(Box::new(Algebra::Val(-e.quotient)), Box::new(Algebra::Var(e.b)))),
        );
        assert(t == replacement(m@[k as int]));
        x.var_sub(&e.remainder, &t);
    }
    let z = x.into_zip_sequence();
    if z.len() == 1 {
        (zow(a == gcd), zow((b == gcd) && !(a == gcd)))
    } else {
        assert(terms_view(z@)[0].0 == z@[0].0@);
        let u;
        let v;
        if z[0].0[0] == a {
            u = z[0].1;
            v = z[1].1;
        } else {
            v = z[0].1;
            u = z[1].1;
        }
        (u, v)
    }
}

/// The coefficients that `bezout(a, b)` returns.
pub open spec fn bezout_pair(a: i64, b: i64) -> (int, int) {
    bezout_coefficients(a, b, gcd_value(a as int, b as int) as i64, gcd_entries(a as int, b as int))
}

/// Bezout coefficients `(u, v)` of `a` and `b`: `a * u + b * v` is the divisor
/// that `gcd(a, b)` returns. Nothing when the smaller number is zero.
pub fn bezout(a: i64, b: i64) -> (r: Option<(i64, i64)>)
    requires
        !(a == -1 && b == i64::MIN),
        !(a == i64::MIN && b == -1),
    ensures
        r is None <==> lower(a as int, b as int) == 0,
        r matches Some((u, v)) ==> (u as int, v as int) == bezout_pair(a, b) && a * u + b * v
            == gcd_value(a as int, b as int),
{
    let gm = match gcd(a, b) {
        Some(gm) => gm,
        None => {
            return None;
        },
    };
    proof {
        lemma_bezout_identity(a, b, gm.1@);
    }
    Some(bezout_with_gcd(a, b, gm))
}

/// If `base * u + modulo * v == 1`, then `base` times the residue of `u` is
/// one modulo `modulo`.
pub proof fn lemma_inverse_residue(base: int, modulo: int, u: int, v: int)
    requires
        modulo > 0,
        base * u + modulo * v == 1,
    ensures
        (base * (u % modulo)) % modulo == 1int % modulo,
{
    vstd::arithmetic::div_mod::lemma_mul_mod_noop_right(base, u, modulo);
    vstd::arithmetic::div_mod::lemma_mod_multiples_vanish(v, base * u, modulo);
    assert(modulo * v + base * u == 1) by (nonlinear_arith)
        requires
            base * u + modulo * v == 1,
    ;
}

/// Multiplying `b` by an inverse of `a` solves `a * x == b` modulo `modulo`.
pub proof fn lemma_solves_congruence(a: int, b: int, i: int, modulo: int)
    requires
        modulo > 0,
        (a * i) % modulo == 1int % modulo,
    ensures
        (a * ((i * b) % modulo)) % modulo == b % modulo,
{
    vstd::arithmetic::div_mod::lemma_mul_mod_noop_right(a, i * b, modulo);
    assert(a * (i * b) == (a * i) * b) by (nonlinear_arith);
    vstd::arithmetic::div_mod::lemma_mul_mod_noop_left(a * i, b, modulo);
    vstd::arithmetic::div_mod::lemma_mul_mod_noop_left(1, b, modulo);
    assert(1 * b == b);
}

/// Whether `mul_inv_with_gcd(base, modulo, (g, m))` computes without overflow.
pub open spec fn mul_inv_with_gcd_fits(base: i64, modulo: i64, g: i64, m: Seq<GcdEntry>) -> bool {
    g == 1 ==> bezout_defined(base, modulo, g, m) && least_res_fits(
        bezout_coefficients(base, modulo, g, m).0,
        modulo as int,
    )
}

/// The inverse of `base` modulo `modulo`, given the result of
/// `gcd(base, modulo)`: the residue of the first Bezout coefficient when the
/// divisor is one, and nothing otherwise.
pub fn mul_inv_with_gcd(base: i64, modulo: i64, gm: (i64, Vec<GcdEntry>)) -> (r: Option<i64>)
    requires
        mul_inv_with_gcd_fits(base, modulo, gm.0, gm.1@),
    ensures
        r is Some <==> gm.0 == 1,
        r matches Some(i) ==> i == least_residue(
            bezout_coefficients(base, modulo, gm.0, gm.1@).0,
            modulo as int,
        ),
{
    if gm.0 == 1 {
        let (a, _) = bezout_with_gcd(base, modulo, gm);
        Some(least_res(a, modulo))
    } else {
        None
    }
}

/// Whether `mul_inv(base, modulo)` computes without overflow.
pub open spec fn mul_inv_fits(base: i64, modulo: i64) -> bool {
    lower(base as int, modulo as int) != 0 && gcd_value(base as int, modulo as int) == 1
        ==> least_res_fits(bezout_pair(base, modulo).0, modulo as int)
}

/// The inverse of `base` modulo `modulo`: the residue of the Bezout
/// coefficient of `base`, when `gcd` returns one. With a positive modulus it
/// lies in `0 .. modulo` and `base` times it is one modulo `modulo`.
pub fn mul_inv(base: i64, modulo: i64) -> (r: Option<i64>)
    requires
        !(base == -1 && modulo == i64::MIN),
        !(base == i64::MIN && modulo == -1),
        mul_inv_fits(base, modulo),
    ensures
        r is Some <==> lower(base as int, modulo as int) != 0 && gcd_value(
            base as int,
            modulo as int,
        ) == 1,
        r matches Some(i) ==> i == least_residue(bezout_pair(base, modulo).0, modulo as int),
        modulo > 0 ==> (r matches Some(i) ==> 0 <= i < modulo && (base * i) % (modulo as int) == 1int
            % (modulo as int)),
{
    let gm = match gcd(base, modulo) {
        Some(gm) => gm,
        None => {
            return None;
        },
    };
    proof {
        lemma_bezout_identity(base, modulo, gm.1@);
    }
    let r = mul_inv_with_gcd(base, modulo, gm);
    proof {
        if modulo > 0 && r is Some {
            let (u, v) = bezout_pair(base, modulo);
            lemma_least_residue_positive(u, modulo as int);
            lemma_inverse_residue(base as int, modulo as int, u, v);
        }
    }
    r
}

/// Whether `lin_cong(a, b, n)` computes without overflow.
pub open spec fn lin_cong_fits(a: i64, b: i64, n: i64) -> bool {
    let g = gcd_value(a as int, n as int);
    let u = bezout_pair(a, n).0;
    lower(a as int, n as int) != 0 ==> if g == 1 {
        &&& least_res_fits(u, n as int)
        &&& i64::MIN <= least_residue(u, n as int) * b <= i64::MAX
        &&& least_res_fits(least_residue(u, n as int) * b, n as int)
    } else {
        !(g == -1 && (a == i64::MIN || b == i64::MIN || n == i64::MIN))
    }
}

/// What `lin_cong(a, b, n)` returns when the divisor of `a` and `n` is one.
pub open spec fn lin_cong_solution(a: i64, b: i64, n: i64) -> int {
    least_residue(least_residue(bezout_pair(a, n).0, n as int) * b, n as int)
}

/// Solves the linear congruence `a * x == b` modulo `n` when `gcd(a, n)`
/// returns one: `x` is the residue of the inverse of `a` times `b`. When the
/// divisor is not one there is no answer: either it does not divide `b`, or
/// the reduced congruence `0 * x == 0` modulo `0` has none.
pub fn lin_cong(a: i64, b: i64, n: i64) -> (r: Option<i64>)
    requires
        !(a == -1 && n == i64::MIN),
        !(a == i64::MIN && n == -1),
        lin_cong_fits(a, b, n),
    ensures
        r is Some <==> lower(a as int, n as int) != 0 && gcd_value(a as int, n as int) == 1,
        r matches Some(x) ==> x == lin_cong_solution(a, b, n),
        n > 0 ==> (r matches Some(x) ==> 0 <= x < n && (a * x) % (n as int) == (b as int) % (
            n as int)),
    decreases (if a == 0 && b == 0 && n == 0 {
        0int
    } else {
        1int
    }),
{
    let (gcd, m) = match gcd(a, n) {
        Some(gm) => gm,
        None => {
            return None;
        },
    };
    proof {
        lemma_bezout_identity(a, n, m@);
        lemma_gcd_divides(a as int, n as int);
    }
    if gcd == 1 {
        let inv = match mul_inv_with_gcd(a, n, (gcd, m)) {
            Some(i) => i,
            None => {
                return None;
            },
        };
        let x = least_res(inv * b, n);
        proof {
            if n > 0 {
                let (u, v) = bezout_pair(a, n);
                lemma_least_residue_positive(u, n as int);
                lemma_inverse_residue(a as int, n as int, u, v);
                lemma_least_residue_positive(inv * b, n as int);
                lemma_solves_congruence(a as int, b as int, inv as int, n as int);
            }
        }
        Some(x)
    } else if remainder(b, gcd) == 0 {
        proof {
            lemma_gcd_divides(a as int, n as int);
            lemma_divides_tmod(gcd as int, a as int);
            lemma_divides_tmod(gcd as int, n as int);
        }
        let a2 = remainder(a, gcd);
        let b2 = remainder(b, gcd);
        let n2 = remainder(n, gcd);
        lin_cong(a2, b2, n2)
    } else {
        None
    }
}

/// `<u32 as num_traits::NumCast>::from` on an `i64`, which defers to
/// `ToPrimitive::to_u32`: the same number when it lies in `0 ..= u32::MAX`,
/// nothing otherwise.
#[verifier::external_body]
fn exponent_from(x: i64) -> (r: Option<u32>)
    ensures
        r == (if 0 <= x <= u32::MAX {
            Some(x as u32)
        } else {
            None
        }),
{
    <u32 as num_traits::NumCast>::from(x)
}

/// `<i64 as num_traits::Pow<u32>>::pow`, which defers to `i64::pow`: `base`
/// raised to `exp`, for a result that fits an `i64` (outside that range it
/// panics or wraps).
#[verifier::external_body]
fn power(base: i64, exp: u32) -> (r: i64)
    requires
        i64::MIN <= pow(base as int, exp as nat) <= i64::MAX,
    ensures
        r == pow(base as int, exp as nat),
{
    num_traits::Pow::pow(base, exp)
}

/// Whether `fast_modular_exponentiation(base, exp, prime)` computes without
/// overflow or division by zero.
pub open spec fn fast_modular_exponentiation_fits(base: i64, exp: u32, prime: i64) -> bool {
    &&& prime != 0
    &&& !(base == i64::MIN && prime == -1)
    &&& prime != i64::MIN
    &&& prime != 1
    &&& (1 <= prime - 1 <= u32::MAX ==> i64::MIN <= pow(
        tmod(base as int, prime as int),
        (exp as int % (prime - 1)) as nat,
    ) <= i64::MAX)
}

/// What `fast_modular_exponentiation(base, exp, prime)` returns when `prime - 1`
/// is a `u32`: `base` reduced modulo `prime`, raised to `exp` reduced modulo
/// `prime - 1` (Fermat's little theorem), reduced modulo `prime`.
pub open spec fn fermat_power(base: i64, exp: u32, prime: i64) -> int {
    tmod(pow(tmod(base as int, prime as int), (exp as int % (prime - 1)) as nat), prime as int)
}

/// `base` to the power `exp` modulo `prime`, with the exponent first reduced
/// modulo `prime - 1`. Nothing when `prime - 1` is not a `u32`.
pub fn fast_modular_exponentiation(base: i64, exp: u32, prime: i64) -> (r: Option<i64>)
    requires
        fast_modular_exponentiation_fits(base, exp, prime),
    ensures
        r is Some <==> 0 <= prime - 1 <= u32::MAX,
        r matches Some(x) ==> x == fermat_power(base, exp, prime),
        r matches Some(x) ==> (is_prime(prime as int) && ((base as int) % (prime as int) != 0
            || (exp as int) % (prime - 1) != 0 || exp == 0) ==> (x as int) % (prime as int) == pow(
            base as int,
            exp as nat,
        ) % (prime as int) && (base >= 0 ==> x == pow(base as int, exp as nat) % (prime as int))),
{
    proof {
        if is_prime(prime as int) && ((base as int) % (prime as int) != 0 || (exp as int) % (prime
            - 1) != 0 || exp == 0) {
            lemma_fast_exponentiation_agrees(base, exp, prime);
        }
    }
    let reduced = remainder(base, prime);
    let order = match exponent_from(prime - 1) {
        Some(e) => e,
        None => {
            return None;
        },
    };
    let p = power(reduced, exp % order);
    Some(remainder(p, prime))
}

/// The letter number of `c` (`'A'` or `'a'` is 0, `'Z'` or `'z'` is 25), or
/// nothing when `c` is not an ASCII letter.
pub open spec fn letter_number(c: char) -> Option<u8> {
    if 'A' <= c <= 'Z' {
        Some((c as int - 'A' as int) as u8)
    } else if 'a' <= c <= 'z' {
        Some((c as int - 'a' as int) as u8)
    } else {
        None
    }
}

/// The letter numbers of the letters of `s`, in order; other characters are
/// dropped.
pub open spec fn letter_numbers(s: Seq<char>) -> Seq<u8>
    decreases s.len(),
{
    if s.len() == 0 {
        Seq::empty()
    } else {
        match letter_number(s.last()) {
            Some(x) => letter_numbers(s.drop_last()).push(x),
            None => letter_numbers(s.drop_last()),
        }
    }
}

/// The capital letters numbered by the entries of `s` below 26, in order;
/// other entries are dropped.
pub open spec fn capitals(s: Seq<u8>) -> Seq<char>
    decreases s.len(),
{
    if s.len() == 0 {
        Seq::empty()
    } else if s.last() < 26 {
        capitals(s.drop_last()).push(('A' as int + s.last()) as char)
    } else {
        capitals(s.drop_last())
    }
}

/// The letters of `s` as numbers from 0 to 25, ignoring case; other characters
/// are dropped.
pub fn prepare_affine(a: &[char]) -> (r: Vec<u8>)
    ensures
        r@ == letter_numbers(a@),
        forall|i: int| 0 <= i < r.len() ==> r@[i] < 26,
{
    let mut out: Vec<u8> = Vec::new();
    let mut i: usize = 0;
    while i < a.len()
        invariant
            i <= a.len(),
            out@ == letter_numbers(a@.take(i as int)),
            forall|k: int| 0 <= k < out.len() ==> out@[k] < 26,
        decreases a.len() - i,
    {
        let x = a[i];
        assert(a@.take(i + 1).drop_last() =~= a@.take(i as int));
        if 'A' <= x && x <= 'Z' {
            out.push(x as u8 - 'A' as u8);
        } else if 'a' <= x && x <= 'z' {
            out.push(x as u8 - 'a' as u8);
        }
        i = i + 1;
    }
    assert(a@.take(a.len() as int) =~= a@);
    out
}

/// The capital letters numbered by the entries of `a` below 26.
pub fn restore_affine(a: &[u8]) -> (r: Vec<char>)
    ensures
        r@ == capitals(a@),
{
    let mut out: Vec<char> = Vec::new();
    let mut i: usize = 0;
    while i < a.len()
        invariant
            i <= a.len(),
            out@ == capitals(a@.take(i as int)),
        decreases a.len() - i,
    {
        let x = a[i];
        assert(a@.take(i + 1).drop_last() =~= a@.take(i as int));
        if x < 26 {
            out.push(('A' as u8 + x) as char);
        }
        i = i + 1;
    }
    assert(a@.take(a.len() as int) =~= a@);
    out
}

/// Capitalising the letter numbers of a text gives its letters in capitals.
pub proof fn lemma_capitals_of_letters(s: Seq<char>)
    ensures
        capitals(letter_numbers(s)) == upper_letters(s),
    decreases s.len(),
{
    if s.len() > 0 {
        lemma_capitals_of_letters(s.drop_last());
        match letter_number(s.last()) {
            Some(x) => {
                let t = letter_numbers(s.drop_last()).push(x);
                assert(t.drop_last() =~= letter_numbers(s.drop_last()));
            },
            None => {},
        }
    }
}

/// Each capital letter gets its position in the alphabet (`'A'` is 0), each
/// small letter likewise (`'a'` is 0), and any other character none.
pub proof fn lemma_letter_numbers_of_char(c: char)
    ensures
        'A' <= c <= 'Z' ==> letter_numbers(seq![c]) == seq![(c as int - 'A' as int) as u8],
        'a' <= c <= 'z' ==> letter_numbers(seq![c]) == seq![(c as int - 'a' as int) as u8],
        !('A' <= c <= 'Z') && !('a' <= c <= 'z') ==> letter_numbers(seq![c]) == Seq::<u8>::empty(),
{
    reveal_with_fuel(letter_numbers, 2);
    assert(seq![c].drop_last() =~= Seq::<char>::empty());
    assert(seq![c].last() == c);
}

/// The letter numbers of a text are those of its beginning followed by those
/// of its end.
pub proof fn lemma_letter_numbers_append(s: Seq<char>, t: Seq<char>)
    ensures
        letter_numbers(s + t) == letter_numbers(s) + letter_numbers(t),
    decreases t.len(),
{
    if t.len() == 0 {
        assert(s + t =~= s);
        assert(letter_numbers(s) + letter_numbers(t) =~= letter_numbers(s));
    } else {
        lemma_letter_numbers_append(s, t.drop_last());
        assert((s + t).drop_last() =~= s + t.drop_last());
        assert((s + t).last() == t.last());
        match letter_number(t.last()) {
            Some(x) => {
                assert(letter_numbers(s) + letter_numbers(t.drop_last()).push(x) =~= (letter_numbers(s)
                    + letter_numbers(t.drop_last())).push(x));
            },
            None => {},
        }
    }
}

/// A letter number below 26 stands for the capital at that position in the
/// alphabet (`'A'` for 0); any other number for no letter.
pub proof fn lemma_capitals_of_number(x: u8)
    ensures
        x < 26 ==> capitals(seq![x]) == seq![('A' as int + x) as char],
        x >= 26 ==> capitals(seq![x]) == Seq::<char>::empty(),
{
    reveal_with_fuel(capitals, 2);
    assert(seq![x].drop_last() =~= Seq::<u8>::empty());
    assert(seq![x].last() == x);
}

/// The capitals of a list of numbers are those of its beginning followed by
/// those of its end.
pub proof fn lemma_capitals_append(s: Seq<u8>, t: Seq<u8>)
    ensures
        capitals(s + t) == capitals(s) + capitals(t),
    decreases t.len(),
{
    if t.len() == 0 {
        assert(s + t =~= s);
        assert(capitals(s) + capitals(t) =~= capitals(s));
    } else {
        lemma_capitals_append(s, t.drop_last());
        assert((s + t).drop_last() =~= s + t.drop_last());
        assert((s + t).last() == t.last());
        if t.last() < 26 {
            let ch = ('A' as int + t.last()) as char;
            assert(capitals(s) + capitals(t.drop_last()).push(ch) =~= (capitals(s) + capitals(
                t.drop_last(),
            )).push(ch));
        }
    }
}

/// The letters of `s` in capitals, in order; other characters are dropped.
pub open spec fn upper_letters(s: Seq<char>) -> Seq<char>
    decreases s.len(),
{
    if s.len() == 0 {
        Seq::empty()
    } else if 'A' <= s.last() <= 'Z' {
        upper_letters(s.drop_last()).push(s.last())
    } else if 'a' <= s.last() <= 'z' {
        upper_letters(s.drop_last()).push((s.last() as int - 32) as char)
    } else {
        upper_letters(s.drop_last())
    }
}

/// Collects characters into a `String` (std's `FromIterator<char>` for
/// `String`), which appends them in order.
#[verifier::external_body]
fn string_from_chars(v: &Vec<char>) -> (r: String)
    ensures
        r@ == v@,
{
    v.iter().collect()
}

/// An affine cipher on letter numbers: `x` goes to `mul * x + off` modulo 26,
/// and back through `inv`, the inverse of `mul` modulo 26.
pub struct Affine {
    mul: i8,
    inv: i8,
    off: i8,
}

/// A stream of letter numbers being enciphered.
pub struct EAffine<'a> {
    affine: &'a Affine,
    stream: Vec<u8>,
    position: usize,
}

/// A stream of letter numbers being deciphered.
pub struct DAffine<'a> {
    affine: &'a Affine,
    stream: Vec<u8>,
    position: usize,
}

/// `x` enciphered: `(mul * x + off) % 26` (with the sign of `mul * x + off`),
/// as a byte.
pub open spec fn encipher(a: Affine, x: u8) -> u8 {
    tmod(a.multiplier() * x + a.offset(), 26) as u8
}

/// `y` deciphered: `inv * (y - off)` reduced into `0 .. 26`, as a byte.
pub open spec fn decipher(a: Affine, y: u8) -> u8 {
    least_residue(a.inverse() * (y - a.offset()), 26) as u8
}

/// Every letter number of `s` deciphered.
pub open spec fn deciphered(a: Affine, s: Seq<u8>) -> Seq<u8> {
    s.map_values(|y: u8| decipher(a, y))
}

impl Affine {
    #[verifier::type_invariant]
    spec fn inverse_holds(self) -> bool {
        0 <= self.inv < 26 && (self.mul * self.inv) % 26 == 1
    }

    /// The multiplier `mul`.
    pub closed spec fn multiplier(self) -> int {
        self.mul as int
    }

    /// The inverse `inv` of the multiplier modulo 26.
    pub closed spec fn inverse(self) -> int {
        self.inv as int
    }

    /// The offset `off`.
    pub closed spec fn offset(self) -> int {
        self.off as int
    }

    /// The inverse lies in `0 .. 26` and inverts the multiplier modulo 26.
    pub closed spec fn is_valid(self) -> bool {
        self.inverse_holds()
    }

    pub proof fn lemma_valid(self)
        requires
            self.is_valid(),
        ensures
            0 <= self.inverse() < 26,
            (self.multiplier() * self.inverse()) % 26 == 1,
    {
    }

    /// The cipher with multiplier `mul` and offset `off`; nothing when `mul`
    /// has no inverse modulo 26.
    pub fn new(mul: i8, off: i8) -> (r: Option<Self>)
        ensures
            r is Some <==> lower(mul as int, 26) != 0 && gcd_value(mul as int, 26) == 1,
            r matches Some(a) ==> a.multiplier() == mul && a.offset() == off && a.inverse()
                == least_residue(bezout_pair(mul as i64, 26).0, 26) && a.is_valid(),
    {
        proof {
            let u = bezout_pair(mul as i64, 26).0;
            lemma_trunc_division(u, 26);
        }
        let inv = match mul_inv(mul as i64, 26) {
            Some(i) => i,
            None => {
                return None;
            },
        };
        Some(Self { off, mul, inv: inv as i8 })
    }

    /// The stream `s` enciphered.
    pub fn encrypt<'a>(&'a self, s: Vec<u8>) -> (r: EAffine<'a>)
        ensures
            r.cipher() == *self,
            r.stream() == s@,
            r.position() == 0,
    {
        EAffine { affine: self, stream: s, position: 0 }
    }

    /// The stream `s` deciphered.
    pub fn decrypt<'a>(&'a self, s: Vec<u8>) -> (r: DAffine<'a>)
        ensures
            r.cipher() == *self,
            r.stream() == s@,
            r.position() == 0,
    {
        DAffine { affine: self, stream: s, position: 0 }
    }

    /// The letters of `s` enciphered.
    pub fn e_str<'a>(&'a self, s: &str) -> (r: EAffine<'a>)
        ensures
            r.cipher() == *self,
            r.stream() == letter_numbers(s@),
            r.position() == 0,
    {
        let mut chars: Vec<char> = Vec::new();
        for c in it: s.chars()
            invariant
                chars@ == it.seq().take(it.index() as int),
        {
            chars.push(c);
        }
        assert(chars@ == s@);
        let numbers = prepare_affine(chars.as_slice());
        self.encrypt(numbers)
    }

    /// The stream `s` deciphered, as capital letters.
    pub fn d_str(&self, s: Vec<u8>) -> (r: String)
        ensures
            r@ == capitals(deciphered(*self, s@)),
    {
        let ghost plain_all = deciphered(*self, s@);
        let mut d = self.decrypt(s);
        let mut plain: Vec<u8> = Vec::new();
        loop
            invariant
                d.cipher() == *self,
                plain_all == deciphered(*self, d.stream()),
                0 <= d.position() <= d.stream().len(),
                plain@ == plain_all.take(d.position()),
            ensures
                plain@ == plain_all,
            decreases d.stream().len() - d.position(),
        {
            match d.next() {
                Some(x) => {
                    proof {
                        assert(plain_all.take(d.position()) =~= plain_all.take(d.position() - 1).push(x));
                    }
                    plain.push(x);
                },
                None => {
                    assert(plain_all.take(d.position()) =~= plain_all);
                    break;
                },
            }
        }
        let letters = restore_affine(plain.as_slice());
        string_from_chars(&letters)
    }
}

impl<'a> EAffine<'a> {
    pub closed spec fn cipher(self) -> Affine {
        *self.affine
    }

    /// The letter numbers to encipher.
    pub closed spec fn stream(self) -> Seq<u8> {
        self.stream@
    }

    /// How many of them have been enciphered.
    pub closed spec fn position(self) -> int {
        self.position as int
    }

    /// The next letter number enciphered, or nothing at the end.
    pub fn next(&mut self) -> (r: Option<u8>)
        ensures
            final(self).cipher() == old(self).cipher(),
            final(self).stream() == old(self).stream(),
            old(self).position() < old(self).stream().len() ==> r == Some(
                encipher(old(self).cipher(), old(self).stream()[old(self).position()]),
            ) && final(self).position() == old(self).position() + 1,
            old(self).position() >= old(self).stream().len() ==> r is None && final(self).position()
                == old(self).position(),
    {
        if self.position < self.stream.len() {
            let x = self.stream[self.position];
            self.position = self.position + 1;
            let m = self.affine.mul as i16;
            let o = self.affine.off as i16;
            assert(-32640 <= m * (x as i16) <= 32385) by (nonlinear_arith)
                requires
                    -128 <= m <= 127,
                    0 <= x <= 255,
            ;
            let v = m * (x as i16) + o;
            Some((v % 26) as u8)
        } else {
            None
        }
    }
}

impl<'a> DAffine<'a> {
    pub closed spec fn cipher(self) -> Affine {
        *self.affine
    }

    /// The letter numbers to decipher.
    pub closed spec fn stream(self) -> Seq<u8> {
        self.stream@
    }

    /// How many of them have been deciphered.
    pub closed spec fn position(self) -> int {
        self.position as int
    }

    /// The next letter number deciphered, or nothing at the end.
    pub fn next(&mut self) -> (r: Option<u8>)
        ensures
            final(self).cipher() == old(self).cipher(),
            final(self).stream() == old(self).stream(),
            old(self).position() < old(self).stream().len() ==> r == Some(
                decipher(old(self).cipher(), old(self).stream()[old(self).position()]),
            ) && final(self).position() == old(self).position() + 1,
            old(self).position() >= old(self).stream().len() ==> r is None && final(self).position()
                == old(self).position(),
    {
        if self.position < self.stream.len() {
            let x = self.stream[self.position];
            self.position = self.position + 1;
            proof {
                use_type_invariant(self.affine);
            }
            let i = self.affine.inv as i64;
            let t = (x as i64) - (self.affine.off as i64);
            assert(-26 * 128 <= i * t <= 26 * 384) by (nonlinear_arith)
                requires
                    0 <= i < 26,
                    -127 <= t <= 383,
            ;
            proof {
                lemma_trunc_division(i * t, 26);
            }
            let y = least_res(i * t, 26);
            proof {
                lemma_least_residue_positive(i * t, 26);
            }
            Some(y as u8)
        } else {
            None
        }
    }
}

/// The enciphered value `mul * x + off` of `x` reaches `encipher` unchanged
/// modulo 26 when it is not negative or is a multiple of 26; otherwise its
/// negative remainder wraps around as a byte.
pub open spec fn encipher_stays(a: Affine, x: u8) -> bool {
    let v = a.multiplier() * x + a.offset();
    v >= 0 || v % 26 == 0
}

/// Where it does not wrap, `encipher` is the Euclidean remainder by 26 of
/// `mul * x + off`.
pub proof fn lemma_encipher_value(a: Affine, x: u8)
    requires
        encipher_stays(a, x),
    ensures
        encipher(a, x) == (a.multiplier() * x + a.offset()) % 26,
{
    let v = a.multiplier() * x + a.offset();
    vstd::arithmetic::div_mod::lemma_mod_bound(v, 26);
    if v < 0 {
        vstd::arithmetic::div_mod::lemma_fundamental_div_mod(v, 26);
        let k = v / 26;
        assert(-v == (-k) * 26);
        vstd::arithmetic::div_mod::lemma_mod_multiples_basic(-k, 26);
        assert(tmod(v, 26) == 0);
    }
}

/// `i * (c - o)` and `x` leave the same remainder by 26 when `c` is
/// congruent to `m * x + o` and `i` inverts `m` modulo 26.
proof fn lemma_undo_affine(m: int, i: int, o: int, x: int, c: int)
    requires
        (m * i) % 26 == 1,
        c % 26 == (m * x + o) % 26,
    ensures
        (i * (c - o)) % 26 == x % 26,
{
    let v = m * x + o;
    vstd::arithmetic::div_mod::lemma_sub_mod_noop(c, o, 26);
    vstd::arithmetic::div_mod::lemma_sub_mod_noop(v, o, 26);
    assert((c - o) % 26 == (m * x) % 26);
    vstd::arithmetic::div_mod::lemma_mul_mod_noop_right(i, c - o, 26);
    vstd::arithmetic::div_mod::lemma_mul_mod_noop_right(i, m * x, 26);
    assert(i * (m * x) == (m * i) * x) by (nonlinear_arith);
    vstd::arithmetic::div_mod::lemma_mul_mod_noop_left(m * i, x, 26);
    assert(1 * x == x);
}

/// `decipher` gives the letter number in `0 .. 26` that the multiplier and the
/// offset carry to `y` modulo 26.
pub proof fn lemma_decipher_value(a: Affine, y: u8)
    requires
        a.is_valid(),
    ensures
        decipher(a, y) < 26,
        (a.multiplier() * decipher(a, y) + a.offset()) % 26 == (y as int) % 26,
{
    a.lemma_valid();
    let m = a.multiplier();
    let o = a.offset();
    let i = a.inverse();
    let t = i * (y - o);
    lemma_least_residue_positive(t, 26);
    let d = t % 26;
    assert(decipher(a, y) == d);
    vstd::arithmetic::div_mod::lemma_mul_mod_noop_right(m, t, 26);
    assert(m * t == (m * i) * (y - o)) by (nonlinear_arith)
        requires
            t == i * (y - o),
    ;
    vstd::arithmetic::div_mod::lemma_mul_mod_noop_left(m * i, y - o, 26);
    assert(1 * (y - o) == y - o);
    vstd::arithmetic::div_mod::lemma_add_mod_noop(m * d, o, 26);
    vstd::arithmetic::div_mod::lemma_add_mod_noop(y - o, o, 26);
}

/// Deciphering undoes enciphering, for a letter number whose enciphered
/// value `mul * x + off` does not wrap around (see `encipher_stays`).
pub proof fn lemma_affine_roundtrip(a: Affine, x: u8)
    requires
        a.is_valid(),
        x < 26,
        encipher_stays(a, x),
    ensures
        decipher(a, encipher(a, x)) == x,
{
    a.lemma_valid();
    lemma_encipher_value(a, x);
    let c = encipher(a, x) as int;
    vstd::arithmetic::div_mod::lemma_mod_twice(a.multiplier() * x + a.offset(), 26);
    lemma_undo_affine(a.multiplier(), a.inverse(), a.offset(), x as int, c);
    lemma_least_residue_positive(a.inverse() * (c - a.offset()), 26);
    vstd::arithmetic::div_mod::lemma_small_mod(x as nat, 26);
}

/// Enciphering undoes deciphering, for a letter number whose deciphered
/// value does not wrap around when enciphered (see `encipher_stays`).
pub proof fn lemma_affine_roundtrip_inverse(a: Affine, y: u8)
    requires
        a.is_valid(),
        y < 26,
        encipher_stays(a, decipher(a, y)),
    ensures
        encipher(a, decipher(a, y)) == y,
{
    a.lemma_valid();
    let m = a.multiplier();
    let o = a.offset();
    let i = a.inverse();
    let t = i * (y - o);
    lemma_least_residue_positive(t, 26);
    let d = t % 26;
    assert(decipher(a, y) == d);
    lemma_encipher_value(a, d as u8);
    // m * d + o is congruent to m * i * (y - o) + o, that is to y
    vstd::arithmetic::div_mod::lemma_mul_mod_noop_right(m, t, 26);
    assert(m * t == (m * i) * (y - o)) by (nonlinear_arith)
        requires
            t == i * (y - o),
    ;
    vstd::arithmetic::div_mod::lemma_mul_mod_noop_left(m * i, y - o, 26);
    assert(1 * (y - o) == y - o);
    vstd::arithmetic::div_mod::lemma_add_mod_noop(m * d, o, 26);
    vstd::arithmetic::div_mod::lemma_add_mod_noop(y - o, o, 26);
    vstd::arithmetic::div_mod::lemma_small_mod(y as nat, 26);
}

/// The letter numbers of a text, each enciphered.
pub open spec fn enciphered(a: Affine, s: Seq<u8>) -> Seq<u8> {
    s.map_values(|x: u8| encipher(a, x))
}

/// Deciphering the enciphered letters of a text gives back its letters in
/// capitals, when no letter's enciphered value wraps around.
pub proof fn lemma_affine_text_roundtrip(a: Affine, s: Seq<char>)
    requires
        a.is_valid(),
        forall|k: int| 0 <= k < letter_numbers(s).len() ==> encipher_stays(a, #[trigger] letter_numbers(s)[k]),
    ensures
        capitals(deciphered(a, enciphered(a, letter_numbers(s)))) == upper_letters(s),
{
    let n = letter_numbers(s);
    lemma_letter_numbers_small(s);
    assert(deciphered(a, enciphered(a, n)) =~= n) by {
        assert forall|k: int| 0 <= k < n.len() implies #[trigger] deciphered(a, enciphered(a, n))[k]
            == n[k] by {
            lemma_affine_roundtrip(a, n[k]);
        }
    }
    lemma_capitals_of_letters(s);
}

/// Letter numbers are below 26.
proof fn lemma_letter_numbers_small(s: Seq<char>)
    ensures
        forall|k: int| 0 <= k < letter_numbers(s).len() ==> #[trigger] letter_numbers(s)[k] < 26,
    decreases s.len(),
{
    if s.len() > 0 {
        lemma_letter_numbers_small(s.drop_last());
        let c = s.last();
        if 'A' <= c <= 'Z' {
            assert(letter_number(c) == Some((c as int - 'A' as int) as u8));
        } else if 'a' <= c <= 'z' {
            assert(letter_number(c) == Some((c as int - 'a' as int) as u8));
        }
        assert(letter_number(c) matches Some(x) ==> x < 26);
        let prev = letter_numbers(s.drop_last());
        assert forall|k: int| 0 <= k < letter_numbers(s).len() implies #[trigger] letter_numbers(
            s,
        )[k] < 26 by {
            if k < prev.len() {
                assert(prev[k] < 26);
            }
        }
    }
}

} // verus!
