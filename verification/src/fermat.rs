//! Fermat's little theorem, by the binomial theorem and Euclid's lemma, and
//! what it gives for powers whose exponent is reduced modulo `p - 1`.

use vstd::prelude::*;
use vstd::arithmetic::power::{pow, lemma_pow1};
use crate::arith::{tmod, lemma_trunc_division};
use crate::unit3::fermat_power;
use vstd::arithmetic::div_mod::{
    lemma_fundamental_div_mod,
    lemma_mod_pos_bound,
    lemma_mod_bound,
    lemma_mod_multiples_basic,
    lemma_mul_mod_noop_left,
};

verus! {

/// `p` is a prime number.
pub open spec fn is_prime(p: int) -> bool {
    &&& p >= 2
    &&& forall|d: int| 1 < d < p ==> #[trigger] (p % d) != 0
}

/// The binomial coefficient `n` choose `k`, by Pascal's rule.
pub open spec fn binomial(n: nat, k: nat) -> nat
    decreases n,
{
    if k == 0 {
        1
    } else if n == 0 {
        0
    } else {
        binomial((n - 1) as nat, (k - 1) as nat) + binomial((n - 1) as nat, k)
    }
}

/// The sum of `binomial(n, j) * x^j` for `j` from 0 to `k`.
pub open spec fn binomial_sum(x: int, n: nat, k: nat) -> int
    decreases k,
{
    if k == 0 {
        1
    } else {
        binomial_sum(x, n, (k - 1) as nat) + binomial(n, k) * pow(x, k)
    }
}

/// No way to choose more items than there are.
proof fn lemma_binomial_beyond(n: nat, k: nat)
    requires
        k > n,
    ensures
        binomial(n, k) == 0,
    decreases n,
{
    if n > 0 {
        lemma_binomial_beyond((n - 1) as nat, (k - 1) as nat);
        lemma_binomial_beyond((n - 1) as nat, k);
    }
}

/// One way to choose all items.
proof fn lemma_binomial_all(n: nat)
    ensures
        binomial(n, n) == 1,
    decreases n,
{
    if n > 0 {
        lemma_binomial_all((n - 1) as nat);
        lemma_binomial_beyond((n - 1) as nat, n);
    }
}

/// The absorption identity `k * C(n, k) == n * C(n - 1, k - 1)`.
proof fn lemma_binomial_absorption(n: nat, k: nat)
    requires
        n >= 1,
        k >= 1,
    ensures
        k * binomial(n, k) == n * binomial((n - 1) as nat, (k - 1) as nat),
    decreases n,
{
    if n == 1 {
        assert(binomial(0, 0) == 1);
        lemma_binomial_beyond(0, k);
        if k > 1 {
            lemma_binomial_beyond(0, (k - 1) as nat);
        }
        assert(binomial(1, k) == binomial(0, (k - 1) as nat) + binomial(0, k));
        if k == 1 {
            assert(binomial(1, k) == 1);
        } else {
            assert(binomial(1, k) == 0);
            assert(binomial(0, (k - 1) as nat) == 0);
            assert(k * binomial(1, k) == 0) by (nonlinear_arith)
                requires
                    binomial(1, k) == 0,
            ;
        }
    } else {
        let a = binomial((n - 1) as nat, k);
        let b = binomial((n - 1) as nat, (k - 1) as nat);
        lemma_binomial_absorption((n - 1) as nat, k);
        let c = binomial((n - 2) as nat, (k - 1) as nat);
        assert(k * a == (n - 1) * c);
        assert(binomial(n, k) == b + a);
        if k == 1 {
            assert(b == 1);
            assert(c == 1);
            assert(k * binomial(n, k) == n * b) by (nonlinear_arith)
                requires
                    k == 1,
                    b == 1,
                    binomial(n, k) == b + a,
                    k * a == (n - 1) * c,
                    c == 1,
            ;
        } else {
            lemma_binomial_absorption((n - 1) as nat, (k - 1) as nat);
            let d = binomial((n - 2) as nat, (k - 2) as nat);
            assert((k - 1) * b == (n - 1) * d);
            assert(b == d + c);
            assert(k * binomial(n, k) == n * b) by (nonlinear_arith)
                requires
                    binomial(n, k) == b + a,
                    k * a == (n - 1) * c,
                    (k - 1) * b == (n - 1) * d,
                    b == d + c,
            ;
        }
    }
}

/// Pascal's rule on the partial sums: the row `n + 1` up to `k + 1` is
/// `(x + 1)` times the row `n` up to `k`, plus the next term of row `n`.
proof fn lemma_binomial_sum_step(x: int, n: nat, k: nat)
    ensures
        binomial_sum(x, n + 1, k + 1) == (x + 1) * binomial_sum(x, n, k) + binomial(n, k + 1) * pow(
            x,
            k + 1,
        ),
    decreases k,
{
    reveal(pow);
    let c_next = binomial(n, k + 1);
    let p_next = pow(x, k + 1);
    assert(binomial(n + 1, k + 1) == binomial(n, k) + c_next);
    assert(p_next == x * pow(x, k));
    if k == 0 {
        lemma_pow1(x);
        assert(binomial(n, 0) == 1);
        assert(binomial_sum(x, n + 1, 0) == 1);
        assert(binomial_sum(x, n, 0) == 1);
        assert(binomial_sum(x, n + 1, 1) == 1 + (1 + c_next) * p_next);
        assert(1 + (1 + c_next) * p_next == (x + 1) * 1 + c_next * p_next) by (nonlinear_arith)
            requires
                p_next == x,
        ;
    } else {
        lemma_binomial_sum_step(x, n, (k - 1) as nat);
        let t_prev = binomial_sum(x, n, (k - 1) as nat);
        let c_k = binomial(n, k);
        let p_k = pow(x, k);
        assert(binomial_sum(x, n, k) == t_prev + c_k * p_k);
        assert(binomial_sum(x, n + 1, k) == (x + 1) * t_prev + c_k * p_k);
        assert(binomial_sum(x, n + 1, k + 1) == binomial_sum(x, n + 1, k) + (c_k + c_next) * p_next);
        assert((x + 1) * t_prev + c_k * p_k + (c_k + c_next) * p_next == (x + 1) * (t_prev + c_k
            * p_k) + c_next * p_next) by (nonlinear_arith)
            requires
                p_next == x * p_k,
        ;
    }
}

/// The binomial theorem: `(x + 1)^n` is the full sum of row `n`.
proof fn lemma_binomial_theorem(x: int, n: nat)
    ensures
        pow(x + 1, n) == binomial_sum(x, n, n),
    decreases n,
{
    reveal(pow);
    if n > 0 {
        let m = (n - 1) as nat;
        lemma_binomial_theorem(x, m);
        lemma_binomial_sum_step(x, m, m);
        lemma_binomial_beyond(m, n);
        assert(pow(x + 1, n) == (x + 1) * pow(x + 1, m));
        assert(binomial(m, n) * pow(x, n) == 0) by (nonlinear_arith)
            requires
                binomial(m, n) == 0,
        ;
    }
}

/// A common divisor `g` of `a` and `b` (returned with the cofactors `a / g` and
/// `b / g`) that is an integer combination `a * u + b * v` of them, found by
/// the Euclidean algorithm. It is positive when `a` is.
proof fn lemma_common_divisor_combination(a: nat, b: nat) -> (r: (int, int, int, int, int))
    ensures
        a * r.0 + b * r.1 == r.2,
        a == r.2 * r.3,
        b == r.2 * r.4,
        r.2 >= 0,
        a > 0 ==> r.2 > 0,
    decreases b,
{
    if b == 0 {
        (1, 0, a as int, 1, 0)
    } else {
        lemma_fundamental_div_mod(a as int, b as int);
        lemma_mod_pos_bound(a as int, b as int);
        let q = a as int / b as int;
        let rem = a as int % b as int;
        let (x, y, g, k1, k2) = lemma_common_divisor_combination(b, rem as nat);
        assert(a * y + b * (x - q * y) == g) by (nonlinear_arith)
            requires
                b * x + rem * y == g,
                a == b * q + rem,
        ;
        assert(a == g * (k1 * q + k2)) by (nonlinear_arith)
            requires
                b == g * k1,
                rem == g * k2,
                a == b * q + rem,
        ;
        (y, x - q * y, g, k1 * q + k2, k1)
    }
}

/// Euclid's lemma: a prime that divides a product and not its first factor
/// divides the second.
proof fn lemma_euclid(p: int, a: int, b: int)
    requires
        is_prime(p),
        (a * b) % p == 0,
        a % p != 0,
    ensures
        b % p == 0,
{
    lemma_mod_bound(a, p);
    let a1 = a % p;
    let (x, y, g, k1, k2) = lemma_common_divisor_combination(p as nat, a1 as nat);
    assert(k1 >= 1) by (nonlinear_arith)
        requires
            p == g * k1,
            g > 0,
            p > 0,
    ;
    assert(g <= p) by (nonlinear_arith)
        requires
            p == g * k1,
            g > 0,
            k1 >= 1,
    ;
    if g == p {
        assert(false) by (nonlinear_arith)
            requires
                a1 == g * k2,
                g == p,
                0 < a1 < p,
        ;
    }
    if g > 1 {
        lemma_mod_multiples_basic(k1, g);
        assert(p % g == 0);
    }
    assert(g == 1);
    lemma_mul_mod_noop_left(a, b, p);
    lemma_fundamental_div_mod(a1 * b, p);
    let m = (a1 * b) / p;
    assert(a1 * b == p * m);
    assert(b == (b * x + m * y) * p) by (nonlinear_arith)
        requires
            p * x + a1 * y == 1,
            a1 * b == p * m,
    ;
    lemma_mod_multiples_basic(b * x + m * y, p);
}

/// A prime divides each binomial coefficient of its row but the two ends.
proof fn lemma_prime_divides_binomial(p: int, j: nat)
    requires
        is_prime(p),
        0 < j < p,
    ensures
        (binomial(p as nat, j) as int) % p == 0,
{
    lemma_binomial_absorption(p as nat, j);
    let c = binomial((p - 1) as nat, (j - 1) as nat);
    lemma_mod_multiples_basic(c as int, p);
    assert(j * binomial(p as nat, j) == c * p);
    assert((j as int) % p == j) by {
        vstd::arithmetic::div_mod::lemma_small_mod(j, p as nat);
    }
    lemma_euclid(p, j as int, binomial(p as nat, j) as int);
}

/// For a prime `p`, the row `p` summed up to `k < p` is `1` plus a multiple
/// of `p`; the multiple is returned.
proof fn lemma_prime_row_partial(x: int, p: int, k: nat) -> (m: int)
    requires
        is_prime(p),
        k < p,
    ensures
        binomial_sum(x, p as nat, k) == 1 + p * m,
    decreases k,
{
    if k == 0 {
        0
    } else {
        let m0 = lemma_prime_row_partial(x, p, (k - 1) as nat);
        lemma_prime_divides_binomial(p, k);
        let c = binomial(p as nat, k);
        lemma_fundamental_div_mod(c as int, p);
        let q = c as int / p;
        let t = pow(x, k);
        assert(binomial_sum(x, p as nat, k) == 1 + p * m0 + c * t);
        assert(1 + p * m0 + c * t == 1 + p * (m0 + q * t)) by (nonlinear_arith)
            requires
                c == p * q,
        ;
        m0 + q * t
    }
}

/// The freshman's dream modulo a prime: `(x + 1)^p - x^p - 1` is a multiple of
/// `p`; the multiple is returned.
proof fn lemma_freshman_dream(x: int, p: int) -> (m: int)
    requires
        is_prime(p),
    ensures
        pow(x + 1, p as nat) - pow(x, p as nat) - 1 == p * m,
{
    lemma_binomial_theorem(x, p as nat);
    let m = lemma_prime_row_partial(x, p, (p - 1) as nat);
    lemma_binomial_all(p as nat);
    assert(binomial_sum(x, p as nat, p as nat) == binomial_sum(x, p as nat, (p - 1) as nat) + 1 * pow(
        x,
        p as nat,
    ));
    m
}

/// Fermat's little theorem in the form `x^p - x` is a multiple of the prime
/// `p`, for `x >= 0`; the multiple is returned.
proof fn lemma_power_prime_minus_self(x: nat, p: int) -> (m: int)
    requires
        is_prime(p),
    ensures
        pow(x as int, p as nat) - x == p * m,
    decreases x,
{
    if x == 0 {
        vstd::arithmetic::power::lemma0_pow(p as nat);
        0
    } else {
        let y = (x - 1) as nat;
        let m0 = lemma_power_prime_minus_self(y, p);
        let m1 = lemma_freshman_dream(y as int, p);
        assert(pow(x as int, p as nat) - x == p * m0 + p * m1);
        assert(p * m0 + p * m1 == p * (m0 + m1)) by (nonlinear_arith);
        m0 + m1
    }
}

/// Fermat's little theorem: for a prime `p` that does not divide `a`,
/// `a^(p - 1)` leaves remainder 1 modulo `p`.
pub proof fn lemma_fermat_little(a: int, p: int)
    requires
        is_prime(p),
        a % p != 0,
    ensures
        pow(a, (p - 1) as nat) % p == 1,
{
    reveal(pow);
    lemma_mod_bound(a, p);
    let b = a % p;
    let m = lemma_power_prime_minus_self(b as nat, p);
    let e = pow(b, (p - 1) as nat);
    assert(pow(b, p as nat) == b * e);
    assert(b * (e - 1) == p * m) by (nonlinear_arith)
        requires
            b * e - b == p * m,
    ;
    lemma_mod_multiples_basic(m, p);
    assert(b % p == b) by {
        vstd::arithmetic::div_mod::lemma_small_mod(b as nat, p as nat);
    }
    lemma_euclid(p, b, e - 1);
    vstd::arithmetic::div_mod::lemma_mod_equivalence(e, 1, p);
    vstd::arithmetic::div_mod::lemma_small_mod(1, p as nat);
    vstd::arithmetic::power::lemma_pow_mod_noop(a, (p - 1) as nat, p);
}

/// Modulo a prime `p` that does not divide `a`, the exponent of a power of `a`
/// may be reduced modulo `p - 1`.
pub proof fn lemma_reduced_exponent(a: int, p: int, e: nat)
    requires
        is_prime(p),
        a % p != 0,
    ensures
        pow(a, e) % p == pow(a, e % ((p - 1) as nat)) % p,
{
    let n = (p - 1) as nat;
    lemma_fundamental_div_mod(e as int, n as int);
    lemma_mod_pos_bound(e as int, n as int);
    let q = (e / n) as nat;
    let r = e % n;
    assert(e == n * q + r);
    vstd::arithmetic::power::lemma_pow_adds(a, n * q, r);
    vstd::arithmetic::power::lemma_pow_multiplies(a, n, q);
    let big = pow(a, n);
    lemma_fermat_little(a, p);
    vstd::arithmetic::power::lemma_pow_mod_noop(big, q, p);
    vstd::arithmetic::power::lemma1_pow(q);
    vstd::arithmetic::div_mod::lemma_small_mod(1, p as nat);
    assert(pow(big, q) % p == 1);
    lemma_mul_mod_noop_left(pow(big, q), pow(a, r), p);
    assert(pow(a, e) == pow(big, q) * pow(a, r));
}

/// The remainder rounded toward zero is congruent to its argument.
proof fn lemma_tmod_congruent(y: int, p: int)
    requires
        p > 0,
    ensures
        tmod(y, p) % p == y % p,
{
    lemma_trunc_division(y, p);
    let t = crate::arith::tdiv(y, p);
    lemma_mod_multiples_basic(t, p);
    vstd::arithmetic::div_mod::lemma_mod_adds(t * p, tmod(y, p), p);
    lemma_mod_bound(tmod(y, p), p);
}

/// Reducing the exponent modulo `prime - 1`, as `fast_modular_exponentiation`
/// does, keeps the power of `base` modulo a prime: the result is congruent to
/// `base^exp`, and equal to its remainder when `base` is not negative. The one
/// exception is a `base` that the prime divides with a positive `exp` that
/// `prime - 1` divides, where the reduced power is `0^0 == 1`.
pub proof fn lemma_fast_exponentiation_agrees(base: i64, exp: u32, prime: i64)
    requires
        is_prime(prime as int),
        (base as int) % (prime as int) != 0 || (exp as int) % (prime - 1) != 0 || exp == 0,
    ensures
        fermat_power(base, exp, prime) % (prime as int) == pow(base as int, exp as nat) % (
        prime as int),
        base >= 0 ==> fermat_power(base, exp, prime) == pow(base as int, exp as nat) % (
        prime as int),
{
    let p = prime as int;
    let b = base as int;
    let n = (p - 1) as nat;
    let r = ((exp as int) % (prime - 1)) as nat;
    lemma_mod_pos_bound(exp as int, n as int);
    assert(r == (exp as nat) % n);
    let t = tmod(b, p);
    let y = pow(t, r);
    lemma_tmod_congruent(b, p);
    lemma_tmod_congruent(y, p);
    vstd::arithmetic::power::lemma_pow_mod_noop(t, r, p);
    vstd::arithmetic::power::lemma_pow_mod_noop(b, r, p);
    vstd::arithmetic::power::lemma_pow_mod_noop(b, exp as nat, p);
    if b % p != 0 {
        lemma_reduced_exponent(b, p, exp as nat);
        assert(fermat_power(base, exp, prime) % p == pow(b, exp as nat) % p);
    } else if exp == 0 {
        reveal(pow);
        vstd::arithmetic::div_mod::lemma_small_mod(0, n);
        assert(r == 0);
        assert(fermat_power(base, exp, prime) % p == pow(b, exp as nat) % p);
    } else {
        vstd::arithmetic::power::lemma0_pow(r);
        vstd::arithmetic::power::lemma0_pow(exp as nat);
        assert(fermat_power(base, exp, prime) % p == pow(b, exp as nat) % p);
    }
    if base >= 0 {
        lemma_mod_pos_bound(b, p);
        assert(t == b % p);
        if t > 0 {
            vstd::arithmetic::power::lemma_pow_positive(t, r);
        } else if r > 0 {
            vstd::arithmetic::power::lemma0_pow(r);
        } else {
            reveal(pow);
        }
        assert(y >= 0);
        lemma_mod_pos_bound(y, p);
        assert(fermat_power(base, exp, prime) == y % p);
        vstd::arithmetic::div_mod::lemma_small_mod((y % p) as nat, p as nat);
    }
}

} // verus!
