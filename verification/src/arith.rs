//! Integer division rounded toward zero, as the machine performs it.

use vstd::prelude::*;
use vstd::arithmetic::div_mod::{
    lemma_fundamental_div_mod,
    lemma_fundamental_div_mod_converse,
};

verus! {

pub open spec fn abs(x: int) -> int {
    if x < 0 {
        -x
    } else {
        x
    }
}

/// The quotient of `x` by `d` rounded toward zero.
pub open spec fn tdiv(x: int, d: int) -> int {
    if x >= 0 {
        if d > 0 {
            x / d
        } else {
            -(x / (-d))
        }
    } else {
        if d > 0 {
            -((-x) / d)
        } else {
            (-x) / (-d)
        }
    }
}

/// The remainder that goes with `tdiv`: it has the sign of `x`.
pub open spec fn tmod(x: int, d: int) -> int {
    if x >= 0 {
        x % abs(d)
    } else {
        -((-x) % abs(d))
    }
}

/// `d` divides `x`.
pub open spec fn divides(d: int, x: int) -> bool {
    exists|k: int| x == #[trigger] (d * k)
}

/// For a non-negative `y`, the Euclidean remainder by `d` is the one by `|d|`.
pub proof fn lemma_mod_by_abs(y: int, d: int)
    requires
        y >= 0,
        d != 0,
    ensures
        y % d == y % abs(d),
        0 <= y % abs(d) < abs(d),
{
    lemma_fundamental_div_mod(y, d);
    lemma_fundamental_div_mod(y, abs(d));
    if d < 0 {
        assert(y == (-(y / d)) * abs(d) + y % d) by (nonlinear_arith)
            requires
                y == d * (y / d) + y % d,
                d < 0,
        ;
        assert(0 <= y % d < abs(d));
        lemma_fundamental_div_mod_converse(y, abs(d), -(y / d), y % d);
    }
}

/// The identities of division rounded toward zero.
pub proof fn lemma_trunc_division(x: int, d: int)
    requires
        d != 0,
    ensures
        x == tdiv(x, d) * d + tmod(x, d),
        abs(x) == abs(tdiv(x, d)) * abs(d) + abs(tmod(x, d)),
        abs(tmod(x, d)) < abs(d),
        tmod(x, d) == 0 || (tmod(x, d) < 0) == (x < 0),
        tdiv(x, d) == 0 || (tdiv(x, d) < 0) == ((x < 0) != (d < 0)),
        abs(tdiv(x, d)) == abs(x) / abs(d),
{
    let ax = abs(x);
    let ad = abs(d);
    lemma_fundamental_div_mod(ax, ad);
    lemma_mod_by_abs(ax, d);
    let q = ax / ad;
    let r = ax % ad;
    assert(q >= 0) by (nonlinear_arith)
        requires
            ax == ad * q + r,
            0 <= r < ad,
            ax >= 0,
    ;
    assert(ax == q * ad + r) by (nonlinear_arith)
        requires
            ax == ad * q + r,
    ;
    if x >= 0 {
        if d > 0 {
        } else {
            assert(x == (-q) * d + r) by (nonlinear_arith)
                requires
                    x == q * ad + r,
                    ad == -d,
            ;
        }
    } else {
        if d > 0 {
            assert(x == (-q) * d + (-r)) by (nonlinear_arith)
                requires
                    -x == q * ad + r,
                    ad == d,
            ;
        } else {
            assert(x == q * d + (-r)) by (nonlinear_arith)
                requires
                    -x == q * ad + r,
                    ad == -d,
            ;
        }
    }
}

/// A multiple of `d` leaves remainder zero.
pub proof fn lemma_divides_tmod(d: int, x: int)
    requires
        d != 0,
        divides(d, x),
    ensures
        tmod(x, d) == 0,
{
    let k = choose|k: int| x == #[trigger] (d * k);
    assert(abs(x) == abs(k) * abs(d)) by (nonlinear_arith)
        requires
            x == d * k,
    ;
    vstd::arithmetic::div_mod::lemma_mod_multiples_basic(abs(k), abs(d));
    if x < 0 {
        assert(-x == abs(x));
    }
}

} // verus!
