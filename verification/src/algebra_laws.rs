//! What expansion, constant folding and comparison of expressions mean,
//! stated against the value of an expression.

use vstd::prelude::*;
use crate::number::{Scalar, Symbol};
use crate::algebra::{Algebra, Term, vars_value, monomials_value, row, product};

verus! {

/// The value of the variables of a concatenation is the product of the values.
proof fn lemma_vars_value_concat<V>(xs: Seq<V>, ys: Seq<V>, env: spec_fn(V) -> int)
    ensures
        vars_value(xs + ys, env) == vars_value(xs, env) * vars_value(ys, env),
    decreases ys.len(),
{
    if ys.len() == 0 {
        assert(xs + ys =~= xs);
    } else {
        lemma_vars_value_concat(xs, ys.drop_last(), env);
        assert((xs + ys).drop_last() =~= xs + ys.drop_last());
        assert((xs + ys).last() == ys.last());
        let a = vars_value(xs, env);
        let b = vars_value(ys.drop_last(), env);
        let e = env(ys.last());
        assert(a * b * e == a * (b * e)) by (nonlinear_arith);
    }
}

/// The value of a concatenation of monomial lists is the sum of the values.
proof fn lemma_monomials_value_concat<V>(z1: Seq<Term<V>>, z2: Seq<Term<V>>, env: spec_fn(V) -> int)
    ensures
        monomials_value(z1 + z2, env) == monomials_value(z1, env) + monomials_value(z2, env),
    decreases z2.len(),
{
    if z2.len() == 0 {
        assert(z1 + z2 =~= z1);
    } else {
        lemma_monomials_value_concat(z1, z2.drop_last(), env);
        assert((z1 + z2).drop_last() =~= z1 + z2.drop_last());
        assert((z1 + z2).last() == z2.last());
    }
}

/// The value of a row of products is the monomial `x` times the value of `ys`.
proof fn lemma_row_value<V>(x: Term<V>, ys: Seq<Term<V>>, env: spec_fn(V) -> int)
    ensures
        monomials_value(row(x, ys), env) == x.1 * vars_value(x.0, env) * monomials_value(ys, env),
    decreases ys.len(),
{
    let xv = x.1 * vars_value(x.0, env);
    if ys.len() == 0 {
        assert(row(x, ys) =~= Seq::<Term<V>>::empty());
        assert(xv * 0 == 0) by (nonlinear_arith);
    } else {
        let yl = ys.last();
        lemma_row_value(x, ys.drop_last(), env);
        assert(row(x, ys).drop_last() =~= row(x, ys.drop_last()));
        assert(row(x, ys).last() == (x.0 + yl.0, x.1 * yl.1));
        lemma_vars_value_concat(x.0, yl.0, env);
        let m = monomials_value(ys.drop_last(), env);
        let a = vars_value(x.0, env);
        let b = vars_value(yl.0, env);
        assert(xv * m + (x.1 * yl.1) * (a * b) == xv * (m + yl.1 * b)) by (nonlinear_arith)
            requires
                xv == x.1 * a,
        ;
    }
}

/// The value of all the products is the product of the values.
proof fn lemma_product_value<V>(xs: Seq<Term<V>>, ys: Seq<Term<V>>, env: spec_fn(V) -> int)
    ensures
        monomials_value(product(xs, ys), env) == monomials_value(xs, env) * monomials_value(ys, env),
    decreases xs.len(),
{
    let my = monomials_value(ys, env);
    if xs.len() == 0 {
        assert(0 * my == 0) by (nonlinear_arith);
    } else {
        lemma_product_value(xs.drop_last(), ys, env);
        lemma_monomials_value_concat(product(xs.drop_last(), ys), row(xs.last(), ys), env);
        lemma_row_value(xs.last(), ys, env);
        let mx = monomials_value(xs.drop_last(), env);
        let t = xs.last().1 * vars_value(xs.last().0, env);
        assert(mx * my + t * my == (mx + t) * my) by (nonlinear_arith);
    }
}

/// All the products, in order: the product of the `i`-th of `xs` and the
/// `j`-th of `ys` stands at `i * ys.len() + j`.
proof fn lemma_product_entries<V>(xs: Seq<Term<V>>, ys: Seq<Term<V>>)
    ensures
        product(xs, ys).len() == xs.len() * ys.len(),
        forall|i: int, j: int|
            0 <= i < xs.len() && 0 <= j < ys.len() ==> #[trigger] product(xs, ys)[i * ys.len() + j]
                == (#[trigger] xs[i].0 + #[trigger] ys[j].0, xs[i].1 * ys[j].1),
    decreases xs.len(),
{
    let n = ys.len() as int;
    if xs.len() == 0 {
        assert(0 * n == 0) by (nonlinear_arith);
    } else {
        let k = xs.len() - 1;
        let front = xs.drop_last();
        lemma_product_entries(front, ys);
        let p0 = product(front, ys);
        assert(k * n + n == xs.len() * n) by (nonlinear_arith)
            requires
                k == xs.len() - 1,
        ;
        assert forall|i: int, j: int| 0 <= i < xs.len() && 0 <= j < n implies #[trigger] product(
            xs,
            ys,
        )[i * n + j] == (#[trigger] xs[i].0 + #[trigger] ys[j].0, xs[i].1 * ys[j].1) by {
            if i < k {
                assert(i * n + j < k * n) by (nonlinear_arith)
                    requires
                        0 <= i < k,
                        0 <= j < n,
                ;
                assert(0 <= i * n + j) by (nonlinear_arith)
                    requires
                        0 <= i,
                        0 <= j,
                        n >= 0,
                ;
                assert(front[i] == xs[i]);
                assert(p0[i * n + j] == (front[i].0 + ys[j].0, front[i].1 * ys[j].1));
            } else {
                assert(i == k);
                assert(product(xs, ys)[k * n + j] == row(xs.last(), ys)[j]);
            }
        }
    }
}

impl<N: Scalar, V: Symbol> Algebra<N, V> {
    /// The expansion of a product lists, for each monomial `(xs, c)` of the
    /// left factor and each `(ys, d)` of the right one, in that order, the
    /// monomial `(xs + ys, c * d)`.
    pub proof fn lemma_product_expansion(a: Self, b: Self)
        ensures
            Algebra::Mul(Box::new(a), Box::new(b)).zip().len() == a.zip().len() * b.zip().len(),
            forall|i: int, j: int|
                0 <= i < a.zip().len() && 0 <= j < b.zip().len() ==> #[trigger] Algebra::Mul(
                    Box::new(a),
                    Box::new(b),
                ).zip()[i * b.zip().len() + j] == (#[trigger] a.zip()[i].0 + #[trigger] b.zip()[j].0,
                    a.zip()[i].1 * b.zip()[j].1),
    {
        lemma_product_entries(a.zip(), b.zip());
    }

    /// The expression is built from constants, variables and products only.
    pub open spec fn sum_free(self) -> bool
        decreases self,
    {
        match self {
            Algebra::Val(_) => true,
            Algebra::Var(_) => true,
            Algebra::Add(_, _) => false,
            Algebra::Mul(a, b) => a.sum_free() && b.sum_free(),
        }
    }

    /// Expanding a product multiplies out: for an expression without sums,
    /// the monomials that `into_zip_sequence` lists add up to the value of
    /// the expression, whatever the variables stand for.
    pub proof fn lemma_product_expansion_value(self, env: spec_fn(V) -> int)
        requires
            self.sum_free(),
        ensures
            monomials_value(self.zip(), env) == self.eval(env),
        decreases self,
    {
        reveal_with_fuel(monomials_value, 2);
        reveal_with_fuel(vars_value, 2);
        match self {
            Algebra::Val(n) => {
                assert(seq![(Seq::<V>::empty(), n.value())].drop_last() =~= Seq::<Term<V>>::empty());
                assert(n.value() * 1 == n.value());
            },
            Algebra::Var(v) => {
                assert(seq![(seq![v], 1int)].drop_last() =~= Seq::<Term<V>>::empty());
                assert(seq![v].drop_last() =~= Seq::<V>::empty());
                assert(1 * (1 * env(v)) == env(v));
            },
            Algebra::Mul(a, b) => {
                a.lemma_product_expansion_value(env);
                b.lemma_product_expansion_value(env);
                lemma_product_value(a.zip(), b.zip(), env);
            },
            Algebra::Add(_, _) => {},
        }
    }

    /// The constant of an expression without variables is its value.
    pub proof fn lemma_constant_is_value(self, env: spec_fn(V) -> int)
        requires
            self.is_ground(),
        ensures
            self.constant() == self.eval(env),
        decreases self,
    {
        match self {
            Algebra::Add(a, b) => {
                a.lemma_constant_is_value(env);
                b.lemma_constant_is_value(env);
            },
            Algebra::Mul(a, b) => {
                a.lemma_constant_is_value(env);
                b.lemma_constant_is_value(env);
            },
            _ => {},
        }
    }

    /// Two constants or variables compare equal exactly when they are the same
    /// constant or the same variable; a constant never equals a variable.
    pub proof fn lemma_leaves_compare_by_identity(self, other: Self)
        requires
            self is Val || self is Var,
            other is Val || other is Var,
        ensures
            self.same_as(other) <==> self == other,
    {
        match (self, other) {
            (Algebra::Val(n), Algebra::Val(m)) => {
                n.lemma_value_injective(m);
            },
            _ => {},
        }
    }
}

} // verus!
