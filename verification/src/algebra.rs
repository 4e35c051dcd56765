//! Symbolic expressions built from constants, variables, sums and products.

use vstd::prelude::*;
use crate::number::{Scalar, Symbol};

verus! {

/// A monomial: the variables that are multiplied together, and the
/// coefficient in front of them.
pub type Term<V> = (Seq<V>, int);

/// Every variable of `y` occurs in `x`.
pub open spec fn covered<V>(y: Seq<V>, x: Seq<V>) -> bool {
    forall|i: int| 0 <= i < y.len() ==> x.contains(#[trigger] y[i])
}

/// Folds into `x` (in order) every monomial of `ys` whose variables all occur in
/// `x`, and returns the grown monomial with the monomials that were left over.
pub open spec fn absorb<V>(x: Term<V>, ys: Seq<Term<V>>) -> (Term<V>, Seq<Term<V>>)
    decreases ys.len(),
{
    if ys.len() == 0 {
        (x, Seq::empty())
    } else {
        let (x1, kept) = absorb(x, ys.drop_last());
        let y = ys.last();
        if covered(y.0, x1.0) {
            ((x1.0, x1.1 + y.1), kept)
        } else {
            (x1, kept.push(y))
        }
    }
}

/// Every partial sum formed by `absorb` satisfies `fits`.
pub open spec fn absorb_fits<V, N: Scalar>(x: Term<V>, ys: Seq<Term<V>>) -> bool
    decreases ys.len(),
{
    if ys.len() == 0 {
        true
    } else {
        let (x1, kept) = absorb(x, ys.drop_last());
        let y = ys.last();
        absorb_fits::<V, N>(x, ys.drop_last()) && (covered(y.0, x1.0) ==> N::in_range(x1.1 + y.1))
    }
}

/// Lets each monomial of `xs`, from the first to the last, absorb what is left
/// of `ys`; returns the grown monomials and the rest of `ys`.
pub open spec fn merge<V>(xs: Seq<Term<V>>, ys: Seq<Term<V>>) -> (Seq<Term<V>>, Seq<Term<V>>)
    decreases xs.len(),
{
    if xs.len() == 0 {
        (Seq::empty(), ys)
    } else {
        let (done, rest) = merge(xs.drop_last(), ys);
        let (x2, rest2) = absorb(xs.last(), rest);
        (done.push(x2), rest2)
    }
}

pub open spec fn merge_fits<V, N: Scalar>(xs: Seq<Term<V>>, ys: Seq<Term<V>>) -> bool
    decreases xs.len(),
{
    if xs.len() == 0 {
        true
    } else {
        let (done, rest) = merge(xs.drop_last(), ys);
        merge_fits::<V, N>(xs.drop_last(), ys) && absorb_fits::<V, N>(xs.last(), rest)
    }
}

/// The monomials `x * y` for `y` in `ys`, in order.
pub open spec fn row<V>(x: Term<V>, ys: Seq<Term<V>>) -> Seq<Term<V>> {
    Seq::new(ys.len(), |j: int| (x.0 + ys[j].0, x.1 * ys[j].1))
}

/// All products `x * y`, `x` from `xs` in the outer order and `y` from `ys`.
pub open spec fn product<V>(xs: Seq<Term<V>>, ys: Seq<Term<V>>) -> Seq<Term<V>>
    decreases xs.len(),
{
    if xs.len() == 0 {
        Seq::empty()
    } else {
        product(xs.drop_last(), ys) + row(xs.last(), ys)
    }
}

/// The product of the values of the variables `vs`.
pub open spec fn vars_value<V>(vs: Seq<V>, env: spec_fn(V) -> int) -> int
    decreases vs.len(),
{
    if vs.len() == 0 {
        1
    } else {
        vars_value(vs.drop_last(), env) * env(vs.last())
    }
}

/// The value of a sum of monomials.
pub open spec fn monomials_value<V>(z: Seq<Term<V>>, env: spec_fn(V) -> int) -> int
    decreases z.len(),
{
    if z.len() == 0 {
        0
    } else {
        monomials_value(z.drop_last(), env) + z.last().1 * vars_value(z.last().0, env)
    }
}

/// The mathematical content of a list of exec monomials.
pub open spec fn terms_view<V, N: Scalar>(v: Seq<(Vec<V>, N)>) -> Seq<Term<V>> {
    Seq::new(v.len(), |i: int| (v[i].0@, v[i].1.value()))
}


proof fn lemma_absorb_fits_prefix<V, N: Scalar>(x: Term<V>, ys: Seq<Term<V>>, k: int)
    requires
        absorb_fits::<V, N>(x, ys),
        0 <= k <= ys.len(),
    ensures
        absorb_fits::<V, N>(x, ys.take(k)),
    decreases ys.len(),
{
    if k == ys.len() {
        assert(ys.take(k) =~= ys);
    } else {
        assert(ys.drop_last().take(k) =~= ys.take(k));
        lemma_absorb_fits_prefix::<V, N>(x, ys.drop_last(), k);
    }
}

proof fn lemma_merge_fits_prefix<V, N: Scalar>(xs: Seq<Term<V>>, ys: Seq<Term<V>>, k: int)
    requires
        merge_fits::<V, N>(xs, ys),
        0 <= k <= xs.len(),
    ensures
        merge_fits::<V, N>(xs.take(k), ys),
    decreases xs.len(),
{
    if k == xs.len() {
        assert(xs.take(k) =~= xs);
    } else {
        assert(xs.drop_last().take(k) =~= xs.take(k));
        lemma_merge_fits_prefix::<V, N>(xs.drop_last(), ys, k);
    }
}

proof fn lemma_terms_view_remove_first<V, N: Scalar>(v: Seq<(Vec<V>, N)>)
    requires
        v.len() > 0,
    ensures
        terms_view(v.remove(0)) == terms_view(v).skip(1),
{
    assert(terms_view(v.remove(0)) =~= terms_view(v).skip(1));
}

proof fn lemma_terms_view_push<V, N: Scalar>(v: Seq<(Vec<V>, N)>, t: (Vec<V>, N))
    ensures
        terms_view(v.push(t)) == terms_view(v).push((t.0@, t.1.value())),
{
    assert(terms_view(v.push(t)) =~= terms_view(v).push((t.0@, t.1.value())));
}

proof fn lemma_terms_view_add<V, N: Scalar>(v: Seq<(Vec<V>, N)>, w: Seq<(Vec<V>, N)>)
    ensures
        terms_view(v + w) == terms_view(v) + terms_view(w),
{
    assert(terms_view(v + w) =~= terms_view(v) + terms_view(w));
}

/// Whether `v` occurs in `x`.
fn occurs<V: Symbol>(x: &Vec<V>, v: &V) -> (r: bool)
    ensures
        r == x@.contains(*v),
{
    let mut i: usize = 0;
    while i < x.len()
        invariant
            i <= x.len(),
            forall|k: int| 0 <= k < i ==> x@[k] != *v,
        decreases x.len() - i,
    {
        if x[i].same(v) {
            return true;
        }
        i = i + 1;
    }
    false
}

/// Whether every variable of `y` occurs in `x`.
fn covers<V: Symbol>(x: &Vec<V>, y: &Vec<V>) -> (r: bool)
    ensures
        r == covered(y@, x@),
{
    let mut i: usize = 0;
    while i < y.len()
        invariant
            i <= y.len(),
            forall|k: int| 0 <= k < i ==> x@.contains(#[trigger] y@[k]),
        decreases y.len() - i,
    {
        if !occurs(x, &y[i]) {
            return false;
        }
        i = i + 1;
    }
    true
}

/// The variables of `x` followed by those of `y`.
fn join<V: Symbol>(x: &Vec<V>, y: &Vec<V>) -> (r: Vec<V>)
    ensures
        r@ == x@ + y@,
{
    let mut r: Vec<V> = Vec::new();
    let mut i: usize = 0;
    while i < x.len()
        invariant
            i <= x.len(),
            r@ == x@.take(i as int),
        decreases x.len() - i,
    {
        r.push(x[i].duplicate());
        assert(x@.take(i + 1) =~= x@.take(i as int).push(x@[i as int]));
        i = i + 1;
    }
    assert(x@.take(x.len() as int) =~= x@);
    let mut j: usize = 0;
    while j < y.len()
        invariant
            j <= y.len(),
            r@ == x@ + y@.take(j as int),
        decreases y.len() - j,
    {
        r.push(y[j].duplicate());
        assert(y@.take(j + 1) =~= y@.take(j as int).push(y@[j as int]));
        j = j + 1;
    }
    assert(y@.take(y.len() as int) =~= y@);
    r
}

/// Exec form of `absorb`.
fn absorb_terms<V: Symbol, N: Scalar>(x: Vec<V>, xv: N, ys: Vec<(Vec<V>, N)>) -> (r: (
    (Vec<V>, N),
    Vec<(Vec<V>, N)>,
))
    requires
        absorb_fits::<V, N>((x@, xv.value()), terms_view(ys@)),
    ensures
        ((r.0.0@, r.0.1.value()), terms_view(r.1@)) == absorb((x@, xv.value()), terms_view(ys@)),
{
    let ghost all = terms_view(ys@);
    let ghost x0: Term<V> = (x@, xv.value());
    let mut acc = xv;
    let mut kept: Vec<(Vec<V>, N)> = Vec::new();
    let mut ys = ys;
    let ghost mut j: int = 0;
    while ys.len() > 0
        invariant
            0 <= j <= all.len(),
            terms_view(ys@) == all.skip(j),
            absorb_fits::<V, N>(x0, all),
            x0 == (x@, xv.value()),
            ((x@, acc.value()), terms_view(kept@)) == absorb(x0, all.take(j)),
        decreases ys.len(),
    {
        proof {
            lemma_terms_view_remove_first(ys@);
            lemma_absorb_fits_prefix::<V, N>(x0, all, j + 1);
            assert(all.take(j + 1).drop_last() =~= all.take(j));
            assert(all.skip(j)[0] == all[j]);
        }
        let y = ys.remove(0);
        if covers(&x, &y.0) {
            acc = acc.plus(y.1);
        } else {
            proof {
                lemma_terms_view_push(kept@, y);
            }
            kept.push(y);
        }
        proof {
            j = j + 1;
            assert(all.skip(j - 1).skip(1) =~= all.skip(j));
        }
    }
    assert(all.take(j) =~= all);
    ((x, acc), kept)
}

/// Exec form of `merge`.
fn merge_terms<V: Symbol, N: Scalar>(xs: Vec<(Vec<V>, N)>, ys: Vec<(Vec<V>, N)>) -> (r: (
    Vec<(Vec<V>, N)>,
    Vec<(Vec<V>, N)>,
))
    requires
        merge_fits::<V, N>(terms_view(xs@), terms_view(ys@)),
    ensures
        (terms_view(r.0@), terms_view(r.1@)) == merge(terms_view(xs@), terms_view(ys@)),
{
    let ghost allx = terms_view(xs@);
    let ghost ally = terms_view(ys@);
    let mut xs = xs;
    let mut done: Vec<(Vec<V>, N)> = Vec::new();
    let mut rest = ys;
    let ghost mut i: int = 0;
    while xs.len() > 0
        invariant
            0 <= i <= allx.len(),
            terms_view(xs@) == allx.skip(i),
            merge_fits::<V, N>(allx, ally),
            (terms_view(done@), terms_view(rest@)) == merge(allx.take(i), ally),
        decreases xs.len(),
    {
        proof {
            lemma_terms_view_remove_first(xs@);
            lemma_merge_fits_prefix::<V, N>(allx, ally, i + 1);
            assert(allx.take(i + 1).drop_last() =~= allx.take(i));
            assert(allx.skip(i)[0] == allx[i]);
        }
        let (x, xv) = xs.remove(0);
        let (x2, rest2) = absorb_terms(x, xv, rest);
        proof {
            lemma_terms_view_push(done@, x2);
        }
        done.push(x2);
        rest = rest2;
        proof {
            i = i + 1;
            assert(allx.skip(i - 1).skip(1) =~= allx.skip(i));
        }
    }
    assert(allx.take(i) =~= allx);
    (done, rest)
}

/// Exec form of `product`.
fn product_terms<V: Symbol, N: Scalar>(xs: &Vec<(Vec<V>, N)>, ys: &Vec<(Vec<V>, N)>) -> (r: Vec<
    (Vec<V>, N),
>)
    requires
        forall|i: int, j: int|
            0 <= i < xs.len() && 0 <= j < ys.len() ==> N::in_range(
                #[trigger] terms_view(xs@)[i].1 * #[trigger] terms_view(ys@)[j].1,
            ),
    ensures
        terms_view(r@) == product(terms_view(xs@), terms_view(ys@)),
{
    let ghost tx = terms_view(xs@);
    let ghost ty = terms_view(ys@);
    let mut out: Vec<(Vec<V>, N)> = Vec::new();
    let mut i: usize = 0;
    while i < xs.len()
        invariant
            i <= xs.len(),
            tx == terms_view(xs@),
            ty == terms_view(ys@),
            forall|i: int, j: int|
                0 <= i < xs.len() && 0 <= j < ys.len() ==> N::in_range(
                    #[trigger] tx[i].1 * #[trigger] ty[j].1,
                ),
            terms_view(out@) == product(tx.take(i as int), ty),
        decreases xs.len() - i,
    {
        let mut j: usize = 0;
        while j < ys.len()
            invariant
                i < xs.len(),
                j <= ys.len(),
                tx == terms_view(xs@),
                ty == terms_view(ys@),
                forall|i: int, j: int|
                    0 <= i < xs.len() && 0 <= j < ys.len() ==> N::in_range(
                        #[trigger] tx[i].1 * #[trigger] ty[j].1,
                    ),
                terms_view(out@) == product(tx.take(i as int), ty) + row(tx[i as int], ty.take(j as int)),
            decreases ys.len() - j,
        {
            let x = &xs[i];
            let y = &ys[j];
            assert(N::in_range(tx[i as int].1 * ty[j as int].1));
            let t = (join(&x.0, &y.0), x.1.times(y.1));
            proof {
                lemma_terms_view_push(out@, t);
                assert(row(tx[i as int], ty.take(j + 1)) =~= row(tx[i as int], ty.take(j as int)).push(
                    (t.0@, t.1.value()),
                ));
            }
            out.push(t);
            j = j + 1;
        }
        proof {
            assert(ty.take(ys.len() as int) =~= ty);
            assert(tx.take(i + 1).drop_last() =~= tx.take(i as int));
        }
        i = i + 1;
    }
    assert(tx.take(xs.len() as int) =~= tx);
    out
}


proof fn lemma_absorb_short<V, N: Scalar>(x: Term<V>, ys: Seq<Term<V>>)
    requires
        ys.len() <= 2,
    ensures
        ys.len() == 0 ==> absorb(x, ys) == (x, Seq::<Term<V>>::empty()),
        ys.len() == 1 ==> absorb(x, ys) == (if covered(ys[0].0, x.0) {
            ((x.0, x.1 + ys[0].1), Seq::<Term<V>>::empty())
        } else {
            (x, ys)
        }),
        ys.len() == 1 ==> (absorb_fits::<V, N>(x, ys) <==> (covered(ys[0].0, x.0) ==> N::in_range(
            x.1 + ys[0].1,
        ))),
        ys.len() == 2 ==> absorb(x, ys) == ({
            let (x1, k1) = absorb(x, seq![ys[0]]);
            let (x2, k2) = absorb(x1, seq![ys[1]]);
            (x2, k1 + k2)
        }),
        ys.len() == 2 ==> (absorb_fits::<V, N>(x, ys) <==> ({
            let (x1, k1) = absorb(x, seq![ys[0]]);
            absorb_fits::<V, N>(x, seq![ys[0]]) && absorb_fits::<V, N>(x1, seq![ys[1]])
        })),
{
    reveal_with_fuel(absorb, 3);
    reveal_with_fuel(absorb_fits, 3);
    if ys.len() >= 1 {
        assert(seq![ys[0]].drop_last() =~= Seq::<Term<V>>::empty());
        assert(Seq::<Term<V>>::empty().push(ys[0]) =~= seq![ys[0]]);
    }
    if ys.len() == 1 {
        assert(ys.drop_last() =~= Seq::<Term<V>>::empty());
        assert(ys =~= seq![ys[0]]);
    }
    if ys.len() == 2 {
        assert(ys.drop_last() =~= seq![ys[0]]);
        assert(seq![ys[1]].drop_last() =~= Seq::<Term<V>>::empty());
        let (x1, k1) = absorb(x, seq![ys[0]]);
        assert(k1.push(ys[1]) =~= k1 + seq![ys[1]]);
        assert(k1 + Seq::<Term<V>>::empty() =~= k1);
    }
}

proof fn lemma_merge_short<V, N: Scalar>(xs: Seq<Term<V>>, ys: Seq<Term<V>>)
    requires
        1 <= xs.len() <= 2,
    ensures
        xs.len() == 1 ==> merge(xs, ys) == (seq![absorb(xs[0], ys).0], absorb(xs[0], ys).1),
        xs.len() == 1 ==> (merge_fits::<V, N>(xs, ys) <==> absorb_fits::<V, N>(xs[0], ys)),
        xs.len() == 2 ==> merge(xs, ys) == ({
            let (x1, r1) = absorb(xs[0], ys);
            let (x2, r2) = absorb(xs[1], r1);
            (seq![x1, x2], r2)
        }),
        xs.len() == 2 ==> (merge_fits::<V, N>(xs, ys) <==> ({
            let (x1, r1) = absorb(xs[0], ys);
            absorb_fits::<V, N>(xs[0], ys) && absorb_fits::<V, N>(xs[1], r1)
        })),
{
    reveal_with_fuel(merge, 3);
    reveal_with_fuel(merge_fits, 3);
    if xs.len() == 1 {
        assert(xs.drop_last() =~= Seq::<Term<V>>::empty());
        assert(Seq::<Term<V>>::empty().push(absorb(xs[0], ys).0) =~= seq![absorb(xs[0], ys).0]);
    } else {
        assert(xs.drop_last() =~= seq![xs[0]]);
        assert(seq![xs[0]].drop_last() =~= Seq::<Term<V>>::empty());
        let (x1, r1) = absorb(xs[0], ys);
        assert(Seq::<Term<V>>::empty().push(x1) =~= seq![x1]);
        assert(seq![x1].push(absorb(xs[1], r1).0) =~= seq![x1, absorb(xs[1], r1).0]);
    }
}

/// The merge behind a sum of two linear forms in `p` and `q`.
proof fn lemma_merge_two<V: Symbol, N: Scalar>(
    za: Seq<Term<V>>,
    zb: Seq<Term<V>>,
    a: Algebra<N, V>,
    b: Algebra<N, V>,
    p: V,
    q: V,
)
    requires
        p != q,
        a.is_linear_in(p, q),
        b.is_linear_in(p, q),
        a.lists_monomials(za, p, q),
        b.lists_monomials(zb, p, q),
        N::in_range(a.coef(p) + b.coef(p)),
        N::in_range(a.coef(q) + b.coef(q)),
    ensures
        merge_fits::<V, N>(za, zb),
        Algebra::<N, V>::Add(Box::new(a), Box::new(b)).lists_monomials(
            merge(za, zb).0 + merge(za, zb).1,
            p,
            q,
        ),
{
    a.lemma_coef_absent(p);
    a.lemma_coef_absent(q);
    b.lemma_coef_absent(p);
    b.lemma_coef_absent(q);
    assert(seq![p][0] == p);
    assert(seq![q][0] == q);
    assert(!seq![p].contains(q));
    assert(!seq![q].contains(p));
    assert(covered(seq![p], seq![p]));
    assert(covered(seq![q], seq![q]));
    assert(!covered(seq![p], seq![q]));
    assert(!covered(seq![q], seq![p]));
    lemma_merge_short::<V, N>(za, zb);
    let x0 = za[0];
    lemma_absorb_short::<V, N>(x0, zb);
    if zb.len() == 2 {
        lemma_absorb_short::<V, N>(x0, seq![zb[0]]);
        lemma_absorb_short::<V, N>(absorb(x0, seq![zb[0]]).0, seq![zb[1]]);
    }
    let r1 = absorb(x0, zb).1;
    if za.len() == 2 {
        let x1 = za[1];
        lemma_absorb_short::<V, N>(x1, r1);
        if r1.len() == 2 {
            lemma_absorb_short::<V, N>(x1, seq![r1[0]]);
            lemma_absorb_short::<V, N>(absorb(x1, seq![r1[0]]).0, seq![r1[1]]);
        }
    }
    let c = Algebra::<N, V>::Add(Box::new(a), Box::new(b));
    let res = merge(za, zb).0 + merge(za, zb).1;
    let tp: Term<V> = (seq![p], c.coef(p));
    let tq: Term<V> = (seq![q], c.coef(q));
    if c.occurs(p) && c.occurs(q) {
        assert(res =~= seq![tp, tq] || res =~= seq![tq, tp]);
    } else if c.occurs(p) {
        assert(res =~= seq![tp]);
    } else {
        assert(res =~= seq![tq]);
    }
}

/// An expression tree over constants of type `Numeric` and variables of type
/// `Variable`.
#[derive(Debug)]
pub enum Algebra<Numeric, Variable> {
    Val(Numeric),
    Var(Variable),
    Add(Box<Algebra<Numeric, Variable>>, Box<Algebra<Numeric, Variable>>),
    Mul(Box<Algebra<Numeric, Variable>>, Box<Algebra<Numeric, Variable>>),
}

impl<N: Scalar, V: Symbol> Algebra<N, V> {
    /// The value of the expression when each variable `v` stands for `env(v)`.
    pub open spec fn eval(self, env: spec_fn(V) -> int) -> int
        decreases self,
    {
        match self {
            Algebra::Val(n) => n.value(),
            Algebra::Var(v) => env(v),
            Algebra::Add(a, b) => a.eval(env) + b.eval(env),
            Algebra::Mul(a, b) => a.eval(env) * b.eval(env),
        }
    }


    /// The list of monomials that `into_zip_sequence` expands the expression to.
    pub open spec fn zip(self) -> Seq<Term<V>>
        decreases self,
    {
        match self {
            Algebra::Val(n) => seq![(Seq::empty(), n.value())],
            Algebra::Var(v) => seq![(seq![v], 1int)],
            Algebra::Add(a, b) => {
                let (done, rest) = merge(a.zip(), b.zip());
                done + rest
            },
            Algebra::Mul(a, b) => product(a.zip(), b.zip()),
        }
    }

    /// Every coefficient that `into_zip_sequence` computes is representable.
    pub open spec fn zip_fits(self) -> bool
        decreases self,
    {
        match self {
            Algebra::Val(_) => true,
            Algebra::Var(_) => true,
            Algebra::Add(a, b) => a.zip_fits() && b.zip_fits() && merge_fits::<V, N>(a.zip(), b.zip()),
            Algebra::Mul(a, b) => a.zip_fits() && b.zip_fits() && (forall|i: int, j: int|
                0 <= i < a.zip().len() && 0 <= j < b.zip().len() ==> N::in_range(
                    #[trigger] a.zip()[i].1 * #[trigger] b.zip()[j].1,
                )),
        }
    }


    /// A linear form in the two variables `p` and `q`: its leaves are `p` or
    /// `q`, and every product has a constant as its left factor.
    pub open spec fn is_linear_in(self, p: V, q: V) -> bool
        decreases self,
    {
        match self {
            Algebra::Val(_) => false,
            Algebra::Var(v) => v == p || v == q,
            Algebra::Add(a, b) => a.is_linear_in(p, q) && b.is_linear_in(p, q),
            Algebra::Mul(a, b) => *a is Val && b.is_linear_in(p, q),
        }
    }

    /// The coefficient of the variable `v` in a linear form.
    pub open spec fn coef(self, v: V) -> int
        decreases self,
    {
        match self {
            Algebra::Val(_) => 0,
            Algebra::Var(w) => if w == v {
                1
            } else {
                0
            },
            Algebra::Add(a, b) => a.coef(v) + b.coef(v),
            Algebra::Mul(a, b) => a.constant() * b.coef(v),
        }
    }

    /// The variable `v` occurs in the expression.
    pub open spec fn occurs(self, v: V) -> bool
        decreases self,
    {
        match self {
            Algebra::Val(_) => false,
            Algebra::Var(w) => w == v,
            Algebra::Add(a, b) => a.occurs(v) || b.occurs(v),
            Algebra::Mul(a, b) => a.occurs(v) || b.occurs(v),
        }
    }

    /// A linear form is worth its coefficients times the values of `p` and `q`.
    pub proof fn lemma_linear_eval(self, p: V, q: V, env: spec_fn(V) -> int)
        requires
            p != q,
            self.is_linear_in(p, q),
        ensures
            self.eval(env) == self.coef(p) * env(p) + self.coef(q) * env(q),
        decreases self,
    {
        match self {
            Algebra::Add(a, b) => {
                a.lemma_linear_eval(p, q, env);
                b.lemma_linear_eval(p, q, env);
                assert(self.eval(env) == self.coef(p) * env(p) + self.coef(q) * env(q)) by (nonlinear_arith)
                    requires
                        self.eval(env) == a.eval(env) + b.eval(env),
                        self.coef(p) == a.coef(p) + b.coef(p),
                        self.coef(q) == a.coef(q) + b.coef(q),
                        a.eval(env) == a.coef(p) * env(p) + a.coef(q) * env(q),
                        b.eval(env) == b.coef(p) * env(p) + b.coef(q) * env(q),
                ;
            },
            Algebra::Mul(a, b) => {
                b.lemma_linear_eval(p, q, env);
                let c = a.constant();
                assert(a.eval(env) == c);
                assert(self.eval(env) == self.coef(p) * env(p) + self.coef(q) * env(q)) by (nonlinear_arith)
                    requires
                        self.eval(env) == c * b.eval(env),
                        self.coef(p) == c * b.coef(p),
                        self.coef(q) == c * b.coef(q),
                        b.eval(env) == b.coef(p) * env(p) + b.coef(q) * env(q),
                ;
            },
            _ => {},
        }
    }

    /// Substituting `t` for `f` gives the value the expression has when `f`
    /// stands for the value of `t`.
    pub proof fn lemma_subst_eval(self, f: V, t: Self, env: spec_fn(V) -> int)
        ensures
            self.subst(f, t).eval(env) == self.eval(
                |v: V|
                    if v == f {
                        t.eval(env)
                    } else {
                        env(v)
                    },
            ),
        decreases self,
    {
        match self {
            Algebra::Add(a, b) => {
                a.lemma_subst_eval(f, t, env);
                b.lemma_subst_eval(f, t, env);
            },
            Algebra::Mul(a, b) => {
                a.lemma_subst_eval(f, t, env);
                b.lemma_subst_eval(f, t, env);
            },
            _ => {},
        }
    }

    /// Every expression compares equal to itself.
    pub proof fn lemma_same_as_reflexive(self)
        ensures
            self.same_as(self),
        decreases self,
    {
        match self {
            Algebra::Add(a, b) => {
                a.lemma_same_as_reflexive();
                b.lemma_same_as_reflexive();
            },
            Algebra::Mul(a, b) => {
                a.lemma_same_as_reflexive();
                b.lemma_same_as_reflexive();
            },
            _ => {},
        }
    }

    /// Expanding a linear form in two distinct variables keeps its value.
    pub proof fn lemma_linear_zip_value(self, p: V, q: V, env: spec_fn(V) -> int)
        requires
            p != q,
            self.is_linear_in(p, q),
            self.linear_fits(p, q),
        ensures
            monomials_value(self.zip(), env) == self.eval(env),
    {
        self.lemma_linear_zip(p, q);
        self.lemma_linear_eval(p, q, env);
        self.lemma_coef_absent(p);
        self.lemma_coef_absent(q);
        let tp: Term<V> = (seq![p], self.coef(p));
        let tq: Term<V> = (seq![q], self.coef(q));
        reveal_with_fuel(monomials_value, 3);
        reveal_with_fuel(vars_value, 2);
        assert(seq![p].drop_last() =~= Seq::<V>::empty());
        assert(seq![q].drop_last() =~= Seq::<V>::empty());
        assert(seq![tp, tq].drop_last() =~= seq![tp]);
        assert(seq![tq, tp].drop_last() =~= seq![tq]);
        assert(seq![tp].drop_last() =~= Seq::<Term<V>>::empty());
        assert(seq![tq].drop_last() =~= Seq::<Term<V>>::empty());
        let (cp, cq, ep, eq) = (self.coef(p), self.coef(q), env(p), env(q));
        assert(cp * (1 * ep) == cp * ep && cq * (1 * eq) == cq * eq) by (nonlinear_arith);
        assert(0 * ep == 0 && 0 * eq == 0) by (nonlinear_arith);
    }

    /// A variable that does not occur has coefficient zero.
    pub proof fn lemma_coef_absent(self, v: V)
        ensures
            !self.occurs(v) ==> self.coef(v) == 0,
        decreases self,
    {
        match self {
            Algebra::Add(a, b) => {
                a.lemma_coef_absent(v);
                b.lemma_coef_absent(v);
            },
            Algebra::Mul(a, b) => {
                b.lemma_coef_absent(v);
                assert(a.constant() * 0 == 0);
            },
            _ => {},
        }
    }

    /// Every coefficient formed while expanding a linear form in `p` and `q`
    /// is representable.
    pub open spec fn linear_fits(self, p: V, q: V) -> bool
        decreases self,
    {
        match self {
            Algebra::Val(_) => true,
            Algebra::Var(_) => true,
            Algebra::Add(a, b) => a.linear_fits(p, q) && b.linear_fits(p, q) && N::in_range(
                self.coef(p),
            ) && N::in_range(self.coef(q)),
            Algebra::Mul(a, b) => b.linear_fits(p, q) && N::in_range(self.coef(p)) && N::in_range(
                self.coef(q),
            ),
        }
    }

    /// `z` lists the monomials of the linear form `self` in `p` and `q`: one per
    /// variable that occurs, with its coefficient, in either order.
    pub open spec fn lists_monomials(self, z: Seq<Term<V>>, p: V, q: V) -> bool {
        let tp: Term<V> = (seq![p], self.coef(p));
        let tq: Term<V> = (seq![q], self.coef(q));
        if self.occurs(p) && self.occurs(q) {
            z == seq![tp, tq] || z == seq![tq, tp]
        } else if self.occurs(p) {
            z == seq![tp]
        } else {
            self.occurs(q) && z == seq![tq]
        }
    }

    /// Expanding a linear form in two distinct variables gives one monomial
    /// per variable, with the coefficient of that variable.
    pub proof fn lemma_linear_zip(self, p: V, q: V)
        requires
            p != q,
            self.is_linear_in(p, q),
            self.linear_fits(p, q),
        ensures
            self.zip_fits(),
            self.lists_monomials(self.zip(), p, q),
        decreases self,
    {
        match self {
            Algebra::Var(v) => {
                assert(self.zip() =~= seq![(seq![v], 1int)]);
                assert(self.zip_fits());
                if v == p {
                    assert(self.coef(p) == 1);
                    assert(!self.occurs(q));
                } else {
                    assert(self.coef(q) == 1);
                    assert(!self.occurs(p));
                }
                assert(self.lists_monomials(self.zip(), p, q));
            },
            Algebra::Add(a, b) => {
                a.lemma_linear_zip(p, q);
                b.lemma_linear_zip(p, q);
                lemma_merge_two::<V, N>(a.zip(), b.zip(), *a, *b, p, q);
                assert(self.zip_fits());
                assert(self.lists_monomials(self.zip(), p, q));
            },
            Algebra::Mul(a, b) => {
                b.lemma_linear_zip(p, q);
                let c = a.constant();
                let za = a.zip();
                let zb = b.zip();
                assert(za =~= seq![(Seq::<V>::empty(), c)]);
                assert(product(za, zb) =~= row(za[0], zb)) by {
                    reveal_with_fuel(product, 2);
                    assert(za.drop_last() =~= Seq::<Term<V>>::empty());
                    assert(product(za.drop_last(), zb) =~= Seq::<Term<V>>::empty());
                }
                assert(forall|k: int| 0 <= k < zb.len() ==> Seq::<V>::empty() + (#[trigger] zb[k]).0 =~= zb[k].0);
                assert(!a.occurs(p) && !a.occurs(q));
                assert(self.occurs(p) == b.occurs(p) && self.occurs(q) == b.occurs(q));
                if b.occurs(p) && b.occurs(q) {
                    assert(row(za[0], zb) =~= seq![(seq![p], self.coef(p)), (seq![q], self.coef(q))]
                        || row(za[0], zb) =~= seq![(seq![q], self.coef(q)), (seq![p], self.coef(p))]);
                } else if b.occurs(p) {
                    assert(row(za[0], zb) =~= seq![(seq![p], self.coef(p))]);
                } else {
                    assert(row(za[0], zb) =~= seq![(seq![q], self.coef(q))]);
                }
                assert forall|i: int, j: int|
                    0 <= i < za.len() && 0 <= j < zb.len() implies N::in_range(
                    #[trigger] za[i].1 * #[trigger] zb[j].1,
                ) by {
                    assert(i == 0);
                }
                assert(a.zip_fits());
                assert(b.zip_fits());
                assert(self.zip() == product(za, zb));
                assert(self.zip_fits());
                assert(self.lists_monomials(self.zip(), p, q));
            },
            Algebra::Val(_) => {},
        }
    }

    /// No variable occurs in the expression.
    pub open spec fn is_ground(self) -> bool
        decreases self,
    {
        match self {
            Algebra::Val(_) => true,
            Algebra::Var(_) => false,
            Algebra::Add(a, b) => a.is_ground() && b.is_ground(),
            Algebra::Mul(a, b) => a.is_ground() && b.is_ground(),
        }
    }

    /// The value of a ground expression.
    pub open spec fn constant(self) -> int
        decreases self,
    {
        match self {
            Algebra::Val(n) => n.value(),
            Algebra::Var(_) => 0,
            Algebra::Add(a, b) => a.constant() + b.constant(),
            Algebra::Mul(a, b) => a.constant() * b.constant(),
        }
    }

    /// Every intermediate sum and product of a ground expression is representable.
    pub open spec fn folds_in_range(self) -> bool
        decreases self,
    {
        match self {
            Algebra::Val(_) => true,
            Algebra::Var(_) => true,
            Algebra::Add(a, b) => a.folds_in_range() && b.folds_in_range() && N::in_range(
                a.constant() + b.constant(),
            ),
            Algebra::Mul(a, b) => a.folds_in_range() && b.folds_in_range() && N::in_range(
                a.constant() * b.constant(),
            ),
        }
    }

    /// `simplify` returns: a bare constant or variable, or a sum or product
    /// without variables. (On a sum or product that holds a variable the
    /// folding never reaches a constant and does not return.)
    pub open spec fn simplify_returns(self) -> bool {
        match self {
            Algebra::Val(_) => true,
            Algebra::Var(_) => true,
            _ => self.is_ground(),
        }
    }

    pub open spec fn size(self) -> nat
        decreases self,
    {
        match self {
            Algebra::Val(_) => 1,
            Algebra::Var(_) => 1,
            Algebra::Add(a, b) => 1 + a.size() + b.size(),
            Algebra::Mul(a, b) => 1 + a.size() + b.size(),
        }
    }

    pub proof fn lemma_size_positive(e: Self)
        ensures
            e.size() >= 1,
            e is Add || e is Mul ==> e.size() >= 3,
        decreases e,
    {
        match e {
            Algebra::Add(a, b) => {
                Self::lemma_size_positive(*a);
                Self::lemma_size_positive(*b);
            },
            Algebra::Mul(a, b) => {
                Self::lemma_size_positive(*a);
                Self::lemma_size_positive(*b);
            },
            _ => {},
        }
    }



    /// The expression with every occurrence of the variable `f` replaced by `t`.
    pub open spec fn subst(self, f: V, t: Self) -> Self
        decreases self,
    {
        match self {
            Algebra::Var(v) => if v == f {
                t
            } else {
                self
            },
            Algebra::Add(a, b) => Algebra::Add(Box::new(a.subst(f, t)), Box::new(b.subst(f, t))),
            Algebra::Mul(a, b) => Algebra::Mul(Box::new(a.subst(f, t)), Box::new(b.subst(f, t))),
            Algebra::Val(_) => self,
        }
    }

    /// The comparison that `==` performs: constants and variables by value,
    /// sums with sums and products with products, where two sums (products)
    /// compare equal when their operands do pairwise, or when the first operand
    /// of one equals the second operand of the other.
    pub open spec fn same_as(self, other: Self) -> bool
        decreases self,
    {
        match (self, other) {
            (Algebra::Val(l0), Algebra::Val(r0)) => l0.value() == r0.value(),
            (Algebra::Var(l0), Algebra::Var(r0)) => l0 == r0,
            (Algebra::Add(l0, l1), Algebra::Add(r0, r1)) => (l0.same_as(*r0) && l1.same_as(*r1))
                || l0.same_as(*r1),
            (Algebra::Mul(l0, l1), Algebra::Mul(r0, r1)) => (l0.same_as(*r0) && l1.same_as(*r1))
                || l0.same_as(*r1),
            _ => false,
        }
    }

    /// A copy of the expression.
    pub fn duplicate(&self) -> (r: Self)
        ensures
            r == *self,
        decreases self,
    {
        match self {
            Algebra::Val(n) => Algebra::Val(*n),
            Algebra::Var(v) => Algebra::Var(v.duplicate()),
            Algebra::Add(a, b) => Algebra::Add(Box::new(a.duplicate()), Box::new(b.duplicate())),
            Algebra::Mul(a, b) => Algebra::Mul(Box::new(a.duplicate()), Box::new(b.duplicate())),
        }
    }

    /// Replaces every occurrence of the variable `f` by a copy of `t`.
    pub fn var_sub(&mut self, f: &V, t: &Self)
        ensures
            *final(self) == old(self).subst(*f, *t),
        decreases old(self).size(),
    {
        match self {
            Algebra::Var(v) => {
                if v.same(f) {
                    *self = t.duplicate();
                }
            },
            Algebra::Add(a, b) => {
                a.var_sub(f, t);
                b.var_sub(f, t);
            },
            Algebra::Mul(a, b) => {
                a.var_sub(f, t);
                b.var_sub(f, t);
            },
            _ => {},
        }
    }

    /// Exec form of `same_as`.
    pub fn equal(&self, other: &Self) -> (r: bool)
        ensures
            r == self.same_as(*other),
            (self is Val || self is Var) && (other is Val || other is Var) ==> (r <==> *self
                == *other),
        decreases self,
    {
        proof {
            if (*self is Val || *self is Var) && (*other is Val || *other is Var) {
                self.lemma_leaves_compare_by_identity(*other);
            }
        }
        match (self, other) {
            (Algebra::Val(l0), Algebra::Val(r0)) => l0.equals(*r0),
            (Algebra::Var(l0), Algebra::Var(r0)) => l0.same(r0),
            (Algebra::Add(l0, l1), Algebra::Add(r0, r1)) => (l0.equal(r0) && l1.equal(r1)) || (l0.equal(
                r1,
            ) && l0.equal(r1)),
            (Algebra::Mul(l0, l1), Algebra::Mul(r0, r1)) => (l0.equal(r0) && l1.equal(r1)) || (l0.equal(
                r1,
            ) && l0.equal(r1)),
            _ => false,
        }
    }

    /// Expands the expression into a list of monomials: each is the list of
    /// the variables multiplied together, with its coefficient.
    pub fn into_zip_sequence(self) -> (r: Vec<(Vec<V>, N)>)
        requires
            self.zip_fits(),
        ensures
            terms_view(r@) == self.zip(),
        decreases self,
    {
        match self {
            Algebra::Val(a) => {
                let r = vec![(Vec::new(), a)];
                assert(terms_view(r@) =~= self.zip());
                r
            },
            Algebra::Var(b) => {
                let mut vars: Vec<V> = Vec::new();
                vars.push(b);
                let r = vec![(vars, N::one())];
                assert(r@[0].0@ =~= seq![b]);
                assert(terms_view(r@) =~= self.zip());
                r
            },
            Algebra::Add(a, b) => {
                let za = (*a).into_zip_sequence();
                let zb = (*b).into_zip_sequence();
                let (mut done, mut rest) = merge_terms(za, zb);
                proof {
                    lemma_terms_view_add(done@, rest@);
                }
                done.append(&mut rest);
                done
            },
            Algebra::Mul(a, b) => {
                let za = (*a).into_zip_sequence();
                let zb = (*b).into_zip_sequence();
                product_terms(&za, &zb)
            },
        }
    }

    /// Folds the constant sums and products of the expression into one constant.
    pub fn simplify(&mut self)
        requires
            old(self).simplify_returns(),
            old(self).folds_in_range(),
        ensures
            *old(self) is Val || *old(self) is Var ==> *final(self) == *old(self),
            *old(self) is Add || *old(self) is Mul ==> (*final(self) matches Algebra::Val(n)
                && n.value() == old(self).constant()),
            *old(self) is Add || *old(self) is Mul ==> (*final(self) matches Algebra::Val(n)
                && forall|env: spec_fn(V) -> int| n.value() == #[trigger] old(self).eval(env)),
        decreases old(self).size(),
    {
        proof {
            assert forall|env: spec_fn(V) -> int| old(self).is_ground() implies old(self).constant()
                == #[trigger] old(self).eval(env) by {
                old(self).lemma_constant_is_value(env);
            }
        }
        match self {
            Algebra::Add(a, b) => {
                if let (Algebra::Val(x), Algebra::Val(y)) = (&**a, &**b) {
                    *self = Algebra::Val(x.plus(*y));
                } else {
                    let ghost (a0, b0) = (**a, **b);
                    assert(a0.is_ground() && b0.is_ground());
                    assert(a0.size() + b0.size() > 2) by {
                        Self::lemma_size_positive(a0);
                        Self::lemma_size_positive(b0);
                    }
                    a.simplify();
                    b.simplify();
                    assert(**a is Val && **b is Val);
                    assert(self.size() == 3 && self.is_ground() && self.folds_in_range()
                        && self.constant() == a0.constant() + b0.constant()) by {
                        reveal_with_fuel(Algebra::size, 2);
                        reveal_with_fuel(Algebra::is_ground, 2);
                        reveal_with_fuel(Algebra::constant, 2);
                        reveal_with_fuel(Algebra::folds_in_range, 2);
                    }
                    self.simplify();
                }
            },
            Algebra::Mul(a, b) => {
                if let (Algebra::Val(x), Algebra::Val(y)) = (&**a, &**b) {
                    *self = Algebra::Val(x.times(*y));
                } else {
                    let ghost (a0, b0) = (**a, **b);
                    assert(a0.is_ground() && b0.is_ground());
                    assert(a0.size() + b0.size() > 2) by {
                        Self::lemma_size_positive(a0);
                        Self::lemma_size_positive(b0);
                    }
                    a.simplify();
                    b.simplify();
                    assert(**a is Val && **b is Val);
                    assert(self.size() == 3 && self.is_ground() && self.folds_in_range()
                        && self.constant() == a0.constant() * b0.constant()) by {
                        reveal_with_fuel(Algebra::size, 2);
                        reveal_with_fuel(Algebra::is_ground, 2);
                        reveal_with_fuel(Algebra::constant, 2);
                        reveal_with_fuel(Algebra::folds_in_range, 2);
                    }
                    self.simplify();
                }
            },
            _ => {},
        }
    }
}

impl<N: Scalar, V: Symbol> Clone for Algebra<N, V> {
    fn clone(&self) -> (r: Self)
        ensures
            r == *self,
    {
        self.duplicate()
    }
}

impl<N: Scalar, V: Symbol> PartialEq for Algebra<N, V> {
    fn eq(&self, other: &Self) -> (r: bool) {
        self.equal(other)
    }
}

impl<N: Scalar, V: Symbol> vstd::std_specs::cmp::PartialEqSpecImpl for Algebra<N, V> {
    open spec fn obeys_eq_spec() -> bool {
        true
    }

    open spec fn eq_spec(&self, other: &Self) -> bool {
        self.same_as(*other)
    }
}

} // verus!
