use discrete_math::algebra::Algebra;
use discrete_math::algebra::Algebra::{Add, Mul, Val, Var};

#[test]
fn basic_arithmetic() {
    let mut expr: Algebra<i32, ()> = Mul(
        Box::new(Add(Box::new(Val(1)), Box::new(Val(3)))),
        Box::new(Val(10)),
    );

    expr.simplify();

    assert_eq!(Val(40), expr);
}

#[test]
fn it_can_convert_to_linear() {
    let expr: Algebra<i32, char> = Mul(
        Box::new(Add(Box::new(Val(5)), Box::new(Var('x')))),
        Box::new(Val(10)),
    );

    println!("{:#?}", expr.into_zip_sequence())
}

#[test]
fn linear_expansion_exact_monomials() {
    let expr: Algebra<i32, char> = Mul(
        Box::new(Add(Box::new(Val(5)), Box::new(Var('x')))),
        Box::new(Val(10)),
    );
    assert_eq!(expr.into_zip_sequence(), vec![(vec![], 50), (vec!['x'], 10)]);
}

#[test]
fn expansion_merges_like_terms() {
    // x + 3 * (y + x): the two monomials in x are merged into the first one
    let expr: Algebra<i64, char> = Add(
        Box::new(Var('x')),
        Box::new(Mul(
            Box::new(Val(3)),
            Box::new(Add(Box::new(Var('y')), Box::new(Var('x')))),
        )),
    );
    assert_eq!(expr.into_zip_sequence(), vec![(vec!['x'], 4), (vec!['y'], 3)]);
}

#[test]
fn expansion_multiplies_variables() {
    let expr: Algebra<i64, char> = Mul(Box::new(Var('x')), Box::new(Var('y')));
    assert_eq!(expr.into_zip_sequence(), vec![(vec!['x', 'y'], 1)]);
}

#[test]
fn simplify_leaves_constants_and_variables() {
    let mut v: Algebra<i64, char> = Var('x');
    v.simplify();
    assert_eq!(v, Var('x'));
    let mut c: Algebra<i64, char> = Val(-7);
    c.simplify();
    assert_eq!(c, Val(-7));
}

#[test]
fn simplify_folds_nested_products() {
    let mut e: Algebra<i64, ()> = Add(
        Box::new(Mul(Box::new(Val(6)), Box::new(Val(7)))),
        Box::new(Mul(Box::new(Val(-2)), Box::new(Add(Box::new(Val(1)), Box::new(Val(2)))))),
    );
    e.simplify();
    assert_eq!(e, Val(36));
}

#[test]
fn var_sub_replaces_every_occurrence() {
    let mut e: Algebra<i64, i64> = Add(
        Box::new(Var(3)),
        Box::new(Mul(Box::new(Val(2)), Box::new(Var(3)))),
    );
    let t: Algebra<i64, i64> = Add(Box::new(Var(1)), Box::new(Var(2)));
    e.var_sub(&3, &t);
    let expected: Algebra<i64, i64> = Add(
        Box::new(Add(Box::new(Var(1)), Box::new(Var(2)))),
        Box::new(Mul(
            Box::new(Val(2)),
            Box::new(Add(Box::new(Var(1)), Box::new(Var(2)))),
        )),
    );
    assert_eq!(e, expected);
    // a variable that does not occur leaves the expression as it was
    e.var_sub(&9, &Val(0));
    assert_eq!(e, expected);
}

#[test]
fn equality_compares_structure() {
    let a: Algebra<i64, char> = Add(Box::new(Var('x')), Box::new(Val(1)));
    let b: Algebra<i64, char> = Add(Box::new(Var('x')), Box::new(Val(1)));
    let c: Algebra<i64, char> = Add(Box::new(Var('x')), Box::new(Val(2)));
    let d: Algebra<i64, char> = Mul(Box::new(Var('x')), Box::new(Val(1)));
    assert!(a == b);
    assert!(a != c);
    assert!(a != d);
    assert!(Val::<i64, char>(3) != Var('x'));
}

#[test]
fn equality_swapped_operands() {
    // the first operand of the left sum equals the second operand of the right one
    let a: Algebra<i64, char> = Add(Box::new(Var('x')), Box::new(Val(5)));
    let b: Algebra<i64, char> = Add(Box::new(Val(7)), Box::new(Var('x')));
    assert!(a == b);
    let c: Algebra<i64, char> = Add(Box::new(Val(1)), Box::new(Var('x')));
    assert!(c != a);
}

#[test]
fn duplicate_is_equal() {
    let a: Algebra<i64, char> = Mul(Box::new(Val(2)), Box::new(Var('z')));
    assert_eq!(a.duplicate(), a);
}
