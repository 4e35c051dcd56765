//! Classification of conic sections by their discriminant.

use vstd::prelude::*;

verus! {

/// The three kinds of non-degenerate conic.
#[derive(Clone, Copy, Eq, PartialEq, Structural, Debug)]
pub enum ConicClass {
    Ellipse,
    Parabola,
    Hyperbola,
}

/// The conic `A x^2 + B x y + C y^2 + D x + E y + F = 0`, as its six
/// coefficients `(A, B, C, D, E, F)`.
pub struct GeneralConic<T>(pub T, pub T, pub T, pub T, pub T, pub T);

/// The discriminant `B^2 - 4 A C` of a conic.
pub open spec fn discriminant(c: GeneralConic<i64>) -> int {
    c.1 * c.1 - 4 * c.0 * c.2
}

/// The class that a discriminant stands for: negative for an ellipse, zero for
/// a parabola, positive for a hyperbola.
pub open spec fn class_of(d: int) -> ConicClass {
    if d < 0 {
        ConicClass::Ellipse
    } else if d == 0 {
        ConicClass::Parabola
    } else {
        ConicClass::Hyperbola
    }
}

/// Whether the discriminant of `c` computes without overflow.
pub open spec fn discriminant_fits(c: GeneralConic<i64>) -> bool {
    &&& i64::MIN <= c.1 * c.1 <= i64::MAX
    &&& i64::MIN <= 4 * c.0 <= i64::MAX
    &&& i64::MIN <= 4 * c.0 * c.2 <= i64::MAX
    &&& i64::MIN <= discriminant(c) <= i64::MAX
}

/// Classifies a conic by the sign of its discriminant.
pub fn get_conic_class(c: &GeneralConic<i64>) -> (r: ConicClass)
    requires
        discriminant_fits(*c),
    ensures
        r == class_of(discriminant(*c)),
{
    let d = c.1 * c.1 - 4 * c.0 * c.2;
    if d < 0 {
        ConicClass::Ellipse
    } else if d == 0 {
        ConicClass::Parabola
    } else {
        ConicClass::Hyperbola
    }
}

} // verus!
