//! Elementary discrete mathematics: symbolic linear expressions, the
//! Euclidean algorithm with its quotient table, Bezout coefficients,
//! modular inverses, linear congruences, modular powers with Fermat's little
//! theorem, the affine cipher, conic classification and a small "workings"
//! accumulator.

pub mod number;
pub mod algebra;
pub mod algebra_laws;
pub mod arith;
pub mod euclid;
pub mod unit3;
pub mod cofactors;
pub mod bezout_laws;
pub mod fermat;
pub mod unit4;
pub mod workings;
