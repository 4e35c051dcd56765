# discrete_math

Elementary discrete mathematics, verified with Verus.

- `algebra`: symbolic expressions over constants and variables, with
  substitution, constant folding and expansion into monomials.
- `euclid`, `cofactors`, `bezout_laws`: the Euclidean algorithm as a table of
  divisions, and the proofs that its divisor is a greatest common divisor and
  that back substitution gives Bezout coefficients.
- `unit3`: `gcd`, `bezout`, modular inverses, linear congruences, modular
  powers and the affine cipher.
- `fermat`: Fermat's little theorem (through the binomial theorem and Euclid's
  lemma) and why the exponent of a modular power may be reduced modulo `p - 1`.
- `unit4`: classification of conics by their discriminant.
- `workings`: a value that carries the notes of how it was worked out.

`num-traits` supplies the checked division, the conversion to `u32` and the
integer power that the number theory uses.
