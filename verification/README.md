# ligero_mini_lab

A baby version of Ligero's three tests (proximity, multiplication, linear) over the
prime field F_97 and a tiny Reed–Solomon code, specified and proved with Verus.
One function is trusted rather than proved: `random_in_range` in `src/experiment.rs`,
a wrapper around `rand`'s `Rng::gen_range`, whose contract (the result lies in the
half-open range asked for) is taken from `rand`'s source. The random witnesses and
challenges rest on it; everything that is computed from them is proved.

Layout:

- `src/field.rs` — the field `F` (add, sub, mul, inv by the extended Euclidean
  algorithm, pow by square-and-multiply, the operator traits) and congruence lemmas.
- `src/rs_code.rs` — domains, polynomial evaluation, interpolation by Gaussian
  elimination, the low-degree test, and the laws that evaluations are codewords, that
  interpolation recovers the polynomial on distinct points, and that on any domain its
  result is fixed by the fit and the zero coefficients of the powers that agree on the
  domain with lower ones.
- `src/elimination.rs` — row operations and the proof that elimination keeps the
  solutions of the linear system and gives no pivot to a dependent column; back
  substitution.
- `src/roots.rs` — a polynomial with `L` coefficients vanishing at `L` distinct points
  is zero.
- `src/ligero_mini.rs` — witnesses, the tableau of rows, the three tests, and the
  laws: honest tableaux pass every challenge; the single-gate tableau passes the
  linear test exactly when `z = x*y + x`.
- `src/experiment.rs` — random witnesses and challenges (through `rand`), the
  correlated cheating prover and the law that it passes the multiplication test
  exactly for `r = 1`, and the Monte-Carlo acceptance counts.
- `app/main.rs` — the program: a single-gate smoke test and the soundness experiment.
