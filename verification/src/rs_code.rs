//! Minimal Reed–Solomon-style utilities over F.
//! Domain points are fixed once for the entire lab.

use vstd::prelude::*;
use vstd::arithmetic::div_mod::*;
use vstd::arithmetic::power::*;
use crate::field::{
    F, modulus, lemma_eq_iff_val, cong, lemma_cong_sub, lemma_cong_add, lemma_cong_mul, lemma_cong_mod,
    lemma_inverse_exists, from_int,
};
use crate::roots::{int_poly_sum, lemma_vanishing_polynomial, lemma_int_poly_sum_linear};
use crate::elimination::{
    dot_range, row_holds, solves, reduce_to_echelon, back_substitute, lemma_echelon_solution,
    row_dependent, column_dependent, pivot_in,
};

verus! {

broadcast use crate::field::lemma_from_int_val;

/// RS domain used for all codewords: α_0, ..., α_{n-1}.
#[derive(Clone, Debug)]
pub struct Domain {
    pub points: Vec<F>,
}

/// `Σ_{j < k} c[j] * x^j` over the integers.
pub open spec fn poly_sum(c: Seq<F>, x: int, k: nat) -> int
    decreases k,
{
    if k == 0 {
        0
    } else {
        poly_sum(c, x, (k - 1) as nat) + c[k - 1].val() * pow(x, (k - 1) as nat)
    }
}

/// The value at `x` of the polynomial with coefficients `c` (`c[j]` belongs to `X^j`), in the field.
pub open spec fn poly_eval(c: Seq<F>, x: int) -> int {
    poly_sum(c, x, c.len()) % modulus()
}

/// `points` is the domain `0, 1, ..., n - 1` of the field (each index cast to `u32` and reduced).
pub open spec fn standard_domain(points: Seq<F>, n: nat) -> bool {
    &&& points.len() == n
    &&& forall|i: int| 0 <= i < n ==> #[trigger] points[i].val() == (i as u32) as int % modulus()
}

/// The representatives of a vector of field elements.
pub open spec fn vals(s: Seq<F>) -> Seq<int> {
    Seq::new(s.len(), |k: int| s[k].val())
}

/// `v` lists the values of the polynomial with coefficients `c` at the points of `domain`.
pub open spec fn fits(c: Seq<F>, domain: Seq<F>, v: Seq<int>) -> bool {
    &&& v.len() == domain.len()
    &&& forall|k: int| 0 <= k < domain.len() ==> #[trigger] v[k] == poly_eval(c, domain[k].val())
}

/// `values` is the evaluation of the polynomial with coefficients `c` on the points of `domain`.
pub open spec fn evaluates_to(c: Seq<F>, domain: Seq<F>, values: Seq<F>) -> bool {
    fits(c, domain, vals(values))
}

/// `v` is a Reed–Solomon codeword on `domain`: the values of a polynomial with
/// `deg_bound + 1` coefficients, where `deg_bound + 1` does not exceed the domain size.
pub open spec fn is_codeword_vals(v: Seq<int>, domain: Seq<F>, deg_bound: nat) -> bool {
    &&& v.len() == domain.len()
    &&& deg_bound < domain.len()
    &&& exists|c: Seq<F>| c.len() == deg_bound + 1 && #[trigger] fits(c, domain, v)
}

/// On every point of `domain`, `X^j` agrees with the polynomial `Σ_{l < j} a[l] X^l`:
/// column `j` of the domain's Vandermonde matrix is a combination of the columns before it.
pub open spec fn power_dependent(domain: Seq<F>, j: nat, a: Seq<F>) -> bool {
    &&& a.len() == j
    &&& forall|i: int|
        0 <= i < domain.len() ==> cong(
            pow((#[trigger] domain[i]).val(), j),
            poly_sum(a, domain[i].val(), j),
        )
}

/// `values` is a Reed–Solomon codeword on `domain` (see `is_codeword_vals`).
pub open spec fn is_codeword(values: Seq<F>, domain: Seq<F>, deg_bound: nat) -> bool {
    is_codeword_vals(vals(values), domain, deg_bound)
}

/// Adding one term and reducing commutes with reducing the partial results.
proof fn lemma_add_term_mod(s: int, c: int, pw: int)
    ensures
        ((s % 97) + (c * (pw % 97)) % 97) % 97 == (s + c * pw) % 97,
{
    lemma_mul_mod_noop_right(c, pw, 97);
    lemma_add_mod_noop(s, c * pw, 97);
    lemma_mod_twice(c * pw, 97);
    lemma_mod_twice(s, 97);
}

/// Next power: `x^(j+1) % p` from `x^j % p`.
pub(crate) proof fn lemma_pow_next_mod(x: int, j: nat, pw: int)
    requires
        pw == pow(x, j) % 97,
    ensures
        (pw * x) % 97 == pow(x, j + 1) % 97,
{
    lemma_pow_adds(x, j, 1);
    lemma_pow1(x);
    lemma_mul_mod_noop_left(pow(x, j), x, 97);
}

impl Domain {
    /// Create a domain with points {0,1,...,n-1} in F.
    pub fn new_n(n: usize) -> (d: Domain)
        ensures
            standard_domain(d.points@, n as nat),
    {
        let mut points: Vec<F> = Vec::new();
        for i in 0..n
            invariant
                points@.len() == i,
                forall|k: int| 0 <= k < i ==> #[trigger] points@[k].val() == (k as u32) as int % modulus(),
        {
            points.push(F::from(i as u32));
        }
        Domain { points }
    }

    pub fn len(&self) -> (r: usize)
        ensures
            r == self.points@.len(),
    {
        self.points.len()
    }
}

/// Evaluate the polynomial with coefficients `coeffs` at one point.
fn eval_at(coeffs: &[F], x: F) -> (r: F)
    ensures
        r.val() == poly_eval(coeffs@, x.val()),
{
    let mut acc = F::from(0);
    let mut power = F::from(1);
    proof {
        lemma_pow0(x.val());
    }
    for j in 0..coeffs.len()
        invariant
            acc.val() == poly_sum(coeffs@, x.val(), j as nat) % modulus(),
            power.val() == pow(x.val(), j as nat) % modulus(),
    {
        let c = coeffs[j];
        proof {
            lemma_add_term_mod(poly_sum(coeffs@, x.val(), j as nat), c.val(), pow(x.val(), j as nat));
            lemma_pow_next_mod(x.val(), j as nat, power.val());
        }
        acc = acc + c * power;
        power = power * x;
    }
    acc
}

/// Evaluate polynomial with coefficients coeffs[0..=deg] on all domain points.
/// coeffs[j] is the coefficient of X^j.
pub fn eval_poly(coeffs: &[F], domain: &Domain) -> (r: Vec<F>)
    ensures
        evaluates_to(coeffs@, domain.points@, r@),
{
    let mut out: Vec<F> = Vec::new();
    for k in 0..domain.points.len()
        invariant
            out@.len() == k,
            forall|i: int| 0 <= i < k ==> #[trigger] out@[i].val() == poly_eval(coeffs@, domain.points@[i].val()),
    {
        out.push(eval_at(coeffs, domain.points[k]));
    }
    proof {
        assert forall|i: int| 0 <= i < domain.points@.len() implies #[trigger] vals(out@)[i] == poly_eval(coeffs@, domain.points@[i].val()) by {
            assert(out@[i].val() == poly_eval(coeffs@, domain.points@[i].val()));
        }
    }
    out
}


/// A row of the Vandermonde matrix at `x` has, against any coefficients, a dot product
/// congruent to the polynomial's value at `x`.
proof fn lemma_vandermonde_row(row: Seq<F>, c: Seq<F>, x: int, k: nat)
    requires
        k <= row.len(),
        forall|j: int| 0 <= j < k ==> (#[trigger] row[j]).val() == pow(x, j as nat) % modulus(),
    ensures
        cong(dot_range(row, c, 0, k as int), poly_sum(c, x, k)),
    decreases k,
{
    if k > 0 {
        let j = (k - 1) as nat;
        lemma_vandermonde_row(row, c, x, j);
        let (rj, cj, pj) = (row[j as int].val(), c[j as int].val(), pow(x, j));
        lemma_mod_twice(pj, 97);
        lemma_mul_mod_noop_left(rj, cj, 97);
        lemma_mul_mod_noop_left(pj, cj, 97);
        assert(cong(rj * cj, pj * cj));
        assert(pj * cj == cj * pj) by (nonlinear_arith);
        lemma_add_mod_noop(dot_range(row, c, 0, j as int), rj * cj, 97);
        lemma_add_mod_noop(poly_sum(c, x, j), cj * pj, 97);
    }
}

/// Whether two vectors of field elements are equal.
fn same_values(a: &Vec<F>, b: &[F]) -> (r: bool)
    ensures
        r == (a@ == b@),
{
    if a.len() != b.len() {
        return false;
    }
    for k in 0..a.len()
        invariant
            a@.len() == b@.len(),
            forall|i: int| 0 <= i < k ==> a@[i] == b@[i],
    {
        if a[k] != b[k] {
            return false;
        }
    }
    proof {
        assert(a@ =~= b@);
    }
    true
}

/// Interpolate polynomial from evaluations on given domain, assuming degree at most deg_bound.
/// This uses a straightforward O(n^3) Gaussian elimination — fine for tiny n.
///
/// Returns the `deg_bound + 1` coefficients of a polynomial whose evaluation on the domain is
/// `values`, and `None` exactly when no such polynomial exists, when the lengths differ, or
/// when `deg_bound + 1` exceeds the domain size.
///
/// Where the domain does not single the polynomial out (repeated points), the elimination
/// gives no pivot to a power `X^j` that agrees on the domain with a combination of lower
/// powers, and its coefficient is zero; with the fit, this fixes the coefficients returned
/// (`law_interpolation_determined`).
pub fn interpolate_poly(values: &[F], domain: &Domain, deg_bound: usize) -> (res: Option<Vec<F>>)
    ensures
        res is Some <==> is_codeword(values@, domain.points@, deg_bound as nat),
        res matches Some(c) ==> c@.len() == deg_bound + 1 && evaluates_to(
            c@,
            domain.points@,
            values@,
        ),
        res matches Some(c) ==> forall|i: int| 0 <= i < c@.len() ==> 0 <= (#[trigger] c@[i]).val() < modulus(),
        res matches Some(c) ==> forall|j: nat, a: Seq<F>|
            j <= deg_bound && #[trigger] power_dependent(domain.points@, j, a) ==> c@[j as int].val()
                == 0,
{
    let n = domain.len();
    if values.len() != n {
        return None;
    }
    if deg_bound >= n {
        // deg_bound + 1 > n: under-determined, multiple polynomials; in the lab we avoid this case.
        return None;
    }
    let m = deg_bound + 1;

    // Build Vandermonde matrix V[i][j] = α_i^j for i in [0..n), j in [0..deg_bound]
    let mut mat: Vec<Vec<F>> = Vec::new();
    for i in 0..n
        invariant
            n == domain.points@.len(),
            mat@.len() == i,
            forall|k: int| 0 <= k < i ==> (#[trigger] mat@[k])@.len() == m,
            forall|k: int, j: int|
                0 <= k < i && 0 <= j < m ==> (#[trigger] mat@[k]@[j]).val() == pow(
                    domain.points@[k].val(),
                    j as nat,
                ) % modulus(),
    {
        let x = domain.points[i];
        let mut power = F::from(1);
        let mut mrow: Vec<F> = Vec::new();
        proof {
            lemma_pow0(x.val());
        }
        for j in 0..m
            invariant
                mrow@.len() == j,
                power.val() == pow(x.val(), j as nat) % modulus(),
                forall|l: int| 0 <= l < j ==> (#[trigger] mrow@[l]).val() == pow(x.val(), l as nat) % modulus(),
        {
            mrow.push(power);
            proof {
                lemma_pow_next_mod(x.val(), j as nat, power.val());
            }
            power = power * x;
        }
        mat.push(mrow);
    }

    // Right-hand side is the 'values' vector.
    let mut rhs = vstd::slice::slice_to_vec(values);
    let ghost mat0 = mat@;
    let ghost rhs0 = rhs@;

    // Solve V * coeffs = values via Gaussian elimination over F, then back substitution.
    let (rank, piv) = reduce_to_echelon(&mut mat, &mut rhs, m);
    let coeffs = back_substitute(&mat, &rhs, m, rank, piv);

    // Quick consistency check: re-evaluate and compare.
    let check_vals = eval_poly(&coeffs, domain);
    let ok = same_values(&check_vals, values);
    proof {
        if is_codeword(values@, domain.points@, deg_bound as nat) {
            let cs = choose|c: Seq<F>| c.len() == deg_bound + 1 && #[trigger] fits(
                c,
                domain.points@,
                vals(values@),
            );
            // cs solves the Vandermonde system, hence the reduced one
            assert forall|i: int| 0 <= i < mat0.len() implies #[trigger] row_holds(
                mat0[i]@,
                rhs0[i],
                cs,
                m as int,
            ) by {
                lemma_vandermonde_row(mat0[i]@, cs, domain.points@[i].val(), m as nat);
                assert(vals(values@)[i] == poly_eval(cs, domain.points@[i].val()));
                lemma_mod_twice(poly_sum(cs, domain.points@[i].val(), m as nat), 97);
            }
            assert(solves(mat0, rhs0, cs, m as int));
            assert(solves(mat@, rhs@, cs, m as int));
            lemma_echelon_solution(mat@, rhs@, piv@, rank as int, m as int, coeffs@, cs);
            assert(solves(mat0, rhs0, coeffs@, m as int));
            // so the computed coefficients reproduce the values
            assert forall|k: int| 0 <= k < n implies check_vals@[k] == values@[k] by {
                let x = domain.points@[k].val();
                assert(row_holds(mat0[k]@, rhs0[k], coeffs@, m as int));
                lemma_vandermonde_row(mat0[k]@, coeffs@, x, m as nat);
                assert(vals(values@)[k] == poly_eval(cs, x));
                assert(vals(check_vals@)[k] == poly_eval(coeffs@, x));
                assert(vals(values@)[k] == values@[k].val());
                assert(vals(check_vals@)[k] == check_vals@[k].val());
                lemma_mod_twice(poly_sum(cs, x, m as nat), 97);
                lemma_eq_iff_val(check_vals@[k], values@[k]);
            }
            assert(check_vals@ =~= values@);
        }
        if ok {
            assert(vals(check_vals@) =~= vals(values@));
            assert(fits(coeffs@, domain.points@, vals(values@)));
        }
        assert forall|j: nat, a: Seq<F>|
            j <= deg_bound && #[trigger] power_dependent(domain.points@, j, a) implies coeffs@[j as int].val()
                == 0 by {
            assert forall|i: int| 0 <= i < mat0.len() implies #[trigger] row_dependent(
                mat0[i]@,
                j as int,
                a,
            ) by {
                let x = domain.points@[i].val();
                lemma_vandermonde_row(mat0[i]@, a, x, j);
                assert(mat0[i]@[j as int].val() == pow(x, j) % modulus());
                lemma_mod_twice(pow(x, j), 97);
                assert(cong(pow(x, j), poly_sum(a, x, j)));
            }
            assert(column_dependent(mat0, j as int, a));
            if pivot_in(piv@, 0, rank as int, j as int) {
                let k = choose|k: int| 0 <= k < rank && piv@[k] == j as int;
                assert(!column_dependent(mat0, piv@[k], a));
            }
        }
    }
    if ok {
        Some(coeffs)
    } else {
        None
    }
}

/// Check if a vector is a valid RS codeword for some polynomial of degree at most deg_bound.
pub fn is_low_degree(values: &[F], domain: &Domain, deg_bound: usize) -> (r: bool)
    ensures
        r == is_codeword(values@, domain.points@, deg_bound as nat),
{
    interpolate_poly(values, domain, deg_bound).is_some()
}


/// Sums of congruent coefficients are congruent.
pub(crate) proof fn lemma_poly_sum_congruent(c: Seq<F>, d: Seq<int>, y: int, k: nat)
    requires
        forall|t: int| 0 <= t < k ==> cong(#[trigger] c[t].val(), d[t]),
    ensures
        cong(poly_sum(c, y, k), int_poly_sum(d, y, k)),
    decreases k,
{
    if k > 0 {
        let j = k - 1;
        lemma_poly_sum_congruent(c, d, y, (k - 1) as nat);
        let pw = pow(y, j as nat);
        assert(cong(c[j].val(), d[j]));
        lemma_cong_mul(c[j].val(), d[j], pw);
        lemma_cong_add(poly_sum(c, y, j as nat), int_poly_sum(d, y, j as nat), c[j].val() * pw, d[j] * pw);
    }
}

/// Padding coefficients with zeros does not change the polynomial's sums.
proof fn lemma_poly_sum_padded(c: Seq<F>, pad: Seq<F>, x: int, k: nat)
    requires
        forall|i: int| 0 <= i < pad.len() ==> (#[trigger] pad[i]).val() == 0,
        k <= c.len() + pad.len(),
    ensures
        poly_sum(c + pad, x, k) == poly_sum(c, x, if k <= c.len() { k } else { c.len() }),
    decreases k,
{
    if k > 0 {
        lemma_poly_sum_padded(c, pad, x, (k - 1) as nat);
        let cp = c + pad;
        if k > c.len() {
            assert(cp[k - 1] == pad[k - 1 - c.len()]);
            assert(cp[k - 1].val() == 0);
            assert(cp[k - 1].val() * pow(x, (k - 1) as nat) == 0);
            assert(poly_sum(cp, x, k) == poly_sum(cp, x, (k - 1) as nat));
        } else {
            assert(cp[k - 1] == c[k - 1]);
            assert(poly_sum(cp, x, k) == poly_sum(cp, x, (k - 1) as nat) + c[k - 1].val() * pow(x, (k - 1) as nat));
        }
    }
}

/// Every evaluation of a polynomial with at most `deg_bound + 1` coefficients is a codeword,
/// when `deg_bound + 1` does not exceed the domain size.
pub proof fn law_evaluations_are_codewords(
    c: Seq<F>,
    domain: Seq<F>,
    values: Seq<F>,
    deg_bound: nat,
)
    requires
        evaluates_to(c, domain, values),
        c.len() <= deg_bound + 1,
        deg_bound < domain.len(),
    ensures
        is_codeword(values, domain, deg_bound),
{
    let pad = Seq::new((deg_bound + 1 - c.len()) as nat, |i: int| crate::field::from_int(0));
    let cp = c + pad;
    assert forall|k: int| 0 <= k < domain.len() implies #[trigger] vals(values)[k] == poly_eval(
        cp,
        domain[k].val(),
    ) by {
        lemma_poly_sum_padded(c, pad, domain[k].val(), cp.len());
        assert(vals(values)[k] == poly_eval(c, domain[k].val()));
    }
    assert(fits(cp, domain, vals(values)));
}


/// The points of the domain are pairwise distinct in the field.
pub open spec fn distinct_points(domain: Seq<F>) -> bool {
    forall|i: int, j: int|
        0 <= i < j < domain.len() ==> !cong(#[trigger] domain[i].val(), #[trigger] domain[j].val())
}

/// The standard domain `0, ..., n - 1` has distinct points as long as `n <= P`.
pub proof fn lemma_standard_domain_distinct(points: Seq<F>, n: nat)
    requires
        standard_domain(points, n),
        n <= modulus(),
    ensures
        distinct_points(points),
{
    assert forall|i: int, j: int| 0 <= i < j < points.len() implies !cong(
        #[trigger] points[i].val(),
        #[trigger] points[j].val(),
    ) by {
        assert((i as u32) as int == i && (j as u32) as int == j);
        lemma_mod_twice(i, 97);
        lemma_mod_twice(j, 97);
        lemma_small_mod(i as nat, 97);
        lemma_small_mod(j as nat, 97);
    }
}

/// The coefficientwise difference of two polynomials has the difference of their sums.
proof fn lemma_difference_sum(c1: Seq<F>, c2: Seq<F>, d: Seq<int>, x: int, k: nat)
    requires
        k <= c1.len(),
        k <= c2.len(),
        k <= d.len(),
        forall|i: int| 0 <= i < k ==> #[trigger] d[i] == c1[i].val() - c2[i].val(),
    ensures
        int_poly_sum(d, x, k) == poly_sum(c1, x, k) - poly_sum(c2, x, k),
    decreases k,
{
    if k > 0 {
        lemma_difference_sum(c1, c2, d, x, (k - 1) as nat);
        let j = k - 1;
        let pw = pow(x, j as nat);
        assert(d[j] * pw == c1[j].val() * pw - c2[j].val() * pw) by (nonlinear_arith)
            requires d[j] == c1[j].val() - c2[j].val();
    }
}

/// Uniqueness of interpolation: on a domain of pairwise distinct points, two polynomials with
/// the same number of coefficients, at most the domain size, that take the same values on the
/// domain have congruent coefficients.
pub proof fn law_interpolation_unique(c1: Seq<F>, c2: Seq<F>, domain: Seq<F>, v: Seq<int>)
    requires
        distinct_points(domain),
        c1.len() == c2.len(),
        c1.len() <= domain.len(),
        fits(c1, domain, v),
        fits(c2, domain, v),
    ensures
        forall|i: int| 0 <= i < c1.len() ==> cong(#[trigger] c1[i].val(), c2[i].val()),
{
    let l = c1.len();
    let d = Seq::new(l, |i: int| c1[i].val() - c2[i].val());
    let pts = Seq::new(domain.len(), |k: int| domain[k].val());
    assert forall|k: int| 0 <= k < pts.len() implies cong(int_poly_sum(d, #[trigger] pts[k], d.len()), 0) by {
        let x = domain[k].val();
        lemma_difference_sum(c1, c2, d, x, l);
        assert(v[k] == poly_eval(c1, x) && v[k] == poly_eval(c2, x));
        lemma_cong_sub(poly_sum(c1, x, l), poly_sum(c2, x, l), poly_sum(c2, x, l), poly_sum(c2, x, l));
    }
    assert forall|i: int, j: int| 0 <= i < j < pts.len() implies !cong(#[trigger] pts[i], #[trigger] pts[j]) by {
        assert(!cong(domain[i].val(), domain[j].val()));
    }
    lemma_vanishing_polynomial(d, pts);
    assert forall|i: int| 0 <= i < l implies cong(#[trigger] c1[i].val(), c2[i].val()) by {
        assert(cong(d[i], 0));
        crate::field::lemma_cong_add(d[i], 0, c2[i].val(), c2[i].val());
    }
}

/// Terms whose coefficients vanish in the field add nothing to the sum, in the field.
pub(crate) proof fn lemma_tail_vanishes(d: Seq<int>, x: int, lo: nat, hi: nat)
    requires
        lo <= hi,
        forall|i: int| lo <= i < hi ==> cong(#[trigger] d[i], 0),
    ensures
        cong(int_poly_sum(d, x, hi), int_poly_sum(d, x, lo)),
    decreases hi - lo,
{
    if hi > lo {
        let j = (hi - 1) as nat;
        lemma_tail_vanishes(d, x, lo, j);
        let pw = pow(x, j);
        assert(cong(d[j as int], 0));
        lemma_cong_mul(d[j as int], 0, pw);
        assert(0 * pw == 0);
        lemma_cong_add(int_poly_sum(d, x, j), int_poly_sum(d, x, lo), d[j as int] * pw, 0);
    }
}

/// From `s + dj * p ≡ 0`, `dj * y ≡ 1` and `a ≡ -y * s` follows `p ≡ a`.
proof fn lemma_solve_for_power(s: int, dj: int, p: int, y: int, a: int)
    requires
        cong(s + dj * p, 0),
        cong(dj * y, 1),
        cong(a, (-y) * s),
    ensures
        cong(p, a),
{
    lemma_cong_mul(s + dj * p, 0, -y);
    assert((s + dj * p) * (-y) == (-y) * s - (dj * y) * p) by (nonlinear_arith);
    assert(0 * (-y) == 0);
    lemma_cong_mul(dj * y, 1, p);
    assert(1 * p == p);
    // (-y) * s == (s + dj * p) * (-y) + (dj * y) * p ≡ 0 + p
    lemma_cong_add((s + dj * p) * (-y), 0, (dj * y) * p, p);
}

/// Two fits of the same values that vanish on every dependent power have congruent
/// coefficients from index `k` on (`d` is their difference).
proof fn lemma_fits_agree_from(c1: Seq<F>, c2: Seq<F>, domain: Seq<F>, d: Seq<int>, k: nat)
    requires
        c1.len() == c2.len(),
        d.len() == c1.len(),
        forall|i: int| 0 <= i < d.len() ==> #[trigger] d[i] == c1[i].val() - c2[i].val(),
        k <= c1.len(),
        forall|i: int|
            0 <= i < domain.len() ==> cong(int_poly_sum(d, (#[trigger] domain[i]).val(), d.len()), 0),
        forall|j: nat, a: Seq<F>|
            j < c1.len() && #[trigger] power_dependent(domain, j, a) ==> c1[j as int].val() == 0
                && c2[j as int].val() == 0,
    ensures
        forall|i: int| k <= i < c1.len() ==> cong(#[trigger] d[i], 0),
    decreases c1.len() - k,
{
    if k < c1.len() {
        lemma_fits_agree_from(c1, c2, domain, d, k + 1);
        let j = k;
        let l = d.len();
        if !cong(d[j as int], 0) {
            // Then X^j agrees on the domain with `-(d[j])^-1 * Σ_{i<j} d[i] X^i`.
            let y = lemma_inverse_exists(d[j as int]);
            let a = Seq::new(j, |t: int| from_int(-d[t] * y));
            let e = Seq::new(j, |t: int| (-y) * d[t]);
            let z = Seq::new(j, |t: int| 0int);
            assert forall|t: int| 0 <= t < j implies cong(#[trigger] a[t].val(), e[t]) by {
                assert(-d[t] * y == (-y) * d[t]) by (nonlinear_arith);
                lemma_cong_mod(-d[t] * y);
            }
            assert forall|i: int| 0 <= i < domain.len() implies cong(
                pow((#[trigger] domain[i]).val(), j),
                poly_sum(a, domain[i].val(), j),
            ) by {
                let x = domain[i].val();
                lemma_tail_vanishes(d, x, j + 1, l);
                assert(int_poly_sum(d, x, j + 1) == int_poly_sum(d, x, j) + d[j as int] * pow(x, j));
                lemma_int_poly_sum_linear(z, d, e, -y, x, j);
                lemma_int_poly_sum_linear(z, z, z, 1, x, j);
                lemma_poly_sum_congruent(a, e, x, j);
                lemma_solve_for_power(
                    int_poly_sum(d, x, j),
                    d[j as int],
                    pow(x, j),
                    y,
                    poly_sum(a, x, j),
                );
            }
            assert(power_dependent(domain, j, a));
        }
    }
}

/// On any domain, repeated points included, the fit together with the zero coefficients of
/// dependent powers (those that `interpolate_poly` promises) determines the coefficients:
/// two coefficient vectors of the same length that take the same values on the domain, and
/// whose coefficient of every power `X^j` agreeing on the domain with a combination of lower
/// powers is zero, have congruent coefficients.
pub proof fn law_interpolation_determined(c1: Seq<F>, c2: Seq<F>, domain: Seq<F>, v: Seq<int>)
    requires
        c1.len() == c2.len(),
        fits(c1, domain, v),
        fits(c2, domain, v),
        forall|j: nat, a: Seq<F>|
            j < c1.len() && #[trigger] power_dependent(domain, j, a) ==> c1[j as int].val() == 0,
        forall|j: nat, a: Seq<F>|
            j < c2.len() && #[trigger] power_dependent(domain, j, a) ==> c2[j as int].val() == 0,
    ensures
        forall|i: int| 0 <= i < c1.len() ==> cong(#[trigger] c1[i].val(), c2[i].val()),
{
    let l = c1.len();
    let d = Seq::new(l, |i: int| c1[i].val() - c2[i].val());
    assert forall|i: int| 0 <= i < domain.len() implies cong(
        int_poly_sum(d, (#[trigger] domain[i]).val(), d.len()),
        0,
    ) by {
        let x = domain[i].val();
        lemma_difference_sum(c1, c2, d, x, l);
        assert(v[i] == poly_eval(c1, x) && v[i] == poly_eval(c2, x));
        lemma_cong_sub(poly_sum(c1, x, l), poly_sum(c2, x, l), poly_sum(c2, x, l), poly_sum(c2, x, l));
    }
    lemma_fits_agree_from(c1, c2, domain, d, 0);
    assert forall|i: int| 0 <= i < l implies cong(#[trigger] c1[i].val(), c2[i].val()) by {
        assert(cong(d[i], 0));
        lemma_cong_add(d[i], 0, c2[i].val(), c2[i].val());
    }
}

/// Interpolation recovers the polynomial: on a domain of pairwise distinct points, if `c`
/// (reduced, at most as many coefficients as points) evaluates to `values`, then any reduced
/// coefficients of the same length that evaluate to `values`, such as the ones that
/// `interpolate_poly` returns, are `c` itself.
pub proof fn law_interpolation_roundtrip(c: Seq<F>, recovered: Seq<F>, domain: Seq<F>, values: Seq<F>)
    requires
        distinct_points(domain),
        c.len() <= domain.len(),
        recovered.len() == c.len(),
        evaluates_to(c, domain, values),
        evaluates_to(recovered, domain, values),
        forall|i: int| 0 <= i < c.len() ==> 0 <= (#[trigger] c[i]).val() < modulus(),
        forall|i: int| 0 <= i < recovered.len() ==> 0 <= (#[trigger] recovered[i]).val() < modulus(),
    ensures
        recovered == c,
{
    law_interpolation_unique(c, recovered, domain, vals(values));
    assert forall|i: int| 0 <= i < c.len() implies recovered[i] == c[i] by {
        assert(cong(c[i].val(), recovered[i].val()));
        lemma_small_mod(c[i].val() as nat, 97);
        lemma_small_mod(recovered[i].val() as nat, 97);
        lemma_eq_iff_val(recovered[i], c[i]);
    }
    assert(recovered =~= c);
}

} // verus!
