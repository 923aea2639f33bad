//! A polynomial over F_p with `L` coefficients that vanishes at `L` distinct points is zero:
//! the fact behind the uniqueness of Reed–Solomon interpolation.
//!
//! Polynomials here are integer coefficient sequences read modulo the prime.

use vstd::prelude::*;
use vstd::arithmetic::power::*;
use crate::field::{modulus, cong, lemma_cong_add, lemma_cong_sub, lemma_cong_mul, lemma_no_zero_divisors};

verus! {

/// `Σ_{i < k} p[i] * x^i` over the integers.
pub open spec fn int_poly_sum(p: Seq<int>, x: int, k: nat) -> int
    decreases k,
{
    if k == 0 {
        0
    } else {
        int_poly_sum(p, x, (k - 1) as nat) + p[k - 1] * pow(x, (k - 1) as nat)
    }
}

/// Coefficient `i` of the quotient of `p` by `X - a` (synthetic division):
/// `q[i] = p[i + 1] + a * q[i + 1]`, and `q[i] = 0` from `i = p.len() - 1` on.
pub open spec fn quotient_coeff(p: Seq<int>, a: int, i: int) -> int
    decreases p.len() - i,
{
    if 0 <= i && i + 1 < p.len() {
        p[i + 1] + a * quotient_coeff(p, a, i + 1)
    } else {
        0
    }
}

/// The quotient coefficients `q[0], ..., q[p.len() - 1]` (the last one is zero).
pub open spec fn quotient_seq(p: Seq<int>, a: int) -> Seq<int> {
    Seq::new(p.len(), |i: int| quotient_coeff(p, a, i))
}

/// The sum only reads the first `k` coefficients.
proof fn lemma_sum_prefix(p1: Seq<int>, p2: Seq<int>, x: int, k: nat)
    requires
        forall|i: int| 0 <= i < k ==> p1[i] == p2[i],
    ensures
        int_poly_sum(p1, x, k) == int_poly_sum(p2, x, k),
    decreases k,
{
    if k > 0 {
        lemma_sum_prefix(p1, p2, x, (k - 1) as nat);
    }
}

proof fn lemma_division_regroup(
    r: int,
    x: int,
    a: int,
    sq0: int,
    sq1: int,
    qa: int,
    qb: int,
    pw0: int,
    pw1: int,
)
    requires
        pw1 == x * pw0,
    ensures
        (r + x * sq0 - a * sq1) + (qa - a * qb) * pw1 == r + x * (sq0 + qa * pw0) - a * (sq1 + qb
            * pw1),
{
    assert((qa - a * qb) * pw1 == qa * pw1 - a * (qb * pw1)) by (nonlinear_arith);
    assert(x * (sq0 + qa * pw0) == x * sq0 + qa * (x * pw0)) by (nonlinear_arith);
    assert(a * (sq1 + qb * pw1) == a * sq1 + a * (qb * pw1)) by (nonlinear_arith);
}

/// Division by `X - a` on the prefix of length `k`:
/// `p(x)|_k = r + x * q(x)|_{k-1} - a * q(x)|_k` with `r = p[0] + a * q[0]`.
proof fn lemma_division_step(p: Seq<int>, a: int, x: int, k: nat)
    requires
        1 <= k <= p.len(),
    ensures
        int_poly_sum(p, x, k) == (p[0] + a * quotient_coeff(p, a, 0)) + x * int_poly_sum(
            quotient_seq(p, a),
            x,
            (k - 1) as nat,
        ) - a * int_poly_sum(quotient_seq(p, a), x, k),
    decreases k,
{
    let q = quotient_seq(p, a);
    if k == 1 {
        lemma_pow0(x);
        assert(int_poly_sum(p, x, 0) == 0);
        assert(int_poly_sum(q, x, 0) == 0);
        assert(int_poly_sum(p, x, 1) == p[0] * 1);
        assert(int_poly_sum(q, x, 1) == q[0] * 1);
        assert(q[0] == quotient_coeff(p, a, 0));
    } else {
        let j = (k - 1) as nat;
        lemma_division_step(p, a, x, j);
        // p[j] = q[j - 1] - a * q[j]
        assert(q[j - 1] == quotient_coeff(p, a, j - 1));
        assert(quotient_coeff(p, a, j - 1) == p[j as int] + a * quotient_coeff(p, a, j as int));
        assert(q[j as int] == quotient_coeff(p, a, j as int));
        let (qa, qb) = (q[j - 1], q[j as int]);
        let (sq0, sq1) = (int_poly_sum(q, x, (j - 1) as nat), int_poly_sum(q, x, j));
        assert(sq1 == sq0 + qa * pow(x, (j - 1) as nat));
        assert(int_poly_sum(q, x, k) == sq1 + qb * pow(x, j));
        lemma_pow_adds(x, (j - 1) as nat, 1);
        lemma_pow1(x);
        assert(pow(x, j) == x * pow(x, (j - 1) as nat)) by (nonlinear_arith)
            requires pow(x, j) == pow(x, (j - 1) as nat) * x;
        let (pw0, pw1) = (pow(x, (j - 1) as nat), pow(x, j));
        let r = p[0] + a * quotient_coeff(p, a, 0);
        assert(int_poly_sum(p, x, k) == int_poly_sum(p, x, j) + p[j as int] * pw1);
        assert(p[j as int] == qa - a * qb);
        lemma_division_regroup(r, x, a, sq0, sq1, qa, qb, pw0, pw1);
    }
}

/// Full division: `p(x) = p(a) + (x - a) * q(x)`, with `p(a) = p[0] + a * q[0]`.
proof fn lemma_division(p: Seq<int>, a: int, x: int)
    requires
        p.len() >= 1,
    ensures
        int_poly_sum(p, x, p.len()) == int_poly_sum(p, a, p.len()) + (x - a) * int_poly_sum(
            quotient_seq(p, a),
            x,
            (p.len() - 1) as nat,
        ),
        int_poly_sum(p, a, p.len()) == p[0] + a * quotient_coeff(p, a, 0),
{
    let q = quotient_seq(p, a);
    let l = p.len();
    let l1 = (l - 1) as nat;
    assert(q[l - 1] == quotient_coeff(p, a, l - 1));
    assert(quotient_coeff(p, a, l - 1) == 0);
    assert forall|y: int| int_poly_sum(q, y, l) == int_poly_sum(q, y, l1) by {
        assert(q[l - 1] * pow(y, l1) == 0);
    }
    lemma_division_step(p, a, x, l);
    lemma_division_step(p, a, a, l);
    let r = p[0] + a * quotient_coeff(p, a, 0);
    let (sx, sa) = (int_poly_sum(q, x, l1), int_poly_sum(q, a, l1));
    assert(int_poly_sum(p, a, l) == r + a * sa - a * sa);
    assert(r + x * sx - a * sx == r + (x - a) * sx) by (nonlinear_arith);
}

/// A polynomial with `L` coefficients vanishing (modulo the prime) at `L` or more points
/// that are pairwise distinct modulo the prime has all its coefficients divisible by the prime.
pub proof fn lemma_vanishing_polynomial(p: Seq<int>, pts: Seq<int>)
    requires
        p.len() <= pts.len(),
        forall|i: int, j: int| 0 <= i < j < pts.len() ==> !cong(#[trigger] pts[i], #[trigger] pts[j]),
        forall|k: int| 0 <= k < pts.len() ==> cong(int_poly_sum(p, #[trigger] pts[k], p.len()), 0),
    ensures
        forall|i: int| 0 <= i < p.len() ==> cong(#[trigger] p[i], 0),
    decreases p.len(),
{
    if p.len() > 0 {
        let l = p.len();
        let l1 = (l - 1) as nat;
        let a = pts[0];
        let q = quotient_seq(p, a);
        let qt = q.take(l1 as int);
        let rest = pts.drop_first();
        let r = p[0] + a * quotient_coeff(p, a, 0);
        lemma_division(p, a, a);
        assert(cong(int_poly_sum(p, pts[0], l), 0));
        assert(cong(r, 0));
        // every other point is a root of the quotient
        assert forall|k: int| 0 <= k < rest.len() implies cong(
            int_poly_sum(qt, #[trigger] rest[k], qt.len()),
            0,
        ) by {
            let b = rest[k];
            assert(b == pts[k + 1]);
            lemma_division(p, a, b);
            lemma_sum_prefix(qt, q, b, l1);
            let qb = int_poly_sum(q, b, l1);
            assert(cong(int_poly_sum(p, b, l), 0));
            // (b - a) * q(b) ≡ 0 and b - a ≢ 0
            lemma_cong_sub(int_poly_sum(p, b, l), 0, r, 0);
            assert(int_poly_sum(p, b, l) - r == (b - a) * qb);
            assert(!cong(pts[0], pts[k + 1]));
            if !cong(b - a, 0) && !cong(qb, 0) {
                lemma_no_zero_divisors(b - a, qb);
            }
            if cong(b - a, 0) {
                lemma_cong_add(b - a, 0, a, a);
            }
        }
        assert forall|i: int, j: int| 0 <= i < j < rest.len() implies !cong(
            #[trigger] rest[i],
            #[trigger] rest[j],
        ) by {
            assert(rest[i] == pts[i + 1] && rest[j] == pts[j + 1]);
            assert(!cong(pts[i + 1], pts[j + 1]));
        }
        lemma_vanishing_polynomial(qt, rest);
        // recover the coefficients of p from those of q
        assert forall|i: int| 0 <= i < l implies cong(#[trigger] p[i], 0) by {
            if i == 0 {
                if l >= 2 {
                    assert(cong(qt[0], 0));
                    assert(qt[0] == quotient_coeff(p, a, 0));
                } else {
                    assert(quotient_coeff(p, a, 0) == 0);
                }
                lemma_cong_mul(quotient_coeff(p, a, 0), 0, a);
                lemma_cong_sub(r, 0, a * quotient_coeff(p, a, 0), a * 0);
            } else {
                assert(quotient_coeff(p, a, i - 1) == p[i] + a * quotient_coeff(p, a, i));
                assert(qt[i - 1] == quotient_coeff(p, a, i - 1));
                assert(cong(qt[i - 1], 0));
                if i < l - 1 {
                    assert(qt[i] == quotient_coeff(p, a, i));
                    assert(cong(qt[i], 0));
                } else {
                    assert(quotient_coeff(p, a, i) == 0);
                }
                lemma_cong_mul(quotient_coeff(p, a, i), 0, a);
                lemma_cong_sub(quotient_coeff(p, a, i - 1), 0, a * quotient_coeff(p, a, i), a * 0);
            }
        }
    }
}

/// The sum is linear in the coefficients.
pub(crate) proof fn lemma_int_poly_sum_linear(a: Seq<int>, b: Seq<int>, c: Seq<int>, s: int, y: int, k: nat)
    requires
        forall|t: int| 0 <= t < k ==> #[trigger] c[t] == a[t] + s * b[t],
    ensures
        int_poly_sum(c, y, k) == int_poly_sum(a, y, k) + s * int_poly_sum(b, y, k),
    decreases k,
{
    if k > 0 {
        let j = k - 1;
        lemma_int_poly_sum_linear(a, b, c, s, y, (k - 1) as nat);
        let (sa, sb, pw) = (int_poly_sum(a, y, j as nat), int_poly_sum(b, y, j as nat), pow(y, j as nat));
        assert(sa + s * sb + (a[j] + s * b[j]) * pw == (sa + a[j] * pw) + s * (sb + b[j] * pw))
            by (nonlinear_arith);
    }
}


} // verus!
