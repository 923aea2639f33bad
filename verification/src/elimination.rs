//! Gaussian elimination over F for the small linear systems behind interpolation.
//!
//! A system is a matrix of rows (each a `Vec<F>` of `m` entries) with a right-hand side;
//! a coefficient vector `c` solves it when every row's dot product with `c` is congruent
//! to the row's right-hand side modulo the prime.

use vstd::prelude::*;
use vstd::arithmetic::div_mod::*;
use crate::field::{
    F, modulus, lemma_eq_iff_val, cong, lemma_cong_add, lemma_cong_sub, lemma_cong_mul, lemma_cong_mod,
};

verus! {

broadcast use crate::field::lemma_from_int_val;

/// `Σ_{lo <= j < hi} row[j] * c[j]` over the integers.
pub open spec fn dot_range(row: Seq<F>, c: Seq<F>, lo: int, hi: int) -> int
    decreases hi - lo,
{
    if hi <= lo {
        0
    } else {
        dot_range(row, c, lo, hi - 1) + row[hi - 1].val() * c[hi - 1].val()
    }
}

/// The equation `row · c = b` holds in the field (on the first `m` columns).
pub open spec fn row_holds(row: Seq<F>, b: F, c: Seq<F>, m: int) -> bool {
    cong(dot_range(row, c, 0, m), b.val())
}

/// `c` solves every equation of the system `(mat, rhs)`.
pub open spec fn solves(mat: Seq<Vec<F>>, rhs: Seq<F>, c: Seq<F>, m: int) -> bool {
    forall|i: int| 0 <= i < mat.len() ==> #[trigger] row_holds(mat[i]@, rhs[i], c, m)
}

/// Two systems have the same solutions among vectors of length `m`.
pub open spec fn equivalent(
    mat1: Seq<Vec<F>>,
    rhs1: Seq<F>,
    mat2: Seq<Vec<F>>,
    rhs2: Seq<F>,
    m: int,
) -> bool {
    forall|c: Seq<F>|
        #![trigger solves(mat1, rhs1, c, m)]
        #![trigger solves(mat2, rhs2, c, m)]
        c.len() == m ==> (solves(mat1, rhs1, c, m) <==> solves(mat2, rhs2, c, m))
}

/// `n` equations with `m` columns each.
pub open spec fn well_shaped(mat: Seq<Vec<F>>, rhs: Seq<F>, n: int, m: int) -> bool {
    &&& mat.len() == n
    &&& rhs.len() == n
    &&& forall|i: int| 0 <= i < n ==> (#[trigger] mat[i])@.len() == m
}

/// Row `i` of `mat` vanishes on columns `[0, hi)`.
pub open spec fn zero_prefix(mat: Seq<Vec<F>>, i: int, hi: int) -> bool {
    forall|j: int| 0 <= j < hi ==> (#[trigger] mat[i]@[j]).val() == 0
}

/// Row echelon form on the first `rank` rows: row `k` has a leading 1 in column `piv[k]`,
/// the pivot columns increase and lie below `col`, and every later row vanishes on the
/// first `col` columns.
pub open spec fn echelon(mat: Seq<Vec<F>>, piv: Seq<int>, rank: int, col: int, n: int) -> bool {
    &&& piv.len() == rank
    &&& forall|k: int| 0 <= k < rank ==> 0 <= #[trigger] piv[k] < col
    &&& forall|k: int| 0 <= k < rank ==> (#[trigger] mat[k]@[piv[k]]).val() == 1
    &&& forall|k: int| 0 <= k < rank ==> #[trigger] zero_prefix(mat, k, piv[k])
    &&& forall|k1: int, k2: int| 0 <= k1 < k2 < rank ==> #[trigger] piv[k1] < #[trigger] piv[k2]
    &&& forall|i: int| rank <= i < n ==> #[trigger] zero_prefix(mat, i, col)
}

/// In `row`, entry `j` is the combination of the entries before it with weights `a`.
pub open spec fn row_dependent(row: Seq<F>, j: int, a: Seq<F>) -> bool {
    cong(row[j].val(), dot_range(row, a, 0, j))
}

/// Column `j` of `mat` is the combination of the columns before it with weights `a`.
pub open spec fn column_dependent(mat: Seq<Vec<F>>, j: int, a: Seq<F>) -> bool {
    forall|i: int| 0 <= i < mat.len() ==> #[trigger] row_dependent(mat[i]@, j, a)
}

/// Column `j` is the pivot column of one of the rows `lo..rank`.
pub open spec fn pivot_in(piv: Seq<int>, lo: int, rank: int, j: int) -> bool {
    exists|k: int| lo <= k < rank && piv[k] == j
}

proof fn lemma_regroup(al: int, be: int, da: int, db: int, aj: int, bj: int, cj: int)
    ensures
        (al * da + be * db) + (al * aj + be * bj) * cj == al * (da + aj * cj) + be * (db + bj * cj),
{
    assert((al * aj + be * bj) * cj == al * (aj * cj) + be * (bj * cj)) by (nonlinear_arith);
    assert(al * (da + aj * cj) == al * da + al * (aj * cj)) by (nonlinear_arith);
    assert(be * (db + bj * cj) == be * db + be * (bj * cj)) by (nonlinear_arith);
}

// ----- dot products -----

/// The dot product over `[lo, hi)` splits at any `mid` in between.
proof fn lemma_dot_split(row: Seq<F>, c: Seq<F>, lo: int, mid: int, hi: int)
    requires
        lo <= mid <= hi,
    ensures
        dot_range(row, c, lo, hi) == dot_range(row, c, lo, mid) + dot_range(row, c, mid, hi),
    decreases hi - mid,
{
    if hi > mid {
        lemma_dot_split(row, c, lo, mid, hi - 1);
    }
}

/// A row that vanishes on `[lo, hi)` has dot product zero there.
proof fn lemma_dot_zero(row: Seq<F>, c: Seq<F>, lo: int, hi: int)
    requires
        forall|j: int| lo <= j < hi ==> (#[trigger] row[j]).val() == 0,
    ensures
        dot_range(row, c, lo, hi) == 0,
    decreases hi - lo,
{
    if hi > lo {
        lemma_dot_zero(row, c, lo, hi - 1);
        assert(row[hi - 1].val() * c[hi - 1].val() == 0);
    }
}

/// The dot product only reads the entries of `c` where the row is nonzero.
proof fn lemma_dot_frame(row: Seq<F>, c1: Seq<F>, c2: Seq<F>, lo: int, hi: int)
    requires
        forall|j: int|
            lo <= j < hi ==> (#[trigger] row[j]).val() == 0 || c1[j].val() == c2[j].val(),
    ensures
        dot_range(row, c1, lo, hi) == dot_range(row, c2, lo, hi),
    decreases hi - lo,
{
    if hi > lo {
        lemma_dot_frame(row, c1, c2, lo, hi - 1);
        let j = hi - 1;
        if row[j].val() == 0 {
            assert(row[j].val() * c1[j].val() == 0 && row[j].val() * c2[j].val() == 0);
        }
    }
}

/// A row congruent entrywise to `al * a + be * b` has a dot product congruent to
/// `al * (a · c) + be * (b · c)`.
proof fn lemma_dot_lincomb(
    new: Seq<F>,
    a: Seq<F>,
    b: Seq<F>,
    c: Seq<F>,
    al: int,
    be: int,
    lo: int,
    hi: int,
)
    requires
        forall|j: int|
            lo <= j < hi ==> cong(
                (#[trigger] new[j]).val(),
                al * a[j].val() + be * b[j].val(),
            ),
    ensures
        cong(
            dot_range(new, c, lo, hi),
            al * dot_range(a, c, lo, hi) + be * dot_range(b, c, lo, hi),
        ),
    decreases hi - lo,
{
    if hi > lo {
        let j = hi - 1;
        lemma_dot_lincomb(new, a, b, c, al, be, lo, j);
        let (dn, da, db) = (dot_range(new, c, lo, j), dot_range(a, c, lo, j), dot_range(b, c, lo, j));
        let (nj, aj, bj, cj) = (new[j].val(), a[j].val(), b[j].val(), c[j].val());
        assert(cong(nj, al * aj + be * bj));
        lemma_cong_mul(nj, al * aj + be * bj, cj);
        lemma_cong_add(dn, al * da + be * db, nj * cj, (al * aj + be * bj) * cj);
        lemma_regroup(al, be, da, db, aj, bj, cj);
    }
}

/// Swapping two rows keeps every dependent column dependent.
proof fn lemma_swap_keeps_dependence(mat: Seq<Vec<F>>, a: int, b: int, j: int, c: Seq<F>)
    requires
        0 <= a < mat.len(),
        0 <= b < mat.len(),
        column_dependent(mat, j, c),
    ensures
        column_dependent(mat.update(a, mat[b]).update(b, mat[a]), j, c),
{
    let mat2 = mat.update(a, mat[b]).update(b, mat[a]);
    assert forall|i: int| 0 <= i < mat2.len() implies #[trigger] row_dependent(mat2[i]@, j, c) by {
        if i == b {
            assert(row_dependent(mat[a]@, j, c));
        } else if i == a {
            assert(row_dependent(mat[b]@, j, c));
        } else {
            assert(row_dependent(mat[i]@, j, c));
        }
    }
}

/// Replacing row `r` by a combination `al * row r + be * row p` (on the first `m` columns)
/// keeps every column below `m` that depended on the earlier ones dependent, with the same weights.
proof fn lemma_combination_keeps_dependence(
    mat: Seq<Vec<F>>,
    mat2: Seq<Vec<F>>,
    r: int,
    p: int,
    al: int,
    be: int,
    j: int,
    a: Seq<F>,
    m: int,
)
    requires
        0 <= r < mat.len(),
        0 <= p < mat.len(),
        mat2 == mat.update(r, mat2[r]),
        0 <= j < m,
        forall|l: int|
            0 <= l < m ==> cong(
                (#[trigger] mat2[r]@[l]).val(),
                al * mat[r]@[l].val() + be * mat[p]@[l].val(),
            ),
        column_dependent(mat, j, a),
    ensures
        column_dependent(mat2, j, a),
{
    assert forall|i: int| 0 <= i < mat2.len() implies #[trigger] row_dependent(mat2[i]@, j, a) by {
        if i == r {
            let (new, x, y) = (mat2[r]@, mat[r]@, mat[p]@);
            assert forall|l: int| 0 <= l < j implies cong(
                (#[trigger] new[l]).val(),
                al * x[l].val() + be * y[l].val(),
            ) by {
                assert(mat2[r]@[l] == new[l]);
            }
            lemma_dot_lincomb(new, x, y, a, al, be, 0, j);
            let (dx, dy) = (dot_range(x, a, 0, j), dot_range(y, a, 0, j));
            assert(row_dependent(mat[r]@, j, a));
            assert(row_dependent(mat[p]@, j, a));
            lemma_cong_mul(x[j].val(), dx, al);
            lemma_cong_mul(y[j].val(), dy, be);
            lemma_cong_add(al * x[j].val(), al * dx, be * y[j].val(), be * dy);
            assert(mat2[r]@[j] == new[j]);
        } else {
            assert(row_dependent(mat[i]@, j, a));
        }
    }
}

// ----- row operations preserve the solution set -----

/// `equivalent` is transitive.
proof fn lemma_equivalent_trans(
    mat1: Seq<Vec<F>>,
    rhs1: Seq<F>,
    mat2: Seq<Vec<F>>,
    rhs2: Seq<F>,
    mat3: Seq<Vec<F>>,
    rhs3: Seq<F>,
    m: int,
)
    requires
        equivalent(mat1, rhs1, mat2, rhs2, m),
        equivalent(mat2, rhs2, mat3, rhs3, m),
    ensures
        equivalent(mat1, rhs1, mat3, rhs3, m),
{
    assert forall|c: Seq<F>| c.len() == m implies (solves(mat1, rhs1, c, m) <==> solves(
        mat3,
        rhs3,
        c,
        m,
    )) by {
        assert(solves(mat1, rhs1, c, m) <==> solves(mat2, rhs2, c, m));
        assert(solves(mat2, rhs2, c, m) <==> solves(mat3, rhs3, c, m));
    }
}

/// Swapping two equations keeps the solutions.
proof fn lemma_swap_equivalent(mat: Seq<Vec<F>>, rhs: Seq<F>, a: int, b: int, m: int)
    requires
        0 <= a < mat.len(),
        0 <= b < mat.len(),
        rhs.len() == mat.len(),
    ensures
        equivalent(
            mat,
            rhs,
            mat.update(a, mat[b]).update(b, mat[a]),
            rhs.update(a, rhs[b]).update(b, rhs[a]),
            m,
        ),
{
    let mat2 = mat.update(a, mat[b]).update(b, mat[a]);
    let rhs2 = rhs.update(a, rhs[b]).update(b, rhs[a]);
    assert forall|c: Seq<F>| c.len() == m implies (solves(mat, rhs, c, m) <==> solves(
        mat2,
        rhs2,
        c,
        m,
    )) by {
        if solves(mat, rhs, c, m) {
            assert forall|i: int| 0 <= i < mat2.len() implies #[trigger] row_holds(
                mat2[i]@,
                rhs2[i],
                c,
                m,
            ) by {
                if i == b {
                    assert(row_holds(mat[a]@, rhs[a], c, m));
                } else if i == a {
                    assert(row_holds(mat[b]@, rhs[b], c, m));
                } else {
                    assert(row_holds(mat[i]@, rhs[i], c, m));
                }
            }
        }
        if solves(mat2, rhs2, c, m) {
            assert forall|i: int| 0 <= i < mat.len() implies #[trigger] row_holds(
                mat[i]@,
                rhs[i],
                c,
                m,
            ) by {
                if i == a {
                    assert(row_holds(mat2[b]@, rhs2[b], c, m));
                } else if i == b {
                    assert(row_holds(mat2[a]@, rhs2[a], c, m));
                } else {
                    assert(row_holds(mat2[i]@, rhs2[i], c, m));
                }
            }
        }
    }
}

/// Replacing equation `p` by `inv` times itself, where `inv` is invertible, keeps the solutions.
proof fn lemma_scale_equivalent(
    mat: Seq<Vec<F>>,
    rhs: Seq<F>,
    mat2: Seq<Vec<F>>,
    rhs2: Seq<F>,
    p: int,
    inv: int,
    a: int,
    m: int,
)
    requires
        0 <= p < mat.len(),
        rhs.len() == mat.len(),
        mat2 == mat.update(p, mat2[p]),
        rhs2 == rhs.update(p, rhs2[p]),
        cong(a * inv, 1),
        forall|j: int| 0 <= j < m ==> cong((#[trigger] mat2[p]@[j]).val(), inv * mat[p]@[j].val()),
        cong(rhs2[p].val(), inv * rhs[p].val()),
    ensures
        equivalent(mat, rhs, mat2, rhs2, m),
{
    assert forall|c: Seq<F>| c.len() == m implies (solves(mat, rhs, c, m) <==> solves(
        mat2,
        rhs2,
        c,
        m,
    )) by {
        let (old_row, new_row) = (mat[p]@, mat2[p]@);
        assert forall|j: int| 0 <= j < m implies cong(
            (#[trigger] new_row[j]).val(),
            inv * old_row[j].val() + 0 * old_row[j].val(),
        ) by {
            assert(mat2[p]@[j] == new_row[j]);
        }
        lemma_dot_lincomb(new_row, old_row, old_row, c, inv, 0, 0, m);
        let (dn, d) = (dot_range(new_row, c, 0, m), dot_range(old_row, c, 0, m));
        assert(inv * d + 0 * d == inv * d) by (nonlinear_arith);
        let (bn, b) = (rhs2[p].val(), rhs[p].val());
        // The scaled equation holds iff the original one does.
        assert(cong(dn, bn) <==> cong(d, b)) by {
            if cong(d, b) {
                lemma_cong_mul(d, b, inv);
            }
            if cong(dn, bn) {
                assert(cong(inv * d, inv * b));
                lemma_cong_mul(inv * d, inv * b, a);
                lemma_cong_mul(a * inv, 1, d);
                lemma_cong_mul(a * inv, 1, b);
                assert(a * (inv * d) == (a * inv) * d && a * (inv * b) == (a * inv) * b)
                    by (nonlinear_arith);
                assert(1 * d == d && 1 * b == b);
            }
        }
        assert(row_holds(new_row, rhs2[p], c, m) <==> row_holds(old_row, rhs[p], c, m));
        if solves(mat, rhs, c, m) {
            assert forall|i: int| 0 <= i < mat2.len() implies #[trigger] row_holds(
                mat2[i]@,
                rhs2[i],
                c,
                m,
            ) by {
                assert(row_holds(mat[i]@, rhs[i], c, m));
            }
        }
        if solves(mat2, rhs2, c, m) {
            assert forall|i: int| 0 <= i < mat.len() implies #[trigger] row_holds(
                mat[i]@,
                rhs[i],
                c,
                m,
            ) by {
                assert(row_holds(mat2[i]@, rhs2[i], c, m));
            }
        }
    }
}

/// Subtracting `f` times equation `p` from equation `r` (with `r != p`) keeps the solutions.
proof fn lemma_elim_equivalent(
    mat: Seq<Vec<F>>,
    rhs: Seq<F>,
    mat2: Seq<Vec<F>>,
    rhs2: Seq<F>,
    r: int,
    p: int,
    f: int,
    m: int,
)
    requires
        0 <= r < mat.len(),
        0 <= p < mat.len(),
        r != p,
        rhs.len() == mat.len(),
        mat2 == mat.update(r, mat2[r]),
        rhs2 == rhs.update(r, rhs2[r]),
        forall|j: int|
            0 <= j < m ==> cong(
                (#[trigger] mat2[r]@[j]).val(),
                1 * mat[r]@[j].val() + (-f) * mat[p]@[j].val(),
            ),
        cong(rhs2[r].val(), rhs[r].val() - f * rhs[p].val()),
    ensures
        equivalent(mat, rhs, mat2, rhs2, m),
{
    assert forall|c: Seq<F>| c.len() == m implies (solves(mat, rhs, c, m) <==> solves(
        mat2,
        rhs2,
        c,
        m,
    )) by {
        let (old_r, old_p, new_r) = (mat[r]@, mat[p]@, mat2[r]@);
        assert forall|j: int| 0 <= j < m implies cong(
            (#[trigger] new_r[j]).val(),
            1 * old_r[j].val() + (-f) * old_p[j].val(),
        ) by {
            assert(mat2[r]@[j] == new_r[j]);
        }
        lemma_dot_lincomb(new_r, old_r, old_p, c, 1, -f, 0, m);
        let (dn, dr, dp) = (
            dot_range(new_r, c, 0, m),
            dot_range(old_r, c, 0, m),
            dot_range(old_p, c, 0, m),
        );
        let (bn, br, bp) = (rhs2[r].val(), rhs[r].val(), rhs[p].val());
        assert(1 * dr + (-f) * dp == dr - f * dp) by (nonlinear_arith);
        assert(mat2[p] == mat[p] && rhs2[p] == rhs[p]);
        // With equation p in force, equation r holds iff its replacement does.
        assert(cong(dp, bp) ==> (cong(dn, bn) <==> cong(dr, br))) by {
            if cong(dp, bp) {
                lemma_cong_mul(dp, bp, f);
                if cong(dr, br) {
                    lemma_cong_sub(dr, br, f * dp, f * bp);
                }
                if cong(dn, bn) {
                    lemma_cong_add(dr - f * dp, br - f * bp, f * dp, f * bp);
                }
            }
        }
        if solves(mat, rhs, c, m) {
            assert(row_holds(old_p, rhs[p], c, m));
            assert forall|i: int| 0 <= i < mat2.len() implies #[trigger] row_holds(
                mat2[i]@,
                rhs2[i],
                c,
                m,
            ) by {
                assert(row_holds(mat[i]@, rhs[i], c, m));
            }
        }
        if solves(mat2, rhs2, c, m) {
            assert(row_holds(mat2[p]@, rhs2[p], c, m));
            assert forall|i: int| 0 <= i < mat.len() implies #[trigger] row_holds(
                mat[i]@,
                rhs[i],
                c,
                m,
            ) by {
                assert(row_holds(mat2[i]@, rhs2[i], c, m));
            }
        }
    }
}


// ----- executable row operations -----

/// Whether a field element is zero, as its representative.
fn is_zero(x: F) -> (r: bool)
    ensures
        r == (x.val() == 0),
{
    let z = F::from(0);
    proof {
        lemma_eq_iff_val(x, z);
    }
    x == z
}

/// Exchange equations `a` and `b`.
fn swap_rows(mat: &mut Vec<Vec<F>>, rhs: &mut Vec<F>, a: usize, b: usize)
    requires
        a < old(mat)@.len(),
        b < old(mat)@.len(),
        old(rhs)@.len() == old(mat)@.len(),
    ensures
        final(mat)@ == old(mat)@.update(a as int, old(mat)@[b as int]).update(
            b as int,
            old(mat)@[a as int],
        ),
        final(rhs)@ == old(rhs)@.update(a as int, old(rhs)@[b as int]).update(
            b as int,
            old(rhs)@[a as int],
        ),
{
    if a != b {
        let mut tmp: Vec<F> = Vec::new();
        std::mem::swap(&mut tmp, &mut mat[a]);
        std::mem::swap(&mut tmp, &mut mat[b]);
        std::mem::swap(&mut tmp, &mut mat[a]);
        let t = rhs[a];
        rhs[a] = rhs[b];
        rhs[b] = t;
        proof {
            assert(mat@ =~= old(mat)@.update(a as int, old(mat)@[b as int]).update(
                b as int,
                old(mat)@[a as int],
            ));
            assert(rhs@ =~= old(rhs)@.update(a as int, old(rhs)@[b as int]).update(
                b as int,
                old(rhs)@[a as int],
            ));
        }
    } else {
        proof {
            assert(mat@ =~= old(mat)@.update(a as int, old(mat)@[b as int]).update(
                b as int,
                old(mat)@[a as int],
            ));
            assert(rhs@ =~= old(rhs)@.update(a as int, old(rhs)@[b as int]).update(
                b as int,
                old(rhs)@[a as int],
            ));
        }
    }
}

/// Multiply equation `row` by `inv` on the columns `[col, m)` and on its right-hand side.
fn scale_row(mat: &mut Vec<Vec<F>>, rhs: &mut Vec<F>, row: usize, col: usize, m: usize, inv: F)
    requires
        row < old(mat)@.len(),
        old(rhs)@.len() == old(mat)@.len(),
        col <= m,
        old(mat)@[row as int]@.len() == m,
    ensures
        final(mat)@ == old(mat)@.update(row as int, final(mat)@[row as int]),
        final(mat)@[row as int]@.len() == m,
        forall|j: int|
            0 <= j < col ==> #[trigger] final(mat)@[row as int]@[j] == old(mat)@[row as int]@[j],
        forall|j: int|
            col <= j < m ==> (#[trigger] final(mat)@[row as int]@[j]).val() == (old(
                mat,
            )@[row as int]@[j].val() * inv.val()) % modulus(),
        final(rhs)@ == old(rhs)@.update(row as int, final(rhs)@[row as int]),
        final(rhs)@[row as int].val() == (old(rhs)@[row as int].val() * inv.val()) % modulus(),
{
    let ghost start = mat@;
    for c in col..m
        invariant
            mat@.len() == start.len(),
            row < start.len(),
            start[row as int]@.len() == m,
            mat@ == start.update(row as int, mat@[row as int]),
            mat@[row as int]@.len() == m,
            forall|j: int|
                (0 <= j < col || c <= j < m) ==> #[trigger] mat@[row as int]@[j]
                    == start[row as int]@[j],
            forall|j: int|
                col <= j < c ==> (#[trigger] mat@[row as int]@[j]).val() == (
                start[row as int]@[j].val() * inv.val()) % modulus(),
    {
        let v = mat[row][c] * inv;
        mat[row][c] = v;
        proof {
            assert(mat@ =~= start.update(row as int, mat@[row as int]));
        }
    }
    let b = rhs[row] * inv;
    rhs[row] = b;
}

/// Subtract `factor` times equation `p` from equation `r` on the columns `[col, m)`
/// and on the right-hand side.
fn eliminate_row(
    mat: &mut Vec<Vec<F>>,
    rhs: &mut Vec<F>,
    r: usize,
    p: usize,
    col: usize,
    m: usize,
    factor: F,
)
    requires
        r < old(mat)@.len(),
        p < old(mat)@.len(),
        r != p,
        old(rhs)@.len() == old(mat)@.len(),
        col <= m,
        old(mat)@[r as int]@.len() == m,
        old(mat)@[p as int]@.len() == m,
    ensures
        final(mat)@ == old(mat)@.update(r as int, final(mat)@[r as int]),
        final(mat)@[r as int]@.len() == m,
        forall|j: int| 0 <= j < col ==> #[trigger] final(mat)@[r as int]@[j] == old(mat)@[r as int]@[j],
        forall|j: int|
            col <= j < m ==> (#[trigger] final(mat)@[r as int]@[j]).val() == (old(mat)@[r as int]@[j].val()
                - (factor.val() * old(mat)@[p as int]@[j].val()) % modulus()) % modulus(),
        final(rhs)@ == old(rhs)@.update(r as int, final(rhs)@[r as int]),
        final(rhs)@[r as int].val() == (old(rhs)@[r as int].val() - (factor.val()
            * old(rhs)@[p as int].val()) % modulus()) % modulus(),
{
    let ghost start = mat@;
    for c in col..m
        invariant
            mat@.len() == start.len(),
            r < start.len(),
            p < start.len(),
            r != p,
            start[r as int]@.len() == m,
            start[p as int]@.len() == m,
            mat@ == start.update(r as int, mat@[r as int]),
            mat@[r as int]@.len() == m,
            forall|j: int|
                (0 <= j < col || c <= j < m) ==> #[trigger] mat@[r as int]@[j] == start[r as int]@[j],
            forall|j: int|
                col <= j < c ==> (#[trigger] mat@[r as int]@[j]).val() == (start[r as int]@[j].val()
                    - (factor.val() * start[p as int]@[j].val()) % modulus()) % modulus(),
    {
        let v = mat[r][c] - factor * mat[p][c];
        mat[r][c] = v;
        proof {
            assert(mat@ =~= start.update(r as int, mat@[r as int]));
        }
    }
    let b = rhs[r] - factor * rhs[p];
    rhs[r] = b;
}

/// The first row at or after `row` whose entry in column `col` is nonzero.
fn find_pivot(mat: &Vec<Vec<F>>, row: usize, col: usize) -> (res: Option<usize>)
    requires
        row <= mat@.len(),
        forall|i: int| 0 <= i < mat@.len() ==> col < (#[trigger] mat@[i])@.len(),
    ensures
        match res {
            Some(p) => row <= p < mat@.len() && mat@[p as int]@[col as int].val() != 0 && forall|
                i: int,
            | row <= i < p ==> (#[trigger] mat@[i]@[col as int]).val() == 0,
            None => forall|i: int| row <= i < mat@.len() ==> (#[trigger] mat@[i]@[col as int]).val() == 0,
        },
{
    let n = mat.len();
    let mut r = row;
    while r < n
        invariant
            row <= r <= n,
            n == mat@.len(),
            forall|i: int| 0 <= i < mat@.len() ==> col < (#[trigger] mat@[i])@.len(),
            forall|i: int| row <= i < r ==> (#[trigger] mat@[i]@[col as int]).val() == 0,
        decreases n - r,
    {
        if !is_zero(mat[r][col]) {
            return Some(r);
        }
        r += 1;
    }
    None
}

/// The first column below `m` where `row` is nonzero.
fn find_lead(row: &Vec<F>, m: usize) -> (res: Option<usize>)
    requires
        m <= row@.len(),
    ensures
        match res {
            Some(c) => c < m && row@[c as int].val() != 0 && forall|j: int|
                0 <= j < c ==> (#[trigger] row@[j]).val() == 0,
            None => forall|j: int| 0 <= j < m ==> (#[trigger] row@[j]).val() == 0,
        },
{
    let mut c: usize = 0;
    while c < m
        invariant
            c <= m,
            m <= row@.len(),
            forall|j: int| 0 <= j < c ==> (#[trigger] row@[j]).val() == 0,
        decreases m - c,
    {
        if !is_zero(row[c]) {
            return Some(c);
        }
        c += 1;
    }
    None
}


/// `x - x * 1`, reduced in the field, is zero.
proof fn lemma_cancel_pivot(x: int)
    ensures
        (x - (x * 1) % 97) % 97 == 0,
{
    lemma_cong_mod(x * 1);
    lemma_cong_sub(x, x, (x * 1) % 97, x * 1);
}

/// Scaling the pivot row (which vanishes before `col`) by `inv` keeps the solutions.
proof fn lemma_scale_step(
    s1m: Seq<Vec<F>>,
    s1r: Seq<F>,
    mat: Seq<Vec<F>>,
    rhs: Seq<F>,
    row: int,
    col: int,
    m: int,
    inv: int,
    a: int,
)
    requires
        0 <= row < s1m.len(),
        s1r.len() == s1m.len(),
        0 <= col <= m,
        mat == s1m.update(row, mat[row]),
        rhs == s1r.update(row, rhs[row]),
        (a * inv) % 97 == 1,
        zero_prefix(s1m, row, col),
        forall|j: int| 0 <= j < col ==> #[trigger] mat[row]@[j] == s1m[row]@[j],
        forall|j: int|
            col <= j < m ==> (#[trigger] mat[row]@[j]).val() == (s1m[row]@[j].val() * inv) % 97,
        rhs[row].val() == (s1r[row].val() * inv) % 97,
    ensures
        equivalent(s1m, s1r, mat, rhs, m),
        forall|j: int, c: Seq<F>|
            0 <= j < m && #[trigger] column_dependent(s1m, j, c) ==> column_dependent(mat, j, c),
{
    assert forall|j: int| 0 <= j < m implies cong(
        (#[trigger] mat[row]@[j]).val(),
        inv * s1m[row]@[j].val(),
    ) by {
        if j < col {
            assert(s1m[row]@[j].val() == 0);
            assert(inv * s1m[row]@[j].val() == 0);
        } else {
            lemma_cong_mod(s1m[row]@[j].val() * inv);
            assert(s1m[row]@[j].val() * inv == inv * s1m[row]@[j].val()) by (nonlinear_arith);
        }
    }
    lemma_cong_mod(s1r[row].val() * inv);
    assert(s1r[row].val() * inv == inv * s1r[row].val()) by (nonlinear_arith);
    lemma_scale_equivalent(s1m, s1r, mat, rhs, row, inv, a, m);
    assert forall|l: int| 0 <= l < m implies cong(
        (#[trigger] mat[row]@[l]).val(),
        inv * s1m[row]@[l].val() + 0 * s1m[row]@[l].val(),
    ) by {
        assert(0 * s1m[row]@[l].val() == 0);
    }
    assert forall|j: int, c: Seq<F>|
        0 <= j < m && #[trigger] column_dependent(s1m, j, c) implies column_dependent(mat, j, c) by {
        lemma_combination_keeps_dependence(s1m, mat, row, row, inv, 0, j, c, m);
    }
}

/// Eliminating below the pivot of row `p` (both rows vanish before `col`) keeps the solutions.
proof fn lemma_elim_step(
    bm: Seq<Vec<F>>,
    br: Seq<F>,
    mat: Seq<Vec<F>>,
    rhs: Seq<F>,
    r: int,
    p: int,
    col: int,
    m: int,
    f: int,
)
    requires
        0 <= r < bm.len(),
        0 <= p < bm.len(),
        r != p,
        br.len() == bm.len(),
        0 <= col <= m,
        mat == bm.update(r, mat[r]),
        rhs == br.update(r, rhs[r]),
        zero_prefix(bm, r, col),
        zero_prefix(bm, p, col),
        forall|j: int| 0 <= j < col ==> #[trigger] mat[r]@[j] == bm[r]@[j],
        forall|j: int|
            col <= j < m ==> (#[trigger] mat[r]@[j]).val() == (bm[r]@[j].val() - (f
                * bm[p]@[j].val()) % 97) % 97,
        rhs[r].val() == (br[r].val() - (f * br[p].val()) % 97) % 97,
    ensures
        equivalent(bm, br, mat, rhs, m),
        forall|j: int, c: Seq<F>|
            0 <= j < m && #[trigger] column_dependent(bm, j, c) ==> column_dependent(mat, j, c),
{
    assert forall|j: int| 0 <= j < m implies cong(
        (#[trigger] mat[r]@[j]).val(),
        1 * bm[r]@[j].val() + (-f) * bm[p]@[j].val(),
    ) by {
        let (x, y) = (bm[r]@[j].val(), bm[p]@[j].val());
        assert(1 * x + (-f) * y == x - f * y) by (nonlinear_arith);
        if j < col {
            assert(x == 0 && y == 0);
            assert(f * y == 0);
        } else {
            lemma_cong_mod(f * y);
            lemma_cong_sub(x, x, (f * y) % 97, f * y);
            lemma_cong_mod(x - (f * y) % 97);
        }
    }
    let (x, y) = (br[r].val(), br[p].val());
    lemma_cong_mod(f * y);
    lemma_cong_sub(x, x, (f * y) % 97, f * y);
    lemma_cong_mod(x - (f * y) % 97);
    lemma_elim_equivalent(bm, br, mat, rhs, r, p, f, m);
    assert forall|j: int, c: Seq<F>|
        0 <= j < m && #[trigger] column_dependent(bm, j, c) implies column_dependent(mat, j, c) by {
        lemma_combination_keeps_dependence(bm, mat, r, p, 1, -f, j, c, m);
    }
}

/// Gaussian elimination: brings the system into row echelon form with leading ones,
/// keeping its solutions. Returns the number of pivot rows and (as ghost) their pivot columns.
pub(crate) fn reduce_to_echelon(mat: &mut Vec<Vec<F>>, rhs: &mut Vec<F>, m: usize) -> (res: (
    usize,
    Ghost<Seq<int>>,
))
    requires
        well_shaped(old(mat)@, old(rhs)@, old(mat)@.len() as int, m as int),
        1 <= m <= old(mat)@.len(),
    ensures
        well_shaped(final(mat)@, final(rhs)@, old(mat)@.len() as int, m as int),
        res.0 <= m,
        equivalent(old(mat)@, old(rhs)@, final(mat)@, final(rhs)@, m as int),
        echelon(final(mat)@, res.1@, res.0 as int, m as int, old(mat)@.len() as int),
        forall|k: int, c: Seq<F>|
            0 <= k < res.0 ==> !#[trigger] column_dependent(old(mat)@, res.1@[k], c),
{
    let n = mat.len();
    let ghost mat0 = mat@;
    let ghost rhs0 = rhs@;
    let ghost mut piv: Seq<int> = Seq::empty();
    let mut row: usize = 0;
    let mut col: usize = 0;
    proof {
        assert(equivalent(mat0, rhs0, mat@, rhs@, m as int));
    }
    while col < m && row < m
        invariant
            n == mat0.len(),
            well_shaped(mat@, rhs@, n as int, m as int),
            1 <= m <= n,
            row <= col <= m,
            equivalent(mat0, rhs0, mat@, rhs@, m as int),
            echelon(mat@, piv, row as int, col as int, n as int),
            forall|j: int, c: Seq<F>|
                0 <= j < m && #[trigger] column_dependent(mat0, j, c) ==> column_dependent(mat@, j, c),
        decreases m - col,
    {
        let ghost pre = mat@;
        let pivot = find_pivot(mat, row, col);
        match pivot {
            None => {
                // Column is all zeros below `row`; skip it.
                proof {
                    assert forall|i: int| row <= i < n implies #[trigger] zero_prefix(
                        mat@,
                        i,
                        col + 1,
                    ) by {
                        assert(zero_prefix(mat@, i, col as int));
                        assert(mat@[i]@[col as int].val() == 0);
                    }
                }
            },
            Some(p) => {
                let ghost s0m = mat@;
                let ghost s0r = rhs@;
                swap_rows(mat, rhs, row, p);
                proof {
                    lemma_swap_equivalent(s0m, s0r, row as int, p as int, m as int);
                    lemma_equivalent_trans(mat0, rhs0, s0m, s0r, mat@, rhs@, m as int);
                    assert forall|j: int, c: Seq<F>|
                        0 <= j < m && #[trigger] column_dependent(mat0, j, c) implies column_dependent(
                        mat@,
                        j,
                        c,
                    ) by {
                        lemma_swap_keeps_dependence(s0m, row as int, p as int, j, c);
                    }
                    assert(zero_prefix(s0m, p as int, col as int));
                    assert(mat@[row as int] == s0m[p as int]);
                    assert(zero_prefix(mat@, row as int, col as int));
                }
                let a = mat[row][col];
                let inv = a.inv();
                let ghost s1m = mat@;
                let ghost s1r = rhs@;
                scale_row(mat, rhs, row, col, m, inv);
                proof {
                    lemma_scale_step(
                        s1m,
                        s1r,
                        mat@,
                        rhs@,
                        row as int,
                        col as int,
                        m as int,
                        inv.val(),
                        a.val(),
                    );
                    lemma_equivalent_trans(mat0, rhs0, s1m, s1r, mat@, rhs@, m as int);
                    assert(mat@[row as int]@[col as int].val() == 1);
                    assert(zero_prefix(mat@, row as int, col as int));
                    assert forall|i: int| row < i < n implies #[trigger] zero_prefix(
                        mat@,
                        i,
                        col as int,
                    ) by {
                        assert(mat@[i] == s1m[i]);
                        if i == p {
                            assert(s1m[i] == s0m[row as int]);
                            assert(zero_prefix(s0m, row as int, col as int));
                        } else {
                            assert(s1m[i] == s0m[i]);
                            assert(zero_prefix(s0m, i, col as int));
                        }
                    }
                }
                let ghost s2m = mat@;
                let ghost s2r = rhs@;
                let mut r = row + 1;
                while r < n
                    invariant
                        n == mat0.len(),
                        well_shaped(mat@, rhs@, n as int, m as int),
                        1 <= m <= n,
                        row < m,
                        col < m,
                        row <= col,
                        row < r <= n,
                        equivalent(mat0, rhs0, mat@, rhs@, m as int),
                        forall|j: int, c: Seq<F>|
                            0 <= j < m && #[trigger] column_dependent(mat0, j, c) ==> column_dependent(
                                mat@,
                                j,
                                c,
                            ),
                        forall|k: int| 0 <= k <= row ==> #[trigger] mat@[k] == s2m[k],
                        rhs@[row as int] == s2r[row as int],
                        s2m.len() == n,
                        s2m[row as int]@[col as int].val() == 1,
                        zero_prefix(s2m, row as int, col as int),
                        forall|i: int| row < i < r ==> #[trigger] zero_prefix(mat@, i, col + 1),
                        forall|i: int| r <= i < n ==> #[trigger] zero_prefix(mat@, i, col as int),
                    decreases n - r,
                {
                    if !is_zero(mat[r][col]) {
                        let factor = mat[r][col];
                        let ghost bm = mat@;
                        let ghost br = rhs@;
                        eliminate_row(mat, rhs, r, row, col, m, factor);
                        proof {
                            assert(bm[row as int] == s2m[row as int]);
                            assert(zero_prefix(bm, r as int, col as int));
                            lemma_elim_step(
                                bm,
                                br,
                                mat@,
                                rhs@,
                                r as int,
                                row as int,
                                col as int,
                                m as int,
                                factor.val(),
                            );
                            lemma_equivalent_trans(mat0, rhs0, bm, br, mat@, rhs@, m as int);
                            lemma_cancel_pivot(factor.val());
                            assert(mat@[r as int]@[col as int].val() == 0);
                            assert forall|j: int| 0 <= j < col + 1 implies (
                            #[trigger] mat@[r as int]@[j]).val() == 0 by {
                                if j < col {
                                    assert(mat@[r as int]@[j] == bm[r as int]@[j]);
                                }
                            }
                            assert(zero_prefix(mat@, r as int, col + 1));
                            assert forall|i: int| row < i < r implies #[trigger] zero_prefix(
                                mat@,
                                i,
                                col + 1,
                            ) by {
                                assert(mat@[i] == bm[i]);
                                assert(zero_prefix(bm, i, col + 1));
                            }
                            assert forall|i: int| r < i < n implies #[trigger] zero_prefix(
                                mat@,
                                i,
                                col as int,
                            ) by {
                                assert(mat@[i] == bm[i]);
                                assert(zero_prefix(bm, i, col as int));
                            }
                        }
                    } else {
                        proof {
                            assert(zero_prefix(mat@, r as int, col as int));
                            assert(zero_prefix(mat@, r as int, col + 1));
                        }
                    }
                    r += 1;
                }
                proof {
                    let piv2 = piv.push(col as int);
                    assert forall|k: int| 0 <= k < row implies #[trigger] mat@[k] == pre[k] by {
                        assert(mat@[k] == s2m[k]);
                        assert(s2m[k] == s1m[k]);
                        assert(s1m[k] == s0m[k]);
                    }
                    assert forall|k: int| 0 <= k < row + 1 implies #[trigger] zero_prefix(
                        mat@,
                        k,
                        piv2[k],
                    ) by {
                        if k < row {
                            assert(zero_prefix(pre, k, piv[k]));
                            assert(mat@[k] == pre[k]);
                        } else {
                            assert(mat@[k] == s2m[k]);
                        }
                    }
                    assert forall|k: int| 0 <= k < row + 1 implies (#[trigger] mat@[k]@[piv2[k]]).val()
                        == 1 by {
                        if k < row {
                            assert(pre[k]@[piv[k]].val() == 1);
                            assert(mat@[k] == pre[k]);
                        } else {
                            assert(mat@[k] == s2m[k]);
                        }
                    }
                    assert forall|k1: int, k2: int| 0 <= k1 < k2 < row + 1 implies #[trigger] piv2[k1]
                        < #[trigger] piv2[k2] by {
                        if k2 < row {
                            assert(piv[k1] < piv[k2]);
                        } else {
                            assert(piv[k1] < col);
                        }
                    }
                    piv = piv2;
                }
                row += 1;
            },
        }
        col += 1;
    }
    proof {
        // A dependent column never receives a pivot: its leading 1 would be congruent to
        // the combination of the zeros before it.
        assert forall|k: int, c: Seq<F>| 0 <= k < row implies !#[trigger] column_dependent(
            mat0,
            piv[k],
            c,
        ) by {
            if column_dependent(mat0, piv[k], c) {
                assert(column_dependent(mat@, piv[k], c));
                assert(row_dependent(mat@[k]@, piv[k], c));
                assert(zero_prefix(mat@, k, piv[k]));
                lemma_dot_zero(mat@[k]@, c, 0, piv[k]);
                assert(mat@[k]@[piv[k]].val() == 1);
            }
        }
    }
    (row, Ghost(piv))
}


/// Solve the pivot rows of an echelon system from the last to the first; columns
/// without a pivot get coefficient zero.
pub(crate) fn back_substitute(
    mat: &Vec<Vec<F>>,
    rhs: &Vec<F>,
    m: usize,
    rank: usize,
    Ghost(piv): Ghost<Seq<int>>,
) -> (coeffs: Vec<F>)
    requires
        well_shaped(mat@, rhs@, mat@.len() as int, m as int),
        1 <= m <= mat@.len(),
        rank <= m,
        echelon(mat@, piv, rank as int, m as int, mat@.len() as int),
    ensures
        coeffs@.len() == m,
        forall|k: int| 0 <= k < rank ==> #[trigger] row_holds(mat@[k]@, rhs@[k], coeffs@, m as int),
        forall|j: int| 0 <= j < m ==> 0 <= (#[trigger] coeffs@[j]).val() < modulus(),
        forall|j: int|
            0 <= j < m && !pivot_in(piv, 0, rank as int, j) ==> (#[trigger] coeffs@[j]).val() == 0,
{
    let mut coeffs: Vec<F> = Vec::new();
    for j in 0..m
        invariant
            coeffs@.len() == j,
            forall|k: int| 0 <= k < j ==> 0 <= (#[trigger] coeffs@[k]).val() < modulus(),
            forall|k: int| 0 <= k < j ==> (#[trigger] coeffs@[k]).val() == 0,
    {
        coeffs.push(F::from(0));
    }
    let mut i = m;
    while i > 0
        invariant
            coeffs@.len() == m,
            forall|k: int| 0 <= k < m ==> 0 <= (#[trigger] coeffs@[k]).val() < modulus(),
            i <= m,
            well_shaped(mat@, rhs@, mat@.len() as int, m as int),
            1 <= m <= mat@.len(),
            rank <= m,
            echelon(mat@, piv, rank as int, m as int, mat@.len() as int),
            forall|k: int| i <= k < rank ==> #[trigger] row_holds(mat@[k]@, rhs@[k], coeffs@, m as int),
            forall|j: int|
                0 <= j < m && !pivot_in(piv, i as int, rank as int, j) ==> (#[trigger] coeffs@[j]).val()
                    == 0,
        decreases i,
    {
        proof {
            // a pivot of the rows after `i - 1` is a pivot of the rows from `i - 1` on
            assert forall|j: int| #[trigger] pivot_in(piv, i as int, rank as int, j) implies pivot_in(
                piv,
                i - 1,
                rank as int,
                j,
            ) by {
                let k = choose|k: int| i <= k < rank && piv[k] == j;
                assert(i - 1 <= k < rank && piv[k] == j);
            }
        }
        i -= 1;
        let lead = find_lead(&mat[i], m);
        match lead {
            None => {
                proof {
                    if i < rank {
                        assert(mat@[i as int]@[piv[i as int]].val() == 1);
                    }
                }
            },
            Some(col) => {
                proof {
                    if i >= rank {
                        assert(zero_prefix(mat@, i as int, m as int));
                        assert(mat@[i as int]@[col as int].val() == 0);
                    }
                    assert(i < rank);
                    assert(zero_prefix(mat@, i as int, piv[i as int]));
                    if (col as int) < piv[i as int] {
                        assert(mat@[i as int]@[col as int].val() == 0);
                    }
                    if (col as int) > piv[i as int] {
                        assert(mat@[i as int]@[piv[i as int]].val() == 0);
                    }
                    assert(col as int == piv[i as int]);
                }
                let ghost rowv = mat@[i as int]@;
                let mut acc = rhs[i];
                for c in (col + 1)..m
                    invariant
                        coeffs@.len() == m,
                        forall|k: int| 0 <= k < m ==> 0 <= (#[trigger] coeffs@[k]).val() < modulus(),
                        i < mat@.len(),
                        mat@.len() == rhs@.len(),
                        col < m,
                        rowv == mat@[i as int]@,
                        rowv.len() == m,
                        cong(acc.val(), rhs@[i as int].val() - dot_range(rowv, coeffs@, col + 1, c as int)),
                {
                    let t = mat[i][c] * coeffs[c];
                    proof {
                        let (a0, d0, tv) = (acc.val(), dot_range(rowv, coeffs@, col + 1, c as int), rowv[c as int].val() * coeffs@[c as int].val());
                        lemma_cong_mod(tv);
                        lemma_cong_sub(a0, rhs@[i as int].val() - d0, t.val(), tv);
                        lemma_cong_mod(a0 - t.val());
                        assert(dot_range(rowv, coeffs@, col + 1, c + 1) == d0 + tv);
                    }
                    acc = acc - t;
                }
                let ghost old_c = coeffs@;
                proof {
                    use_type_invariant(&acc);
                    acc.lemma_reduced();
                }
                coeffs[col] = acc;
                proof {
                    let newc = coeffs@;
                    let (c0, mm) = (col as int, m as int);
                    // the equation of row i now holds
                    lemma_dot_split(rowv, newc, 0, c0, mm);
                    lemma_dot_split(rowv, newc, c0, c0 + 1, mm);
                    assert(zero_prefix(mat@, i as int, c0));
                    lemma_dot_zero(rowv, newc, 0, c0);
                    assert(rowv[c0].val() == 1);
                    assert(newc[c0] == acc);
                    assert(dot_range(rowv, newc, c0, c0) == 0);
                    assert(dot_range(rowv, newc, c0, c0 + 1) == rowv[c0].val() * newc[c0].val());
                    assert(dot_range(rowv, newc, c0, c0 + 1) == acc.val());
                    lemma_dot_frame(rowv, newc, old_c, c0 + 1, mm);
                    let d = dot_range(rowv, old_c, c0 + 1, mm);
                    lemma_cong_add(acc.val(), rhs@[i as int].val() - d, d, d);
                    assert(row_holds(mat@[i as int]@, rhs@[i as int], newc, mm));
                    // the later pivot rows vanish in column `col`
                    assert(pivot_in(piv, i as int, rank as int, c0)) by {
                        assert(i <= i < rank && piv[i as int] == c0);
                    }
                    assert forall|k: int| i < k < rank implies #[trigger] row_holds(
                        mat@[k]@,
                        rhs@[k],
                        newc,
                        mm,
                    ) by {
                        assert(piv[i as int] < piv[k]);
                        assert(zero_prefix(mat@, k, piv[k]));
                        assert(mat@[k]@[c0].val() == 0);
                        lemma_dot_frame(mat@[k]@, newc, old_c, 0, mm);
                        assert(row_holds(mat@[k]@, rhs@[k], old_c, mm));
                    }
                }
            },
        }
    }
    coeffs
}


/// In echelon form, a vector that solves the pivot rows solves the whole system as soon as
/// the system has any solution: the remaining rows vanish, so their right-hand sides do too.
pub(crate) proof fn lemma_echelon_solution(
    mat: Seq<Vec<F>>,
    rhs: Seq<F>,
    piv: Seq<int>,
    rank: int,
    m: int,
    coeffs: Seq<F>,
    other: Seq<F>,
)
    requires
        well_shaped(mat, rhs, mat.len() as int, m),
        0 <= rank <= mat.len(),
        echelon(mat, piv, rank, m, mat.len() as int),
        forall|k: int| 0 <= k < rank ==> #[trigger] row_holds(mat[k]@, rhs[k], coeffs, m),
        solves(mat, rhs, other, m),
    ensures
        solves(mat, rhs, coeffs, m),
{
    assert forall|i: int| 0 <= i < mat.len() implies #[trigger] row_holds(mat[i]@, rhs[i], coeffs, m) by {
        if i >= rank {
            assert(zero_prefix(mat, i, m));
            lemma_dot_zero(mat[i]@, coeffs, 0, m);
            lemma_dot_zero(mat[i]@, other, 0, m);
            assert(row_holds(mat[i]@, rhs[i], other, m));
        }
    }
}

} // verus!
