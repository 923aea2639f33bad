//! Baby Ligero: witnesses, the tableau of Reed–Solomon rows, and the proximity,
//! multiplication and linear tests.

use vstd::prelude::*;
use vstd::arithmetic::power::*;
use crate::field::{
    F, modulus, cong, lemma_cong_mod, lemma_cong_sub, lemma_cong_add, lemma_cong_mul, lemma_accumulate,
    lemma_eq_iff_val, from_int, lemma_no_zero_divisors,
};
use crate::rs_code::{
    Domain, eval_poly, is_low_degree, poly_eval, poly_sum, vals, fits, is_codeword_vals,
    is_codeword, standard_domain, lemma_poly_sum_congruent, lemma_tail_vanishes,
};
use crate::roots::{int_poly_sum, lemma_int_poly_sum_linear};

verus! {

broadcast use crate::field::lemma_from_int_val;

/// The field element `x * y + x` that `z` must equal in the statement.
pub open spec fn gate_output(x: int, y: int) -> int {
    (x * y + x) % modulus()
}

/// Tiny witness for statement: z = x * y + x in F.
///
/// In a real Ligero instance, x, y, z would be *vectors* (length m), but we start
/// with one coordinate and later extend to multiple.
#[derive(Clone, Debug)]
pub struct Witness {
    pub x: F,
    pub y: F,
    pub z: F,
}

impl Witness {
    pub fn new(x: u32, y: u32) -> (w: Witness)
        ensures
            w.x.val() == x as int % modulus(),
            w.y.val() == y as int % modulus(),
            w.z.val() == gate_output(w.x.val(), w.y.val()),
    {
        let x_f = F::from(x);
        let y_f = F::from(y);
        let z_f = x_f * y_f + x_f;
        proof {
            let (a, b) = (x_f.val(), y_f.val());
            lemma_cong_mod(a * b);
            lemma_cong_mod((a * b) % 97 + a);
            lemma_cong_mod(a * b + a);
            vstd::arithmetic::div_mod::lemma_add_mod_noop(a * b, a, 97);
            vstd::arithmetic::div_mod::lemma_mod_twice(a, 97);
        }
        Witness { x: x_f, y: y_f, z: z_f }
    }
}


/// Vector witness for m gates: for gate i,
///   z_i is meant to satisfy  z_i = x_i * y_i + x_i.
#[derive(Clone, Debug)]
pub struct WitnessVec {
    pub xs: Vec<F>,
    pub ys: Vec<F>,
    pub zs: Vec<F>,
}

impl WitnessVec {
    /// The witness is honest: the three wires have one entry per gate and every
    /// `z_i` equals `x_i * y_i + x_i`.
    pub open spec fn is_honest(&self) -> bool {
        &&& self.ys@.len() == self.xs@.len()
        &&& self.zs@.len() == self.xs@.len()
        &&& forall|i: int|
            0 <= i < self.xs@.len() ==> #[trigger] self.zs@[i].val() == gate_output(
                self.xs@[i].val(),
                self.ys@[i].val(),
            )
    }

    /// Build an honest witness from x,y coordinates; z_i := x_i*y_i + x_i.
    pub fn from_xy(xs: Vec<F>, ys: Vec<F>) -> (w: WitnessVec)
        requires
            xs@.len() == ys@.len(),
        ensures
            w.xs@ == xs@,
            w.ys@ == ys@,
            w.is_honest(),
    {
        let mut zs: Vec<F> = Vec::new();
        for i in 0..xs.len()
            invariant
                xs@.len() == ys@.len(),
                zs@.len() == i,
                forall|k: int| 0 <= k < i ==> #[trigger] zs@[k].val() == gate_output(
                    xs@[k].val(),
                    ys@[k].val(),
                ),
        {
            let x = xs[i];
            let y = ys[i];
            let z = x * y + x;
            proof {
                let (a, b) = (x.val(), y.val());
                lemma_cong_mod(a * b);
                lemma_cong_mod((a * b) % 97 + a);
                vstd::arithmetic::div_mod::lemma_add_mod_noop(a * b, a, 97);
                vstd::arithmetic::div_mod::lemma_mod_twice(a, 97);
            }
            zs.push(z);
        }
        WitnessVec { xs, ys, zs }
    }

    pub fn len(&self) -> (r: usize)
        ensures
            r == self.xs@.len(),
    {
        self.xs.len()
    }
}

/// Parameters for the baby Ligero instance.
#[derive(Clone, Debug)]
pub struct LigeroParams {
    /// Number of multiplication gates (m in the whiteboard).
    pub m: usize,
    /// RS codeword length (number of positions / "virtual parties").
    pub n: usize,
    /// Maximum degree allowed for each row polynomial.
    pub deg_bound: usize,
}

/// A single row of the Ligero tableau U: evaluations of a low-degree polynomial at domain points.
#[derive(Clone, Debug)]
pub struct Row {
    pub values: Vec<F>,
}

/// `row` holds the constant `v` (reduced in the field) at each of its `n` positions.
pub open spec fn constant_row(row: Row, v: int, n: nat) -> bool {
    &&& row.values@.len() == n
    &&& forall|j: int| 0 <= j < n ==> #[trigger] row.values@[j].val() == v % modulus()
}

/// The four rows of gate `g` hold the constants `x`, `y`, `t`, `z`.
pub open spec fn gate_rows(rows: Seq<Row>, g: int, x: int, y: int, t: int, z: int, n: nat) -> bool {
    &&& constant_row(rows[4 * g], x, n)
    &&& constant_row(rows[4 * g + 1], y, n)
    &&& constant_row(rows[4 * g + 2], t, n)
    &&& constant_row(rows[4 * g + 3], z, n)
}

/// Entry `j` of wire `k` (0: x, 1: y, 2: t, 3: z) of gate `g`.
pub open spec fn wire(rows: Seq<Row>, g: int, k: int, j: int) -> int {
    rows[4 * g + k].values@[j].val()
}

/// `Σ_{i < k} x^i * rows[i][j]` over the integers: entry `j` of the random linear
/// combination of the first `k` rows.
pub open spec fn row_combination(rows: Seq<Row>, x: int, j: int, k: nat) -> int
    decreases k,
{
    if k == 0 {
        0
    } else {
        row_combination(rows, x, j, (k - 1) as nat) + pow(x, (k - 1) as nat) * rows[k
            - 1].values@[j].val()
    }
}

/// `Σ_{g < k} x^g * (x_g[j] * y_g[j] - t_g[j])` over the integers.
pub open spec fn multiplication_combination(rows: Seq<Row>, x: int, j: int, k: nat) -> int
    decreases k,
{
    if k == 0 {
        0
    } else {
        let g = k - 1;
        multiplication_combination(rows, x, j, (k - 1) as nat) + pow(x, (k - 1) as nat) * (wire(
            rows,
            g,
            0,
            j,
        ) * wire(rows, g, 1, j) - wire(rows, g, 2, j))
    }
}

/// `Σ_{g < k} x^g * (z_g[j] - t_g[j] - x_g[j])` over the integers.
pub open spec fn linear_combination(rows: Seq<Row>, x: int, j: int, k: nat) -> int
    decreases k,
{
    if k == 0 {
        0
    } else {
        let g = k - 1;
        linear_combination(rows, x, j, (k - 1) as nat) + pow(x, (k - 1) as nat) * (wire(
            rows,
            g,
            3,
            j,
        ) - wire(rows, g, 2, j) - wire(rows, g, 0, j))
    }
}

/// `V_p = (1, r, r², ...) · U`, reduced in the field, as a vector over the domain.
pub open spec fn proximity_vector(tab: Tableau, r: int) -> Seq<int> {
    Seq::new(
        tab.domain.points@.len(),
        |j: int| row_combination(tab.rows@, r, j, tab.rows@.len()) % modulus(),
    )
}

/// The proximity test accepts challenge `r`: `V_p` is a codeword of degree below the bound.
pub open spec fn passes_proximity(tab: Tableau, r: int) -> bool {
    is_codeword_vals(proximity_vector(tab, r), tab.domain.points@, tab.params.deg_bound as nat)
}

/// The multiplication test accepts challenge `r`: `V_m` vanishes at every position.
pub open spec fn passes_multiplication(tab: Tableau, r: int) -> bool {
    forall|j: int|
        0 <= j < tab.domain.points@.len() ==> #[trigger] multiplication_combination(
            tab.rows@,
            r,
            j,
            tab.params.m as nat,
        ) % modulus() == 0
}

/// The linear test accepts challenge `r`: `V_l` vanishes at every position.
pub open spec fn passes_linear(tab: Tableau, r: int) -> bool {
    forall|j: int|
        0 <= j < tab.domain.points@.len() ==> #[trigger] linear_combination(
            tab.rows@,
            r,
            j,
            tab.params.m as nat,
        ) % modulus() == 0
}

/// Every row has an entry for each domain point.
pub open spec fn rows_span_domain(tab: Tableau) -> bool {
    forall|i: int|
        0 <= i < tab.rows@.len() ==> (#[trigger] tab.rows@[i]).values@.len()
            >= tab.domain.points@.len()
}

/// There are four rows per gate, each with an entry for each domain point.
pub open spec fn gates_span_domain(tab: Tableau) -> bool {
    &&& 4 * tab.params.m <= tab.rows@.len()
    &&& forall|i: int|
        0 <= i < 4 * tab.params.m ==> (#[trigger] tab.rows@[i]).values@.len()
            >= tab.domain.points@.len()
}

/// Wire `k` of gate `g` has a row with an entry for each of the `n` domain points
/// (over an empty domain nothing is read, and nothing is asked).
pub open spec fn wire_spans(rows: Seq<Row>, g: int, k: int, n: int) -> bool {
    n > 0 ==> 4 * g + k < rows.len() && rows[4 * g + k].values@.len() >= n
}

/// The rows that the multiplication test reads, `x`, `y` and `t` of each gate, span the domain.
pub open spec fn multiplication_rows_span(tab: Tableau) -> bool {
    forall|g: int, k: int|
        0 <= g < tab.params.m && 0 <= k <= 2 ==> #[trigger] wire_spans(
            tab.rows@,
            g,
            k,
            tab.domain.points@.len() as int,
        )
}

/// The rows that the linear test reads, `x`, `t` and `z` of each gate, span the domain.
pub open spec fn linear_rows_span(tab: Tableau) -> bool {
    forall|g: int, k: int|
        0 <= g < tab.params.m && (k == 0 || k == 2 || k == 3) ==> #[trigger] wire_spans(
            tab.rows@,
            g,
            k,
            tab.domain.points@.len() as int,
        )
}

/// Four full rows per gate give both tests the rows they read.
pub proof fn lemma_gates_span_tests(tab: Tableau)
    requires
        gates_span_domain(tab),
    ensures
        multiplication_rows_span(tab),
        linear_rows_span(tab),
{
    let n = tab.domain.points@.len() as int;
    assert forall|g: int, k: int| 0 <= g < tab.params.m && 0 <= k <= 3 implies #[trigger] wire_spans(
        tab.rows@,
        g,
        k,
        n,
    ) by {
        assert(4 * g + k < 4 * tab.params.m);
        assert(tab.rows@[4 * g + k].values@.len() >= n);
    }
}

/// Whether every entry is zero.
fn all_zero(v: &Vec<F>) -> (r: bool)
    ensures
        r == forall|j: int| 0 <= j < v@.len() ==> (#[trigger] v@[j]).val() == 0,
{
    let zero = F::from(0);
    for j in 0..v.len()
        invariant
            zero.val() == 0,
            forall|k: int| 0 <= k < j ==> (#[trigger] v@[k]).val() == 0,
    {
        proof {
            lemma_eq_iff_val(v@[j as int], zero);
        }
        if v[j] != zero {
            return false;
        }
    }
    true
}

/// A tiny Ligero tableau: 4m rows, each a low-degree codeword in F^n.
///
/// Rows are grouped by gate: (x_i, y_i, t_i, z_i) at rows 4i, 4i+1, 4i+2, 4i+3.
#[derive(Clone, Debug)]
pub struct Tableau {
    pub params: LigeroParams,
    pub domain: Domain,
    pub rows: Vec<Row>,
}

/// `tab` is the tableau that `from_witness_single_gate` builds from `w` with `params`:
/// the standard domain of size `n` and the four constant rows `x, y, x*y, z`.
pub open spec fn single_gate_tableau_of(tab: Tableau, w: Witness, params: LigeroParams) -> bool {
    &&& tab.params == params
    &&& standard_domain(tab.domain.points@, params.n as nat)
    &&& tab.rows@.len() == 4
    &&& gate_rows(tab.rows@, 0, w.x.val(), w.y.val(), w.x.val() * w.y.val(), w.z.val(), params.n as nat)
}

/// `tab` is the tableau that `from_witness_vec` builds from `w` with `params`: the standard
/// domain of size `n` and, for each of the `m` gates, the constant rows `x_i, y_i, x_i*y_i, z_i`.
pub open spec fn tableau_of(tab: Tableau, w: WitnessVec, params: LigeroParams) -> bool {
    &&& tab.params == params
    &&& standard_domain(tab.domain.points@, params.n as nat)
    &&& tab.rows@.len() == 4 * params.m
    &&& forall|g: int|
        0 <= g < params.m ==> #[trigger] gate_rows(
            tab.rows@,
            g,
            w.xs@[g].val(),
            w.ys@[g].val(),
            w.xs@[g].val() * w.ys@[g].val(),
            w.zs@[g].val(),
            params.n as nat,
        )
}

/// The constant polynomial `[v]` evaluates to `v` everywhere.
proof fn lemma_constant_poly(c: Seq<F>, x: int)
    requires
        c.len() == 1,
    ensures
        poly_eval(c, x) == c[0].val() % modulus(),
{
    lemma_pow0(x);
    assert(poly_sum(c, x, 0) == 0);
    assert(poly_sum(c, x, 1) == c[0].val() * pow(x, 0));
}

/// The row of evaluations of the constant polynomial `v` on the domain.
fn constant_row_of(v: F, domain: &Domain) -> (row: Row)
    ensures
        constant_row(row, v.val(), domain.points@.len() as nat),
{
    let fv = [v];
    let values = eval_poly(&fv, domain);
    proof {
        assert forall|j: int| 0 <= j < domain.points@.len() implies #[trigger] values@[j].val()
            == v.val() % modulus() by {
            assert(vals(values@)[j] == poly_eval(fv@, domain.points@[j].val()));
            lemma_constant_poly(fv@, domain.points@[j].val());
        }
    }
    Row { values }
}

impl Tableau {
    /// Build an honest tableau for a single gate z = x * y + x.
    /// We introduce an intermediate product wire t = x * y so that:
    ///  - mult. test enforces t = x * y,
    ///  - linear test enforces z = t + x.
    pub fn from_witness_single_gate(w: &Witness, params: LigeroParams) -> (tab: Tableau)
        requires
            params.m == 1,
        ensures
            single_gate_tableau_of(tab, *w, params),
            gates_span_domain(tab),
            rows_span_domain(tab),
    {
        let domain = Domain::new_n(params.n);

        let x = w.x;
        let y = w.y;
        let t = x * y;
        let z = w.z; // should be t + x for an honest witness

        // Constant polynomials for each wire.
        let row_x = constant_row_of(x, &domain);
        let row_y = constant_row_of(y, &domain);
        let row_t = constant_row_of(t, &domain);
        let row_z = constant_row_of(z, &domain);
        proof {
            vstd::arithmetic::div_mod::lemma_mod_twice(x.val() * y.val(), 97);
        }

        let rows = vec![row_x, row_y, row_t, row_z];
        let tab = Tableau { params, domain, rows };
        proof {
            lemma_single_gate_rows(tab, *w, tab.params);
        }
        tab
    }

    /// Build an honest tableau for m gates using a vector witness.
    /// For each gate i:
    ///   t_i = x_i * y_i
    ///   z_i is taken from w.zs[i] (expected to be x_i*y_i + x_i).
    pub fn from_witness_vec(w: &WitnessVec, params: LigeroParams) -> (tab: Tableau)
        requires
            params.m == w.xs@.len(),
            w.ys@.len() >= params.m,
            w.zs@.len() >= params.m,
            4 * params.m <= usize::MAX,
        ensures
            tableau_of(tab, *w, params),
            gates_span_domain(tab),
            rows_span_domain(tab),
    {
        let domain = Domain::new_n(params.n);
        let mut rows: Vec<Row> = Vec::with_capacity(4 * params.m);

        for i in 0..params.m
            invariant
                params.m == w.xs@.len(),
                w.ys@.len() >= params.m,
                w.zs@.len() >= params.m,
                domain.points@.len() == params.n,
                rows@.len() == 4 * i,
                forall|g: int|
                    0 <= g < i ==> #[trigger] gate_rows(
                        rows@,
                        g,
                        w.xs@[g].val(),
                        w.ys@[g].val(),
                        w.xs@[g].val() * w.ys@[g].val(),
                        w.zs@[g].val(),
                        params.n as nat,
                    ),
        {
            let x = w.xs[i];
            let y = w.ys[i];
            let t = x * y;
            let z = w.zs[i];

            let row_x = constant_row_of(x, &domain);  // constant
            let row_y = constant_row_of(y, &domain);
            let row_t = constant_row_of(t, &domain);
            let row_z = constant_row_of(z, &domain);
            proof {
                vstd::arithmetic::div_mod::lemma_mod_twice(x.val() * y.val(), 97);
            }

            let ghost before = rows@;
            rows.push(row_x);
            rows.push(row_y);
            rows.push(row_t);
            rows.push(row_z);
            proof {
                assert forall|g: int| 0 <= g < i + 1 implies #[trigger] gate_rows(
                    rows@,
                    g,
                    w.xs@[g].val(),
                    w.ys@[g].val(),
                    w.xs@[g].val() * w.ys@[g].val(),
                    w.zs@[g].val(),
                    params.n as nat,
                ) by {
                    if g < i {
                        assert(gate_rows(
                            before,
                            g,
                            w.xs@[g].val(),
                            w.ys@[g].val(),
                            w.xs@[g].val() * w.ys@[g].val(),
                            w.zs@[g].val(),
                            params.n as nat,
                        ));
                        assert(rows@[4 * g] == before[4 * g]);
                        assert(rows@[4 * g + 1] == before[4 * g + 1]);
                        assert(rows@[4 * g + 2] == before[4 * g + 2]);
                        assert(rows@[4 * g + 3] == before[4 * g + 3]);
                    }
                }
            }
        }

        let tab = Tableau { params, domain, rows };
        proof {
            lemma_tableau_rows(tab, *w, tab.params);
        }
        tab
    }

    /// V_p = (1, r, r², ..., r^{4m-1}) · U
    /// Check: is V_p a low-degree (at most deg_bound) RS codeword?
    pub fn proximity_test(&self, r: F) -> (res: bool)
        requires
            rows_span_domain(*self),
        ensures
            res == passes_proximity(*self, r.val()),
    {
        let n = self.domain.len();
        let mut v_p: Vec<F> = Vec::new();

        // V_p[j] = ∑_{i=0}^{4m-1} r^i * u_i[j]  for each domain point j
        for j in 0..n
            invariant
                n == self.domain.points@.len(),
                rows_span_domain(*self),
                v_p@.len() == j,
                forall|k: int|
                    0 <= k < j ==> (#[trigger] v_p@[k]).val() == row_combination(
                        self.rows@,
                        r.val(),
                        k,
                        self.rows@.len(),
                    ) % modulus(),
        {
            let mut sum = F::from(0);
            let mut power = F::from(1);
            proof {
                lemma_pow0(r.val());
            }
            for i in 0..self.rows.len()
                invariant
                    n == self.domain.points@.len(),
                    j < n,
                    rows_span_domain(*self),
                    cong(sum.val(), row_combination(self.rows@, r.val(), j as int, i as nat)),
                    0 <= sum.val() < modulus(),
                    power.val() == pow(r.val(), i as nat) % modulus(),
            {
                let u = self.rows[i].values[j];
                proof {
                    lemma_cong_mod(pow(r.val(), i as nat));
                    lemma_accumulate(
                        sum.val(),
                        u.val(),
                        power.val(),
                        row_combination(self.rows@, r.val(), j as int, i as nat),
                        u.val(),
                        pow(r.val(), i as nat),
                    );
                    assert(u.val() * pow(r.val(), i as nat) == pow(r.val(), i as nat) * u.val())
                        by (nonlinear_arith);
                    crate::rs_code::lemma_pow_next_mod(r.val(), i as nat, power.val());
                }
                sum = sum + u * power;
                power = power * r;
            }
            proof {
                vstd::arithmetic::div_mod::lemma_small_mod(sum.val() as nat, 97);
            }
            v_p.push(sum);
        }
        proof {
            assert(vals(v_p@) =~= proximity_vector(*self, r.val()));
        }

        is_low_degree(&v_p, &self.domain, self.params.deg_bound)
    }

    /// Multiplication test: checks all gates satisfy t_i = x_i * y_i.
    ///
    /// For gate i, we use rows (4i, 4i+1, 4i+2) = (x_i, y_i, t_i).
    /// We form:
    ///   V_m[j] = Σ_{i=0}^{m-1} r^i * (x_i[j] * y_i[j] - t_i[j])
    /// and require V_m to be identically zero.
    pub fn multiplication_test(&self, r: F) -> (res: bool)
        requires
            multiplication_rows_span(*self),
        ensures
            res == passes_multiplication(*self, r.val()),
    {
        let m = self.params.m;
        let n = self.domain.len();
        let rows_len = self.rows.len();
        let mut v_m: Vec<F> = Vec::new();

        for j in 0..n
            invariant
                n == self.domain.points@.len(),
                m == self.params.m,
                rows_len == self.rows@.len(),
                multiplication_rows_span(*self),
                v_m@.len() == j,
                forall|k: int|
                    0 <= k < j ==> (#[trigger] v_m@[k]).val() == multiplication_combination(
                        self.rows@,
                        r.val(),
                        k,
                        m as nat,
                    ) % modulus(),
        {
            let mut sum = F::from(0);
            let mut power = F::from(1);  // r^0, r^1, ..., r^{m-1}
            proof {
                lemma_pow0(r.val());
            }

            for gate in 0..m
                invariant
                    n == self.domain.points@.len(),
                    m == self.params.m,
                    rows_len == self.rows@.len(),
                    j < n,
                    multiplication_rows_span(*self),
                    cong(sum.val(), multiplication_combination(self.rows@, r.val(), j as int, gate as nat)),
                    0 <= sum.val() < modulus(),
                    power.val() == pow(r.val(), gate as nat) % modulus(),
            {
                proof {
                    assert(wire_spans(self.rows@, gate as int, 0, n as int));
                    assert(wire_spans(self.rows@, gate as int, 1, n as int));
                    assert(wire_spans(self.rows@, gate as int, 2, n as int));
                }
                let idx_x = 4 * gate;
                let idx_y = 4 * gate + 1;
                let idx_t = 4 * gate + 2;

                let xj = self.rows[idx_x].values[j];
                let yj = self.rows[idx_y].values[j];
                let tj = self.rows[idx_t].values[j];

                let diff = xj * yj - tj;
                proof {
                    let (a, b, c) = (xj.val(), yj.val(), tj.val());
                    let p = pow(r.val(), gate as nat);
                    lemma_cong_mod(a * b);
                    lemma_cong_sub((a * b) % 97, a * b, c, c);
                    lemma_cong_mod((a * b) % 97 - c);
                    assert(cong(diff.val(), a * b - c));
                    lemma_cong_mod(p);
                    lemma_accumulate(
                        sum.val(),
                        power.val(),
                        diff.val(),
                        multiplication_combination(self.rows@, r.val(), j as int, gate as nat),
                        p,
                        a * b - c,
                    );
                    assert(a == wire(self.rows@, gate as int, 0, j as int));
                    assert(b == wire(self.rows@, gate as int, 1, j as int));
                    assert(c == wire(self.rows@, gate as int, 2, j as int));
                    crate::rs_code::lemma_pow_next_mod(r.val(), gate as nat, power.val());
                }
                sum = sum + power * diff;
                power = power * r;
            }
            proof {
                vstd::arithmetic::div_mod::lemma_small_mod(sum.val() as nat, 97);
            }

            v_m.push(sum);
        }

        // In Ligero, V_m should decode to the zero polynomial; here we enforce the
        // strongest possible condition: every coordinate is zero.
        let res = all_zero(&v_m);
        proof {
            assert forall|j: int| 0 <= j < n implies (#[trigger] multiplication_combination(
                self.rows@,
                r.val(),
                j,
                m as nat,
            ) % modulus() == 0) == (v_m@[j].val() == 0) by {
                assert(v_m@[j].val() == multiplication_combination(self.rows@, r.val(), j, m as nat) % modulus());
            }
        }
        res
    }

    /// Linear test: checks all gates satisfy the linear relation z_i = t_i + x_i.
    ///
    /// For gate i, we use rows (4i, 4i+2, 4i+3) = (x_i, t_i, z_i) and form:
    ///   V_l[j] = Σ_{i=0}^{m-1} r^i * (z_i[j] - t_i[j] - x_i[j])
    /// We require V_l to be identically zero.
    pub fn linear_test(&self, r: F) -> (res: bool)
        requires
            linear_rows_span(*self),
        ensures
            res == passes_linear(*self, r.val()),
    {
        let m = self.params.m;
        let n = self.domain.len();
        let rows_len = self.rows.len();
        let mut v_l: Vec<F> = Vec::new();

        for j in 0..n
            invariant
                n == self.domain.points@.len(),
                m == self.params.m,
                rows_len == self.rows@.len(),
                linear_rows_span(*self),
                v_l@.len() == j,
                forall|k: int|
                    0 <= k < j ==> (#[trigger] v_l@[k]).val() == linear_combination(
                        self.rows@,
                        r.val(),
                        k,
                        m as nat,
                    ) % modulus(),
        {
            let mut sum = F::from(0);
            let mut power = F::from(1);  // r^0, r^1, ..., r^{m-1}
            proof {
                lemma_pow0(r.val());
            }

            for gate in 0..m
                invariant
                    n == self.domain.points@.len(),
                    m == self.params.m,
                    rows_len == self.rows@.len(),
                    j < n,
                    linear_rows_span(*self),
                    cong(sum.val(), linear_combination(self.rows@, r.val(), j as int, gate as nat)),
                    0 <= sum.val() < modulus(),
                    power.val() == pow(r.val(), gate as nat) % modulus(),
            {
                proof {
                    assert(wire_spans(self.rows@, gate as int, 0, n as int));
                    assert(wire_spans(self.rows@, gate as int, 2, n as int));
                    assert(wire_spans(self.rows@, gate as int, 3, n as int));
                }
                let idx_x = 4 * gate;
                let idx_t = 4 * gate + 2;
                let idx_z = 4 * gate + 3;

                let xj = self.rows[idx_x].values[j];
                let tj = self.rows[idx_t].values[j];
                let zj = self.rows[idx_z].values[j];

                // Linear constraint: z - t - x = 0
                let diff = zj - tj - xj;
                proof {
                    let (a, c, d) = (xj.val(), tj.val(), zj.val());
                    let p = pow(r.val(), gate as nat);
                    lemma_cong_mod(d - c);
                    lemma_cong_sub((d - c) % 97, d - c, a, a);
                    lemma_cong_mod((d - c) % 97 - a);
                    assert(cong(diff.val(), d - c - a));
                    lemma_cong_mod(p);
                    lemma_accumulate(
                        sum.val(),
                        power.val(),
                        diff.val(),
                        linear_combination(self.rows@, r.val(), j as int, gate as nat),
                        p,
                        d - c - a,
                    );
                    assert(a == wire(self.rows@, gate as int, 0, j as int));
                    assert(c == wire(self.rows@, gate as int, 2, j as int));
                    assert(d == wire(self.rows@, gate as int, 3, j as int));
                    crate::rs_code::lemma_pow_next_mod(r.val(), gate as nat, power.val());
                }
                sum = sum + power * diff;
                power = power * r;
            }
            proof {
                vstd::arithmetic::div_mod::lemma_small_mod(sum.val() as nat, 97);
            }

            v_l.push(sum);
        }

        let res = all_zero(&v_l);
        proof {
            assert forall|j: int| 0 <= j < n implies (#[trigger] linear_combination(
                self.rows@,
                r.val(),
                j,
                m as nat,
            ) % modulus() == 0) == (v_l@[j].val() == 0) by {
                assert(v_l@[j].val() == linear_combination(self.rows@, r.val(), j, m as nat) % modulus());
            }
        }
        res
    }

}


/// Every row has `n` entries, all equal.
pub open spec fn constant_rows(rows: Seq<Row>, n: nat) -> bool {
    &&& forall|i: int| 0 <= i < rows.len() ==> (#[trigger] rows[i]).values@.len() == n
    &&& forall|i: int, j: int|
        0 <= i < rows.len() && 0 <= j < n ==> (#[trigger] rows[i].values@[j]).val()
            == rows[i].values@[0].val()
}

/// The rows of gates whose product wire is right contribute nothing to `V_m`.
pub proof fn lemma_multiplication_terms_vanish(rows: Seq<Row>, x: int, j: int, lo: nat, k: nat)
    requires
        lo <= k,
        forall|g: int|
            lo <= g < k ==> cong(
                #[trigger] wire(rows, g, 0, j) * wire(rows, g, 1, j),
                wire(rows, g, 2, j),
            ),
    ensures
        cong(multiplication_combination(rows, x, j, k), multiplication_combination(rows, x, j, lo)),
    decreases k,
{
    if k > lo {
        let g = k - 1;
        lemma_multiplication_terms_vanish(rows, x, j, lo, (k - 1) as nat);
        let (a, b, c) = (wire(rows, g, 0, j), wire(rows, g, 1, j), wire(rows, g, 2, j));
        let p = pow(x, (k - 1) as nat);
        lemma_cong_sub(a * b, c, c, c);
        lemma_cong_mul(a * b - c, 0, p);
        lemma_cong_add(
            multiplication_combination(rows, x, j, (k - 1) as nat),
            multiplication_combination(rows, x, j, lo),
            p * (a * b - c),
            0,
        );
    }
}

/// The rows of gates whose linear relation holds contribute nothing to `V_l`.
pub proof fn lemma_linear_terms_vanish(rows: Seq<Row>, x: int, j: int, lo: nat, k: nat)
    requires
        lo <= k,
        forall|g: int|
            lo <= g < k ==> cong(
                #[trigger] wire(rows, g, 3, j),
                wire(rows, g, 2, j) + wire(rows, g, 0, j),
            ),
    ensures
        cong(linear_combination(rows, x, j, k), linear_combination(rows, x, j, lo)),
    decreases k,
{
    if k > lo {
        let g = k - 1;
        lemma_linear_terms_vanish(rows, x, j, lo, (k - 1) as nat);
        let (a, c, d) = (wire(rows, g, 0, j), wire(rows, g, 2, j), wire(rows, g, 3, j));
        let p = pow(x, (k - 1) as nat);
        lemma_cong_sub(d, c + a, c + a, c + a);
        lemma_cong_mul(d - (c + a), 0, p);
        assert(d - c - a == d - (c + a));
        lemma_cong_add(
            linear_combination(rows, x, j, (k - 1) as nat),
            linear_combination(rows, x, j, lo),
            p * (d - c - a),
            0,
        );
    }
}

/// The wires of an honestly built gate satisfy `x * y = t` and, when `z ≡ x * y + x`,
/// also `z = t + x`.
pub proof fn lemma_gate_relations(rows: Seq<Row>, g: int, x: int, y: int, z: int, n: nat, j: int)
    requires
        gate_rows(rows, g, x, y, x * y, z, n),
        0 <= j < n,
    ensures
        cong(wire(rows, g, 0, j) * wire(rows, g, 1, j), wire(rows, g, 2, j)),
        cong(z, x * y + x) ==> cong(wire(rows, g, 3, j), wire(rows, g, 2, j) + wire(rows, g, 0, j)),
        cong(wire(rows, g, 3, j), wire(rows, g, 2, j) + wire(rows, g, 0, j)) ==> cong(z, x * y + x),
{
    assert(wire(rows, g, 0, j) == x % 97);
    assert(wire(rows, g, 1, j) == y % 97);
    assert(wire(rows, g, 2, j) == (x * y) % 97);
    assert(wire(rows, g, 3, j) == z % 97);
    vstd::arithmetic::div_mod::lemma_mul_mod_noop_general(x, y, 97);
    lemma_cong_mod(x * y);
    lemma_cong_mod(x);
    lemma_cong_mod(z);
    lemma_cong_mod((x * y) % 97 * 1);
    lemma_cong_add((x * y) % 97, x * y, x % 97, x);
    lemma_cong_mod((x * y) % 97 + x % 97);
}

/// A combination of constant rows is the same at every position.
proof fn lemma_row_combination_constant(rows: Seq<Row>, x: int, j: int, k: nat, n: nat)
    requires
        k <= rows.len(),
        0 <= j < n,
        constant_rows(rows.take(k as int), n),
    ensures
        row_combination(rows, x, j, k) == row_combination(rows, x, 0, k),
    decreases k,
{
    if k > 0 {
        assert(rows.take((k - 1) as int) =~= rows.take(k as int).take((k - 1) as int));
        lemma_row_combination_constant(rows, x, j, (k - 1) as nat, n);
        assert(rows.take(k as int)[k - 1] == rows[k - 1]);
        assert(rows[k - 1].values@[j].val() == rows[k - 1].values@[0].val());
    }
}

/// The sum of a polynomial whose only nonzero coefficient is the constant one.
proof fn lemma_poly_sum_constant(c: Seq<F>, x: int, k: nat, v: int)
    requires
        1 <= k <= c.len(),
        c[0].val() == v,
        forall|i: int| 1 <= i < c.len() ==> (#[trigger] c[i]).val() == 0,
    ensures
        poly_sum(c, x, k) == v,
    decreases k,
{
    if k == 1 {
        lemma_pow0(x);
        assert(poly_sum(c, x, 0) == 0);
    } else {
        lemma_poly_sum_constant(c, x, (k - 1) as nat, v);
        assert(c[k - 1].val() == 0);
    }
}

/// A constant vector is a codeword for every admissible degree bound.
pub proof fn lemma_constant_codeword(v: Seq<int>, domain: Seq<F>, deg_bound: nat, value: int)
    requires
        v.len() == domain.len(),
        deg_bound < domain.len(),
        forall|k: int| 0 <= k < v.len() ==> #[trigger] v[k] == value % modulus(),
    ensures
        is_codeword_vals(v, domain, deg_bound),
{
    let c = Seq::new(deg_bound + 1, |i: int| if i == 0 { from_int(value) } else { from_int(0) });
    assert forall|k: int| 0 <= k < domain.len() implies #[trigger] v[k] == poly_eval(c, domain[k].val()) by {
        assert forall|i: int| 1 <= i < c.len() implies (#[trigger] c[i]).val() == 0 by {
            assert(c[i] == from_int(0));
        }
        lemma_poly_sum_constant(c, domain[k].val(), c.len(), value % 97);
        vstd::arithmetic::div_mod::lemma_mod_twice(value, 97);
    }
    assert(fits(c, domain, v));
}

/// The rows of a tableau built gate by gate from constants are constant.
proof fn lemma_gate_rows_constant(rows: Seq<Row>, m: nat, n: nat, xs: Seq<int>, ys: Seq<int>, zs: Seq<int>)
    requires
        rows.len() == 4 * m,
        xs.len() == m,
        ys.len() == m,
        zs.len() == m,
        forall|g: int| 0 <= g < m ==> #[trigger] gate_rows(rows, g, xs[g], ys[g], xs[g] * ys[g], zs[g], n),
    ensures
        constant_rows(rows, n),
{
    assert forall|i: int| 0 <= i < rows.len() implies (#[trigger] rows[i]).values@.len() == n && (
    forall|j: int| 0 <= j < n ==> (#[trigger] rows[i].values@[j]).val() == rows[i].values@[0].val())
        by {
        let g = i / 4;
        assert(i == 4 * g + i % 4);
        assert(gate_rows(rows, g, xs[g], ys[g], xs[g] * ys[g], zs[g], n));
    }
}

/// The rows of a tableau built from a witness are constant, and cover the domain.
pub proof fn lemma_tableau_rows(tab: Tableau, w: WitnessVec, params: LigeroParams)
    requires
        params.m == w.xs@.len(),
        w.ys@.len() >= params.m,
        w.zs@.len() >= params.m,
        tableau_of(tab, w, params),
    ensures
        constant_rows(tab.rows@, params.n as nat),
        gates_span_domain(tab),
        rows_span_domain(tab),
{
    let m = params.m as nat;
    let n = params.n as nat;
    let xs = Seq::new(m, |g: int| w.xs@[g].val());
    let ys = Seq::new(m, |g: int| w.ys@[g].val());
    let zs = Seq::new(m, |g: int| w.zs@[g].val());
    assert forall|g: int| 0 <= g < m implies #[trigger] gate_rows(
        tab.rows@,
        g,
        xs[g],
        ys[g],
        xs[g] * ys[g],
        zs[g],
        n,
    ) by {
        assert(gate_rows(
            tab.rows@,
            g,
            w.xs@[g].val(),
            w.ys@[g].val(),
            w.xs@[g].val() * w.ys@[g].val(),
            w.zs@[g].val(),
            n,
        ));
    }
    lemma_gate_rows_constant(tab.rows@, m, n, xs, ys, zs);
}

/// The rows of the single-gate tableau are constant, and cover the domain.
pub proof fn lemma_single_gate_rows(tab: Tableau, w: Witness, params: LigeroParams)
    requires
        single_gate_tableau_of(tab, w, params),
    ensures
        constant_rows(tab.rows@, params.n as nat),
        rows_span_domain(tab),
        4 <= tab.rows@.len(),
{
    let (x, y, z) = (w.x.val(), w.y.val(), w.z.val());
    assert(gate_rows(tab.rows@, 0, seq![x][0], seq![y][0], seq![x][0] * seq![y][0], seq![z][0], params.n as nat));
    lemma_gate_rows_constant(tab.rows@, 1, params.n as nat, seq![x], seq![y], seq![z]);
}

/// The proximity vector of a tableau with constant rows is a codeword whenever the degree
/// bound is below the domain size.
pub proof fn lemma_constant_rows_pass_proximity(tab: Tableau, r: int)
    requires
        tab.domain.points@.len() > tab.params.deg_bound,
        constant_rows(tab.rows@, tab.domain.points@.len() as nat),
    ensures
        passes_proximity(tab, r),
{
    let n = tab.domain.points@.len() as nat;
    let v = proximity_vector(tab, r);
    let value = row_combination(tab.rows@, r, 0, tab.rows@.len());
    assert(tab.rows@.take(tab.rows@.len() as int) =~= tab.rows@);
    assert forall|k: int| 0 <= k < v.len() implies #[trigger] v[k] == value % modulus() by {
        lemma_row_combination_constant(tab.rows@, r, k, tab.rows@.len(), n);
    }
    lemma_constant_codeword(v, tab.domain.points@, tab.params.deg_bound as nat, value);
}

/// The builder computes every product wire itself, so a tableau built from any witness,
/// whatever its `z` wire holds, passes the multiplication test for every challenge `r`.
pub proof fn law_built_tableau_passes_multiplication(
    tab: Tableau,
    w: WitnessVec,
    params: LigeroParams,
    r: int,
)
    requires
        params.m == w.xs@.len(),
        w.ys@.len() >= params.m,
        w.zs@.len() >= params.m,
        tableau_of(tab, w, params),
    ensures
        passes_multiplication(tab, r),
{
    let n = params.n as nat;
    let rows = tab.rows@;
    let m = params.m as nat;
    assert forall|j: int, g: int| 0 <= j < n && 0 <= g < m implies cong(
        #[trigger] wire(rows, g, 0, j) * wire(rows, g, 1, j),
        wire(rows, g, 2, j),
    ) by {
        let (x, y, z) = (w.xs@[g].val(), w.ys@[g].val(), w.zs@[g].val());
        assert(gate_rows(rows, g, x, y, x * y, z, n));
        lemma_gate_relations(rows, g, x, y, z, n, j);
    }
    assert forall|j: int| 0 <= j < n implies #[trigger] multiplication_combination(rows, r, j, m)
        % modulus() == 0 by {
        lemma_multiplication_terms_vanish(rows, r, j, 0, m);
    }
}

/// Completeness: a tableau built from an honest witness passes the multiplication and linear
/// tests for every challenge `r`, and the proximity test too when `deg_bound < n`.
pub proof fn law_honest_tableau_passes(tab: Tableau, w: WitnessVec, params: LigeroParams, r: int)
    requires
        w.is_honest(),
        params.m == w.xs@.len(),
        tableau_of(tab, w, params),
    ensures
        passes_multiplication(tab, r),
        passes_linear(tab, r),
        params.deg_bound < params.n ==> passes_proximity(tab, r),
{
    let n = params.n as nat;
    let rows = tab.rows@;
    let m = params.m as nat;
    assert forall|j: int, g: int| 0 <= j < n && 0 <= g < m implies cong(
        #[trigger] wire(rows, g, 0, j) * wire(rows, g, 1, j),
        wire(rows, g, 2, j),
    ) by {
        let (x, y, z) = (w.xs@[g].val(), w.ys@[g].val(), w.zs@[g].val());
        assert(gate_rows(rows, g, x, y, x * y, z, n));
        lemma_gate_relations(rows, g, x, y, z, n, j);
    }
    assert forall|j: int, g: int| 0 <= j < n && 0 <= g < m implies cong(
        #[trigger] wire(rows, g, 3, j),
        wire(rows, g, 2, j) + wire(rows, g, 0, j),
    ) by {
        let (x, y, z) = (w.xs@[g].val(), w.ys@[g].val(), w.zs@[g].val());
        assert(gate_rows(rows, g, x, y, x * y, z, n));
        assert(z == gate_output(x, y));
        lemma_cong_mod(x * y + x);
        lemma_gate_relations(rows, g, x, y, z, n, j);
    }
    assert forall|j: int| 0 <= j < n implies #[trigger] multiplication_combination(rows, r, j, m)
        % modulus() == 0 by {
        lemma_multiplication_terms_vanish(rows, r, j, 0, m);
    }
    assert forall|j: int| 0 <= j < n implies #[trigger] linear_combination(rows, r, j, m)
        % modulus() == 0 by {
        lemma_linear_terms_vanish(rows, r, j, 0, m);
    }
    if params.deg_bound < params.n {
        lemma_tableau_rows(tab, w, params);
        lemma_constant_rows_pass_proximity(tab, r);
    }
}

/// The single-gate tableau always passes the multiplication test (its product wire is
/// computed), and, over a nonempty domain, passes the linear test exactly when the witness
/// satisfies `z = x * y + x` in the field; it passes the proximity test when `deg_bound < n`.
pub proof fn law_single_gate_tests(tab: Tableau, w: Witness, params: LigeroParams, r: int)
    requires
        single_gate_tableau_of(tab, w, params),
        params.m == 1,
    ensures
        passes_multiplication(tab, r),
        params.n > 0 ==> (passes_linear(tab, r) <==> cong(
            w.z.val(),
            w.x.val() * w.y.val() + w.x.val(),
        )),
        params.deg_bound < params.n ==> passes_proximity(tab, r),
{
    let n = params.n as nat;
    let rows = tab.rows@;
    let (x, y, z) = (w.x.val(), w.y.val(), w.z.val());
    assert forall|j: int| 0 <= j < n implies #[trigger] multiplication_combination(rows, r, j, 1)
        % modulus() == 0 by {
        lemma_gate_relations(rows, 0, x, y, z, n, j);
        lemma_multiplication_terms_vanish(rows, r, j, 0, 1);
    }
    if n > 0 {
        lemma_gate_relations(rows, 0, x, y, z, n, 0);
        lemma_pow0(r);
        let lc = linear_combination(rows, r, 0, 1);
        assert(linear_combination(rows, r, 0, 0) == 0);
        assert(pow(r, 0) == 1);
        assert(lc == 1 * (wire(rows, 0, 3, 0) - wire(rows, 0, 2, 0) - wire(rows, 0, 0, 0)));
        if passes_linear(tab, r) {
            assert(lc % modulus() == 0);
            lemma_cong_add(lc, 0, wire(rows, 0, 2, 0) + wire(rows, 0, 0, 0), wire(rows, 0, 2, 0) + wire(rows, 0, 0, 0));
        }
        if cong(z, x * y + x) {
            assert forall|j: int| 0 <= j < n implies #[trigger] linear_combination(rows, r, j, 1)
                % modulus() == 0 by {
                lemma_gate_relations(rows, 0, x, y, z, n, j);
                lemma_linear_terms_vanish(rows, r, j, 0, 1);
            }
        }
    }
    if params.deg_bound < params.n {
        lemma_single_gate_rows(tab, w, params);
        lemma_constant_rows_pass_proximity(tab, r);
    }
}


/// Coefficient `t` of the random linear combination `Σ_{i < k} x^i * cs[i]` of polynomials.
pub open spec fn combined_coeff(cs: Seq<Seq<F>>, x: int, t: int, k: nat) -> int
    decreases k,
{
    if k == 0 {
        0
    } else {
        combined_coeff(cs, x, t, (k - 1) as nat) + pow(x, (k - 1) as nat) * cs[k - 1][t].val()
    }
}

/// The first `len` coefficients of `Σ_{i < k} x^i * cs[i]`.
pub open spec fn combined_seq(cs: Seq<Seq<F>>, x: int, k: nat, len: nat) -> Seq<int> {
    Seq::new(len, |t: int| combined_coeff(cs, x, t, k))
}

/// A polynomial's sum is the integer sum of its representatives.
proof fn lemma_poly_sum_vals(c: Seq<F>, y: int, k: nat)
    requires
        k <= c.len(),
    ensures
        poly_sum(c, y, k) == int_poly_sum(vals(c), y, k),
    decreases k,
{
    if k > 0 {
        lemma_poly_sum_vals(c, y, (k - 1) as nat);
    }
}


/// At each position, the combination of rows that are codewords is congruent to the value of
/// the combination of their polynomials.
proof fn lemma_combination_of_codewords(
    rows: Seq<Row>,
    cs: Seq<Seq<F>>,
    domain: Seq<F>,
    x: int,
    j: int,
    k: nat,
    len: nat,
)
    requires
        k <= rows.len(),
        k <= cs.len(),
        0 <= j < domain.len(),
        forall|i: int| 0 <= i < k ==> (#[trigger] cs[i]).len() == len,
        forall|i: int|
            0 <= i < k ==> fits(#[trigger] cs[i], domain, vals(rows[i].values@)),
        forall|i: int| 0 <= i < k ==> (#[trigger] rows[i]).values@.len() == domain.len(),
    ensures
        cong(row_combination(rows, x, j, k), int_poly_sum(combined_seq(cs, x, k, len), domain[j].val(), len)),
    decreases k,
{
    let y = domain[j].val();
    if k == 0 {
        let z = combined_seq(cs, x, 0, len);
        lemma_int_poly_sum_linear(z, z, z, 1, y, len);
    } else {
        let i = k - 1;
        lemma_combination_of_codewords(rows, cs, domain, x, j, (k - 1) as nat, len);
        let (prev, next) = (combined_seq(cs, x, (k - 1) as nat, len), combined_seq(cs, x, k, len));
        let pw = pow(x, i as nat);
        assert forall|t: int| 0 <= t < len implies #[trigger] next[t] == prev[t] + pw * vals(cs[i])[t] by {
            assert(next[t] == combined_coeff(cs, x, t, k));
            assert(prev[t] == combined_coeff(cs, x, t, (k - 1) as nat));
        }
        lemma_int_poly_sum_linear(prev, vals(cs[i]), next, pw, y, len);
        lemma_poly_sum_vals(cs[i], y, len);
        // rows[i][j] is the value of cs[i] at y
        assert(fits(cs[i], domain, vals(rows[i].values@)));
        assert(vals(rows[i].values@)[j] == poly_eval(cs[i], y));
        let v = rows[i].values@[j].val();
        lemma_cong_mod(poly_sum(cs[i], y, len));
        lemma_cong_mul(v, poly_sum(cs[i], y, len), pw);
        lemma_cong_add(
            row_combination(rows, x, j, (k - 1) as nat),
            int_poly_sum(prev, y, len),
            pw * v,
            pw * poly_sum(cs[i], y, len),
        );
    }
}

/// Proximity only checks code structure: when every row is a codeword, the proximity test
/// passes for every challenge, since the code is closed under linear combinations.
pub proof fn law_codeword_rows_pass_proximity(tab: Tableau, r: int)
    requires
        tab.params.deg_bound < tab.domain.points@.len(),
        forall|i: int|
            0 <= i < tab.rows@.len() ==> #[trigger] is_codeword(
                tab.rows@[i].values@,
                tab.domain.points@,
                tab.params.deg_bound as nat,
            ),
    ensures
        passes_proximity(tab, r),
{
    let domain = tab.domain.points@;
    let rows = tab.rows@;
    let len = (tab.params.deg_bound + 1) as nat;
    let count = rows.len();
    let cs = Seq::new(
        count,
        |i: int| choose|c: Seq<F>| c.len() == len && #[trigger] fits(c, domain, vals(rows[i].values@)),
    );
    assert forall|i: int| 0 <= i < count implies (#[trigger] cs[i]).len() == len && fits(
        cs[i],
        domain,
        vals(rows[i].values@),
    ) && rows[i].values@.len() == domain.len() by {
        assert(is_codeword(rows[i].values@, domain, tab.params.deg_bound as nat));
        assert(vals(rows[i].values@).len() == rows[i].values@.len());
    }
    assert forall|i: int| 0 <= i < count implies (#[trigger] rows[i]).values@.len() == domain.len() by {
        assert(is_codeword(rows[i].values@, domain, tab.params.deg_bound as nat));
        assert(vals(rows[i].values@).len() == rows[i].values@.len());
    }
    let comb = combined_seq(cs, r, count, len);
    let c = Seq::new(len, |t: int| crate::field::from_int(comb[t]));
    let v = proximity_vector(tab, r);
    assert forall|k: int| 0 <= k < domain.len() implies #[trigger] v[k] == poly_eval(c, domain[k].val()) by {
        let y = domain[k].val();
        lemma_combination_of_codewords(rows, cs, domain, r, k, count, len);
        assert forall|t: int| 0 <= t < len implies cong(#[trigger] c[t].val(), comb[t]) by {
            lemma_cong_mod(comb[t]);
        }
        lemma_poly_sum_congruent(c, comb, y, len);
    }
    assert(fits(c, domain, v));
}


/// Like `lemma_combination_of_codewords`, with row `i` taken out of the combination: every
/// row before `k` but row `i` is a codeword, and `cs[i]` is the zero polynomial.
proof fn lemma_combination_except(
    rows: Seq<Row>,
    cs: Seq<Seq<F>>,
    domain: Seq<F>,
    x: int,
    j: int,
    k: nat,
    len: nat,
    i: int,
)
    requires
        k <= rows.len(),
        k <= cs.len(),
        0 <= j < domain.len(),
        0 <= i < cs.len(),
        forall|l: int| 0 <= l < k ==> (#[trigger] cs[l]).len() == len,
        forall|l: int| 0 <= l < k && l != i ==> fits(#[trigger] cs[l], domain, vals(rows[l].values@)),
        forall|l: int| 0 <= l < k && l != i ==> (#[trigger] rows[l]).values@.len() == domain.len(),
        forall|t: int| 0 <= t < len ==> (#[trigger] cs[i][t]).val() == 0,
    ensures
        cong(
            row_combination(rows, x, j, k) - (if i < k {
                pow(x, i as nat) * rows[i].values@[j].val()
            } else {
                0
            }),
            int_poly_sum(combined_seq(cs, x, k, len), domain[j].val(), len),
        ),
    decreases k,
{
    let y = domain[j].val();
    if k == 0 {
        let z = combined_seq(cs, x, 0, len);
        lemma_int_poly_sum_linear(z, z, z, 1, y, len);
    } else {
        let l = k - 1;
        lemma_combination_except(rows, cs, domain, x, j, (k - 1) as nat, len, i);
        let (prev, next) = (combined_seq(cs, x, (k - 1) as nat, len), combined_seq(cs, x, k, len));
        let pw = pow(x, l as nat);
        assert forall|t: int| 0 <= t < len implies #[trigger] next[t] == prev[t] + pw * vals(cs[l])[t] by {
            assert(next[t] == combined_coeff(cs, x, t, k));
            assert(prev[t] == combined_coeff(cs, x, t, (k - 1) as nat));
        }
        lemma_int_poly_sum_linear(prev, vals(cs[l]), next, pw, y, len);
        lemma_poly_sum_vals(cs[l], y, len);
        let v = rows[l].values@[j].val();
        let rc = row_combination(rows, x, j, (k - 1) as nat);
        if l == i {
            let z = vals(cs[i]);
            assert forall|t: int| 0 <= t < len implies #[trigger] z[t] == z[t] + 1 * z[t] by {
                assert(cs[i][t].val() == 0);
            }
            lemma_int_poly_sum_linear(z, z, z, 1, y, len);
            assert(pw * 0 == 0);
            assert(rc + pw * v - pw * v == rc);
        } else {
            assert(fits(cs[l], domain, vals(rows[l].values@)));
            assert(vals(rows[l].values@)[j] == poly_eval(cs[l], y));
            let sub = if i < k - 1 { pow(x, i as nat) * rows[i].values@[j].val() } else { 0 };
            lemma_cong_mod(poly_sum(cs[l], y, len));
            lemma_cong_mul(v, poly_sum(cs[l], y, len), pw);
            lemma_cong_add(rc - sub, int_poly_sum(prev, y, len), pw * v, pw * poly_sum(cs[l], y, len));
            assert(rc + pw * v - sub == (rc - sub) + pw * v);
        }
    }
}

/// The proximity test combines every row of the tableau: when every row but row `i` is a
/// codeword and row `i` (reduced, with an entry for each domain point) is not, the test rejects
/// every challenge `r` with `r^i ≢ 0`, such as `r = 1`.
pub proof fn law_one_bad_row_fails_proximity(tab: Tableau, i: int, r: int)
    requires
        tab.params.deg_bound < tab.domain.points@.len(),
        0 <= i < tab.rows@.len(),
        tab.rows@[i].values@.len() == tab.domain.points@.len(),
        forall|j: int|
            0 <= j < tab.domain.points@.len() ==> 0 <= (#[trigger] tab.rows@[i].values@[j]).val()
                < modulus(),
        !is_codeword(tab.rows@[i].values@, tab.domain.points@, tab.params.deg_bound as nat),
        forall|k: int|
            0 <= k < tab.rows@.len() && k != i ==> #[trigger] is_codeword(
                tab.rows@[k].values@,
                tab.domain.points@,
                tab.params.deg_bound as nat,
            ),
        !cong(pow(r, i as nat), 0),
    ensures
        !passes_proximity(tab, r),
{
    let domain = tab.domain.points@;
    let rows = tab.rows@;
    let db = tab.params.deg_bound as nat;
    let len = db + 1;
    let count = rows.len();
    if passes_proximity(tab, r) {
        let v = proximity_vector(tab, r);
        let c = choose|c: Seq<F>| c.len() == len && #[trigger] fits(c, domain, v);
        let cs = Seq::new(
            count,
            |k: int|
                if k == i {
                    Seq::new(len, |t: int| from_int(0))
                } else {
                    choose|c: Seq<F>| c.len() == len && #[trigger] fits(c, domain, vals(rows[k].values@))
                },
        );
        assert forall|k: int| 0 <= k < count && k != i implies (#[trigger] cs[k]).len() == len && fits(
            cs[k],
            domain,
            vals(rows[k].values@),
        ) && rows[k].values@.len() == domain.len() by {
            assert(is_codeword(rows[k].values@, domain, db));
            assert(vals(rows[k].values@).len() == rows[k].values@.len());
        }
        assert forall|k: int| 0 <= k < count && k != i implies (#[trigger] rows[k]).values@.len()
            == domain.len() by {
            assert(is_codeword(rows[k].values@, domain, db));
            assert(vals(rows[k].values@).len() == rows[k].values@.len());
        }
        assert forall|k: int| 0 <= k < count implies (#[trigger] cs[k]).len() == len by {
            if k != i {
                assert(cs[k].len() == len && fits(cs[k], domain, vals(rows[k].values@)));
            }
        }
        assert forall|t: int| 0 <= t < len implies (#[trigger] cs[i][t]).val() == 0 by {
            assert(cs[i][t] == from_int(0));
        }
        let pi = pow(r, i as nat);
        let s = crate::field::lemma_inverse_exists(pi);
        let comb = combined_seq(cs, r, count, len);
        let diff = Seq::new(len, |t: int| c[t].val() + (-1) * comb[t]);
        let sd = Seq::new(len, |t: int| 0 + s * diff[t]);
        let z = Seq::new(len, |t: int| 0int);
        let c2 = Seq::new(len, |t: int| from_int(sd[t]));
        assert forall|t: int| 0 <= t < len implies cong(#[trigger] c2[t].val(), sd[t]) by {
            lemma_cong_mod(sd[t]);
        }
        let u = rows[i].values@;
        assert forall|j: int| 0 <= j < domain.len() implies #[trigger] vals(u)[j] == poly_eval(
            c2,
            domain[j].val(),
        ) by {
            let y = domain[j].val();
            let uj = u[j].val();
            lemma_combination_except(rows, cs, domain, r, j, count, len, i);
            let w = int_poly_sum(comb, y, len);
            let rc = row_combination(rows, r, j, count);
            // rc ≡ poly_sum(c, y, len), so pi * uj ≡ poly_sum(c) - w
            assert(v[j] == rc % 97);
            assert(v[j] == poly_eval(c, y));
            lemma_poly_sum_vals(c, y, len);
            lemma_int_poly_sum_linear(vals(c), comb, diff, -1, y, len);
            lemma_cong_sub(rc, poly_sum(c, y, len), rc - pi * uj, w);
            assert(rc - (rc - pi * uj) == pi * uj);
            assert(poly_sum(c, y, len) - w == int_poly_sum(diff, y, len));
            // uj ≡ s * pi * uj ≡ s * diff(y)
            lemma_cong_mul(pi * uj, int_poly_sum(diff, y, len), s);
            lemma_int_poly_sum_linear(z, diff, sd, s, y, len);
            lemma_int_poly_sum_linear(z, z, z, 1, y, len);
            lemma_mul_commutes(pi, s);
            lemma_cong_mul(pi * s, 1, uj);
            assert((pi * uj) * s == (pi * s) * uj) by (nonlinear_arith);
            assert(1 * uj == uj);
            lemma_poly_sum_congruent(c2, sd, y, len);
            // uj is reduced, so it equals the reduced value
            vstd::arithmetic::div_mod::lemma_small_mod(uj as nat, 97);
        }
        assert(fits(c2, domain, vals(u)));
        assert(is_codeword(u, domain, db));
    }
}

// ----- what each test computes, as a polynomial in the challenge -----

/// The errors `x_g * y_g - t_g` of the product relation of the `m` gates at position `j`.
pub open spec fn multiplication_errors(rows: Seq<Row>, j: int, m: nat) -> Seq<int> {
    Seq::new(
        m,
        |g: int|
            rows[4 * g].values@[j].val() * rows[4 * g + 1].values@[j].val() - rows[4 * g
                + 2].values@[j].val(),
    )
}

/// The errors `z_g - t_g - x_g` of the linear relation of the `m` gates at position `j`.
pub open spec fn linear_errors(rows: Seq<Row>, j: int, m: nat) -> Seq<int> {
    Seq::new(
        m,
        |g: int|
            rows[4 * g + 3].values@[j].val() - rows[4 * g + 2].values@[j].val() - rows[4
                * g].values@[j].val(),
    )
}

/// The entries of all rows at position `j`, row by row.
pub open spec fn column(rows: Seq<Row>, j: int) -> Seq<int> {
    Seq::new(rows.len(), |i: int| rows[i].values@[j].val())
}

proof fn lemma_mul_commutes(a: int, b: int)
    ensures
        a * b == b * a,
{
    assert(a * b == b * a) by (nonlinear_arith);
}

/// `V_m[j]` before reduction is the polynomial with the gates' product errors as
/// coefficients, evaluated at the challenge.
proof fn lemma_multiplication_combination_poly(rows: Seq<Row>, x: int, j: int, k: nat, m: nat)
    requires
        k <= m,
    ensures
        multiplication_combination(rows, x, j, k) == int_poly_sum(multiplication_errors(rows, j, m), x, k),
    decreases k,
{
    if k > 0 {
        lemma_multiplication_combination_poly(rows, x, j, (k - 1) as nat, m);
        let g = k - 1;
        let e = multiplication_errors(rows, j, m);
        assert(e[g] == wire(rows, g, 0, j) * wire(rows, g, 1, j) - wire(rows, g, 2, j));
        lemma_mul_commutes(pow(x, g as nat), e[g]);
    }
}

/// `V_l[j]` before reduction is the polynomial with the gates' linear errors as
/// coefficients, evaluated at the challenge.
proof fn lemma_linear_combination_poly(rows: Seq<Row>, x: int, j: int, k: nat, m: nat)
    requires
        k <= m,
    ensures
        linear_combination(rows, x, j, k) == int_poly_sum(linear_errors(rows, j, m), x, k),
    decreases k,
{
    if k > 0 {
        lemma_linear_combination_poly(rows, x, j, (k - 1) as nat, m);
        let g = k - 1;
        let e = linear_errors(rows, j, m);
        assert(e[g] == wire(rows, g, 3, j) - wire(rows, g, 2, j) - wire(rows, g, 0, j));
        lemma_mul_commutes(pow(x, g as nat), e[g]);
    }
}

/// `V_p[j]` before reduction is the polynomial with the column of the rows at `j` as
/// coefficients, evaluated at the challenge.
proof fn lemma_row_combination_poly(rows: Seq<Row>, x: int, j: int, k: nat)
    requires
        k <= rows.len(),
    ensures
        row_combination(rows, x, j, k) == int_poly_sum(column(rows, j), x, k),
    decreases k,
{
    if k > 0 {
        lemma_row_combination_poly(rows, x, j, (k - 1) as nat);
        let i = k - 1;
        lemma_mul_commutes(pow(x, i as nat), column(rows, j)[i]);
    }
}

/// The multiplication test weighs gate `g` by `r^g`: it passes exactly when, at every
/// position `j`, `Σ_g r^g * (x_g[j] * y_g[j] - t_g[j]) ≡ 0`.
pub proof fn law_multiplication_test_weights(tab: Tableau, r: int)
    ensures
        passes_multiplication(tab, r) <==> forall|j: int|
            0 <= j < tab.domain.points@.len() ==> cong(
                #[trigger] int_poly_sum(
                    multiplication_errors(tab.rows@, j, tab.params.m as nat),
                    r,
                    tab.params.m as nat,
                ),
                0,
            ),
{
    let m = tab.params.m as nat;
    assert forall|j: int|
        #![trigger multiplication_combination(tab.rows@, r, j, m)]
        #![trigger int_poly_sum(multiplication_errors(tab.rows@, j, m), r, m)]
        0 <= j < tab.domain.points@.len() implies multiplication_combination(tab.rows@, r, j, m)
            == int_poly_sum(multiplication_errors(tab.rows@, j, m), r, m) by {
        lemma_multiplication_combination_poly(tab.rows@, r, j, m, m);
    }
}

/// The linear test weighs gate `g` by `r^g`: it passes exactly when, at every position `j`,
/// `Σ_g r^g * (z_g[j] - t_g[j] - x_g[j]) ≡ 0`.
pub proof fn law_linear_test_weights(tab: Tableau, r: int)
    ensures
        passes_linear(tab, r) <==> forall|j: int|
            0 <= j < tab.domain.points@.len() ==> cong(
                #[trigger] int_poly_sum(linear_errors(tab.rows@, j, tab.params.m as nat), r, tab.params.m as nat),
                0,
            ),
{
    let m = tab.params.m as nat;
    assert forall|j: int|
        #![trigger linear_combination(tab.rows@, r, j, m)]
        #![trigger int_poly_sum(linear_errors(tab.rows@, j, m), r, m)]
        0 <= j < tab.domain.points@.len() implies linear_combination(tab.rows@, r, j, m)
            == int_poly_sum(linear_errors(tab.rows@, j, m), r, m) by {
        lemma_linear_combination_poly(tab.rows@, r, j, m, m);
    }
}

/// `V_p` combines every row of the tableau, row `i` with weight `r^i`: its entry at `j` is
/// `Σ_i r^i * u_i[j]` in the field.
pub proof fn law_proximity_vector_weights(tab: Tableau, r: int)
    ensures
        proximity_vector(tab, r).len() == tab.domain.points@.len(),
        forall|j: int|
            0 <= j < tab.domain.points@.len() ==> #[trigger] proximity_vector(tab, r)[j] == int_poly_sum(
                column(tab.rows@, j),
                r,
                tab.rows@.len(),
            ) % modulus(),
{
    assert forall|j: int| 0 <= j < tab.domain.points@.len() implies #[trigger] proximity_vector(tab, r)[j]
        == int_poly_sum(column(tab.rows@, j), r, tab.rows@.len()) % modulus() by {
        lemma_row_combination_poly(tab.rows@, r, j, tab.rows@.len());
    }
}

/// `e0 + e1 * r` with `e0 ≡ d`, `e1 ≡ -d`, `d ≢ 0` vanishes exactly at `r ≡ 1`.
pub proof fn lemma_affine_vanishes(e0: int, e1: int, d: int, r: int)
    requires
        cong(e0, d),
        cong(e1, -d),
        !cong(d, 0),
    ensures
        cong(e0 + e1 * r, 0) <==> cong(r, 1),
{
    lemma_cong_mul(e1, -d, r);
    lemma_cong_add(e0, d, e1 * r, (-d) * r);
    assert(d + (-d) * r == d * (1 - r)) by (nonlinear_arith);
    if cong(r, 1) {
        lemma_cong_sub(1, 1, r, 1);
        lemma_cong_mul(1 - r, 0, d);
        lemma_mul_commutes(d, 1 - r);
    } else {
        if (1 - r) % modulus() == 0 {
            lemma_cong_sub(1, 1, 1 - r, 0);
        }
        lemma_no_zero_divisors(d, 1 - r);
    }
}

/// `e0 + e1 * r + e2 * r * r` with `e0 ≡ 0`, `e1 ≡ -d`, `e2 ≡ d`, `d ≢ 0` vanishes exactly
/// at `r ≡ 0` and `r ≡ 1`.
pub proof fn lemma_quadratic_vanishes(e0: int, e1: int, e2: int, d: int, r: int)
    requires
        cong(e0, 0),
        cong(e1, -d),
        cong(e2, d),
        !cong(d, 0),
    ensures
        cong(e0 + e1 * r + e2 * (r * r), 0) <==> (cong(r, 0) || cong(r, 1)),
{
    lemma_cong_mul(e1, -d, r);
    lemma_cong_mul(e2, d, r * r);
    lemma_cong_add(e0, 0, e1 * r, (-d) * r);
    lemma_cong_add(e0 + e1 * r, 0 + (-d) * r, e2 * (r * r), d * (r * r));
    assert(0 + (-d) * r + d * (r * r) == d * (r * (r - 1))) by (nonlinear_arith);
    let q = r * (r - 1);
    if cong(r, 0) {
        lemma_cong_mul(r, 0, r - 1);
        lemma_cong_mul(q, 0, d);
        lemma_mul_commutes(d, q);
    } else if cong(r, 1) {
        lemma_cong_sub(r, 1, 1, 1);
        lemma_cong_mul(r - 1, 0, r);
        lemma_cong_mul(q, 0, d);
        lemma_mul_commutes(d, q);
    } else {
        if (r - 1) % modulus() == 0 {
            lemma_cong_add(r - 1, 0, 1, 1);
        }
        lemma_no_zero_divisors(r, r - 1);
        lemma_no_zero_divisors(d, q);
    }
}

/// In the tableau of a witness, the product error of each gate vanishes in the field and the
/// linear error is congruent to `z - x * y - x`.
pub(crate) proof fn lemma_built_gate_errors(tab: Tableau, w: WitnessVec, params: LigeroParams, g: int, j: int)
    requires
        params.m == w.xs@.len(),
        w.ys@.len() >= params.m,
        w.zs@.len() >= params.m,
        tableau_of(tab, w, params),
        0 <= g < params.m,
        0 <= j < params.n,
    ensures
        cong(multiplication_errors(tab.rows@, j, params.m as nat)[g], 0),
        cong(
            linear_errors(tab.rows@, j, params.m as nat)[g],
            w.zs@[g].val() - w.xs@[g].val() * w.ys@[g].val() - w.xs@[g].val(),
        ),
{
    let rows = tab.rows@;
    let n = params.n as nat;
    let (x, y, z) = (w.xs@[g].val(), w.ys@[g].val(), w.zs@[g].val());
    assert(gate_rows(rows, g, x, y, x * y, z, n));
    lemma_gate_relations(rows, g, x, y, z, n, j);
    let (a, b, c, e) = (wire(rows, g, 0, j), wire(rows, g, 1, j), wire(rows, g, 2, j), wire(rows, g, 3, j));
    assert(multiplication_errors(rows, j, params.m as nat)[g] == a * b - c);
    lemma_cong_sub(a * b, c, c, c);
    assert(linear_errors(rows, j, params.m as nat)[g] == e - c - a);
    assert(a == x % 97 && c == (x * y) % 97 && e == z % 97);
    lemma_cong_mod(x);
    lemma_cong_mod(x * y);
    lemma_cong_mod(z);
    lemma_cong_sub(e, z, c, x * y);
    lemma_cong_sub(e - c, z - x * y, a, x);
}

/// A correlated error on two output wires is caught by the weights `r^g`: in a tableau built
/// from a witness whose `z_0` is off by `+d` and `z_1` by `-d` (`d ≢ 0`, every other gate
/// honest, nonempty domain), the linear test passes exactly for `r ≡ 1`.
pub proof fn law_correlated_outputs_fail_linear(
    tab: Tableau,
    w: WitnessVec,
    params: LigeroParams,
    d: int,
    r: int,
)
    requires
        params.m == w.xs@.len(),
        w.ys@.len() >= params.m,
        w.zs@.len() >= params.m,
        tableau_of(tab, w, params),
        params.m >= 2,
        params.n > 0,
        !cong(d, 0),
        cong(w.zs@[0].val(), w.xs@[0].val() * w.ys@[0].val() + w.xs@[0].val() + d),
        cong(w.zs@[1].val(), w.xs@[1].val() * w.ys@[1].val() + w.xs@[1].val() - d),
        forall|g: int|
            2 <= g < params.m ==> cong(
                #[trigger] w.zs@[g].val(),
                w.xs@[g].val() * w.ys@[g].val() + w.xs@[g].val(),
            ),
    ensures
        passes_linear(tab, r) <==> cong(r, 1),
{
    let m = params.m as nat;
    let n = params.n as nat;
    law_linear_test_weights(tab, r);
    assert forall|j: int| 0 <= j < n implies (cong(
        #[trigger] int_poly_sum(linear_errors(tab.rows@, j, m), r, m),
        0,
    ) <==> cong(r, 1)) by {
        let e = linear_errors(tab.rows@, j, m);
        assert forall|g: int| 2 <= g < m implies cong(#[trigger] e[g], 0) by {
            lemma_built_gate_errors(tab, w, params, g, j);
            let (x, y, z) = (w.xs@[g].val(), w.ys@[g].val(), w.zs@[g].val());
            lemma_cong_sub(z, x * y + x, x * y + x, x * y + x);
        }
        lemma_tail_vanishes(e, r, 2, m);
        lemma_built_gate_errors(tab, w, params, 0, j);
        lemma_built_gate_errors(tab, w, params, 1, j);
        let (x0, y0, z0) = (w.xs@[0].val(), w.ys@[0].val(), w.zs@[0].val());
        let (x1, y1, z1) = (w.xs@[1].val(), w.ys@[1].val(), w.zs@[1].val());
        lemma_cong_sub(z0, x0 * y0 + x0 + d, x0 * y0 + x0, x0 * y0 + x0);
        lemma_cong_sub(z1, x1 * y1 + x1 - d, x1 * y1 + x1, x1 * y1 + x1);
        lemma_pow0(r);
        lemma_pow1(r);
        assert(int_poly_sum(e, r, 2) == e[0] * pow(r, 0) + e[1] * pow(r, 1)) by {
            assert(int_poly_sum(e, r, 0) == 0);
            assert(int_poly_sum(e, r, 1) == e[0] * pow(r, 0));
        }
        assert(e[0] * 1 == e[0]);
        lemma_affine_vanishes(e[0], e[1], d, r);
    }
    assert(cong(int_poly_sum(linear_errors(tab.rows@, 0, m), r, m), 0) <==> cong(r, 1));
}

} // verus!
