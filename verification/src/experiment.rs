//! The soundness experiment: random honest witnesses, a correlated cheating prover that
//! keeps every row in the code and every linear relation intact, and the acceptance counts
//! over repeated rounds with fresh random challenges.

use vstd::prelude::*;
use vstd::arithmetic::power::{pow, lemma_pow0, lemma_pow1, lemma_pow_adds};
use rand::Rng;
use rand::rngs::ThreadRng;
use crate::field::{
    F, modulus, cong, lemma_cong_mod, lemma_cong_sub, lemma_cong_add, lemma_cong_mul,
    lemma_no_zero_divisors,
};
use crate::ligero_mini::{
    Tableau, WitnessVec, LigeroParams, tableau_of, gates_span_domain, rows_span_domain,
    lemma_gates_span_tests,
    passes_proximity, passes_multiplication, passes_linear, wire, multiplication_combination,
    constant_rows, gate_rows, gate_output, lemma_tableau_rows, lemma_multiplication_terms_vanish,
    lemma_linear_terms_vanish, lemma_constant_rows_pass_proximity, multiplication_errors,
    law_multiplication_test_weights, lemma_built_gate_errors, lemma_quadratic_vanishes,
};
use crate::roots::int_poly_sum;
use crate::rs_code::lemma_tail_vanishes;

verus! {

broadcast use crate::field::lemma_from_int_val;

#[verifier::external_type_specification]
#[verifier::external_body]
pub struct ExThreadRng(ThreadRng);

/// `rand::Rng::gen_range` on the range `lo..hi` of `u32`: a random number in `[lo, hi)`.
/// Which one comes back depends on the generator's state; the range is all that is claimed.
/// An empty range makes `gen_range` panic, so it is excluded.
#[verifier::external_body]
fn random_in_range(rng: &mut ThreadRng, lo: u32, hi: u32) -> (r: u32)
    requires
        lo < hi,
    ensures
        lo <= r < hi,
{
    rng.gen_range(lo..hi)
}

/// An honest witness for `m` gates with random nonzero `x_i, y_i`
/// (nonzero only to get nicer numbers).
pub fn random_witness_vec(m: usize, rng: &mut ThreadRng) -> (w: WitnessVec)
    ensures
        w.is_honest(),
        w.xs@.len() == m,
        forall|i: int| 0 <= i < m ==> 1 <= (#[trigger] w.xs@[i]).val() < modulus(),
        forall|i: int| 0 <= i < m ==> 1 <= (#[trigger] w.ys@[i]).val() < modulus(),
{
    let mut xs: Vec<F> = Vec::new();
    let mut ys: Vec<F> = Vec::new();
    for i in 0..m
        invariant
            xs@.len() == i,
            forall|k: int| 0 <= k < i ==> 1 <= (#[trigger] xs@[k]).val() < modulus(),
    {
        xs.push(F::from(random_in_range(rng, 1, F::P)));
    }
    for i in 0..m
        invariant
            ys@.len() == i,
            forall|k: int| 0 <= k < i ==> 1 <= (#[trigger] ys@[k]).val() < modulus(),
    {
        ys.push(F::from(random_in_range(rng, 1, F::P)));
    }
    WitnessVec::from_xy(xs, ys)
}

/// `new` is `old` with its first `n` entries shifted by `d` in the field.
pub open spec fn shifted_values(old: Seq<F>, new: Seq<F>, d: int, n: nat) -> bool {
    &&& new.len() == old.len()
    &&& forall|j: int| 0 <= j < n ==> #[trigger] new[j].val() == (old[j].val() + d) % modulus()
    &&& forall|j: int| n <= j < old.len() ==> #[trigger] new[j] == old[j]
}

/// `cheat` is `honest` with the correlated cheat of size `d`: the product and output wires of
/// gate 0 (rows 2 and 3) raised by `d` and those of gate 1 (rows 6 and 7) lowered by `d`, at
/// every domain position; all else unchanged.
pub open spec fn correlated_cheat_of(honest: Tableau, cheat: Tableau, d: int) -> bool {
    let n = honest.domain.points@.len() as nat;
    &&& cheat.params == honest.params
    &&& cheat.domain == honest.domain
    &&& cheat.rows@.len() == honest.rows@.len()
    &&& forall|i: int|
        0 <= i < honest.rows@.len() && i != 2 && i != 3 && i != 6 && i != 7
            ==> #[trigger] cheat.rows@[i] == honest.rows@[i]
    &&& shifted_values(honest.rows@[2].values@, cheat.rows@[2].values@, d, n)
    &&& shifted_values(honest.rows@[3].values@, cheat.rows@[3].values@, d, n)
    &&& shifted_values(honest.rows@[6].values@, cheat.rows@[6].values@, -d, n)
    &&& shifted_values(honest.rows@[7].values@, cheat.rows@[7].values@, -d, n)
}

/// `cheat` is `honest` with the product wire of gate 1 (row 6) raised by `d` and that of
/// gate 2 (row 10) lowered by `d` at every domain position; all else unchanged.
pub open spec fn product_shift_of(honest: Tableau, cheat: Tableau, d: int) -> bool {
    let n = honest.domain.points@.len() as nat;
    &&& cheat.params == honest.params
    &&& cheat.domain == honest.domain
    &&& cheat.rows@.len() == honest.rows@.len()
    &&& forall|i: int|
        0 <= i < honest.rows@.len() && i != 6 && i != 10 ==> #[trigger] cheat.rows@[i]
            == honest.rows@[i]
    &&& shifted_values(honest.rows@[6].values@, cheat.rows@[6].values@, d, n)
    &&& shifted_values(honest.rows@[10].values@, cheat.rows@[10].values@, -d, n)
}

/// Corrupt the product wires of gate 0 and gate 1 in opposite directions, keeping
/// `z = t + x` on both so that the linear test still holds.
pub fn apply_correlated_cheat(tab: &mut Tableau, delta: F)
    requires
        old(tab).params.m >= 2,
        8 <= old(tab).rows@.len(),
        forall|i: int|
            (i == 2 || i == 3 || i == 6 || i == 7) ==> (#[trigger] old(tab).rows@[i]).values@.len()
                >= old(tab).domain.points@.len(),
    ensures
        correlated_cheat_of(*old(tab), *final(tab), delta.val()),
        gates_span_domain(*old(tab)) ==> gates_span_domain(*final(tab)),
        rows_span_domain(*old(tab)) ==> rows_span_domain(*final(tab)),
{
    let n = tab.domain.len();

    let idx_t0 = 4 * 0 + 2;
    let idx_z0 = 4 * 0 + 3;
    let idx_t1 = 4 * 1 + 2;
    let idx_z1 = 4 * 1 + 3;

    let ghost start = *tab;
    for j in 0..n
        invariant
            n == start.domain.points@.len(),
            idx_t0 == 2 && idx_z0 == 3 && idx_t1 == 6 && idx_z1 == 7,
            8 <= start.rows@.len(),
            forall|i: int| (i == 2 || i == 3 || i == 6 || i == 7) ==> start.rows@[i].values@.len() >= n,
            start.params.m >= 2,
            tab.params == start.params,
            tab.domain == start.domain,
            tab.rows@.len() == start.rows@.len(),
            forall|i: int|
                0 <= i < start.rows@.len() && i != 2 && i != 3 && i != 6 && i != 7
                    ==> #[trigger] tab.rows@[i] == start.rows@[i],
            forall|i: int|
                (i == 2 || i == 3 || i == 6 || i == 7) ==> (#[trigger] tab.rows@[i]).values@.len()
                    == start.rows@[i].values@.len(),
            forall|i: int, k: int|
                (i == 2 || i == 3 || i == 6 || i == 7) && j <= k < start.rows@[i].values@.len()
                    ==> #[trigger] tab.rows@[i].values@[k] == start.rows@[i].values@[k],
            forall|k: int|
                0 <= k < j ==> (#[trigger] tab.rows@[2].values@[k]).val() == (
                start.rows@[2].values@[k].val() + delta.val()) % modulus(),
            forall|k: int|
                0 <= k < j ==> (#[trigger] tab.rows@[3].values@[k]).val() == (
                start.rows@[3].values@[k].val() + delta.val()) % modulus(),
            forall|k: int|
                0 <= k < j ==> (#[trigger] tab.rows@[6].values@[k]).val() == (
                start.rows@[6].values@[k].val() - delta.val()) % modulus(),
            forall|k: int|
                0 <= k < j ==> (#[trigger] tab.rows@[7].values@[k]).val() == (
                start.rows@[7].values@[k].val() - delta.val()) % modulus(),
    {
        let v = tab.rows[idx_t0].values[j] + delta;
        tab.rows[idx_t0].values[j] = v;
        let v = tab.rows[idx_z0].values[j] + delta;
        tab.rows[idx_z0].values[j] = v;

        let v = tab.rows[idx_t1].values[j] - delta;
        tab.rows[idx_t1].values[j] = v;
        let v = tab.rows[idx_z1].values[j] - delta;
        tab.rows[idx_z1].values[j] = v;
    }
    proof {
        assert forall|i: int| 0 <= i < tab.rows@.len() implies (#[trigger] tab.rows@[i]).values@.len()
            == start.rows@[i].values@.len() by {
            if i != 2 && i != 3 && i != 6 && i != 7 {
                assert(tab.rows@[i] == start.rows@[i]);
            }
        }
    }
}


/// The cheat keeps every row constant: shifting a constant row keeps it constant.
proof fn lemma_cheat_rows_constant(honest: Tableau, cheat: Tableau, d: int)
    requires
        correlated_cheat_of(honest, cheat, d),
        constant_rows(honest.rows@, honest.domain.points@.len() as nat),
        8 <= honest.rows@.len(),
    ensures
        constant_rows(cheat.rows@, cheat.domain.points@.len() as nat),
{
    let n = honest.domain.points@.len() as nat;
    assert forall|i: int| 0 <= i < cheat.rows@.len() implies (#[trigger] cheat.rows@[i]).values@.len() == n
        && (forall|j: int| 0 <= j < n ==> (#[trigger] cheat.rows@[i].values@[j]).val()
        == cheat.rows@[i].values@[0].val()) by {
        assert(honest.rows@[i].values@.len() == n);
        if i != 2 && i != 3 && i != 6 && i != 7 {
            assert(cheat.rows@[i] == honest.rows@[i]);
        } else {
            assert forall|j: int| 0 <= j < n implies (#[trigger] cheat.rows@[i].values@[j]).val()
                == cheat.rows@[i].values@[0].val() by {
                assert(honest.rows@[i].values@[j].val() == honest.rows@[i].values@[0].val());
            }
        }
    }
}

/// Soundness of the multiplication test against the correlated cheat, and its invisibility
/// to the other two tests: with a nonzero shift `d` over a nonempty domain, the cheating
/// tableau passes the multiplication test exactly for the challenges `r ≡ 1`, i.e. with
/// probability `1/p` over a uniform challenge; it passes the linear test for every challenge,
/// and the proximity test too when `deg_bound < n`.
pub proof fn law_correlated_cheat(
    honest: Tableau,
    cheat: Tableau,
    w: WitnessVec,
    params: LigeroParams,
    d: int,
    r: int,
)
    requires
        w.is_honest(),
        params.m == w.xs@.len(),
        params.m >= 2,
        tableau_of(honest, w, params),
        correlated_cheat_of(honest, cheat, d),
    ensures
        passes_linear(cheat, r),
        params.deg_bound < params.n ==> passes_proximity(cheat, r),
        params.n > 0 && d % modulus() != 0 ==> (passes_multiplication(cheat, r) <==> r
            % modulus() == 1),
{
    let n = params.n as nat;
    let m = params.m as nat;
    let (hr, cr) = (honest.rows@, cheat.rows@);
    lemma_tableau_rows(honest, w, params);
    // every gate of the honest tableau satisfies both relations
    assert forall|j: int, g: int| 0 <= j < n && 0 <= g < m implies cong(
        #[trigger] wire(hr, g, 0, j) * wire(hr, g, 1, j),
        wire(hr, g, 2, j),
    ) && cong(wire(hr, g, 3, j), wire(hr, g, 2, j) + wire(hr, g, 0, j)) by {
        let (x, y, z) = (w.xs@[g].val(), w.ys@[g].val(), w.zs@[g].val());
        assert(gate_rows(hr, g, x, y, x * y, z, n));
        assert(z == gate_output(x, y));
        lemma_cong_mod(x * y + x);
        crate::ligero_mini::lemma_gate_relations(hr, g, x, y, z, n, j);
    }
    // the cheat keeps the wires of gates >= 2 and the x, y wires of gates 0 and 1
    assert forall|j: int, g: int, k: int|
        0 <= j < n && 0 <= g < m && 0 <= k < 4 && !((g == 0 || g == 1) && (k == 2 || k == 3))
            implies #[trigger] wire(cr, g, k, j) == wire(hr, g, k, j) by {
        assert(cr[4 * g + k] == hr[4 * g + k]);
    }
    // linear relation on every gate of the cheat
    assert forall|j: int, g: int| 0 <= j < n && 0 <= g < m implies cong(
        #[trigger] wire(cr, g, 3, j),
        wire(cr, g, 2, j) + wire(cr, g, 0, j),
    ) by {
        assert(cong(wire(hr, g, 0, j) * wire(hr, g, 1, j), wire(hr, g, 2, j)));
        let (x, t, z) = (wire(hr, g, 0, j), wire(hr, g, 2, j), wire(hr, g, 3, j));
        assert(wire(cr, g, 0, j) == x);
        if g == 0 || g == 1 {
            let e = if g == 0 { d } else { -d };
            assert(wire(cr, g, 2, j) == (t + e) % 97);
            assert(wire(cr, g, 3, j) == (z + e) % 97);
            lemma_cong_mod(t + e);
            lemma_cong_mod(z + e);
            lemma_cong_add(z, t + x, e, e);
            lemma_cong_add((t + e) % 97, t + e, x, x);
        } else {
            assert(wire(cr, g, 2, j) == t && wire(cr, g, 3, j) == z);
        }
    }
    assert forall|j: int| 0 <= j < n implies #[trigger] crate::ligero_mini::linear_combination(
        cr,
        r,
        j,
        m,
    ) % modulus() == 0 by {
        lemma_linear_terms_vanish(cr, r, j, 0, m);
    }
    if params.deg_bound < params.n {
        lemma_cheat_rows_constant(honest, cheat, d);
        lemma_constant_rows_pass_proximity(cheat, r);
    }
    if params.n > 0 && d % modulus() != 0 {
        // V_m[j] ≡ -d + r * d at every position j
        assert forall|j: int| 0 <= j < n implies cong(
            #[trigger] multiplication_combination(cr, r, j, m),
            d * (r - 1),
        ) by {
            assert forall|g: int| 2 <= g < m implies cong(
                #[trigger] wire(cr, g, 0, j) * wire(cr, g, 1, j),
                wire(cr, g, 2, j),
            ) by {
                assert(cong(wire(hr, g, 0, j) * wire(hr, g, 1, j), wire(hr, g, 2, j)));
                assert(wire(cr, g, 0, j) == wire(hr, g, 0, j));
                assert(wire(cr, g, 1, j) == wire(hr, g, 1, j));
                assert(wire(cr, g, 2, j) == wire(hr, g, 2, j));
            }
            lemma_multiplication_terms_vanish(cr, r, j, 2, m);
            // the first two gates
            let (x0, y0, t0) = (wire(hr, 0, 0, j), wire(hr, 0, 1, j), wire(hr, 0, 2, j));
            let (x1, y1, t1) = (wire(hr, 1, 0, j), wire(hr, 1, 1, j), wire(hr, 1, 2, j));
            assert(cong(x0 * y0, t0) && cong(x1 * y1, t1));
            assert(wire(cr, 0, 0, j) == x0 && wire(cr, 0, 1, j) == y0);
            assert(wire(cr, 1, 0, j) == x1 && wire(cr, 1, 1, j) == y1);
            let (u0, u1) = (wire(cr, 0, 2, j), wire(cr, 1, 2, j));
            assert(u0 == (t0 + d) % 97 && u1 == (t1 + (-d)) % 97);
            lemma_pow0(r);
            lemma_pow1(r);
            assert(multiplication_combination(cr, r, j, 0) == 0);
            assert(multiplication_combination(cr, r, j, 1) == 1 * (x0 * y0 - u0));
            assert(multiplication_combination(cr, r, j, 2) == 1 * (x0 * y0 - u0) + r * (x1 * y1
                - u1));
            lemma_cong_mod(t0 + d);
            lemma_cong_mod(t1 + (-d));
            lemma_cong_sub(x0 * y0, t0, u0, t0 + d);
            lemma_cong_sub(x1 * y1, t1, u1, t1 + (-d));
            lemma_cong_mul(x1 * y1 - u1, t1 - (t1 + (-d)), r);
            lemma_cong_add(x0 * y0 - u0, t0 - (t0 + d), r * (x1 * y1 - u1), r * (t1 - (t1 + (-d))));
            assert((t0 - (t0 + d)) + r * (t1 - (t1 + (-d))) == d * (r - 1)) by (nonlinear_arith);
        }
        let v = multiplication_combination(cr, r, 0, m);
        assert(cong(v, d * (r - 1)));
        if passes_multiplication(cheat, r) {
            assert(v % modulus() == 0);
            if (r - 1) % modulus() != 0 {
                lemma_no_zero_divisors(d, r - 1);
            }
            lemma_cong_add(r - 1, 0, 1, 1);
        }
        if r % modulus() == 1 {
            lemma_cong_sub(r, 1, 1, 1);
            lemma_cong_mul(r - 1, 0, d);
            assert forall|j: int| 0 <= j < n implies #[trigger] multiplication_combination(
                cr,
                r,
                j,
                m,
            ) % modulus() == 0 by {
                assert(cong(multiplication_combination(cr, r, j, m), d * (r - 1)));
            }
        }
    }
}


/// One round with challenge `r` is accepted: all three tests pass.
pub open spec fn accepts(tab: Tableau, r: int) -> bool {
    &&& passes_proximity(tab, r)
    &&& passes_multiplication(tab, r)
    &&& passes_linear(tab, r)
}

/// Run the three tests with challenge `r`; the round is accepted when all pass.
pub fn round_accepts(tab: &Tableau, r: F) -> (res: bool)
    requires
        rows_span_domain(*tab),
        gates_span_domain(*tab),
    ensures
        res == accepts(*tab, r.val()),
{
    proof {
        lemma_gates_span_tests(*tab);
    }
    tab.proximity_test(r) && tab.multiplication_test(r) && tab.linear_test(r)
}

/// A fresh random challenge `r` in F for each of `rounds` rounds.
pub fn random_challenges(rounds: usize, rng: &mut ThreadRng) -> (ch: Vec<F>)
    ensures
        ch@.len() == rounds,
        forall|i: int| 0 <= i < rounds ==> 0 <= (#[trigger] ch@[i]).val() < modulus(),
{
    let mut ch: Vec<F> = Vec::new();
    for i in 0..rounds
        invariant
            ch@.len() == i,
            forall|k: int| 0 <= k < i ==> 0 <= (#[trigger] ch@[k]).val() < modulus(),
    {
        ch.push(F::from(random_in_range(rng, 0, F::P)));
    }
    ch
}

/// One trial of the protocol repeated over the given challenges, for the honest and the
/// cheating tableau alike: each is accepted when every round accepts it.
pub fn run_trial(honest: &Tableau, cheat: &Tableau, challenges: &Vec<F>) -> (res: (bool, bool))
    requires
        rows_span_domain(*honest),
        gates_span_domain(*honest),
        rows_span_domain(*cheat),
        gates_span_domain(*cheat),
    ensures
        res.0 == forall|i: int| 0 <= i < challenges@.len() ==> accepts(*honest, #[trigger] challenges@[i].val()),
        res.1 == forall|i: int| 0 <= i < challenges@.len() ==> accepts(*cheat, #[trigger] challenges@[i].val()),
{
    let mut honest_ok = true;
    let mut cheat_ok = true;
    for k in 0..challenges.len()
        invariant
            rows_span_domain(*honest),
            gates_span_domain(*honest),
            rows_span_domain(*cheat),
            gates_span_domain(*cheat),
            honest_ok == forall|i: int| 0 <= i < k ==> accepts(*honest, #[trigger] challenges@[i].val()),
            cheat_ok == forall|i: int| 0 <= i < k ==> accepts(*cheat, #[trigger] challenges@[i].val()),
    {
        let r = challenges[k];
        let honest_round = round_accepts(honest, r);
        let cheat_round = round_accepts(cheat, r);

        honest_ok = honest_ok && honest_round;
        cheat_ok = cheat_ok && cheat_round;
    }
    (honest_ok, cheat_ok)
}

/// A trial of the protocol over the given challenges accepts `tab`: every round accepts it.
pub open spec fn trial_accepts(tab: Tableau, challenges: Seq<F>) -> bool {
    forall|k: int| 0 <= k < challenges.len() ==> accepts(tab, #[trigger] challenges[k].val())
}

/// The number of trials among the first `t` of `draws` that accept `tab`.
pub open spec fn accepted_trials(tab: Tableau, draws: Seq<Vec<F>>, t: nat) -> nat
    decreases t,
{
    if t == 0 {
        0
    } else {
        accepted_trials(tab, draws, (t - 1) as nat) + if trial_accepts(tab, draws[t - 1]@) {
            1nat
        } else {
            0nat
        }
    }
}

/// The number of trials among the first `t` of `draws` whose challenges are all `1` in the field.
pub open spec fn all_one_trials(draws: Seq<Vec<F>>, t: nat) -> nat
    decreases t,
{
    if t == 0 {
        0
    } else {
        all_one_trials(draws, (t - 1) as nat) + if (forall|k: int|
            0 <= k < draws[t - 1]@.len() ==> (#[trigger] draws[t - 1]@[k]).val() % modulus() == 1) {
            1nat
        } else {
            0nat
        }
    }
}

/// Fresh random challenges for `trials` trials of `rounds` rounds each.
pub fn random_draws(trials: usize, rounds: usize, rng: &mut ThreadRng) -> (draws: Vec<Vec<F>>)
    ensures
        draws@.len() == trials,
        forall|t: int| 0 <= t < trials ==> (#[trigger] draws@[t])@.len() == rounds,
        forall|t: int, k: int|
            0 <= t < trials && 0 <= k < rounds ==> 0 <= (#[trigger] draws@[t]@[k]).val() < modulus(),
{
    let mut draws: Vec<Vec<F>> = Vec::new();
    for t in 0..trials
        invariant
            draws@.len() == t,
            forall|i: int| 0 <= i < t ==> (#[trigger] draws@[i])@.len() == rounds,
            forall|i: int, k: int|
                0 <= i < t && 0 <= k < rounds ==> 0 <= (#[trigger] draws@[i]@[k]).val() < modulus(),
    {
        draws.push(random_challenges(rounds, rng));
    }
    draws
}

/// Monte-Carlo count over the drawn challenges, one vector per trial: how many trials accept
/// the honest tableau and how many accept the cheating one (a trial accepts when every one
/// of its rounds does).
pub fn count_acceptance(honest: &Tableau, cheat: &Tableau, draws: &Vec<Vec<F>>) -> (res: (usize, usize))
    requires
        rows_span_domain(*honest),
        gates_span_domain(*honest),
        rows_span_domain(*cheat),
        gates_span_domain(*cheat),
    ensures
        res.0 == accepted_trials(*honest, draws@, draws@.len()),
        res.1 == accepted_trials(*cheat, draws@, draws@.len()),
{
    let mut honest_accept: usize = 0;
    let mut cheat_accept: usize = 0;
    for t in 0..draws.len()
        invariant
            rows_span_domain(*honest),
            gates_span_domain(*honest),
            rows_span_domain(*cheat),
            gates_span_domain(*cheat),
            honest_accept == accepted_trials(*honest, draws@, t as nat),
            cheat_accept == accepted_trials(*cheat, draws@, t as nat),
            honest_accept <= t,
            cheat_accept <= t,
    {
        let (honest_ok, cheat_ok) = run_trial(honest, cheat, &draws[t]);
        if honest_ok {
            honest_accept += 1;
        }
        if cheat_ok {
            cheat_accept += 1;
        }
    }
    (honest_accept, cheat_accept)
}

/// A tableau that every challenge accepts is accepted in every trial.
pub proof fn lemma_always_accepted(tab: Tableau, draws: Seq<Vec<F>>, t: nat)
    requires
        t <= draws.len(),
        forall|r: int| #[trigger] accepts(tab, r),
    ensures
        accepted_trials(tab, draws, t) == t,
    decreases t,
{
    if t > 0 {
        lemma_always_accepted(tab, draws, (t - 1) as nat);
        assert(trial_accepts(tab, draws[t - 1]@));
    }
}

/// A tableau accepted exactly by the challenges `r ≡ 1` is accepted exactly in the trials
/// whose challenges are all `1`.
pub proof fn lemma_accepted_when_all_one(tab: Tableau, draws: Seq<Vec<F>>, t: nat)
    requires
        t <= draws.len(),
        forall|r: int| #[trigger] accepts(tab, r) <==> r % modulus() == 1,
    ensures
        accepted_trials(tab, draws, t) == all_one_trials(draws, t),
    decreases t,
{
    if t > 0 {
        lemma_accepted_when_all_one(tab, draws, (t - 1) as nat);
        let ch = draws[t - 1]@;
        assert(trial_accepts(tab, ch) <==> forall|k: int|
            0 <= k < ch.len() ==> (#[trigger] ch[k]).val() % modulus() == 1) by {
            if trial_accepts(tab, ch) {
                assert forall|k: int| 0 <= k < ch.len() implies (#[trigger] ch[k]).val() % modulus() == 1 by {
                    assert(accepts(tab, ch[k].val()));
                }
            }
        }
    }
}

/// Soundness amplification in the experiment: over any draws, an honest tableau (with
/// `deg_bound < n`) is accepted in every trial, and the correlated cheat (with a nonzero shift,
/// over a nonempty domain) exactly in the trials whose challenges are all `1`, which a uniform
/// draw of `k` rounds yields with probability `(1/p)^k`.
pub proof fn law_acceptance_counts(
    honest: Tableau,
    cheat: Tableau,
    w: WitnessVec,
    params: LigeroParams,
    d: int,
    draws: Seq<Vec<F>>,
)
    requires
        w.is_honest(),
        params.m == w.xs@.len(),
        params.m >= 2,
        params.deg_bound < params.n,
        d % modulus() != 0,
        tableau_of(honest, w, params),
        correlated_cheat_of(honest, cheat, d),
    ensures
        accepted_trials(honest, draws, draws.len()) == draws.len(),
        accepted_trials(cheat, draws, draws.len()) == all_one_trials(draws, draws.len()),
{
    assert forall|r: int| #[trigger] accepts(honest, r) by {
        crate::ligero_mini::law_honest_tableau_passes(honest, w, params, r);
    }
    lemma_always_accepted(honest, draws, draws.len());
    assert forall|r: int| #[trigger] accepts(cheat, r) <==> r % modulus() == 1 by {
        law_correlated_cheat(honest, cheat, w, params, d, r);
    }
    lemma_accepted_when_all_one(cheat, draws, draws.len());
}

/// The multiplication test weighs gate `g` by `r^g`, so gates 1 and 2 count with `r` and
/// `r^2`: in a tableau built from a witness (at least three gates, nonempty domain) whose
/// product wire of gate 1 is raised by `d ≢ 0` and that of gate 2 lowered by `d`,
/// `V_m = d * r * (r - 1)` and the test passes exactly for `r ≡ 0` and `r ≡ 1`.
pub proof fn law_shifted_products_fail_multiplication(
    honest: Tableau,
    cheat: Tableau,
    w: WitnessVec,
    params: LigeroParams,
    d: int,
    r: int,
)
    requires
        params.m == w.xs@.len(),
        w.ys@.len() >= params.m,
        w.zs@.len() >= params.m,
        tableau_of(honest, w, params),
        params.m >= 3,
        params.n > 0,
        !cong(d, 0),
        product_shift_of(honest, cheat, d),
    ensures
        passes_multiplication(cheat, r) <==> (cong(r, 0) || cong(r, 1)),
{
    let m = params.m as nat;
    let n = params.n as nat;
    let (hr, cr) = (honest.rows@, cheat.rows@);
    law_multiplication_test_weights(cheat, r);
    assert forall|j: int| 0 <= j < n implies (cong(
        #[trigger] int_poly_sum(multiplication_errors(cr, j, m), r, m),
        0,
    ) <==> (cong(r, 0) || cong(r, 1))) by {
        let e = multiplication_errors(cr, j, m);
        let h = multiplication_errors(hr, j, m);
        assert forall|g: int| 0 <= g < m && g != 1 && g != 2 implies cong(#[trigger] e[g], 0) by {
            lemma_built_gate_errors(honest, w, params, g, j);
            assert(cr[4 * g] == hr[4 * g]);
            assert(cr[4 * g + 1] == hr[4 * g + 1]);
            assert(cr[4 * g + 2] == hr[4 * g + 2]);
            assert(e[g] == h[g]);
        }
        lemma_tail_vanishes(e, r, 3, m);
        // gates 1 and 2
        lemma_built_gate_errors(honest, w, params, 1, j);
        lemma_built_gate_errors(honest, w, params, 2, j);
        assert(cr[4] == hr[4] && cr[5] == hr[5] && cr[8] == hr[8] && cr[9] == hr[9]);
        let (t1, t2) = (hr[6].values@[j].val(), hr[10].values@[j].val());
        let (u1, u2) = (cr[6].values@[j].val(), cr[10].values@[j].val());
        assert(u1 == (t1 + d) % 97 && u2 == (t2 + (-d)) % 97);
        let (p1, p2) = (
            hr[4].values@[j].val() * hr[5].values@[j].val(),
            hr[8].values@[j].val() * hr[9].values@[j].val(),
        );
        assert(h[1] == p1 - t1 && e[1] == p1 - u1);
        assert(h[2] == p2 - t2 && e[2] == p2 - u2);
        lemma_cong_mod(t1 + d);
        lemma_cong_mod(t2 + (-d));
        lemma_cong_sub(p1 - t1, 0, u1 - t1, t1 + d - t1);
        lemma_cong_sub(p2 - t2, 0, u2 - t2, t2 + (-d) - t2);
        assert(p1 - t1 - (u1 - t1) == e[1] && 0 - (t1 + d - t1) == -d);
        assert(p2 - t2 - (u2 - t2) == e[2] && 0 - (t2 + (-d) - t2) == d);
        lemma_pow0(r);
        lemma_pow1(r);
        lemma_pow_adds(r, 1, 1);
        assert(int_poly_sum(e, r, 3) == e[0] * pow(r, 0) + e[1] * pow(r, 1) + e[2] * pow(r, 2)) by {
            assert(int_poly_sum(e, r, 0) == 0);
            assert(int_poly_sum(e, r, 1) == e[0] * pow(r, 0));
            assert(int_poly_sum(e, r, 2) == e[0] * pow(r, 0) + e[1] * pow(r, 1));
        }
        assert(e[0] * 1 == e[0]);
        lemma_quadratic_vanishes(e[0], e[1], e[2], d, r);
    }
    assert(cong(int_poly_sum(multiplication_errors(cr, 0, m), r, m), 0) <==> (cong(r, 0) || cong(r, 1)));
}

} // verus!
