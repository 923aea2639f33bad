use ligero_mini_lab::field::F;
use ligero_mini_lab::ligero_mini::{LigeroParams, Tableau, Witness};

#[test]
fn cheating_prover() {
    let honest_w = Witness::new(2, 3); // x=2, y=3, z=8 correct
    let cheat_w = Witness {
        z: F::from(9),
        ..honest_w
    }; // same x,y, wrong z

    let params = LigeroParams {
        m: 1,
        n: 7,
        deg_bound: 1,
    };
    let honest_tab = Tableau::from_witness_single_gate(&honest_w, params.clone());
    let cheat_tab = Tableau::from_witness_single_gate(&cheat_w, params);

    let r = F::from(42);

    // Honest prover passes everything.
    assert!(honest_tab.multiplication_test(r));
    assert!(honest_tab.linear_test(r));

    // Cheater still passes multiplication (t = x*y), but fails the linear relation z = t + x.
    assert!(cheat_tab.multiplication_test(r));
    assert!(!cheat_tab.linear_test(r));
}

use ligero_mini_lab::experiment::{
    apply_correlated_cheat, count_acceptance, random_challenges, random_draws, random_witness_vec,
    round_accepts, run_trial,
};
use ligero_mini_lab::ligero_mini::{Row, WitnessVec};
use ligero_mini_lab::rs_code::eval_poly;

fn f(x: u32) -> F {
    F::from(x)
}

#[test]
fn witness_new_computes_z() {
    let w = Witness::new(2, 3);
    assert_eq!((w.x.as_u32(), w.y.as_u32(), w.z.as_u32()), (2, 3, 8));
    let w = Witness::new(96, 96);
    // 96 * 96 + 96 = 1 + 96 = 0 (mod 97)
    assert_eq!(w.z.as_u32(), 0);
    let w = Witness::new(200, 1);
    assert_eq!((w.x.as_u32(), w.z.as_u32()), (6, 12));
}

#[test]
fn witness_vec_from_xy() {
    let w = WitnessVec::from_xy(vec![f(2), f(5), f(96)], vec![f(3), f(7), f(2)]);
    assert_eq!(w.len(), 3);
    let zs: Vec<u32> = w.zs.iter().map(|z| z.as_u32()).collect();
    assert_eq!(zs, vec![8, 40, (96 * 2 + 96) % 97]);
    let empty = WitnessVec::from_xy(vec![], vec![]);
    assert_eq!(empty.len(), 0);
}

#[test]
fn single_gate_tableau_layout() {
    let w = Witness::new(2, 3);
    let params = LigeroParams { m: 1, n: 5, deg_bound: 1 };
    let tab = Tableau::from_witness_single_gate(&w, params);
    assert_eq!(tab.rows.len(), 4);
    let expect = [2u32, 3, 6, 8];
    for (row, e) in tab.rows.iter().zip(expect) {
        assert_eq!(row.values.len(), 5);
        assert!(row.values.iter().all(|v| v.as_u32() == e));
    }
    assert_eq!(tab.domain.len(), 5);
}

#[test]
fn single_gate_law_every_challenge() {
    let honest = Tableau::from_witness_single_gate(&Witness::new(2, 3), LigeroParams { m: 1, n: 5, deg_bound: 1 });
    let cheat_w = Witness { x: f(2), y: f(3), z: f(9) };
    let cheat = Tableau::from_witness_single_gate(&cheat_w, LigeroParams { m: 1, n: 5, deg_bound: 1 });
    for r in 0..97 {
        let r = f(r);
        assert!(honest.proximity_test(r) && honest.multiplication_test(r) && honest.linear_test(r));
        assert!(cheat.proximity_test(r) && cheat.multiplication_test(r));
        assert!(!cheat.linear_test(r));
    }
    // over an empty domain there is nothing to check
    let empty = Tableau::from_witness_single_gate(&cheat_w, LigeroParams { m: 1, n: 0, deg_bound: 0 });
    assert!(empty.linear_test(f(1)));
    assert!(!empty.proximity_test(f(1)));
}

#[test]
fn honest_multigate_passes_every_challenge() {
    let w = WitnessVec::from_xy(vec![f(2), f(5), f(11), f(96)], vec![f(3), f(7), f(0), f(50)]);
    let tab = Tableau::from_witness_vec(&w, LigeroParams { m: 4, n: 7, deg_bound: 1 });
    assert_eq!(tab.rows.len(), 16);
    for r in 0..97 {
        let r = f(r);
        assert!(tab.proximity_test(r));
        assert!(tab.multiplication_test(r));
        assert!(tab.linear_test(r));
        assert!(round_accepts(&tab, r));
    }
}

#[test]
fn broken_product_is_caught() {
    let mut w = WitnessVec::from_xy(vec![f(2), f(5)], vec![f(3), f(7)]);
    w.zs[1] = f(1);
    let tab = Tableau::from_witness_vec(&w, LigeroParams { m: 2, n: 3, deg_bound: 1 });
    // products are computed by the builder, but z_1 breaks the linear relation
    assert!(tab.multiplication_test(f(42)));
    assert!(!tab.linear_test(f(42)));
}

#[test]
fn proximity_rejects_non_codeword_rows() {
    let w = WitnessVec::from_xy(vec![f(2)], vec![f(3)]);
    let mut tab = Tableau::from_witness_vec(&w, LigeroParams { m: 1, n: 5, deg_bound: 1 });
    // make the y row the parabola 3 + X^2 (degree 2, while rows may have degree at most 1)
    tab.rows[1] = Row { values: (0..5).map(|j| f(3 + j * j)).collect() };
    assert!(!tab.proximity_test(f(1)));
    // with r = 0 only the x row counts, which is constant
    assert!(tab.proximity_test(f(0)));
    tab.params.deg_bound = 2;
    assert!(tab.proximity_test(f(1)));
}

#[test]
fn correlated_cheat_caught_unless_r_is_one() {
    let w = WitnessVec::from_xy(vec![f(2), f(5), f(11), f(96)], vec![f(3), f(7), f(1), f(50)]);
    let honest = Tableau::from_witness_vec(&w, LigeroParams { m: 4, n: 7, deg_bound: 1 });
    for d in [1u32, 2, 96] {
        let mut cheat = honest.clone();
        apply_correlated_cheat(&mut cheat, f(d));
        assert_eq!(cheat.rows[2].values[0].as_u32(), (6 + d) % 97);
        assert_eq!(cheat.rows[6].values[0].as_u32(), (35 + 97 - d) % 97);
        for r in 0..97 {
            let r = f(r);
            assert!(cheat.proximity_test(r));
            assert!(cheat.linear_test(r));
            assert_eq!(cheat.multiplication_test(r), r.as_u32() == 1);
        }
    }
    // a zero shift changes nothing
    let mut same = honest.clone();
    apply_correlated_cheat(&mut same, f(0));
    assert!(same.multiplication_test(f(42)));
}

#[test]
fn trials_accept_only_when_every_round_does() {
    let w = WitnessVec::from_xy(vec![f(2), f(5)], vec![f(3), f(7)]);
    let honest = Tableau::from_witness_vec(&w, LigeroParams { m: 2, n: 7, deg_bound: 1 });
    let mut cheat = honest.clone();
    apply_correlated_cheat(&mut cheat, f(1));
    assert_eq!(run_trial(&honest, &cheat, &vec![f(1), f(1)]), (true, true));
    assert_eq!(run_trial(&honest, &cheat, &vec![f(1), f(42)]), (true, false));
    assert_eq!(run_trial(&honest, &cheat, &vec![]), (true, true));
}

#[test]
fn random_witness_and_challenges_in_range() {
    let mut rng = rand::thread_rng();
    let w = random_witness_vec(50, &mut rng);
    assert_eq!(w.len(), 50);
    for i in 0..50 {
        assert!((1..97).contains(&w.xs[i].as_u32()));
        assert!((1..97).contains(&w.ys[i].as_u32()));
        assert_eq!(w.zs[i], w.xs[i] * w.ys[i] + w.xs[i]);
    }
    let ch = random_challenges(200, &mut rng);
    assert_eq!(ch.len(), 200);
    assert!(ch.iter().all(|r| r.as_u32() < 97));
    // 200 draws from 97 values are not all equal
    assert!(ch.iter().any(|r| *r != ch[0]));
}

#[test]
fn count_acceptance_counts_trials_where_every_round_accepts() {
    let w = WitnessVec::from_xy(vec![f(2), f(5), f(11), f(96)], vec![f(3), f(7), f(1), f(50)]);
    let honest = Tableau::from_witness_vec(&w, LigeroParams { m: 4, n: 7, deg_bound: 1 });
    let mut cheat = honest.clone();
    apply_correlated_cheat(&mut cheat, f(1));
    let draws = vec![
        vec![f(1), f(1), f(1)],
        vec![f(1), f(42), f(1)],
        vec![f(0), f(1), f(1)],
        vec![f(1), f(1), f(1)],
        vec![f(5), f(6), f(7)],
    ];
    // a trial counts for the cheat only when all its rounds have r = 1
    assert_eq!(count_acceptance(&honest, &cheat, &draws), (5, 2));
    // trials without rounds accept both
    assert_eq!(count_acceptance(&honest, &cheat, &vec![vec![], vec![]]), (2, 2));
    assert_eq!(count_acceptance(&honest, &cheat, &vec![]), (0, 0));
}

#[test]
fn random_draws_shape_and_counts() {
    let mut rng = rand::thread_rng();
    let w = random_witness_vec(4, &mut rng);
    let honest = Tableau::from_witness_vec(&w, LigeroParams { m: 4, n: 7, deg_bound: 1 });
    let mut cheat = honest.clone();
    apply_correlated_cheat(&mut cheat, f(1));
    let draws = random_draws(300, 3, &mut rng);
    assert_eq!(draws.len(), 300);
    assert!(draws.iter().all(|d| d.len() == 3 && d.iter().all(|r| r.as_u32() < 97)));
    let (h, c) = count_acceptance(&honest, &cheat, &draws);
    assert_eq!(h, 300);
    let all_one = draws.iter().filter(|d| d.iter().all(|r| r.as_u32() == 1)).count();
    assert_eq!(c, all_one);
    assert!(draws.iter().any(|d| d[0] != draws[0][0]));
}

#[test]
fn codeword_rows_pass_proximity_every_challenge() {
    let w = WitnessVec::from_xy(vec![f(2), f(5)], vec![f(3), f(7)]);
    let mut tab = Tableau::from_witness_vec(&w, LigeroParams { m: 2, n: 6, deg_bound: 1 });
    // replace every row by a line a + bX: still codewords of degree at most 1
    for i in 0..tab.rows.len() {
        let coeffs = [f(i as u32 * 7 + 1), f(i as u32 * 13 + 5)];
        tab.rows[i] = Row { values: eval_poly(&coeffs, &tab.domain) };
    }
    for r in 0..97 {
        assert!(tab.proximity_test(f(r)));
    }
}

#[test]
fn tests_read_only_their_rows() {
    let params = LigeroParams { m: 1, n: 5, deg_bound: 1 };
    let tab = Tableau::from_witness_single_gate(&Witness::new(2, 3), params.clone());

    // The multiplication test reads x, y and t only: it runs without the z row.
    let mut no_z = tab.clone();
    no_z.rows.pop();
    assert!(no_z.multiplication_test(f(42)));

    // The linear test reads x, t and z only: it runs with an empty y row.
    let mut no_y = tab.clone();
    no_y.rows[1].values = vec![];
    assert!(no_y.linear_test(f(42)));

    let cheat = Tableau::from_witness_single_gate(&Witness { z: f(9), ..Witness::new(2, 3) }, params);
    let mut cheat_no_y = cheat.clone();
    cheat_no_y.rows[1].values = vec![];
    assert!(!cheat_no_y.linear_test(f(42)));
}
