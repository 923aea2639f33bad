use ligero_mini_lab::field::F;
use ligero_mini_lab::rs_code::{eval_poly, interpolate_poly, is_low_degree, Domain};

#[test]
fn rs_roundtrip() {
    let domain = Domain::new_n(5);
    // f(X) = 3 + 2X + X^2 over F
    let coeffs = vec![F::from(3), F::from(2), F::from(1)];
    let evals = eval_poly(&coeffs, &domain);
    let recovered = interpolate_poly(&evals, &domain, 2).unwrap();
    assert_eq!(coeffs, recovered);
}

#[test]
fn low_degree_check() {
    let domain = Domain::new_n(5);
    let coeffs = vec![F::from(1), F::from(0)]; // constant 1
    let evals = eval_poly(&coeffs, &domain);
    assert!(is_low_degree(&evals, &domain, 1));
}

#[test]
fn domain_points_are_indices() {
    let domain = Domain::new_n(100);
    assert_eq!(domain.len(), 100);
    assert_eq!(domain.points[3].as_u32(), 3);
    assert_eq!(domain.points[97].as_u32(), 0);
    assert_eq!(domain.points[99].as_u32(), 2);
    assert_eq!(Domain::new_n(0).len(), 0);
}

#[test]
fn eval_poly_exact_values() {
    let domain = Domain::new_n(5);
    // f(X) = 3 + 2X + X^2: values 3, 6, 11, 18, 27
    let coeffs = vec![F::from(3), F::from(2), F::from(1)];
    let evals = eval_poly(&coeffs, &domain);
    let got: Vec<u32> = evals.iter().map(|v| v.as_u32()).collect();
    assert_eq!(got, vec![3, 6, 11, 18, 27]);
    // the empty polynomial is zero everywhere
    let zero = eval_poly(&[], &domain);
    assert!(zero.iter().all(|v| v.as_u32() == 0));
    // a polynomial with large values wraps modulo p: 96 X at X = 4 is 384 = 93 (mod 97)
    let big = eval_poly(&[F::from(0), F::from(96)], &domain);
    assert_eq!(big[4].as_u32(), 93);
}

#[test]
fn interpolate_rejects_length_mismatch() {
    let domain = Domain::new_n(5);
    let values = vec![F::from(1); 4];
    assert!(interpolate_poly(&values, &domain, 1).is_none());
    assert!(!is_low_degree(&values, &domain, 1));
}

#[test]
fn interpolate_rejects_underdetermined_degree() {
    let domain = Domain::new_n(5);
    let values = vec![F::from(1); 5];
    assert!(interpolate_poly(&values, &domain, 5).is_none());
    assert!(interpolate_poly(&values, &domain, usize::MAX).is_none());
    assert!(interpolate_poly(&values, &domain, 4).is_some());
}

#[test]
fn interpolate_rejects_non_codeword() {
    let domain = Domain::new_n(5);
    // a line is not a constant polynomial
    let coeffs = vec![F::from(1), F::from(1)];
    let evals = eval_poly(&coeffs, &domain);
    assert!(interpolate_poly(&evals, &domain, 0).is_none());
    assert!(!is_low_degree(&evals, &domain, 0));
    assert!(is_low_degree(&evals, &domain, 1));
    // a single changed position breaks a quadratic codeword of degree bound 2
    let mut bad = eval_poly(&[F::from(3), F::from(2), F::from(1)], &domain);
    bad[4] = bad[4] + F::from(1);
    assert!(!is_low_degree(&bad, &domain, 2));
    assert!(is_low_degree(&bad, &domain, 4));
}

#[test]
fn interpolation_roundtrip_every_degree() {
    let domain = Domain::new_n(7);
    let coeffs = vec![F::from(5), F::from(96), F::from(0), F::from(42), F::from(1), F::from(13), F::from(77)];
    for len in 1..=7 {
        let c = coeffs[..len].to_vec();
        let evals = eval_poly(&c, &domain);
        let recovered = interpolate_poly(&evals, &domain, len - 1).unwrap();
        assert_eq!(recovered, c);
    }
}

#[test]
fn interpolation_pads_with_zero_coefficients() {
    let domain = Domain::new_n(5);
    let evals = eval_poly(&[F::from(4)], &domain);
    let recovered = interpolate_poly(&evals, &domain, 3).unwrap();
    assert_eq!(recovered, vec![F::from(4), F::from(0), F::from(0), F::from(0)]);
}

#[test]
fn interpolation_on_repeated_points() {
    // 98 points: points 0 and 97 coincide in F, so the system has a dependent row;
    // a constant still interpolates, and values that differ at coinciding points do not.
    let domain = Domain::new_n(98);
    let evals = eval_poly(&[F::from(9)], &domain);
    assert_eq!(interpolate_poly(&evals, &domain, 1).unwrap(), vec![F::from(9), F::from(0)]);
    let mut bad = evals.clone();
    bad[97] = F::from(10);
    assert!(interpolate_poly(&bad, &domain, 1).is_none());
}

#[test]
fn interpolation_zeroes_dependent_powers() {
    // All points equal: X agrees with 0 on the domain, so its coefficient is zero.
    let domain = Domain { points: vec![F::from(0); 3] };
    let values = vec![F::from(5); 3];
    assert_eq!(interpolate_poly(&values, &domain, 1), Some(vec![F::from(5), F::from(0)]));

    // Points 1, 1, 2: X^2 agrees with 3X - 2 there, so only 1 + 5X is returned for the
    // values of 3 + 2X + X^2.
    let domain = Domain { points: vec![F::from(1), F::from(1), F::from(2)] };
    let values = eval_poly(&[F::from(3), F::from(2), F::from(1)], &domain);
    assert_eq!(values, vec![F::from(6), F::from(6), F::from(11)]);
    assert_eq!(
        interpolate_poly(&values, &domain, 2),
        Some(vec![F::from(1), F::from(5), F::from(0)])
    );
}
