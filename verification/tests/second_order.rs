use opt::{
    certificate_curvature_shift, hessian_is_psd_at_resolution, max_feasible_step_along,
    negative_curvature_claim, newton_predicted_decrease, newton_predicted_decrease_at_resolution,
    unresolvable_curvature_magnitude, Binary64, Matrix, NegativeCurvatureClaim, Vector,
};

fn of(x: f64) -> Binary64 {
    Binary64::from_bits(x.to_bits())
}

fn num(x: Binary64) -> f64 {
    f64::from_bits(x.to_bits())
}

fn vector(entries: &[f64]) -> Vector {
    Vector::new(entries.iter().map(|&x| of(x)).collect())
}

fn matrix(rows: usize, columns: usize, entries: &[f64]) -> Matrix {
    Matrix::new(rows, columns, entries.iter().map(|&x| of(x)).collect()).expect("shape")
}

fn square(rows: usize, entries: &[f64]) -> Matrix {
    matrix(rows, rows, entries)
}

fn shift(hessian: &Matrix, measured: f64) -> f64 {
    num(certificate_curvature_shift(hessian, of(measured)))
}

fn psd(hessian: &Matrix, measured: f64) -> Option<bool> {
    hessian_is_psd_at_resolution(hessian, of(measured))
}

fn decrease(hessian: &Matrix, grad: &Vector) -> Option<f64> {
    newton_predicted_decrease(hessian, grad).map(num)
}

fn decrease_at(hessian: &Matrix, grad: &Vector, measured: f64) -> Option<f64> {
    newton_predicted_decrease_at_resolution(hessian, grad, of(measured)).map(num)
}

fn claim(lambda_min: f64, alpha_max: f64, resolution: f64) -> Option<NegativeCurvatureClaim> {
    negative_curvature_claim(of(lambda_min), of(alpha_max), of(resolution))
}

fn unresolvable(alpha_max: f64, resolution: f64) -> Option<f64> {
    unresolvable_curvature_magnitude(of(alpha_max), of(resolution)).map(num)
}

fn feasible(point: &[f64], ray: &[f64], lower: &[f64], upper: &[f64]) -> f64 {
    num(max_feasible_step_along(
        &vector(point),
        &vector(ray),
        &vector(lower),
        &vector(upper),
    ))
}

#[test]
fn the_shift_is_the_larger_of_the_measurement_and_the_arithmetic_band() {
    let hessian = square(2, &[4.0, 0.0, 0.0, 1.0]);
    let arithmetic = f64::EPSILON.sqrt() * 4.0;
    assert_eq!(shift(&hessian, 0.0), arithmetic);
    assert_eq!(shift(&hessian, 1e-3), 1e-3);
    assert_eq!(shift(&hessian, f64::NAN), arithmetic);
    let small = square(2, &[1e-3, 0.0, 0.0, 1e-4]);
    assert_eq!(shift(&small, 0.0), f64::EPSILON.sqrt());
}

#[test]
fn a_negative_eigenvalue_is_psd_only_inside_the_shift() {
    let within = square(2, &[1.0, 0.0, 0.0, -1e-9]);
    assert_eq!(psd(&within, 0.0), Some(true));
    let saddle = square(2, &[1.0, 0.0, 0.0, -1e-3]);
    assert_eq!(psd(&saddle, 0.0), Some(false));
    // Positive control: the same saddle is PSD at a measured resolution wider
    // than its negative eigenvalue.
    assert_eq!(psd(&saddle, 1e-2), Some(true));
    assert_eq!(psd(&square(1, &[f64::NAN]), 0.0), None);
    assert_eq!(psd(&square(0, &[]), 0.0), None);
}

#[test]
fn the_decrement_is_half_the_inverse_quadratic_form_and_travels_with_its_verdict() {
    let hessian = square(2, &[2.0, 0.0, 0.0, 4.0]);
    let grad = vector(&[2.0, 4.0]);
    let found = decrease(&hessian, &grad).expect("positive definite");
    let shift = f64::EPSILON.sqrt() * 4.0;
    let exact = 0.5 * (4.0 / (2.0 + shift) + 16.0 / (4.0 + shift));
    assert!((found - exact).abs() <= 1e-12 * exact);

    let indefinite = square(2, &[1.0, 0.0, 0.0, -1.0]);
    let ones = vector(&[1.0, 1.0]);
    assert_eq!(decrease(&indefinite, &ones), None);
    // Positive control: at a resolution the verdict accepts, the decrement exists
    // and is taken at that shift: diag(3, 1) against g = (1, 1).
    let at_resolution =
        decrease_at(&indefinite, &ones, 2.0).expect("factors at the resolution shift");
    assert!((at_resolution - 0.5 * (1.0 / 3.0 + 1.0)).abs() <= 1e-12);
    assert_eq!(
        decrease_at(&indefinite, &ones, 0.0),
        decrease(&indefinite, &ones)
    );
    assert_eq!(decrease(&hessian, &vector(&[1.0])), None);
}

#[test]
fn a_negative_curvature_is_resolvable_only_above_the_criterions_resolution() {
    // A Gaussian location-scale fit: ½|λ| = 6.47e-7 at α = 1 against a
    // resolution of 1.23e-5. No step up to one e-fold can resolve it.
    let lambda: f64 = -1.294787e-6;
    assert_eq!(
        claim(lambda, 1.0, 1.228631e-5),
        Some(NegativeCurvatureClaim::Unresolvable {
            predicted_at_largest: of(0.5 * lambda.abs())
        })
    );
    // Positive control: the same curvature over a longer ladder predicts
    // ½|λ|·16 = 1.04e-5 at α = 4, still under the resolution, and at α = 5 it
    // predicts 1.62e-5, which the criterion resolves down to α_min = 4.36.
    assert!(matches!(
        claim(lambda, 4.0, 1.228631e-5),
        Some(NegativeCurvatureClaim::Unresolvable { .. })
    ));
    let Some(NegativeCurvatureClaim::Resolvable { alpha_min }) = claim(lambda, 5.0, 1.228631e-5)
    else {
        panic!("½|λ|·25 exceeds the resolution");
    };
    let alpha_min = num(alpha_min);
    assert!((alpha_min - (2.0 * 1.228631e-5 / lambda.abs()).sqrt()).abs() <= 1e-15 * alpha_min);
    assert!(alpha_min < 5.0);
    // A prediction exactly at the resolution is not resolvable.
    assert_eq!(
        claim(-2.0, 1.0, 1.0),
        Some(NegativeCurvatureClaim::Unresolvable {
            predicted_at_largest: of(1.0)
        })
    );
    assert_eq!(claim(1e-3, 1.0, 1e-5), None);
    assert_eq!(claim(-1e-3, 0.0, 1e-5), None);
    assert_eq!(claim(-1e-3, 1.0, 0.0), None);
    assert_eq!(claim(f64::NAN, 1.0, 1e-5), None);
    // The magnitude both a single claim and a definiteness test shifted to the
    // criterion's resolution read: 2·res/α², and the claim is unresolvable exactly
    // at or under it.
    assert_eq!(unresolvable(1.0, 1.228631e-5), Some(2.0 * 1.228631e-5));
    assert_eq!(unresolvable(2.0, 1.0), Some(0.5));
    assert_eq!(unresolvable(0.0, 1.0), None);
    assert_eq!(unresolvable(1.0, f64::NAN), None);
    assert!(matches!(
        claim(-0.5, 2.0, 1.0),
        Some(NegativeCurvatureClaim::Unresolvable { .. })
    ));
    assert!(matches!(
        claim(-0.5 - 1e-12, 2.0, 1.0),
        Some(NegativeCurvatureClaim::Resolvable { .. })
    ));
}

#[test]
fn the_feasible_step_stops_at_the_first_bound_the_ray_meets() {
    let point = [0.0, 0.0];
    let lower = [-1.0, -1.0];
    let upper = [1.0, 1.0];
    assert_eq!(feasible(&point, &[1.0, -2.0], &lower, &upper), 0.5);
    assert_eq!(feasible(&point, &[0.0, 0.0], &lower, &upper), f64::INFINITY);
    // Positive control: a point already past its upper bound along the ray gets
    // no step, where the same ray from the centre gets one.
    let outside = [2.0, 0.0];
    assert_eq!(feasible(&outside, &[1.0, 0.0], &lower, &upper), 0.0);
    assert_eq!(feasible(&point, &[1.0, 0.0], &lower, &upper), 1.0);
    assert_eq!(feasible(&point, &[1.0, 1.0], &[], &[]), f64::INFINITY);
}

/// The decrement computed with machine numbers, in the same order of operations.
fn machine_decrease(h: &[f64], g: &[f64], shift: f64) -> Option<f64> {
    let n = g.len();
    let mut l = h.to_vec();
    for j in 0..n {
        l[j * n + j] += shift;
    }
    for j in 0..n {
        for k in 0..j {
            let across = l[j * n + k];
            for i in j..n {
                l[i * n + j] -= l[i * n + k] * across;
            }
        }
        let pivot = l[j * n + j];
        if !(pivot.is_finite() && pivot > 0.0) {
            return None;
        }
        let scale = 1.0 / pivot.sqrt();
        for i in j..n {
            l[i * n + j] *= scale;
        }
    }
    let mut d = g.to_vec();
    for j in 0..n {
        let mut s = d[j];
        for k in 0..j {
            s -= l[j * n + k] * d[k];
        }
        d[j] = s / l[j * n + j];
    }
    for j in (0..n).rev() {
        let mut s = d[j];
        for k in (j + 1)..n {
            s -= l[k * n + j] * d[k];
        }
        d[j] = s / l[j * n + j];
    }
    let quad = ndarray::Array1::from_vec(g.to_vec()).dot(&ndarray::Array1::from_vec(d));
    if !quad.is_finite() || quad < 0.0 {
        return None;
    }
    Some(0.5 * quad)
}

/// A diagonally dominant matrix and a gradient, from a small generator.
fn problem(n: usize, seed: u64) -> (Vec<f64>, Vec<f64>) {
    let mut state = seed;
    let mut next = || {
        state ^= state << 13;
        state ^= state >> 7;
        state ^= state << 17;
        (state >> 11) as f64 / (1u64 << 53) as f64 - 0.5
    };
    let mut h = vec![0.0; n * n];
    for i in 0..n {
        for j in 0..=i {
            let x = next();
            h[i * n + j] = x;
            h[j * n + i] = x;
        }
        h[i * n + i] = n as f64 + next();
    }
    let g = (0..n).map(|_| next()).collect();
    (h, g)
}

#[test]
fn the_decrement_agrees_with_machine_arithmetic_to_the_last_bit() {
    for n in [1usize, 2, 3, 7, 8, 9, 16, 19] {
        let (h, g) = problem(n, 0x1234_5678_9abc_def1 + n as u64);
        let hessian = square(n, &h);
        let grad = vector(&g);
        let largest = (0..n).fold(0.0f64, |acc, j| acc.max(h[j * n + j].abs()));
        let shift = f64::EPSILON.sqrt() * largest.max(1.0);
        let expected = machine_decrease(&h, &g, shift).expect("dominant diagonal");
        assert_eq!(psd(&hessian, 0.0), Some(true));
        assert_eq!(
            decrease(&hessian, &grad).map(f64::to_bits),
            Some(expected.to_bits())
        );
    }
}

#[test]
fn a_malformed_hessian_or_gradient_has_no_verdict() {
    let wide = matrix(2, 3, &[1.0, 0.0, 0.0, 0.0, 1.0, 0.0]);
    assert_eq!(psd(&wide, 0.0), None);
    assert_eq!(decrease(&wide, &vector(&[1.0, 1.0])), None);
    assert_eq!(shift(&wide, 0.0), f64::EPSILON.sqrt());
    let tall = matrix(3, 2, &[1.0, 0.0, 0.0, 1.0, 0.0, 0.0]);
    assert_eq!(psd(&tall, 0.0), None);
    let infinite = square(2, &[1.0, f64::INFINITY, 0.0, 1.0]);
    assert_eq!(psd(&infinite, 0.0), None);
    let plain = square(1, &[2.0]);
    assert_eq!(decrease(&plain, &vector(&[f64::NAN])), None);
    assert_eq!(decrease(&plain, &vector(&[0.0])), Some(0.0));
}

#[test]
fn matrices_take_exactly_the_entries_of_their_shape() {
    assert!(Matrix::new(2, 2, vec![of(1.0); 3]).is_none());
    assert!(Matrix::new(0, usize::MAX, vec![]).is_none());
    let m = matrix(2, 3, &[1.0, 2.0, 3.0, 4.0, 5.0, 6.0]);
    assert_eq!((m.nrows(), m.ncols()), (2, 3));
    assert_eq!(num(m.at(1, 0)), 4.0);
    assert_eq!(num(m.at(0, 2)), 3.0);
    let mut copy = m.clone();
    copy.set(1, 2, of(-6.0));
    assert_eq!(num(copy.at(1, 2)), -6.0);
    assert_eq!(num(m.at(1, 2)), 6.0);
    let mut v = vector(&[1.0, 2.0]);
    v.set(0, of(9.0));
    assert_eq!(v, vector(&[9.0, 2.0]));
    assert_eq!(v.len(), 2);
}

#[test]
fn a_point_the_verdict_accepts_has_a_decrement() {
    let saddle = square(2, &[1.0, 0.0, 0.0, -1e-3]);
    let grad = vector(&[1.0, 1.0]);
    assert_eq!(psd(&saddle, 1e-2), Some(true));
    let expected = machine_decrease(&[1.0, 0.0, 0.0, -1e-3], &[1.0, 1.0], 1e-2);
    assert!(expected.is_some());
    assert_eq!(decrease_at(&saddle, &grad, 1e-2), expected);
    // Where the arithmetic shift factors, every resolution gives its decrement.
    let convex = square(2, &[2.0, 0.5, 0.5, 4.0]);
    assert_eq!(decrease_at(&convex, &grad, 1e3), decrease(&convex, &grad));
}

#[test]
fn a_wider_measurement_never_narrows_the_shift() {
    let hessian = square(2, &[4.0, 0.0, 0.0, -9.0]);
    let arithmetic = f64::EPSILON.sqrt() * 9.0;
    let mut last = 0.0;
    for measured in [-1.0, 0.0, 1e-9, arithmetic, 1e-6, 1.0, 1e300] {
        let found = shift(&hessian, measured);
        assert!(found >= arithmetic && found >= measured && found >= last);
        last = found;
    }
    assert_eq!(shift(&hessian, f64::INFINITY), arithmetic);
}

#[test]
fn the_feasible_step_passes_over_bounds_that_set_no_limit() {
    // A NaN step is no limit, and a bound behind the ray is none either.
    assert_eq!(feasible(&[0.0], &[f64::NAN], &[-1.0], &[1.0]), f64::INFINITY);
    assert_eq!(
        feasible(&[f64::INFINITY, 0.0], &[1.0, 1.0], &[], &[f64::INFINITY, 2.0]),
        2.0
    );
    assert_eq!(feasible(&[0.0, 5.0], &[1.0, 1.0], &[], &[3.0]), 3.0);
    assert_eq!(feasible(&[1.0], &[-4.0], &[-1.0], &[]), 0.5);
    assert_eq!(feasible(&[], &[], &[], &[]), f64::INFINITY);
}

#[test]
fn a_wider_measurement_keeps_what_the_arithmetic_shift_admits() {
    for entries in [
        [1.0, 0.5, 0.5, 1.0],
        [1e-9, 0.0, 0.0, -1e-9],
        [2.0, 1.0, 1.0, 0.5],
    ] {
        let h = square(2, &entries);
        assert_eq!(psd(&h, 0.0), Some(true));
        for measured in [1e-7, 1e-3, 1.0, 1e6] {
            assert_eq!(psd(&h, measured), Some(true));
        }
    }
    // A matrix that the rounding of the wider factor spoils is admitted all the same.
    let h = square(
        3,
        &[
            0.2769087197267525,
            0.17031584021948212,
            0.03506481549374899,
            0.17031584021948212,
            0.42343587172611824,
            0.34537415296673246,
            0.03506481549374899,
            0.34537415296673246,
            0.3334557522690768,
        ],
    );
    assert_eq!(psd(&h, 0.0), Some(true));
    assert_eq!(psd(&h, 1.4901161221603232e-08), Some(true));
    // Overflow at the wider shift refuses nothing either.
    let large = square(1, &[1e308]);
    assert_eq!(psd(&large, 1.7e308), Some(true));
}

#[test]
fn one_row_is_judged_at_the_exact_shift() {
    let arithmetic = f64::powi(2.0, -26);
    assert_eq!(psd(&square(1, &[-arithmetic]), 0.0), Some(false));
    let inside = f64::from_bits((-arithmetic).to_bits() - 1);
    assert_eq!(psd(&square(1, &[inside]), 0.0), Some(true));
    assert_eq!(psd(&square(1, &[-0.5]), 0.5), Some(false));
    assert_eq!(psd(&square(1, &[-0.5]), 0.75), Some(true));
}

#[test]
fn the_decrement_at_the_arithmetic_shift_goes_first() {
    let h = square(2, &[2.0, 0.0, 0.0, 0.5]);
    let g = vector(&[1.0, -3.0]);
    let first = decrease(&h, &g).expect("decrement");
    assert!(first > 0.0);
    for measured in [0.0, 1e-3, 1.0, f64::INFINITY, f64::NAN, -1.0] {
        assert_eq!(decrease_at(&h, &g, measured), Some(first));
    }
    // A form that overflows is no decrement, at an accepted matrix too.
    let wild = vector(&[1e200, 0.0]);
    assert_eq!(psd(&h, 0.0), Some(true));
    assert_eq!(decrease(&h, &wild), None);
    // The wider shift is for matrices that do not factor at the arithmetic one.
    let unit = square(1, &[1.0]);
    assert_eq!(decrease_at(&unit, &vector(&[1e200]), 1e300), None);
}

#[test]
fn a_resolvable_claim_leaves_a_range_of_steps() {
    for (lambda, alpha, resolution) in [
        (-1.0, 1.0, 1e-3),
        (-1e-6, 10.0, 1e-8),
        (-3.5, 0.25, 0.1),
    ] {
        match claim(lambda, alpha, resolution) {
            Some(NegativeCurvatureClaim::Resolvable { alpha_min }) => {
                assert_eq!(num(alpha_min), (2.0 * resolution / -lambda as f64).sqrt());
                assert!(num(alpha_min) <= alpha);
            }
            other => panic!("{:?}", other),
        }
    }
    // The range can shrink to a single step.
    let lambda = -f64::from_bits(0x3fe9_5f8c_cecc_b168);
    let resolution = f64::from_bits(0x3fe8_9887_cf53_3a4c);
    let alpha = f64::from_bits(0x3ff6_472f_f3cc_7d15);
    assert_eq!(
        claim(lambda, alpha, resolution),
        Some(NegativeCurvatureClaim::Resolvable {
            alpha_min: of(alpha),
        })
    );
}

#[test]
fn a_claim_is_judged_where_a_square_or_a_double_leaves_the_range() {
    // The square of the step underflows: half of 1e100 times 1e-340 exceeds 1e-300.
    match claim(-1e100, 1e-170, 1e-300) {
        Some(NegativeCurvatureClaim::Resolvable { alpha_min }) => {
            assert!((num(alpha_min) / 2f64.sqrt() / 1e-200 - 1.0).abs() < 1e-15);
        }
        other => panic!("{:?}", other),
    }
    let floor = unresolvable(1e-170, 1e-300).expect("floor");
    assert!((floor / 2e40 - 1.0).abs() < 1e-15);
    assert_eq!(
        claim(-1e30, 1e-170, 1e-300),
        Some(NegativeCurvatureClaim::Unresolvable {
            predicted_at_largest: of(0.5 * 1e30 * 1e-170 * 1e-170),
        })
    );
    // The square of the step overflows.
    assert!(matches!(
        claim(-1e-300, 1e160, 1e300),
        Some(NegativeCurvatureClaim::Unresolvable { .. })
    ));
    match claim(-1e-300, 1e200, 1e10) {
        Some(NegativeCurvatureClaim::Resolvable { alpha_min }) => {
            assert!((num(alpha_min) / 2f64.sqrt() / 1e155 - 1.0).abs() < 1e-15);
        }
        other => panic!("{:?}", other),
    }
    // The doubled resolution overflows.
    match claim(-1e308, 10.0, 1e308) {
        Some(NegativeCurvatureClaim::Resolvable { alpha_min }) => {
            assert!((num(alpha_min) - 2f64.sqrt()).abs() < 1e-15);
        }
        other => panic!("{:?}", other),
    }
    assert_eq!(
        claim(-1e308, 1.0, 1e308),
        Some(NegativeCurvatureClaim::Unresolvable {
            predicted_at_largest: of(0.5 * 1e308),
        })
    );
    // The quotient under the root underflows.
    match claim(-1e300, 1.0, 1e-300) {
        Some(NegativeCurvatureClaim::Resolvable { alpha_min }) => {
            assert!((num(alpha_min) / 2f64.sqrt() / 1e-300 - 1.0).abs() < 1e-15);
        }
        other => panic!("{:?}", other),
    }
    // Half of the smallest curvature is nothing, but its prediction is not.
    let smallest = f64::from_bits(1);
    assert_eq!(
        claim(-smallest, 1e200, 1e300),
        Some(NegativeCurvatureClaim::Unresolvable {
            predicted_at_largest: of(0.5 * (smallest * 1e200) * 1e200),
        })
    );
}

#[test]
fn the_feasible_step_is_taken_where_the_distance_overflows() {
    assert_eq!(feasible(&[-1e308], &[1e308], &[], &[1e308]), 2.0);
    assert_eq!(feasible(&[1e308], &[-1e308], &[-1e308], &[]), 2.0);
    // A point past its bound by as much takes no step.
    assert_eq!(feasible(&[1e308], &[1.0], &[], &[-1e308]).to_bits(), 0);
    // An infinite bound sets no limit.
    assert_eq!(feasible(&[-1e308], &[1.0], &[], &[f64::INFINITY]), f64::INFINITY);
}

#[test]
fn the_decrement_reads_the_lower_triangle_and_is_even_in_the_gradient() {
    for n in [1usize, 2, 5, 9, 17] {
        let (h, g) = problem(n, 7 + n as u64);
        let mut other = h.clone();
        for i in 0..n {
            for j in i + 1..n {
                other[i * n + j] = 1e30 + (i * n + j) as f64;
            }
        }
        let negated: Vec<f64> = g.iter().map(|x| -x).collect();
        let expected = decrease(&square(n, &h), &vector(&g));
        assert!(expected.is_some());
        assert_eq!(decrease(&square(n, &other), &vector(&g)), expected);
        assert_eq!(decrease(&square(n, &h), &vector(&negated)), expected);
    }
}

#[test]
fn a_larger_shift_gives_a_diagonal_matrix_no_larger_decrement() {
    // Neither matrix factors at the arithmetic shift, so the measured one decides.
    for entries in [vec![-0.25], vec![-0.25, 0.0, 0.0, 0.5]] {
        let n = if entries.len() == 1 { 1 } else { 2 };
        let h = square(n, &entries);
        let g = vector(&vec![3.0; n]);
        let mut last = f64::INFINITY;
        for measured in [0.3, 0.5, 1.0, 2.0, 1e3, 1e6] {
            let here = decrease_at(&h, &g, measured).expect("decrement");
            assert!(here < last);
            last = here;
        }
    }
}

#[test]
fn a_point_past_its_bound_along_the_ray_takes_no_step() {
    assert_eq!(feasible(&[2.0], &[1.0], &[0.0], &[1.0]).to_bits(), 0);
    assert_eq!(feasible(&[-1.0], &[-1.0], &[0.0], &[1.0]).to_bits(), 0);
    // Past a bound that the ray leaves, the other bound limits the step.
    assert_eq!(feasible(&[2.0], &[-1.0], &[0.0], &[1.0]), 2.0);
    assert_eq!(feasible(&[2.0, 0.0], &[1.0, 1.0], &[0.0], &[1.0, 5.0]).to_bits(), 0);
    // On the bound itself no step is left.
    assert_eq!(feasible(&[1.0], &[1.0], &[0.0], &[1.0]).to_bits(), 0);
}

#[test]
fn a_larger_shift_gives_any_matrix_a_smaller_decrement() {
    // None of these factors at the arithmetic shift, so the measured one decides.
    for (n, entries) in [
        (2, vec![-0.25, 0.125, 0.125, 0.5]),
        (3, vec![0.5, 0.25, -0.5, 0.25, -0.125, 0.375, -0.5, 0.375, 1.0]),
    ] {
        let h = square(n, &entries);
        let g = vector(&[1.0, -2.0, 0.5][..n]);
        assert_eq!(psd(&h, 0.0), Some(false));
        let mut last = f64::INFINITY;
        for measured in [0.75, 1.0, 1.5, 4.0, 1e3, 1e6] {
            let here = decrease_at(&h, &g, measured).expect("decrement");
            assert!(0.0 < here && here < last);
            last = here;
        }
    }
}
