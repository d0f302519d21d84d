//! Every operation agrees, bit for bit, with the machine's own.

use opt::binary64::Binary64;

fn of(x: f64) -> Binary64 {
    Binary64::from_bits(x.to_bits())
}

/// Numbers of every kind, and pseudo-random patterns of every exponent.
fn samples() -> Vec<f64> {
    let mut all = vec![
        0.0,
        -0.0,
        1.0,
        -1.0,
        0.5,
        2.0,
        3.0,
        -7.25,
        1e-3,
        0.1,
        -0.3,
        1e300,
        -1e300,
        1e-300,
        1e-308,
        f64::MIN_POSITIVE,
        -f64::MIN_POSITIVE,
        f64::from_bits(1),
        f64::from_bits(2),
        f64::from_bits(3),
        f64::from_bits(0x000f_ffff_ffff_ffff),
        f64::from_bits(0x0010_0000_0000_0001),
        f64::MAX,
        -f64::MAX,
        f64::EPSILON,
        1.0 + f64::EPSILON,
        1.0 - f64::EPSILON / 2.0,
        f64::INFINITY,
        f64::NEG_INFINITY,
        f64::NAN,
        9007199254740991.0,
        9007199254740992.0,
    ];
    let mut state: u64 = 0x9e37_79b9_7f4a_7c15;
    for i in 0..120u64 {
        state ^= state << 13;
        state ^= state >> 7;
        state ^= state << 17;
        all.push(f64::from_bits(state));
        // Operands close to each other, where sums cancel and round.
        let near = 1.0 + (state % 1024) as f64 * f64::EPSILON * (i + 1) as f64;
        all.push(near);
        all.push(-near * f64::powi(2.0, (i % 70) as i32 - 35));
    }
    all
}

fn same(actual: Binary64, expected: f64) -> bool {
    if expected.is_nan() {
        actual.is_nan()
    } else {
        actual.to_bits() == expected.to_bits()
    }
}

#[test]
fn sums_and_differences_round_as_the_machine_does() {
    for &a in &samples() {
        for &b in &samples() {
            assert!(same(of(a).plus(of(b)), a + b), "{:e} + {:e}", a, b);
            assert!(same(of(a).minus(of(b)), a - b), "{:e} - {:e}", a, b);
        }
    }
}

#[test]
fn products_and_quotients_round_as_the_machine_does() {
    for &a in &samples() {
        for &b in &samples() {
            assert!(same(of(a).times(of(b)), a * b), "{:e} * {:e}", a, b);
            assert!(same(of(a).over(of(b)), a / b), "{:e} / {:e}", a, b);
        }
    }
}

#[test]
fn roots_round_as_the_machine_does() {
    for &a in &samples() {
        assert!(same(of(a).sqrt(), a.sqrt()), "sqrt {:e}", a);
    }
}

#[test]
fn comparisons_agree_with_the_machine() {
    for &a in &samples() {
        assert_eq!(of(a).is_finite(), a.is_finite());
        assert_eq!(of(a).is_nan(), a.is_nan());
        assert_eq!(of(a).abs().to_bits(), a.abs().to_bits());
        assert_eq!(of(a).negate().to_bits(), (-a).to_bits());
        for &b in &samples() {
            assert_eq!(of(a).is_less(of(b)), a < b);
            assert_eq!(of(a).is_at_most(of(b)), a <= b);
            assert_eq!(of(a) == of(b), a == b);
            let larger = f64::from_bits(of(a).max(of(b)).to_bits());
            assert!(larger == a.max(b) || (larger.is_nan() && a.max(b).is_nan()));
            let smaller = f64::from_bits(of(a).min(of(b)).to_bits());
            assert!(smaller == a.min(b) || (smaller.is_nan() && a.min(b).is_nan()));
        }
    }
}
