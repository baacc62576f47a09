use mal::fixed::{
    abs_fixed, exp_fixed, floor_fixed, power_fixed, sqrt_fixed, Q32_32, C40, COEFFS, FRAC, INVLN2_Q32, LN2_Q32, SCALE,
};

fn from_f64(x: f64) -> Q32_32 {
    Q32_32((x * 4294967296.0).round() as i64)
}

fn to_f64(q: Q32_32) -> f64 {
    q.0 as f64 / 4294967296.0
}

/// Tolerance accounting for Q32.32 input quantization (~e^|x| * 2^-33).
fn tol(x: f64) -> f64 {
    x.abs().exp() * 2.0f64.powi(-31) + 2.0f64.powi(-31)
}

#[test]
fn test_constants_match_stage44_report() {
    assert_eq!(LN2_Q32, 2977044472);
    assert_eq!(INVLN2_Q32, 6196328019);
    assert_eq!(C40, 762123384786);
    assert_eq!(COEFFS.len(), 13);
    assert_eq!(COEFFS[0], 4294967296);
    assert_eq!(COEFFS[12], 9);
}

#[test]
fn test_sqrt_perfect_squares() {
    assert_eq!(sqrt_fixed(144), 12);
    assert_eq!(sqrt_fixed(0), 0);
    assert_eq!(sqrt_fixed(1), 1);
    assert_eq!(sqrt_fixed(4), 2);
    assert_eq!(sqrt_fixed(9), 3);
    assert_eq!(sqrt_fixed(1000000), 1000);
}

#[test]
fn test_sqrt_floor_non_squares() {
    assert_eq!(sqrt_fixed(2), 1);
    assert_eq!(sqrt_fixed(3), 1);
    assert_eq!(sqrt_fixed(8), 2);
    assert_eq!(sqrt_fixed(15), 3);
    assert_eq!(sqrt_fixed(99), 9);
}

#[test]
fn test_sqrt_cross_check_f64() {
    for x in (0..1000u64).step_by(7) {
        let got = sqrt_fixed(x);
        let reference = (x as f64).sqrt().floor() as u64;
        assert_eq!(got, reference, "sqrt({}): got {}, ref {}", x, got, reference);
    }
}

#[test]
fn test_power_from_p40() {
    assert_eq!(power_fixed(2, 10), 1024);
    assert_eq!(power_fixed(3, 0), 1);
    assert_eq!(power_fixed(5, 3), 125);
    assert_eq!(power_fixed(2, 0), 1);
}

#[test]
fn sqrt_is_exact_on_all_u64() {
    assert_eq!(sqrt_fixed(u64::MAX), 0xffff_ffff);
    assert_eq!(sqrt_fixed(1u64 << 62), 1u64 << 31);
    assert_eq!(sqrt_fixed((1u64 << 62) - 1), 0x7fff_ffff);
    assert_eq!(sqrt_fixed(1u64 << 60), 1u64 << 30);
}

#[test]
fn power_saturates() {
    assert_eq!(power_fixed(2, 64), u64::MAX);
    assert_eq!(power_fixed(2, 63), 1u64 << 63);
    assert_eq!(power_fixed(0, 5), 0);
    assert_eq!(power_fixed(1, 1000), 1);
}

#[test]
fn abs_and_floor_of_raw_values() {
    let scale = SCALE as i64;
    assert_eq!(FRAC, 32);
    assert_eq!(abs_fixed(Q32_32(-42 * scale)).raw(), 42 * scale);
    assert_eq!(abs_fixed(Q32_32(42 * scale)).raw(), 42 * scale);
    assert_eq!(abs_fixed(Q32_32::zero()).raw(), 0);
    assert_eq!(floor_fixed(Q32_32(3 * scale + scale / 2)), 3);
    assert_eq!(floor_fixed(Q32_32(5 * scale)), 5);
    assert_eq!(floor_fixed(Q32_32(scale / 2)), 0);
    assert_eq!(floor_fixed(Q32_32(-scale / 2)), -1);
    assert_eq!(Q32_32::one().raw(), scale);
}

#[test]
fn test_exp_reference_points_from_report() {
    let cases = [0.0, 1.0, -1.0, 0.5, 2.0, -5.0, 3.0, 5.0, -20.0];
    for &x in &cases {
        let got = to_f64(exp_fixed(from_f64(x)));
        let reference = x.exp();
        let err = (got - reference).abs();
        assert!(err < tol(x), "exp({}): got {:.12}, ref {:.12}, err {:.2e}, tol {:.2e}", x, got, reference, err, tol(x));
    }
}

#[test]
fn test_exp_zero_and_one() {
    let e0 = to_f64(exp_fixed(Q32_32::zero()));
    assert!((e0 - 1.0).abs() < 1e-9, "exp(0)={}", e0);
    let e1 = to_f64(exp_fixed(Q32_32::one()));
    assert!((e1 - std::f64::consts::E).abs() < 1e-8, "exp(1)={}", e1);
}

#[test]
fn test_exp_determinism_bit_exact() {
    for &x in &[0.3, 1.7, -2.5, 4.1] {
        let q = from_f64(x);
        assert_eq!(exp_fixed(q).raw(), exp_fixed(q).raw(), "non-deterministic at x={}", x);
    }
}

#[test]
fn test_exp_monotonic_increasing() {
    let mut prev = exp_fixed(from_f64(-10.0)).raw();
    let mut x = -9.5;
    while x <= 5.0 {
        let cur = exp_fixed(from_f64(x)).raw();
        assert!(cur > prev, "not increasing at x={}", x);
        prev = cur;
        x += 0.5;
    }
}

#[test]
fn test_abs_from_p40() {
    assert_eq!(to_f64(abs_fixed(from_f64(-42.0))), 42.0);
    assert_eq!(to_f64(abs_fixed(from_f64(42.0))), 42.0);
    assert_eq!(to_f64(abs_fixed(Q32_32::zero())), 0.0);
}

#[test]
fn test_floor_from_p40() {
    assert_eq!(floor_fixed(from_f64(3.7)), 3);
    assert_eq!(floor_fixed(from_f64(5.0)), 5);
    assert_eq!(floor_fixed(from_f64(0.5)), 0);
}

#[test]
fn test_no_silent_overflow_i128() {
    let r = to_f64(exp_fixed(from_f64(20.0)));
    let reference = 20.0f64.exp();
    let rel_err = ((r - reference) / reference).abs();
    assert!(rel_err < 1e-8, "exp(20): got {}, ref {}", r, reference);
}

#[test]
fn exp_at_the_ends_of_its_domain() {
    let top = to_f64(exp_fixed(Q32_32(21 << 32)));
    assert!(((top - 21.0f64.exp()) / 21.0f64.exp()).abs() < 1e-8);
    let bottom = exp_fixed(Q32_32(-(88i64 << 32)));
    assert!(bottom.raw() >= 0 && bottom.raw() <= 1);
    assert_eq!(exp_fixed(Q32_32::zero()).raw(), 4294967296);
    assert_eq!(exp_fixed(Q32_32::one()).raw(), 11674931555);
    assert_eq!(exp_fixed(Q32_32(-(1i64 << 32))).raw(), 1580030169);
    assert_eq!(exp_fixed(Q32_32(21 << 32)).raw(), 5664270449029999163);
    assert_eq!(bottom.raw(), 0);
}
