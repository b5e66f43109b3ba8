use fast_floats::scalar::{fa, Fast, F32, F64};

fn w(x: f32) -> F32 {
    Fast(x.to_bits())
}

fn d(x: f64) -> F64 {
    Fast(x.to_bits())
}

#[test]
fn fa_wraps_the_pattern_unchanged() {
    assert_eq!(fa(0x1234_5678u32).0, 0x1234_5678);
    assert_eq!(fa(f64::NAN.to_bits()).0, f64::NAN.to_bits());
    let x = fa(2.5f32.to_bits());
    let y = x;
    assert_eq!(x.0, y.0);
}

#[test]
fn default_is_positive_zero() {
    assert_eq!(F32::default().0, 0.0f32.to_bits());
    assert_eq!(F64::default().0, 0.0f64.to_bits());
}

#[test]
fn zero_and_one_are_the_identities() {
    assert_eq!(F32::zero().0, 0.0f32.to_bits());
    assert_eq!(F32::one().0, 1.0f32.to_bits());
    assert_eq!(F64::zero().0, 0.0f64.to_bits());
    assert_eq!(F64::one().0, 1.0f64.to_bits());
    assert!(F32::zero().is_zero());
    assert!(w(-0.0).is_zero());
    assert!(!w(1.0e-45).is_zero());
    assert!(!w(f32::NAN).is_zero());
    assert!(F64::one().is_one());
    assert!(!d(-1.0).is_one());
    assert!(!d(1.0000000000000002).is_one());
    assert!(!d(f64::NAN).is_one());
    assert!(w(1.0).is_one());
    assert!(d(0.0).is_zero());
}

#[test]
fn abs_clears_the_sign() {
    for x in [0.0f32, -0.0, 1.5, -1.5, f32::MAX, f32::MIN, f32::INFINITY, f32::NEG_INFINITY, -1.0e-45] {
        assert_eq!(w(x).abs().0, x.abs().to_bits());
    }
    for x in [0.0f64, -0.0, 1.5, -1.5, f64::MAX, f64::MIN, f64::INFINITY, f64::NEG_INFINITY] {
        assert_eq!(d(x).abs().0, x.abs().to_bits());
    }
    assert_eq!(w(-f32::NAN).abs().0, (-f32::NAN).abs().to_bits());
}

#[test]
fn neg_flips_the_sign() {
    for x in [0.0f32, -0.0, 1.5, -1.5, f32::MAX, f32::INFINITY, f32::NAN] {
        assert_eq!((-w(x)).0, (-x).to_bits());
    }
    for x in [0.0f64, -0.0, 1.5, -1.5, f64::MAX, f64::INFINITY, f64::NAN] {
        assert_eq!((-d(x)).0, (-x).to_bits());
    }
}

#[test]
fn one_plus_two_is_three() {
    assert_eq!((w(1.0) + w(2.0)).0, w(3.0).0);
    assert!(w(1.0) + w(2.0) == w(3.0));
    assert!(d(1.0) + d(2.0) == d(3.0));
}

#[test]
fn the_sum_of_one_two_three_is_six() {
    let items = [w(1.0), w(2.0), w(3.0)];
    assert_eq!(F32::sum(&items).0, w(6.0).0);
    let items = [d(1.0), d(2.0), d(3.0)];
    assert_eq!(F64::sum(&items).0, d(6.0).0);
}

#[test]
fn sum_goes_from_the_left_and_starts_at_zero() {
    assert_eq!(F32::sum(&[]).0, 0);
    assert_eq!(F32::sum(&[w(-0.0)]).0, 0);
    let items = [w(1.0e8), w(1.0), w(-1.0e8), w(1.0)];
    assert_eq!(F32::sum(&items).0, (((0.0f32 + 1.0e8) + 1.0) + -1.0e8 + 1.0).to_bits());
    let mut v = Vec::new();
    let mut want = 0.0f64;
    let mut bits: u64 = 5;
    for _ in 0..500 {
        bits = bits.wrapping_mul(6364136223846793005).wrapping_add(1442695040888963407);
        let x = (bits >> 11) as f64 / (1u64 << 40) as f64 - 4000.0;
        v.push(d(x));
        want += x;
    }
    assert_eq!(F64::sum(&v).0, want.to_bits());
}

#[test]
fn mul_add_rounds_once() {
    let x = 1.0f32 + f32::EPSILON;
    assert_eq!(w(x).mul_add(w(x), w(-1.0)).0, x.mul_add(x, -1.0).to_bits());
    let y = 1.0f64 + f64::EPSILON;
    assert_eq!(d(y).mul_add(d(y), d(-1.0)).0, y.mul_add(y, -1.0).to_bits());
    assert_eq!(w(2.0).mul_add(w(3.0), w(4.0)).0, 10.0f32.to_bits());
}
