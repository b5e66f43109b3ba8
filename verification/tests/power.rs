use fast_floats::scalar::Fast;

#[test]
fn powi_agrees_with_hardware() {
    let bases32 = [0.0f32, -0.0, 1.0, -1.0, 2.0, -2.0, 0.5, 1.5, -1.5, 3.1415927, 10.0, 1.0e-3, 1.0000001, 0.99999994, f32::INFINITY, f32::MIN_POSITIVE];
    let powers = [0i32, 1, -1, 2, -2, 3, -3, 4, 5, 7, 10, -10, 16, 31, 100, -100, 1000, i32::MAX, i32::MIN, 123456];
    for &x in &bases32 {
        for &n in &powers {
            let n = std::hint::black_box(n);
            let want = std::hint::black_box(x).powi(n);
            let got = Fast(x.to_bits()).powi(n).0;
            if want.is_nan() {
                assert!(f32::from_bits(got).is_nan());
            } else {
                assert_eq!(got, want.to_bits(), "{x:?}^{n}");
            }
            let y = x as f64;
            let want = std::hint::black_box(y).powi(n);
            let got = Fast(y.to_bits()).powi(n).0;
            if want.is_nan() {
                assert!(f64::from_bits(got).is_nan());
            } else {
                assert_eq!(got, want.to_bits(), "{y:?}^{n}");
            }
        }
    }
}

#[test]
fn powi_of_zero_power_is_one() {
    assert_eq!(Fast(f32::NAN.to_bits()).powi(0).0, 1.0f32.to_bits());
    assert_eq!(Fast(7.5f64.to_bits()).powi(0).0, 1.0f64.to_bits());
    assert_eq!(Fast(3.0f32.to_bits()).powi(4).0, 81.0f32.to_bits());
    assert_eq!(Fast(2.0f64.to_bits()).powi(-2).0, 0.25f64.to_bits());
}
