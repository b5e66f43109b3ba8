use fast_floats::scalar::Fast;

fn samples32() -> Vec<f32> {
    let mut v = vec![
        0.0f32, -0.0, 0.25, -0.25, 0.5, -0.5, 0.75, -0.75, 1.0, -1.0, 1.5, -1.5, 2.5, -2.5, 3.7,
        -3.7, 8388607.5, -8388607.5, 8388608.0, 16777216.0, 1.0e10, -1.0e10, 1.0e-40, -1.0e-40,
        f32::MAX, f32::MIN, f32::MIN_POSITIVE, f32::INFINITY, f32::NEG_INFINITY, 0.49999997,
        0.99999994, 1.9999999, 4194303.8,
    ];
    let mut bits: u32 = 0x1234_5678;
    for _ in 0..2000 {
        bits = bits.wrapping_mul(1664525).wrapping_add(1013904223);
        let x = f32::from_bits(bits);
        if !x.is_nan() {
            v.push(x);
        }
    }
    v
}

#[test]
fn trunc_agrees_with_hardware_on_binary32() {
    for x in samples32() {
        assert_eq!(Fast(x.to_bits()).trunc().0, x.trunc().to_bits(), "trunc({x:?})");
    }
}

#[test]
fn floor_agrees_with_hardware_on_binary32() {
    for x in samples32() {
        assert_eq!(Fast(x.to_bits()).floor().0, x.floor().to_bits(), "floor({x:?})");
    }
}

#[test]
fn ceil_agrees_with_hardware_on_binary32() {
    for x in samples32() {
        assert_eq!(Fast(x.to_bits()).ceil().0, x.ceil().to_bits(), "ceil({x:?})");
    }
}

#[test]
fn round_agrees_with_hardware_on_binary32() {
    for x in samples32() {
        assert_eq!(Fast(x.to_bits()).round().0, x.round().to_bits(), "round({x:?})");
    }
}

#[test]
fn rounding_keeps_nan_and_sign_of_zero() {
    let nan = Fast(f32::NAN.to_bits());
    assert!(f32::from_bits(nan.trunc().0).is_nan());
    assert!(f32::from_bits(nan.floor().0).is_nan());
    assert!(f32::from_bits(nan.ceil().0).is_nan());
    assert!(f32::from_bits(nan.round().0).is_nan());
    assert_eq!(Fast((-0.3f32).to_bits()).trunc().0, (-0.0f32).to_bits());
    assert_eq!(Fast((-0.3f32).to_bits()).ceil().0, (-0.0f32).to_bits());
    assert_eq!(Fast((-0.3f32).to_bits()).round().0, (-0.0f32).to_bits());
    assert_eq!(Fast((0.3f32).to_bits()).floor().0, (0.0f32).to_bits());
}

#[test]
fn round_takes_halves_away_from_zero() {
    assert_eq!(Fast(0.5f32.to_bits()).round().0, 1.0f32.to_bits());
    assert_eq!(Fast(1.5f32.to_bits()).round().0, 2.0f32.to_bits());
    assert_eq!(Fast(2.5f32.to_bits()).round().0, 3.0f32.to_bits());
    assert_eq!(Fast((-2.5f32).to_bits()).round().0, (-3.0f32).to_bits());
}
