use fast_floats::scalar::Fast;

fn patterns32() -> Vec<u32> {
    let mut v = vec![
        0u32, 0x8000_0000, 1, 0x8000_0001, 0x007f_ffff, 0x0080_0000, 0x3f80_0000, 0xbf80_0000,
        0x7f7f_ffff, 0xff7f_ffff, 0x7f80_0000, 0xff80_0000, 0x0000_1000, 0x0040_0000,
    ];
    let mut bits: u32 = 0x2545_f491;
    for _ in 0..20000 {
        bits = bits.wrapping_mul(1664525).wrapping_add(1013904223);
        v.push(bits);
    }
    v
}

fn patterns64() -> Vec<u64> {
    let mut v = vec![
        0u64,
        0x8000_0000_0000_0000,
        1,
        0x3ff0_0000_0000_0000,
        0x7fef_ffff_ffff_ffff,
        0x7ff0_0000_0000_0000,
        0xfff0_0000_0000_0000,
        0x47ef_ffff_e000_0000,
        0x47ef_ffff_efff_ffff,
        0x47ef_ffff_f000_0000,
        0x47f0_0000_0000_0000,
        0x36a0_0000_0000_0000,
        0x3690_0000_0000_0000,
        0x3690_0000_0000_0001,
        0x3810_0000_0000_0000,
        0x380f_ffff_ffff_ffff,
        0x3ff0_0000_1000_0000,
        0x3ff0_0000_3000_0000,
        0x3ff0_0000_1000_0001,
    ];
    let mut bits: u64 = 0x9e37_79b9_7f4a_7c15;
    for _ in 0..20000 {
        bits = bits.wrapping_mul(6364136223846793005).wrapping_add(1442695040888963407);
        v.push(bits);
        // within the range of binary32, subnormals included
        v.push((bits & 0x800f_ffff_ffff_ffff) | ((((bits >> 52) % 300 + 860) & 0x7ff) << 52));
    }
    v
}

#[test]
fn widening_agrees_with_hardware() {
    for a in patterns32() {
        let x = f32::from_bits(a);
        let got = Fast(a).as_64().0;
        if x.is_nan() {
            assert!(f64::from_bits(got).is_nan());
            assert_eq!(got >> 63, (a >> 31) as u64);
        } else {
            assert_eq!(got, (x as f64).to_bits(), "{a:#x}");
        }
    }
}

#[test]
fn narrowing_agrees_with_hardware() {
    for a in patterns64() {
        let x = f64::from_bits(a);
        let got = Fast(a).as_32().0;
        if x.is_nan() {
            assert!(f32::from_bits(got).is_nan());
            assert_eq!(got >> 31, (a >> 63) as u32);
        } else {
            assert_eq!(got, (x as f32).to_bits(), "{a:#x}");
        }
    }
}

#[test]
fn widening_then_narrowing_returns_the_number() {
    for a in patterns32() {
        if !f32::from_bits(a).is_nan() {
            assert_eq!(Fast(a).as_64().as_32().0, a);
        }
    }
    assert_eq!(Fast(1.5f32.to_bits()).as_64().as_32().0, 1.5f32.to_bits());
}

#[test]
fn narrowing_then_widening_is_lossy() {
    let x = 0.1f64;
    let back = f64::from_bits(Fast(x.to_bits()).as_32().as_64().0);
    assert_ne!(back, x);
    assert!((back - x).abs() < 1.0e-8);
    assert_eq!(back, 0.1f32 as f64);
}

#[test]
fn narrowing_overflows_to_infinity() {
    assert_eq!(Fast(1.0e300f64.to_bits()).as_32().0, f32::INFINITY.to_bits());
    assert_eq!(Fast((-1.0e300f64).to_bits()).as_32().0, f32::NEG_INFINITY.to_bits());
    assert_eq!(Fast(1.0e-300f64.to_bits()).as_32().0, 0);
}

#[test]
fn conversions_keep_a_nan_a_nan() {
    let wide = Fast(0x7f80_0001u32).as_64().0;
    assert_eq!(wide, 0x7ff8_0000_2000_0000);
    let narrow = Fast(0xfff0_0000_0000_0001u64).as_32().0;
    assert_eq!(narrow, 0xffc0_0000);
}

#[test]
fn fastln_of_binary64_goes_through_binary32() {
    for x in [0.5f64, 1.0, 2.0, std::f64::consts::E, 10.0, 1.0e10, 1.0e-10, 123.456] {
        let got = f64::from_bits(Fast(x.to_bits()).fastln().0);
        let narrow = f32::from_bits(Fast((x as f32).to_bits()).fastln().0);
        assert_eq!(got, narrow as f64);
        assert!((got - x.ln()).abs() < 1.0e-4, "{x}");
    }
    let one = f64::from_bits(Fast(std::f64::consts::E.to_bits()).fastln().0);
    assert!((one - 1.0).abs() < 0.03);
}
