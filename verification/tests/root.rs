use fast_floats::scalar::Fast;

#[test]
fn sqrt_of_four_is_two() {
    assert_eq!(Fast(4.0f32.to_bits()).sqrt().0, 2.0f32.to_bits());
    assert_eq!(Fast(4.0f64.to_bits()).sqrt().0, 2.0f64.to_bits());
}

#[test]
fn sqrt_agrees_with_hardware_on_binary32() {
    let mut v: Vec<u32> = vec![
        0, 0x8000_0000, 1, 2, 3, 0x007f_ffff, 0x0080_0000, 0x0080_0001, 0x3f80_0000, 0x3f80_0001,
        0x3f7f_ffff, 0x4000_0000, 0x4080_0000, 0x7f7f_ffff, 0x7f80_0000, 0xff80_0000, 0xbf80_0000,
        0x7fc0_0000, 0x4110_0000, 0x4180_0000,
    ];
    let mut bits: u32 = 0x1357_9bdf;
    for _ in 0..200000 {
        bits = bits.wrapping_mul(1664525).wrapping_add(1013904223);
        v.push(bits);
    }
    for a in v {
        let want = f32::from_bits(a).sqrt();
        let got = Fast(a).sqrt().0;
        if want.is_nan() {
            assert!(f32::from_bits(got).is_nan(), "{a:#x}");
        } else {
            assert_eq!(got, want.to_bits(), "{a:#x}");
        }
    }
}

#[test]
fn sqrt_agrees_with_hardware_on_binary64() {
    let mut v: Vec<u64> = vec![
        0,
        0x8000_0000_0000_0000,
        1,
        2,
        3,
        0x000f_ffff_ffff_ffff,
        0x0010_0000_0000_0000,
        0x3ff0_0000_0000_0000,
        0x3ff0_0000_0000_0001,
        0x3fef_ffff_ffff_ffff,
        0x4000_0000_0000_0000,
        0x4010_0000_0000_0000,
        0x7fef_ffff_ffff_ffff,
        0x7ff0_0000_0000_0000,
        0xfff0_0000_0000_0000,
        0xbff0_0000_0000_0000,
        0x7ff8_0000_0000_0000,
        0x4022_0000_0000_0000,
    ];
    let mut bits: u64 = 0x0123_4567_89ab_cdef;
    for _ in 0..100000 {
        bits = bits.wrapping_mul(6364136223846793005).wrapping_add(1442695040888963407);
        v.push(bits);
    }
    for a in v {
        let want = f64::from_bits(a).sqrt();
        let got = Fast(a).sqrt().0;
        if want.is_nan() {
            assert!(f64::from_bits(got).is_nan(), "{a:#x}");
        } else {
            assert_eq!(got, want.to_bits(), "{a:#x}");
        }
    }
}
