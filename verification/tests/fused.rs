use fast_floats::single::fused::fused;

fn patterns(seed: u32, count: usize) -> Vec<u32> {
    let mut v = vec![
        0u32, 0x8000_0000, 1, 0x8000_0001, 0x007f_ffff, 0x0080_0000, 0x3f80_0000, 0xbf80_0000,
        0x3f00_0000, 0x3fff_ffff, 0x7f7f_ffff, 0xff7f_ffff, 0x7f80_0000, 0xff80_0000, 0x7fc0_0000,
        0x3380_0000, 0x4b00_0000, 0x3f80_0001, 0x3fc0_0000, 0x1000_0000, 0x6000_0000,
    ];
    let mut bits = seed;
    for _ in 0..count {
        bits = bits.wrapping_mul(1664525).wrapping_add(1013904223);
        v.push(bits);
        v.push((bits & 0x807f_ffff) | (((bits >> 23) % 24 + 115) << 23));
    }
    v
}

#[test]
fn fused_agrees_with_hardware_on_binary32() {
    let v = patterns(23, 80);
    for &a in &v {
        for &b in &v {
            for &c in &v {
                let want = f32::from_bits(a).mul_add(f32::from_bits(b), f32::from_bits(c));
                let got = fused(a, b, c);
                if want.is_nan() {
                    assert!(f32::from_bits(got).is_nan(), "{a:#x} {b:#x} {c:#x}");
                } else {
                    assert_eq!(got, want.to_bits(), "{a:#x} * {b:#x} + {c:#x}");
                }
            }
        }
    }
}

#[test]
fn fused_rounds_once() {
    // (1 + 2^-12)^2 - (1 + 2^-11) is 2^-24, which two roundings would lose.
    let x = 1.0f32 + 2.0f32.powi(-12);
    let c = -(1.0f32 + 2.0f32.powi(-11));
    let got = f32::from_bits(fused(x.to_bits(), x.to_bits(), c.to_bits()));
    assert_eq!(got, 2.0f32.powi(-24));
    assert_eq!(x * x + c, 0.0);
}

fn patterns64(seed: u64, count: usize) -> Vec<u64> {
    let mut v = vec![
        0u64,
        0x8000_0000_0000_0000,
        1,
        0x8000_0000_0000_0001,
        0x000f_ffff_ffff_ffff,
        0x0010_0000_0000_0000,
        0x3ff0_0000_0000_0000,
        0xbff0_0000_0000_0000,
        0x3fe0_0000_0000_0000,
        0x3fff_ffff_ffff_ffff,
        0x7fef_ffff_ffff_ffff,
        0xffef_ffff_ffff_ffff,
        0x7ff0_0000_0000_0000,
        0xfff0_0000_0000_0000,
        0x7ff8_0000_0000_0000,
        0x3ca0_0000_0000_0000,
        0x4330_0000_0000_0000,
        0x3ff0_0000_0000_0001,
        0x3ff8_0000_0000_0000,
        0x1000_0000_0000_0000,
        0x6000_0000_0000_0000,
    ];
    let mut bits = seed;
    for _ in 0..count {
        bits = bits.wrapping_mul(6364136223846793005).wrapping_add(1442695040888963407);
        v.push(bits);
        v.push((bits & 0x800f_ffff_ffff_ffff) | ((((bits >> 52) % 60 + 993) & 0x7ff) << 52));
    }
    v
}

#[test]
fn fused_agrees_with_hardware_on_binary64() {
    let v = patterns64(31, 80);
    for &a in &v {
        for &b in &v {
            for &c in &v {
                let want = f64::from_bits(a).mul_add(f64::from_bits(b), f64::from_bits(c));
                let got = fast_floats::double::fused::fused(a, b, c);
                if want.is_nan() {
                    assert!(f64::from_bits(got).is_nan(), "{a:#x} {b:#x} {c:#x}");
                } else {
                    assert_eq!(got, want.to_bits(), "{a:#x} * {b:#x} + {c:#x}");
                }
            }
        }
    }
}

#[test]
fn fused_resolves_cancellation_on_binary64() {
    // x * x - x * x rounded is the rounding error of the product
    let mut bits: u64 = 99;
    for _ in 0..20000 {
        bits = bits.wrapping_mul(6364136223846793005).wrapping_add(1442695040888963407);
        let x = f64::from_bits((bits & 0x000f_ffff_ffff_ffff) | 0x3ff0_0000_0000_0000);
        bits = bits.wrapping_mul(6364136223846793005).wrapping_add(1442695040888963407);
        let y = f64::from_bits((bits & 0x000f_ffff_ffff_ffff) | 0x3ff0_0000_0000_0000);
        let c = -(x * y);
        let want = x.mul_add(y, c);
        let got = fast_floats::double::fused::fused(x.to_bits(), y.to_bits(), c.to_bits());
        assert_eq!(got, want.to_bits(), "{x:?} {y:?}");
        let cf = -((x as f32) * (y as f32));
        let wantf = (x as f32).mul_add(y as f32, cf);
        let gotf = fused((x as f32).to_bits(), (y as f32).to_bits(), cf.to_bits());
        assert_eq!(gotf, wantf.to_bits());
    }
}
