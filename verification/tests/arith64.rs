use fast_floats::double::arith as wide;
use fast_floats::scalar::Fast;

fn patterns64(seed: u64, count: usize) -> Vec<u64> {
    let mut v = vec![
        0u64,
        0x8000_0000_0000_0000,
        1,
        0x8000_0000_0000_0001,
        0x000f_ffff_ffff_ffff,
        0x0010_0000_0000_0000,
        0x0010_0000_0000_0001,
        0x3ff0_0000_0000_0000,
        0xbff0_0000_0000_0000,
        0x3fe0_0000_0000_0000,
        0x3fff_ffff_ffff_ffff,
        0x4000_0000_0000_0000,
        0x7fef_ffff_ffff_ffff,
        0xffef_ffff_ffff_ffff,
        0x7ff0_0000_0000_0000,
        0xfff0_0000_0000_0000,
        0x7ff8_0000_0000_0000,
        0x4330_0000_0000_0000,
        0x433f_ffff_ffff_ffff,
        0x0000_0000_0000_0003,
        0x1ff0_0000_0000_0000,
        0x2000_0000_0000_0000,
        0x5fe0_0000_0000_0000,
        0x3ff0_0000_0000_0001,
        0x3ff8_0000_0000_0000,
    ];
    let mut bits = seed;
    for _ in 0..count {
        bits = bits.wrapping_mul(6364136223846793005).wrapping_add(1442695040888963407);
        v.push(bits);
        // a neighbour of 1.0 in exponent, to make results land in range
        v.push((bits & 0x800f_ffff_ffff_ffff) | ((((bits >> 52) % 120 + 963) & 0x7ff) << 52));
    }
    v
}

fn same64(got: u64, want: f64) -> bool {
    if want.is_nan() {
        f64::from_bits(got).is_nan()
    } else {
        got == want.to_bits()
    }
}

#[test]
fn product_agrees_with_hardware_on_binary64() {
    let v = patterns64(7, 1000);
    for &a in &v {
        for &b in &v {
            let want = f64::from_bits(a) * f64::from_bits(b);
            assert!(same64(wide::product(a, b), want), "{a:#x} * {b:#x}");
        }
    }
}

#[test]
fn sum_agrees_with_hardware_on_binary64() {
    let v = patterns64(11, 1000);
    for &a in &v {
        for &b in &v {
            let want = f64::from_bits(a) + f64::from_bits(b);
            assert!(same64(wide::sum(a, b), want), "{a:#x} + {b:#x}");
        }
    }
}

#[test]
fn difference_agrees_with_hardware_on_binary64() {
    let v = patterns64(13, 1000);
    for &a in &v {
        for &b in &v {
            let want = f64::from_bits(a) - f64::from_bits(b);
            assert!(same64(wide::difference(a, b), want), "{a:#x} - {b:#x}");
        }
    }
}

#[test]
fn quotient_agrees_with_hardware_on_binary64() {
    let v = patterns64(17, 1000);
    for &a in &v {
        for &b in &v {
            let want = f64::from_bits(a) / f64::from_bits(b);
            assert!(same64(wide::quotient(a, b), want), "{a:#x} / {b:#x}");
        }
    }
}

#[test]
fn remainder_agrees_with_hardware_on_binary64() {
    let v = patterns64(19, 1000);
    for &a in &v {
        for &b in &v {
            let want = f64::from_bits(a) % f64::from_bits(b);
            assert!(same64(wide::remainder(a, b), want), "{a:#x} % {b:#x}");
        }
    }
}

#[test]
fn whole_numbers_convert_exactly_on_binary64() {
    for k in [0i32, 1, -1, 2, 255, -256, 16777217, i32::MAX, i32::MIN] {
        assert_eq!(wide::whole(k), (k as f64).to_bits());
    }
}

#[test]
fn rounding_to_whole_numbers_agrees_with_hardware_on_binary64() {
    let mut v = patterns64(23, 3000);
    for x in [0.25f64, -0.25, 0.5, -0.5, 0.75, 1.5, -1.5, 2.5, -2.5, 4503599627370495.5, 0.49999999999999994] {
        v.push(x.to_bits());
    }
    for &a in &v {
        let x = f64::from_bits(a);
        if x.is_nan() {
            continue;
        }
        assert_eq!(Fast(a).trunc().0, x.trunc().to_bits(), "trunc({x:?})");
        assert_eq!(Fast(a).floor().0, x.floor().to_bits(), "floor({x:?})");
        assert_eq!(Fast(a).ceil().0, x.ceil().to_bits(), "ceil({x:?})");
        assert_eq!(Fast(a).round().0, x.round().to_bits(), "round({x:?})");
    }
}

#[test]
fn fastexp_is_the_chain_of_eight_squarings_on_binary64() {
    for &a in &patterns64(29, 3000) {
        let x = f64::from_bits(a);
        if !x.is_finite() {
            continue;
        }
        let mut y = 1.0 + x * 0.00390625;
        for _ in 0..8 {
            y *= y;
        }
        assert!(same64(Fast(a).fastexp().0, y), "fastexp({x:?})");
    }
    assert_eq!(Fast(0.0f64.to_bits()).fastexp().0, 1.0f64.to_bits());
    let two = f64::from_bits(Fast(std::f64::consts::LN_2.to_bits()).fastexp().0);
    assert!((two - 2.0).abs() / 2.0 < 0.03);
}
