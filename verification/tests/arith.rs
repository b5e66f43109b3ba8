use fast_floats::single::arith::{difference, product, quotient, remainder, sum, whole};

fn patterns32(seed: u32, count: usize) -> Vec<u32> {
    let mut v = vec![
        0u32, 0x8000_0000, 1, 0x8000_0001, 0x007f_ffff, 0x0080_0000, 0x0080_0001, 0x3f80_0000,
        0xbf80_0000, 0x3f00_0000, 0x3fff_ffff, 0x4000_0000, 0x7f7f_ffff, 0xff7f_ffff, 0x7f80_0000,
        0xff80_0000, 0x7fc0_0000, 0x3380_0000, 0x3400_0000, 0x4b00_0000, 0x4b7f_ffff, 0x0000_0003,
        0x1f80_0000, 0x2000_0000, 0x5f00_0000, 0x3f80_0001, 0x3fc0_0000,
    ];
    let mut bits = seed;
    for _ in 0..count {
        bits = bits.wrapping_mul(1664525).wrapping_add(1013904223);
        v.push(bits);
        // a neighbour of 1.0 in exponent, to make results land in range
        v.push((bits & 0x807f_ffff) | (((bits >> 23) % 40 + 107) << 23));
    }
    v
}

fn same32(got: u32, want: f32) -> bool {
    if want.is_nan() {
        f32::from_bits(got).is_nan()
    } else {
        got == want.to_bits()
    }
}

#[test]
fn product_agrees_with_hardware_on_binary32() {
    let v = patterns32(7, 1000);
    for &a in &v {
        for &b in &v {
            let want = f32::from_bits(a) * f32::from_bits(b);
            let got = product(a, b);
            assert!(same32(got, want), "{a:#x} * {b:#x}: got {got:#x}, want {:#x}", want.to_bits());
        }
    }
}

#[test]
fn sum_agrees_with_hardware_on_binary32() {
    let v = patterns32(11, 1000);
    for &a in &v {
        for &b in &v {
            let want = f32::from_bits(a) + f32::from_bits(b);
            let got = sum(a, b);
            assert!(same32(got, want), "{a:#x} + {b:#x}: got {got:#x}, want {:#x}", want.to_bits());
        }
    }
}

#[test]
fn difference_agrees_with_hardware_on_binary32() {
    let v = patterns32(13, 1000);
    for &a in &v {
        for &b in &v {
            let want = f32::from_bits(a) - f32::from_bits(b);
            let got = difference(a, b);
            assert!(same32(got, want), "{a:#x} - {b:#x}: got {got:#x}, want {:#x}", want.to_bits());
        }
    }
}

#[test]
fn quotient_agrees_with_hardware_on_binary32() {
    let v = patterns32(17, 1000);
    for &a in &v {
        for &b in &v {
            let want = f32::from_bits(a) / f32::from_bits(b);
            let got = quotient(a, b);
            assert!(same32(got, want), "{a:#x} / {b:#x}: got {got:#x}, want {:#x}", want.to_bits());
        }
    }
}

#[test]
fn remainder_agrees_with_hardware_on_binary32() {
    let v = patterns32(19, 1000);
    for &a in &v {
        for &b in &v {
            let want = f32::from_bits(a) % f32::from_bits(b);
            let got = remainder(a, b);
            assert!(same32(got, want), "{a:#x} % {b:#x}: got {got:#x}, want {:#x}", want.to_bits());
        }
    }
}

#[test]
fn whole_numbers_convert_as_the_hardware_does_on_binary32() {
    for k in [0i32, 1, -1, 2, 255, -256, 16777215, 16777217, 16777219, -16777217, i32::MAX, i32::MIN, 123456789] {
        assert_eq!(whole(k), (k as f32).to_bits(), "{k}");
    }
}
