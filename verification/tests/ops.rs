use fast_floats::scalar::{Fast, F32, F64};

fn w(x: f32) -> F32 {
    Fast(x.to_bits())
}

fn d(x: f64) -> F64 {
    Fast(x.to_bits())
}

fn pairs32() -> Vec<(f32, f32)> {
    let mut v = vec![(1.0f32, 2.0), (0.1, 0.2), (-3.5, 1.25), (1.0e20, 1.0e-20), (7.0, 0.0), (0.0, -0.0), (5.5, 2.0), (-7.25, 3.0)];
    let mut bits: u32 = 77;
    for _ in 0..2000 {
        bits = bits.wrapping_mul(1664525).wrapping_add(1013904223);
        let a = f32::from_bits(bits);
        bits = bits.wrapping_mul(1664525).wrapping_add(1013904223);
        let b = f32::from_bits(bits);
        if a.is_finite() && b.is_finite() {
            v.push((a, b));
        }
    }
    v
}

fn pairs64() -> Vec<(f64, f64)> {
    let mut v = vec![(1.0f64, 2.0), (0.1, 0.2), (-3.5, 1.25), (1.0e200, 1.0e-200), (7.0, 0.0), (5.5, 2.0)];
    let mut bits: u64 = 77;
    for _ in 0..2000 {
        bits = bits.wrapping_mul(6364136223846793005).wrapping_add(1442695040888963407);
        let a = f64::from_bits(bits);
        bits = bits.wrapping_mul(6364136223846793005).wrapping_add(1442695040888963407);
        let b = f64::from_bits(bits);
        if a.is_finite() && b.is_finite() {
            v.push((a, b));
        }
    }
    v
}

fn same32(got: F32, want: f32) {
    if want.is_nan() {
        assert!(f32::from_bits(got.0).is_nan());
    } else {
        assert_eq!(got.0, want.to_bits());
    }
}

fn same64(got: F64, want: f64) {
    if want.is_nan() {
        assert!(f64::from_bits(got.0).is_nan());
    } else {
        assert_eq!(got.0, want.to_bits());
    }
}

#[test]
fn operators_on_two_scalars() {
    for (a, b) in pairs32() {
        same32(w(a) + w(b), a + b);
        same32(w(a) - w(b), a - b);
        same32(w(a) * w(b), a * b);
        same32(w(a) / w(b), a / b);
        same32(w(a) % w(b), a % b);
    }
    for (a, b) in pairs64() {
        same64(d(a) + d(b), a + b);
        same64(d(a) - d(b), a - b);
        same64(d(a) * d(b), a * b);
        same64(d(a) / d(b), a / b);
        same64(d(a) % d(b), a % b);
    }
}

#[test]
fn operators_on_a_scalar_and_a_raw_pattern() {
    for (a, b) in pairs32() {
        same32(w(a) + b.to_bits(), a + b);
        same32(w(a) - b.to_bits(), a - b);
        same32(w(a) * b.to_bits(), a * b);
        same32(w(a) / b.to_bits(), a / b);
        same32(w(a) % b.to_bits(), a % b);
    }
    for (a, b) in pairs64() {
        same64(d(a) + b.to_bits(), a + b);
        same64(d(a) - b.to_bits(), a - b);
        same64(d(a) * b.to_bits(), a * b);
        same64(d(a) / b.to_bits(), a / b);
        same64(d(a) % b.to_bits(), a % b);
    }
}

#[test]
fn operators_on_a_raw_pattern_and_a_scalar() {
    for (a, b) in pairs32() {
        same32(a.to_bits() + w(b), a + b);
        same32(a.to_bits() - w(b), a - b);
        same32(a.to_bits() * w(b), a * b);
        same32(a.to_bits() / w(b), a / b);
        same32(a.to_bits() % w(b), a % b);
    }
    for (a, b) in pairs64() {
        same64(a.to_bits() + d(b), a + b);
        same64(a.to_bits() - d(b), a - b);
        same64(a.to_bits() * d(b), a * b);
        same64(a.to_bits() / d(b), a / b);
        same64(a.to_bits() % d(b), a % b);
    }
}

#[test]
fn assigning_operators() {
    for (a, b) in pairs32() {
        let mut x = w(a);
        x += w(b);
        same32(x, a + b);
        let mut x = w(a);
        x -= w(b);
        same32(x, a - b);
        let mut x = w(a);
        x *= w(b);
        same32(x, a * b);
        let mut x = w(a);
        x /= w(b);
        same32(x, a / b);
        let mut x = w(a);
        x %= w(b);
        same32(x, a % b);
        let mut x = w(a);
        x += b.to_bits();
        same32(x, a + b);
        let mut x = w(a);
        x -= b.to_bits();
        same32(x, a - b);
        let mut x = w(a);
        x *= b.to_bits();
        same32(x, a * b);
        let mut x = w(a);
        x /= b.to_bits();
        same32(x, a / b);
        let mut x = w(a);
        x %= b.to_bits();
        same32(x, a % b);
    }
    for (a, b) in pairs64() {
        let mut x = d(a);
        x += d(b);
        same64(x, a + b);
        let mut x = d(a);
        x -= b.to_bits();
        same64(x, a - b);
        let mut x = d(a);
        x *= d(b);
        same64(x, a * b);
        let mut x = d(a);
        x /= b.to_bits();
        same64(x, a / b);
        let mut x = d(a);
        x %= d(b);
        same64(x, a % b);
    }
}

#[test]
fn sums_of_small_whole_numbers_are_exact() {
    for a in -50i32..50 {
        for b in -50i32..50 {
            assert_eq!((w(a as f32) + w(b as f32)).0 & 0x7fff_ffff, ((a + b) as f32).to_bits() & 0x7fff_ffff);
            assert!(w(a as f32) + w(b as f32) == w((a + b) as f32));
            assert!(d(a as f64) + d(b as f64) == d((a + b) as f64));
        }
    }
}

#[test]
fn addition_commutes() {
    for (a, b) in pairs32() {
        assert_eq!((w(a) + w(b)).0, (w(b) + w(a)).0);
    }
    for (a, b) in pairs64() {
        assert_eq!((d(a) + d(b)).0, (d(b) + d(a)).0);
    }
}

#[test]
fn zero_and_one_are_identities() {
    for (a, _) in pairs32() {
        assert!(w(a) + F32::zero() == w(a));
        assert_eq!((w(a) * F32::one()).0, w(a).0);
    }
    for (a, _) in pairs64() {
        assert!(d(a) + F64::zero() == d(a));
        assert_eq!((d(a) * F64::one()).0, d(a).0);
    }
    // the one number that changes its pattern
    assert_eq!((w(-0.0) + F32::zero()).0, 0);
}

#[test]
fn division_by_zero_gives_an_infinity_or_a_nan() {
    same32(w(1.0) / w(0.0), f32::INFINITY);
    same32(w(-1.0) / w(0.0), f32::NEG_INFINITY);
    same32(w(0.0) / w(0.0), f32::NAN);
    same32(w(1.0) % w(0.0), f32::NAN);
    same32(w(f32::INFINITY) - w(f32::INFINITY), f32::NAN);
    same32(w(f32::INFINITY) * w(0.0), f32::NAN);
    same64(d(f64::MAX) * d(2.0), f64::INFINITY);
    same64(d(5.0) % d(f64::INFINITY), 5.0);
}
