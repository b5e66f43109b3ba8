use fast_floats::scalar::{Fast, F32, F64};
use std::cmp::Ordering;

fn w(x: f32) -> F32 {
    Fast(x.to_bits())
}

fn d(x: f64) -> F64 {
    Fast(x.to_bits())
}

fn policy32(a: f32, b: f32) -> Ordering {
    if a < b {
        Ordering::Less
    } else if a == b {
        Ordering::Equal
    } else {
        Ordering::Greater
    }
}

fn policy64(a: f64, b: f64) -> Ordering {
    if a < b {
        Ordering::Less
    } else if a == b {
        Ordering::Equal
    } else {
        Ordering::Greater
    }
}

fn samples32() -> Vec<f32> {
    let mut v = vec![
        0.0f32, -0.0, 1.0, -1.0, 1.5, -1.5, f32::MIN_POSITIVE, -f32::MIN_POSITIVE, 1.0e-45,
        -1.0e-45, f32::MAX, f32::MIN, f32::INFINITY, f32::NEG_INFINITY, f32::NAN, -f32::NAN,
        f32::from_bits(0x7f80_0001),
    ];
    let mut bits: u32 = 0xdead_beef;
    for _ in 0..150 {
        bits = bits.wrapping_mul(1664525).wrapping_add(1013904223);
        v.push(f32::from_bits(bits));
    }
    v
}

fn samples64() -> Vec<f64> {
    let mut v = vec![
        0.0f64, -0.0, 1.0, -1.0, 1.5, -1.5, f64::MIN_POSITIVE, -f64::MIN_POSITIVE, 5.0e-324,
        -5.0e-324, f64::MAX, f64::MIN, f64::INFINITY, f64::NEG_INFINITY, f64::NAN, -f64::NAN,
    ];
    let mut bits: u64 = 0xdead_beef_cafe_f00d;
    for _ in 0..150 {
        bits = bits.wrapping_mul(6364136223846793005).wrapping_add(1442695040888963407);
        v.push(f64::from_bits(bits));
    }
    v
}

#[test]
fn cmp_follows_the_rule_on_binary32() {
    for &a in &samples32() {
        for &b in &samples32() {
            assert_eq!(w(a).cmp(&w(b)), policy32(a, b), "{a:?} {b:?}");
        }
    }
}

#[test]
fn cmp_follows_the_rule_on_binary64() {
    for &a in &samples64() {
        for &b in &samples64() {
            assert_eq!(d(a).cmp(&d(b)), policy64(a, b), "{a:?} {b:?}");
        }
    }
}

#[test]
fn a_nan_is_greater_than_itself() {
    let n = w(f32::NAN);
    assert_eq!(n.cmp(&n), Ordering::Greater);
    assert_eq!(n.cmp(&w(1.0)), Ordering::Greater);
    assert_eq!(w(1.0).cmp(&n), Ordering::Greater);
    let n = d(f64::NAN);
    assert_eq!(n.cmp(&n), Ordering::Greater);
    assert_eq!(n.cmp(&d(f64::NEG_INFINITY)), Ordering::Greater);
    assert_eq!(d(f64::INFINITY).cmp(&n), Ordering::Greater);
}

#[test]
fn cmp_is_a_total_order_on_numbers() {
    let v: Vec<f32> = samples32().into_iter().filter(|x| !x.is_nan()).take(60).collect();
    for &a in &v {
        assert_eq!(w(a).cmp(&w(a)), Ordering::Equal);
        for &b in &v {
            let ab = w(a).cmp(&w(b));
            assert_eq!(ab, w(b).cmp(&w(a)).reverse());
            for &c in &v {
                if ab != Ordering::Greater && w(b).cmp(&w(c)) != Ordering::Greater {
                    assert_ne!(w(a).cmp(&w(c)), Ordering::Greater);
                }
            }
        }
    }
}

#[test]
fn the_two_zeros_are_equal() {
    assert_eq!(w(0.0).cmp(&w(-0.0)), Ordering::Equal);
    assert!(w(0.0) == w(-0.0));
    assert!(d(0.0) == d(-0.0));
    assert!(!(w(0.0) < w(-0.0)));
}

#[test]
fn equality_and_order_between_scalars_are_those_of_the_numbers() {
    for &a in &samples32() {
        for &b in &samples32() {
            assert_eq!(w(a) == w(b), a == b);
            assert_eq!(w(a) != w(b), a != b);
            assert_eq!(w(a) < w(b), a < b);
            assert_eq!(w(a) <= w(b), a <= b);
            assert_eq!(w(a) > w(b), a > b);
            assert_eq!(w(a) >= w(b), a >= b);
            assert_eq!(w(a).partial_cmp(&w(b)), a.partial_cmp(&b));
        }
    }
    for &a in &samples64() {
        for &b in &samples64() {
            assert_eq!(d(a) == d(b), a == b);
            assert_eq!(d(a) < d(b), a < b);
            assert_eq!(d(a) >= d(b), a >= b);
            assert_eq!(d(a).partial_cmp(&d(b)), a.partial_cmp(&b));
        }
    }
}

#[test]
fn comparison_with_a_raw_pattern_wraps_it_first() {
    for &a in &samples32() {
        for &b in &samples32() {
            assert_eq!(w(a) == b.to_bits(), a == b);
            assert_eq!(w(a).partial_cmp(&b.to_bits()), Some(policy32(a, b)));
            assert_eq!(w(a) < b.to_bits(), a < b);
            assert_eq!(w(a) > b.to_bits(), policy32(a, b) == Ordering::Greater);
        }
    }
    for &a in &samples64() {
        for &b in &samples64() {
            assert_eq!(d(a) == b.to_bits(), a == b);
            assert_eq!(d(a).partial_cmp(&b.to_bits()), Some(policy64(a, b)));
        }
    }
    // a NaN is above every raw pattern
    assert!(w(f32::NAN) > 1.0f32.to_bits());
    assert!(w(f32::NAN) >= 1.0f32.to_bits());
}
