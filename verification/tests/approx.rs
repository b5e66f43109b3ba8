use fast_floats::scalar::Fast;

fn reference_fastexp(x: f32) -> f32 {
    let mut y = 1.0 + x * 0.00390625;
    for _ in 0..8 {
        y *= y;
    }
    y
}

fn reference_fastln(x: f32) -> f32 {
    let bits = x.to_bits();
    let e = bits.wrapping_sub(0x3f2a_aaab) & 0xff80_0000;
    let m = f32::from_bits(bits.wrapping_sub(e));
    let i = (e as i32) as f32 * 1.19209290e-7;
    let f = m - 1.0;
    let s = f * f;
    let mut r = 0.230836749f32.mul_add(f, -0.279208571);
    let t = 0.331826031f32.mul_add(f, -0.498910338);
    r = r.mul_add(s, t);
    r = r.mul_add(s, f);
    i.mul_add(0.693147182, r)
}

fn finite_samples() -> Vec<f32> {
    let mut v = vec![0.0f32, -0.0, 1.0, -1.0, 0.5, 2.0, 10.0, -10.0, 88.0, -88.0, 1.0e-3, 700.0];
    let mut bits: u32 = 0x9e37_79b9;
    for _ in 0..5000 {
        bits = bits.wrapping_mul(1664525).wrapping_add(1013904223);
        let x = f32::from_bits(bits);
        if x.is_finite() {
            v.push(x);
        }
    }
    v
}

#[test]
fn fastexp_is_the_chain_of_eight_squarings() {
    for x in finite_samples() {
        let want = reference_fastexp(x);
        let got = f32::from_bits(Fast(x.to_bits()).fastexp().0);
        if want.is_nan() {
            assert!(got.is_nan(), "fastexp({x:?})");
        } else {
            assert_eq!(got.to_bits(), want.to_bits(), "fastexp({x:?})");
        }
    }
}

#[test]
fn fastexp_of_zero_is_one() {
    assert_eq!(Fast(0.0f32.to_bits()).fastexp().0, 1.0f32.to_bits());
}

#[test]
fn fastexp_of_ln_two_is_near_two() {
    let got = f32::from_bits(Fast(std::f32::consts::LN_2.to_bits()).fastexp().0);
    assert!((got - 2.0).abs() / 2.0 < 0.03, "{got}");
    assert!((got - 2.0).abs() / 2.0 < 0.002, "{got}");
}

#[test]
fn fastexp_degrades_with_magnitude() {
    let near = f32::from_bits(Fast(0.7f32.to_bits()).fastexp().0);
    assert!((near - 0.7f32.exp()).abs() / 0.7f32.exp() < 0.002);
    let far = f32::from_bits(Fast(3.0f32.to_bits()).fastexp().0);
    let rel = (far - 3.0f32.exp()).abs() / 3.0f32.exp();
    assert!(rel > 0.01 && rel < 0.03, "{rel}");
}

#[test]
fn fastln_is_the_polynomial_of_the_split() {
    for x in finite_samples() {
        let want = reference_fastln(x);
        let got = f32::from_bits(Fast(x.to_bits()).fastln().0);
        if want.is_nan() {
            assert!(got.is_nan(), "fastln({x:?})");
        } else {
            assert_eq!(got.to_bits(), want.to_bits(), "fastln({x:?})");
        }
    }
}

#[test]
fn fastln_of_e_is_near_one() {
    let got = f32::from_bits(Fast(std::f32::consts::E.to_bits()).fastln().0);
    assert!((got - 1.0).abs() < 0.03, "{got}");
    assert!((got - 1.0).abs() < 1.0e-4, "{got}");
}

#[test]
fn fastln_is_close_on_positive_normal_numbers() {
    let mut worst = 0.0f64;
    for x in finite_samples() {
        if x >= f32::MIN_POSITIVE {
            let got = f32::from_bits(Fast(x.to_bits()).fastln().0) as f64;
            let want = (x as f64).ln();
            let err = (got - want).abs();
            if err > worst {
                worst = err;
            }
        }
    }
    assert!(worst < 1.0e-4, "{worst}");
    println!("worst absolute error {worst}");
}

#[test]
fn fastln_split_takes_out_the_power_of_two() {
    let (k, m) = Fast(8.0f32.to_bits()).fastln_split();
    assert_eq!(k, 3);
    assert_eq!(f32::from_bits(m.0), 1.0);
    let (k, m) = Fast(0.75f32.to_bits()).fastln_split();
    assert_eq!(k, 0);
    assert_eq!(f32::from_bits(m.0), 0.75);
    let (k, m) = Fast(0.5f32.to_bits()).fastln_split();
    assert_eq!(k, -1);
    assert_eq!(f32::from_bits(m.0), 1.0);
    let (k, m) = Fast(1.3f32.to_bits()).fastln_split();
    assert_eq!(k, 0);
    assert_eq!(f32::from_bits(m.0), 1.3);
    let (k, m) = Fast(1.34f32.to_bits()).fastln_split();
    assert_eq!(k, 1);
    assert_eq!(f32::from_bits(m.0), 0.67);
    for x in finite_samples() {
        if x >= f32::MIN_POSITIVE {
            let (k, m) = Fast(x.to_bits()).fastln_split();
            let m = f32::from_bits(m.0);
            assert!(0.66 < m && m < 1.34);
            assert_eq!((m as f64) * 2.0f64.powi(k), x as f64);
        }
    }
}
