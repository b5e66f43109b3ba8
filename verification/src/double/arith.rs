//! Arithmetic on binary64 patterns.
//!
//! Relaxed arithmetic promises the ordinary result, rounded, only for finite
//! operands. The functions of this module give exactly that: the exact result
//! rounded to the nearest number, ties to even. What they do with infinities
//! and NaNs is fixed too, so that each has one result on every machine, but a
//! caller in relaxed code should not feed them any.
use vstd::prelude::*;
use vstd::arithmetic::power2::*;
use vstd::bits::*;
use crate::wide::{bit_length_wide, lemma_pow2_fits, shl, split};
use crate::model;
use crate::rounding::{
    bit_length, lemma_nearest_even_bounds, lemma_pattern_of, lemma_rounded_absorbs,
    lemma_rounded_divides, lemma_rounded_dyadic, lemma_rounded_exact, lemma_rounded_of_powers,
    lemma_rounded_scale, lemma_rounded_sticky, lemma_rounded_zero, nearest_even, rounded,
    rounded_dyadic, rounded_scaled,
};
use crate::double::{
    exponent, is_finite, is_infinite, is_nan, lemma_fields, lemma_magnitude_of,
    lemma_magnitude_order, lemma_same_fields, lemma_same_number, lemma_signs, lemma_specials,
    lemma_with_sign, magnitude, one, overflow, rounds_to, sign, value, ABS_MASK, FRAC_MASK,
    INF_BITS, NAN_BITS, SIGN_MASK,
};

verus! {

/// The significand and the scale of a finite magnitude pattern: the
/// magnitude is the first times two to the second.
pub(crate) fn unpack(a: u64) -> (r: (u64, u64))
    requires
        a < INF_BITS,
    ensures
        r.0 < 0x20_0000_0000_0000,
        r.1 <= 2045,
        r.1 > 0 ==> r.0 >= 0x10_0000_0000_0000,
        r.1 == model::scale(exponent(a) as nat),
        magnitude(a) == r.0 * pow2(r.1 as nat),
{
    let e = a >> 52;
    let f = a & FRAC_MASK;
    proof {
        lemma_fields(a);
        lemma2_to64();
    lemma2_to64_rest();
        model::lemma_significand(52, e as nat, f as nat);
    }
    if e == 0 {
        (f, 0)
    } else {
        (f + 0x10_0000_0000_0000, e - 1)
    }
}

/// Rounds `sig` times two to the `exp` to the nearest magnitude, ties to
/// even, and returns its pattern, which is that of infinity where the
/// result is out of range. The value counts units of 2^-1074.
pub(crate) fn round_pack(sig: u128, exp: i32) -> (a: u64)
    requires
        sig < 0x8000_0000_0000_0000_0000_0000_0000_0000,
        -5000 <= exp <= 5000,
    ensures
        a <= INF_BITS,
        rounds_to(a, rounded_dyadic(52, sig as nat, exp as int)),
{
    proof {
        lemma_specials();
        lemma_fields(0);
        lemma_fields(INF_BITS);
        lemma_magnitude_order(0, 0);
        lemma_pow2_pos(2098);
    }
    if sig == 0 {
        proof {
            lemma_rounded_zero(52, exp as int);
        }
        return 0;
    }
    let len = bit_length_wide(sig) as i32;
    proof {
        lemma2_to64();
        lemma2_to64_rest();
        lemma_pow2_fits(127);
        if len == 128 {
            assert(false);
        }
        lemma_rounded_dyadic(52, sig as nat, exp as int, len as nat);
    }
    let top = len - 1 + exp;
    let j = if top > 52 {
        top - 52
    } else {
        0
    };
    let shift = j - exp;
    let ghost q_spec = if shift <= 0 {
        sig as nat * pow2((-shift) as nat)
    } else {
        nearest_even(sig as nat, pow2(shift as nat))
    };
    if j >= 2046 {
        proof {
            lemma_pow2_adds(52, 2046);
            if j > 2046 {
                lemma_pow2_strictly_increases(2046, j as nat);
            }
            assert(q_spec * pow2(j as nat) >= pow2(52) * pow2(2046)) by (nonlinear_arith)
                requires
                    q_spec >= pow2(52),
                    pow2(j as nat) >= pow2(2046),
            ;
        }
        return INF_BITS;
    }
    let q: u128 = if shift <= 0 {
        shl(sig, (-shift) as u32)
    } else if shift >= 128 {
        proof {
            // the whole significand lies below half a step
            lemma_pow2_unfold(shift as nat);
            if shift > 128 {
                lemma_pow2_strictly_increases(127, (shift - 1) as nat);
            }
            vstd::arithmetic::div_mod::lemma_small_mod(sig as nat, pow2(shift as nat));
            vstd::arithmetic::div_mod::lemma_basic_div(sig as int, pow2(shift as nat) as int);
        }
        0
    } else {
        let down = shift as u32;
        let (kept, rest) = split(sig, down);
        proof {
            lemma_pow2_fits((down - 1) as nat);
            lemma_pow2_unfold(down as nat);
            assert(1 * pow2((down - 1) as nat) == pow2((down - 1) as nat));
        }
        let half = shl(1, down - 1);
        if rest > half || (rest == half && kept % 2 == 1) {
            kept + 1
        } else {
            kept
        }
    };
    assert(q == q_spec);
    let a = (j as u64) * 0x10_0000_0000_0000 + q as u64;
    proof {
        lemma_pattern_of(52, j as nat, q as nat);
        lemma_magnitude_of(a);
        lemma_magnitude_order(a, INF_BITS);
        lemma_fields(a);
    }
    a
}

/// Two patterns of one sign that denote one rounded magnitude are the same.
pub proof fn lemma_same_rounding(a: u64, b: u64)
    requires
        sign(a) == sign(b),
        exists|m: nat| rounds_to(a, m) && rounds_to(b, m),
    ensures
        a == b,
{
    if is_infinite(a) {
        lemma_same_fields(a, b);
    } else {
        lemma_same_number(a, b);
    }
}

/// Whether `r` is the product of `a` and `b`.
///
/// The product of two finite numbers is the exact product rounded to the
/// nearest number, ties to even, under the sign that the two signs give.
/// An infinity times a number that is not zero is an infinity; an infinity
/// times zero, and anything times a NaN, is the NaN `NAN_BITS`.
pub open spec fn is_product(a: u64, b: u64, r: u64) -> bool {
    if is_nan(a) || is_nan(b) || (is_infinite(a) && magnitude(b) == 0) || (magnitude(a) == 0
        && is_infinite(b)) {
        r == NAN_BITS
    } else {
        &&& sign(r) == (sign(a) != sign(b))
        &&& rounds_to(
            r,
            if is_infinite(a) || is_infinite(b) {
                overflow()
            } else {
                rounded(52, magnitude(a) * magnitude(b), one())
            },
        )
    }
}

/// The product of `a` and `b`: the one pattern that `is_product` admits.
pub open spec fn product_of(a: u64, b: u64) -> u64 {
    choose|r: u64| is_product(a, b, r)
}

/// `is_product` admits one pattern only.
pub proof fn lemma_product_unique(a: u64, b: u64, r: u64)
    requires
        is_product(a, b, r),
    ensures
        r == product_of(a, b),
{
    let c = product_of(a, b);
    if !(is_nan(a) || is_nan(b) || (is_infinite(a) && magnitude(b) == 0) || (magnitude(a) == 0
        && is_infinite(b))) {
        lemma_same_rounding(r, c);
    }
}

/// The product of `a` and `b`.
pub fn product(a: u64, b: u64) -> (r: u64)
    ensures
        is_product(a, b, r),
        r == product_of(a, b),
{
    let r = product_parts(a, b);
    proof {
        lemma_product_unique(a, b, r);
    }
    r
}

/// The product, case by case.
fn product_parts(a: u64, b: u64) -> (r: u64)
    ensures
        is_product(a, b, r),
{
    let ma = a & ABS_MASK;
    let mb = b & ABS_MASK;
    let s = (a ^ b) & SIGN_MASK;
    proof {
        lemma_fields(a);
        lemma_fields(b);
        lemma_fields(ma);
        lemma_fields(mb);
        lemma_magnitude_of(a);
        lemma_magnitude_of(b);
        lemma_magnitude_order(a, 0);
        lemma_magnitude_order(b, 0);
        lemma_magnitude_order(0, 0);
        lemma_specials();
        lemma_pow2_pos(2098);
        lemma_signs(a, b);
        lemma_fields(s);
    }
    if ma > INF_BITS || mb > INF_BITS {
        return NAN_BITS;
    }
    if ma == INF_BITS || mb == INF_BITS {
        if ma == 0 || mb == 0 {
            return NAN_BITS;
        }
        proof {
            lemma_with_sign(s, INF_BITS);
            lemma_fields(s | INF_BITS);
        }
        return s | INF_BITS;
    }
    let (sa, xa) = unpack(ma);
    let (sb, xb) = unpack(mb);
    assert(sa * sb < 0x400_0000_0000_0000_0000_0000_0000) by (nonlinear_arith)
        requires
            sa < 0x20_0000_0000_0000,
            sb < 0x20_0000_0000_0000,
    ;
    let sig = sa as u128 * sb as u128;
    let exp = (xa + xb) as i32 - 1074;
    let m = round_pack(sig, exp);
    proof {
        // the exact product as a significand and a power of two
        let (pa, pb) = (pow2(xa as nat), pow2(xb as nat));
        lemma_pow2_adds(xa as nat, xb as nat);
        assert((sa * pa) * (sb * pb) == (sa * sb) * (pa * pb)) by (nonlinear_arith);
        lemma_rounded_of_powers(52, sig as nat, 1, (xa + xb) as nat, 1074);
        assert(1 * pow2(1074) == pow2(1074));
        crate::rounding::lemma_rounded_dyadic_scaled(52, sig as nat, xa + xb - 1074);
        lemma_with_sign(s, m);
        lemma_fields(s | m);
        lemma_fields(m);
        lemma_magnitude_of(s | m);
        lemma_magnitude_of(m);
    }
    s | m
}

/// Whether `r` is the sum of `a` and `b`.
///
/// The sum of two finite numbers is the exact sum rounded to the nearest
/// number, ties to even. An exact sum of zero is positive zero, unless both
/// terms are negative zeros. An infinity plus a finite number, or plus an
/// infinity of its own sign, is that infinity; infinities of opposite signs,
/// and anything plus a NaN, give the NaN `NAN_BITS`.
pub open spec fn is_sum(a: u64, b: u64, r: u64) -> bool {
    if is_nan(a) || is_nan(b) || (is_infinite(a) && is_infinite(b) && sign(a) != sign(b)) {
        r == NAN_BITS
    } else if is_infinite(a) {
        r == a
    } else if is_infinite(b) {
        r == b
    } else {
        let s = value(a) + value(b);
        if s == 0 {
            r == if sign(a) && sign(b) {
                SIGN_MASK
            } else {
                0
            }
        } else {
            sign(r) == (s < 0) && rounds_to(r, rounded(52, vstd::math::abs(s) as nat, 1))
        }
    }
}

/// The sum of `a` and `b`: the one pattern that `is_sum` admits.
pub open spec fn sum_of(a: u64, b: u64) -> u64 {
    choose|r: u64| is_sum(a, b, r)
}

/// `is_sum` admits one pattern only.
pub proof fn lemma_sum_unique(a: u64, b: u64, r: u64)
    requires
        is_sum(a, b, r),
    ensures
        r == sum_of(a, b),
{
    let c = sum_of(a, b);
    assert(is_sum(a, b, c));
    if !(is_nan(a) || is_nan(b) || is_infinite(a) || is_infinite(b)) && value(a) + value(b) != 0 {
        lemma_same_rounding(r, c);
    }
}

/// What is the sum of `a` and `b` is the sum of `b` and `a`.
pub proof fn lemma_sum_symmetric(a: u64, b: u64, r: u64)
    requires
        is_sum(a, b, r),
    ensures
        is_sum(b, a, r),
{
    lemma_fields(a);
    lemma_fields(b);
    if is_infinite(a) && is_infinite(b) && sign(a) == sign(b) {
        assert(a == b);
    }
}

/// Where the exponents of two finite terms lie more than 54 apart, the
/// sum is the larger term.
proof fn lemma_sum_far(hi: u64, lo: u64, sh: nat, xh: nat, sl: nat, xl: nat)
    requires
        is_finite(hi),
        is_finite(lo),
        magnitude(hi) == sh * pow2(xh),
        magnitude(lo) == sl * pow2(xl),
        0x10_0000_0000_0000 <= sh < 0x20_0000_0000_0000,
        sl < 0x20_0000_0000_0000,
        xh > xl + 54,
    ensures
        is_sum(hi, lo, hi),
{
    let l = magnitude(lo);
    let h = magnitude(hi);
    lemma2_to64();
    lemma2_to64_rest();
    lemma_fields(hi);
    lemma_specials();
    lemma_pow2_pos(xl);
    lemma_pow2_adds(55, xl);
    if xh > xl + 55 {
        lemma_pow2_strictly_increases(55 + xl, xh);
    }
    assert(4 * l < pow2(55) * pow2(xl)) by (nonlinear_arith)
        requires
            l == sl * pow2(xl),
            sl < 0x20_0000_0000_0000,
            pow2(55) == 0x80_0000_0000_0000,
            pow2(xl) > 0,
    ;
    lemma_rounded_absorbs(52, sh, xh, l);
    lemma_fields(INF_BITS);
    lemma_magnitude_order(hi, INF_BITS);
    assert(h < overflow());
    let s = value(hi) + value(lo);
    assert(h >= pow2(xh)) by (nonlinear_arith)
        requires
            h == sh * pow2(xh),
            sh >= 1,
    ;
    assert(h > l);
    assert(is_nan(hi) == false && is_infinite(hi) == false && is_infinite(lo) == false && is_nan(
        lo,
    ) == false);
    assert(vstd::math::abs(s) == h + l || vstd::math::abs(s) == h - l);
    assert(s != 0 && (s < 0) == sign(hi));
    assert(rounded(52, vstd::math::abs(s) as nat, 1) == h);
}

/// The exact sum of two finite terms whose magnitudes count the same unit.
proof fn lemma_sum_near(hi: u64, lo: u64, wide: int, sl: int, q: int, sig: int)
    requires
        magnitude(hi) == wide * q,
        magnitude(lo) == sl * q,
        wide >= sl >= 0,
        q > 0,
        sig == if sign(hi) == sign(lo) {
            wide + sl
        } else {
            wide - sl
        },
    ensures
        vstd::math::abs(value(hi) + value(lo)) == sig * q,
        sig == 0 <==> value(hi) + value(lo) == 0,
        value(hi) + value(lo) != 0 ==> ((value(hi) + value(lo) < 0) == sign(hi)),
{
    let s = value(hi) + value(lo);
    assert(vstd::math::abs(s) == sig * q && (sig == 0 <==> s == 0) && (s != 0 ==> (s < 0) == sign(
        hi,
    ))) by (nonlinear_arith)
        requires
            s == value(hi) + value(lo),
            value(hi) == if sign(hi) {
                -(wide * q)
            } else {
                wide * q
            },
            value(lo) == if sign(lo) {
                -(sl * q)
            } else {
                sl * q
            },
            sig == if sign(hi) == sign(lo) {
                wide + sl
            } else {
                wide - sl
            },
            wide >= sl,
            sl >= 0,
            q > 0,
    ;
}

/// The sum of two finite numbers of which the first has the magnitude
/// pattern that is not the smaller.
fn sum_ordered(hi: u64, lo: u64) -> (r: u64)
    requires
        is_finite(hi),
        is_finite(lo),
        hi & ABS_MASK >= lo & ABS_MASK,
    ensures
        is_sum(hi, lo, r),
{
    let mh = hi & ABS_MASK;
    let ml = lo & ABS_MASK;
    proof {
        lemma_fields(hi);
        lemma_fields(lo);
        lemma_fields(mh);
        lemma_fields(ml);
        lemma_magnitude_of(hi);
        lemma_magnitude_of(lo);
        lemma_magnitude_order(lo, hi);
        lemma2_to64();
    lemma2_to64_rest();
    }
    let (sh, xh) = unpack(mh);
    let (sl, xl) = unpack(ml);
    assert(exponent(mh) >= exponent(ml));
    let d = xh - xl;
    if d > 54 {
        proof {
            lemma_sum_far(hi, lo, sh as nat, xh as nat, sl as nat, xl as nat);
        }
        return hi;
    }
    proof {
        lemma_pow2_strictly_increases(d as nat, 55);
        assert(sh * pow2(d as nat) < 0x20_0000_0000_0000 * 0x80_0000_0000_0000) by (nonlinear_arith)
            requires
                sh < 0x20_0000_0000_0000,
                pow2(d as nat) < 0x80_0000_0000_0000,
        ;
    }
    let wide = shl(sh as u128, d as u32);
    proof {
        lemma_pow2_adds(d as nat, xl as nat);
        assert(magnitude(hi) == wide * pow2(xl as nat)) by {
            vstd::arithmetic::mul::lemma_mul_is_associative(
                sh as int,
                pow2(d as nat) as int,
                pow2(xl as nat) as int,
            );
        }
        lemma_pow2_pos(xl as nat);
        assert(wide >= sl) by (nonlinear_arith)
            requires
                wide * pow2(xl as nat) >= sl * pow2(xl as nat),
                pow2(xl as nat) > 0,
        ;
        lemma_signs(hi, lo);
    }
    let sig = if (hi ^ lo) & SIGN_MASK == 0 {
        wide + sl as u128
    } else {
        wide - sl as u128
    };
    proof {
        lemma_sum_near(hi, lo, wide as int, sl as int, pow2(xl as nat) as int, sig as int);
    }
    if sig == 0 {
        return if hi & lo & SIGN_MASK != 0 {
            SIGN_MASK
        } else {
            0
        };
    }
    let m = round_pack(sig, xl as i32);
    proof {
        lemma_with_sign(hi, m);
        lemma_fields((hi & SIGN_MASK) | m);
        lemma_fields(m);
        lemma_magnitude_of((hi & SIGN_MASK) | m);
        lemma_magnitude_of(m);
    }
    (hi & SIGN_MASK) | m
}

/// The sum of `a` and `b`.
pub fn sum(a: u64, b: u64) -> (r: u64)
    ensures
        is_sum(a, b, r),
        r == sum_of(a, b),
{
    let r = sum_parts(a, b);
    proof {
        lemma_sum_unique(a, b, r);
    }
    r
}

/// The sum, case by case.
fn sum_parts(a: u64, b: u64) -> (r: u64)
    ensures
        is_sum(a, b, r),
{
    let ma = a & ABS_MASK;
    let mb = b & ABS_MASK;
    proof {
        lemma_fields(a);
        lemma_fields(b);
        lemma_specials();
    }
    if ma > INF_BITS || mb > INF_BITS {
        NAN_BITS
    } else if ma == INF_BITS {
        if mb == INF_BITS && a != b {
            NAN_BITS
        } else {
            a
        }
    } else if mb == INF_BITS {
        b
    } else if ma >= mb {
        sum_ordered(a, b)
    } else {
        let r = sum_ordered(b, a);
        proof {
            lemma_sum_symmetric(b, a, r);
        }
        r
    }
}

/// The difference of `a` and `b`: the sum of `a` and the negation of `b`.
pub open spec fn difference_of(a: u64, b: u64) -> u64 {
    sum_of(a, b ^ 0x8000_0000_0000_0000)
}

/// The difference of `a` and `b`.
pub fn difference(a: u64, b: u64) -> (r: u64)
    ensures
        is_sum(a, b ^ 0x8000_0000_0000_0000, r),
        r == difference_of(a, b),
{
    sum(a, b ^ SIGN_MASK)
}

/// Shifts a significand up until its leading bit is the implicit bit of
/// the format. Returns it with the number of places shifted.
pub(crate) fn normalize(sig: u64) -> (r: (u64, u64))
    requires
        0 < sig < 0x20_0000_0000_0000,
    ensures
        0x10_0000_0000_0000 <= r.0 < 0x20_0000_0000_0000,
        r.1 <= 52,
        r.0 == sig * pow2(r.1 as nat),
{
    let len = bit_length(sig) as u64;
    proof {
        lemma2_to64();
        lemma2_to64_rest();
        if len > 53 {
            if len > 54 {
                lemma_pow2_strictly_increases(53, (len - 1) as nat);
            }
            assert(false);
        }
    }
    let up = 53 - len;
    proof {
        lemma_pow2_adds((len - 1) as nat, up as nat);
        lemma_pow2_adds(len as nat, up as nat);
        lemma_pow2_pos(up as nat);
        assert(pow2((len - 1) as nat) * pow2(up as nat) <= sig * pow2(up as nat) < pow2(len as nat)
            * pow2(up as nat)) by (nonlinear_arith)
            requires
                pow2((len - 1) as nat) <= sig < pow2(len as nat),
                pow2(up as nat) > 0,
        ;
        lemma_u64_shl_is_mul(sig, up);
    }
    (sig << up, up)
}

/// Whether `r` is the quotient of `a` by `b`.
///
/// The quotient of two finite numbers, the second not zero, is the exact
/// quotient rounded to the nearest number, ties to even, under the sign that
/// the two signs give. A number that is not zero, divided by zero, and an
/// infinity divided by a finite number, give an infinity; a finite number
/// divided by an infinity gives zero. Zero by zero, infinity by infinity, and
/// anything with a NaN, give the NaN `NAN_BITS`.
pub open spec fn is_quotient(a: u64, b: u64, r: u64) -> bool {
    if is_nan(a) || is_nan(b) || (is_infinite(a) && is_infinite(b)) || (magnitude(a) == 0
        && magnitude(b) == 0) {
        r == NAN_BITS
    } else {
        &&& sign(r) == (sign(a) != sign(b))
        &&& rounds_to(
            r,
            if is_infinite(a) || magnitude(b) == 0 {
                overflow()
            } else if is_infinite(b) {
                0
            } else {
                rounded(52, magnitude(a) * one(), magnitude(b))
            },
        )
    }
}

/// The quotient of `a` by `b`: the one pattern that `is_quotient` admits.
pub open spec fn quotient_of(a: u64, b: u64) -> u64 {
    choose|r: u64| is_quotient(a, b, r)
}

/// `is_quotient` admits one pattern only.
pub proof fn lemma_quotient_unique(a: u64, b: u64, r: u64)
    requires
        is_quotient(a, b, r),
    ensures
        r == quotient_of(a, b),
{
    let c = quotient_of(a, b);
    assert(is_quotient(a, b, c));
    if !(is_nan(a) || is_nan(b) || (is_infinite(a) && is_infinite(b)) || (magnitude(a) == 0
        && magnitude(b) == 0)) {
        lemma_same_rounding(r, c);
    }
}

/// The exact quotient of two finite magnitudes as a fraction of normalized
/// significands and a power of two.
proof fn lemma_quotient_scaled(sa: nat, xa: nat, la: nat, sb: nat, xb: nat, lb: nat)
    requires
        sb > 0,
    ensures
        rounded(52, (sa * pow2(xa)) * pow2(1074), sb * pow2(xb)) == rounded_scaled(
            52,
            (sa * pow2(la)) * pow2(56),
            sb * pow2(lb),
            xa - xb - la + lb + 1018,
        ),
{
    let c = pow2(la + 56 + lb);
    let n = (sa * pow2(la)) * pow2(56);
    let d = sb * pow2(lb);
    let u = xa + 1074 + lb;
    let w = xb + la + 56;
    lemma_pow2_pos(la + 56 + lb);
    lemma_pow2_pos(xb);
    lemma_pow2_pos(lb);
    assert(sb * pow2(xb) > 0 && d > 0) by (nonlinear_arith)
        requires
            sb > 0,
            pow2(xb) > 0,
            pow2(lb) > 0,
            d == sb * pow2(lb),
    ;
    lemma_rounded_scale(52, (sa * pow2(xa)) * pow2(1074), sb * pow2(xb), c);
    lemma_pow2_adds(la, 56);
    lemma_pow2_adds(la + 56, lb);
    lemma_pow2_adds(xa, 1074);
    lemma_pow2_adds(xa + 1074, lb);
    lemma_pow2_adds(xb, la + 56);
    assert(((sa * pow2(xa)) * pow2(1074)) * c == n * pow2(u)) by (nonlinear_arith)
        requires
            c == (pow2(la) * pow2(56)) * pow2(lb),
            pow2(u) == (pow2(xa) * pow2(1074)) * pow2(lb),
            n == (sa * pow2(la)) * pow2(56),
    ;
    assert((sb * pow2(xb)) * c == d * pow2(w)) by (nonlinear_arith)
        requires
            c == pow2(la + 56) * pow2(lb),
            pow2(w) == pow2(xb) * pow2(la + 56),
            d == sb * pow2(lb),
    ;
    lemma_rounded_of_powers(52, n, d, u, w);
}

/// The quotient of two finite magnitudes that are not zero.
fn quotient_finite(ma: u64, mb: u64) -> (m: u64)
    requires
        0 < ma < INF_BITS,
        0 < mb < INF_BITS,
    ensures
        m <= INF_BITS,
        rounds_to(m, rounded(52, magnitude(ma) * one(), magnitude(mb))),
{
    let (sa, xa) = unpack(ma);
    let (sb, xb) = unpack(mb);
    proof {
        lemma_fields(ma);
        lemma_fields(mb);
        lemma_magnitude_order(ma, 0);
        lemma_magnitude_order(mb, 0);
        lemma_magnitude_order(0, 0);
        assert(sa > 0 && sb > 0) by (nonlinear_arith)
            requires
                sa * pow2(xa as nat) > 0,
                sb * pow2(xb as nat) > 0,
        ;
    }
    let (na, la) = normalize(sa);
    let (nb, lb) = normalize(sb);
    proof {
        lemma2_to64();
    lemma2_to64_rest();
        assert(na * pow2(56) < 0x20_0000_0000_0000 * 0x100_0000_0000_0000) by (nonlinear_arith)
            requires
                na < 0x20_0000_0000_0000,
                pow2(56) == 0x100_0000_0000_0000,
        ;
    }
    let n = shl(na as u128, 56);
    let q = n / nb as u128;
    let r = n % nb as u128;
    let x = xa as i32 - xb as i32 - la as i32 + lb as i32 + 1018;
    proof {
        lemma_quotient_scaled(sa as nat, xa as nat, la as nat, sb as nat, xb as nat, lb as nat);
        assert(0x80_0000_0000_0000 * nb <= n < 0x200_0000_0000_0000 * nb) by (nonlinear_arith)
            requires
                n == na * pow2(56),
                pow2(56) == 0x100_0000_0000_0000,
                0x10_0000_0000_0000 <= na < 0x20_0000_0000_0000,
                0x10_0000_0000_0000 <= nb < 0x20_0000_0000_0000,
        ;
        lemma_nearest_even_bounds(n as nat, nb as nat, 0x80_0000_0000_0000, 0x200_0000_0000_0000);
        vstd::arithmetic::div_mod::lemma_fundamental_div_mod(n as int, nb as int);
        if r == 0 {
            assert(n == q * nb) by (nonlinear_arith)
                requires
                    n == nb * q + r,
                    r == 0,
            ;
            lemma_rounded_divides(52, q as nat, nb as nat, x as int);
        } else {
            lemma_rounded_sticky(52, n as nat, nb as nat, x as int);
        }
    }
    if r == 0 {
        round_pack(q, x)
    } else {
        round_pack(2 * q + 1, x - 1)
    }
}

/// The quotient of `a` by `b`.
pub fn quotient(a: u64, b: u64) -> (r: u64)
    ensures
        is_quotient(a, b, r),
        r == quotient_of(a, b),
{
    let r = quotient_parts(a, b);
    proof {
        lemma_quotient_unique(a, b, r);
    }
    r
}

/// The quotient, case by case.
fn quotient_parts(a: u64, b: u64) -> (r: u64)
    ensures
        is_quotient(a, b, r),
{
    let ma = a & ABS_MASK;
    let mb = b & ABS_MASK;
    let s = (a ^ b) & SIGN_MASK;
    proof {
        lemma_fields(a);
        lemma_fields(b);
        lemma_fields(ma);
        lemma_fields(mb);
        lemma_fields(0);
        lemma_magnitude_of(a);
        lemma_magnitude_of(b);
        lemma_magnitude_order(a, 0);
        lemma_magnitude_order(b, 0);
        lemma_magnitude_order(0, 0);
        lemma_specials();
        lemma_pow2_pos(2098);
        lemma_signs(a, b);
        lemma_fields(s);
    }
    let m = if ma > INF_BITS || mb > INF_BITS {
        return NAN_BITS;
    } else if ma == INF_BITS {
        if mb == INF_BITS {
            return NAN_BITS;
        }
        INF_BITS
    } else if mb == INF_BITS {
        0
    } else if mb == 0 {
        if ma == 0 {
            return NAN_BITS;
        }
        INF_BITS
    } else if ma == 0 {
        proof {
            assert(0 * one() == 0) by (nonlinear_arith);
            crate::rounding::lemma_rounded_form(52, 0, magnitude(mb));
            lemma_zero_fraction(magnitude(mb));
        }
        0
    } else {
        quotient_finite(ma, mb)
    };
    proof {
        lemma_with_sign(s, m);
        lemma_fields(s | m);
        lemma_fields(m);
        lemma_magnitude_of(s | m);
        lemma_magnitude_of(m);
    }
    s | m
}

/// Whether `r` is the remainder of `a` by `b`.
///
/// The remainder of a finite number by a finite number that is not zero is
/// what is left of the first after the second is taken from its magnitude as
/// many whole times as it goes. It has the sign of the first and is exact. A
/// finite number remains as it is by an infinity. The remainder of an
/// infinity, the remainder by zero, and anything with a NaN, give the NaN
/// `NAN_BITS`.
pub open spec fn is_remainder(a: u64, b: u64, r: u64) -> bool {
    if is_nan(a) || is_nan(b) || is_infinite(a) || magnitude(b) == 0 {
        r == NAN_BITS
    } else if is_infinite(b) {
        r == a
    } else {
        &&& sign(r) == sign(a)
        &&& is_finite(r)
        &&& magnitude(r) == magnitude(a) % magnitude(b)
    }
}

/// The remainder of `a` by `b`: the one pattern that `is_remainder` admits.
pub open spec fn remainder_of(a: u64, b: u64) -> u64 {
    choose|r: u64| is_remainder(a, b, r)
}

/// `is_remainder` admits one pattern only.
pub proof fn lemma_remainder_unique(a: u64, b: u64, r: u64)
    requires
        is_remainder(a, b, r),
    ensures
        r == remainder_of(a, b),
{
    let c = remainder_of(a, b);
    assert(is_remainder(a, b, c));
    if !(is_nan(a) || is_nan(b) || is_infinite(a) || magnitude(b) == 0) && !is_infinite(b) {
        lemma_same_number(r, c);
    }
}

/// The remainder of a finite magnitude by one that is not zero.
fn remainder_finite(ma: u64, mb: u64) -> (m: u64)
    requires
        ma < INF_BITS,
        0 < mb < INF_BITS,
    ensures
        m < INF_BITS,
        magnitude(m) == magnitude(ma) % magnitude(mb),
{
    proof {
        lemma_fields(ma);
        lemma_fields(mb);
        lemma_magnitude_order(ma, mb);
        lemma_magnitude_order(mb, ma);
        lemma_magnitude_order(mb, 0);
        lemma_magnitude_order(0, 0);
    }
    if ma < mb {
        proof {
            vstd::arithmetic::div_mod::lemma_small_mod(magnitude(ma), magnitude(mb));
        }
        return ma;
    }
    let (sa, xa) = unpack(ma);
    let (sb, xb) = unpack(mb);
    assert(exponent(ma) >= exponent(mb));
    assert(sb > 0) by (nonlinear_arith)
        requires
            sb * pow2(xb as nat) > 0,
    ;
    let d = xa - xb;
    let mut rem: u128 = (sa % sb) as u128;
    let mut left = d;
    proof {
        lemma2_to64();
    lemma2_to64_rest();
        assert(sa * pow2(0) == sa) by (nonlinear_arith)
            requires
                pow2(0) == 1,
        ;
    }
    while left > 0
        invariant
            left <= d,
            0 < sb < 0x20_0000_0000_0000,
            rem == (sa * pow2((d - left) as nat)) % (sb as int),
        decreases left,
    {
        let step = if left > 64 {
            64
        } else {
            left
        };
        proof {
            let done = (d - left) as nat;
            lemma2_to64();
    lemma2_to64_rest();
            lemma_pow2_adds(done, step as nat);
            if step < 64 {
                lemma_pow2_strictly_increases(step as nat, 64);
            }
            vstd::arithmetic::div_mod::lemma_mod_bound((sa * pow2(done)) as int, sb as int);
            assert(rem * pow2(step as nat) < 0x20_0000_0000_0000 * 0x1_0000_0000_0000_0000)
                by (nonlinear_arith)
                requires
                    rem < 0x20_0000_0000_0000,
                    pow2(step as nat) <= 0x1_0000_0000_0000_0000,
            ;
            vstd::arithmetic::div_mod::lemma_mul_mod_noop_left(
                (sa * pow2(done)) as int,
                pow2(step as nat) as int,
                sb as int,
            );
            assert((sa * pow2(done)) * pow2(step as nat) == sa * pow2(done + step as nat))
                by (nonlinear_arith)
                requires
                    pow2(done + step as nat) == pow2(done) * pow2(step as nat),
            ;
        }
        rem = shl(rem, step as u32) % sb as u128;
        left = left - step;
    }
    proof {
        let q = pow2(xb as nat);
        let wide = sa * pow2(d as nat);
        lemma_pow2_pos(xb as nat);
        lemma_pow2_adds(d as nat, xb as nat);
        assert(magnitude(ma) == q * wide) by (nonlinear_arith)
            requires
                magnitude(ma) == sa * pow2(xa as nat),
                pow2(xa as nat) == pow2(d as nat) * q,
                wide == sa * pow2(d as nat),
        ;
        vstd::arithmetic::mul::lemma_mul_is_commutative(q as int, sb as int);
        vstd::arithmetic::div_mod::lemma_truncate_middle(wide as int, q as int, sb as int);
        vstd::arithmetic::div_mod::lemma_mod_bound(wide as int, sb as int);
        vstd::arithmetic::mul::lemma_mul_is_commutative(q as int, rem as int);
        lemma_rounded_exact(52, rem as nat, xb as nat);
        crate::double::lemma_on_grid(mb);
        assert(rem * q < sb * q) by (nonlinear_arith)
            requires
                rem < sb,
                q > 0,
        ;
    }
    let m = round_pack(rem, xb as i32);
    proof {
        lemma_fields(m);
    }
    m
}

/// The remainder of `a` by `b`.
pub fn remainder(a: u64, b: u64) -> (r: u64)
    ensures
        is_remainder(a, b, r),
        r == remainder_of(a, b),
{
    let ma = a & ABS_MASK;
    let mb = b & ABS_MASK;
    proof {
        lemma_fields(a);
        lemma_fields(b);
        lemma_fields(ma);
        lemma_fields(mb);
        lemma_magnitude_of(a);
        lemma_magnitude_of(b);
        lemma_magnitude_order(b, 0);
        lemma_magnitude_order(0, 0);
        lemma_specials();
    }
    let r = if ma >= INF_BITS || mb > INF_BITS || mb == 0 {
        NAN_BITS
    } else if mb == INF_BITS {
        a
    } else {
        let m = remainder_finite(ma, mb);
        proof {
            lemma_with_sign(a, m);
            lemma_fields((a & SIGN_MASK) | m);
            lemma_fields(m);
            lemma_magnitude_of((a & SIGN_MASK) | m);
            lemma_magnitude_of(m);
        }
        (a & SIGN_MASK) | m
    };
    proof {
        lemma_remainder_unique(a, b, r);
    }
    r
}

/// Whether `r` is the whole number `k` as a number of the format: positive
/// zero for 0, else `k` rounded to the nearest number, ties to even.
pub open spec fn is_whole(k: int, r: u64) -> bool {
    if k == 0 {
        r == 0
    } else {
        sign(r) == (k < 0) && rounds_to(r, rounded(52, vstd::math::abs(k) as nat * one(), 1))
    }
}

/// The whole number `k` as a number of the format: the one pattern that
/// `is_whole` admits.
pub open spec fn whole_of(k: int) -> u64 {
    choose|r: u64| is_whole(k, r)
}

/// `is_whole` admits one pattern only.
pub proof fn lemma_whole_unique(k: int, r: u64)
    requires
        is_whole(k, r),
    ensures
        r == whole_of(k),
{
    let c = whole_of(k);
    assert(is_whole(k, c));
    if k != 0 {
        lemma_same_rounding(r, c);
    }
}

/// Every whole number has its pattern.
pub proof fn lemma_whole_exists(k: int)
    ensures
        is_whole(k, whole_of(k)),
{
    if k == 0 {
        assert(is_whole(k, 0));
    } else {
        let r = crate::double::lemma_rounding_exists(
            vstd::math::abs(k) as nat * one(),
            1,
            k < 0,
        );
        assert(is_whole(k, r));
    }
}

/// A whole number below 2^53 in magnitude is a number of the format.
pub proof fn lemma_whole_exact(k: int)
    requires
        -0x20_0000_0000_0000 < k < 0x20_0000_0000_0000,
    ensures
        is_finite(whole_of(k)),
        sign(whole_of(k)) == (k < 0),
        magnitude(whole_of(k)) == vstd::math::abs(k) * one(),
{
    let m = vstd::math::abs(k) as nat;
    lemma2_to64();
    lemma2_to64_rest();
    lemma_fields(0);
    lemma_magnitude_order(0, 0);
    lemma_rounded_exact(52, m, 1074);
    lemma_whole_exists(k);
    if k == 0 {
        assert(0 * one() == 0) by (nonlinear_arith);
    } else {
        // below infinity
        lemma_pow2_adds(53, 1074);
        lemma_pow2_pos(1074);
        lemma_pow2_strictly_increases(1127, 2098);
        assert(m * pow2(1074) < pow2(53) * pow2(1074)) by (nonlinear_arith)
            requires
                m < pow2(53),
                pow2(1074) > 0,
        ;
    }
}

/// The whole number `k` as a number of the format.
pub fn whole(k: i32) -> (r: u64)
    ensures
        is_whole(k as int, r),
        r == whole_of(k as int),
{
    let m: u64 = if k < 0 {
        (-(k as i64)) as u64
    } else {
        k as u64
    };
    let a = round_pack(m as u128, 1074);
    let s: u64 = if k < 0 {
        SIGN_MASK
    } else {
        0
    };
    proof {
        lemma_fields(s);
        lemma_with_sign(s, a);
        lemma_fields(s | a);
        lemma_fields(a);
        lemma_fields(0);
        lemma_magnitude_of(s | a);
        lemma_magnitude_of(a);
        lemma_magnitude_order(a, 0);
        lemma_magnitude_order(0, 0);
        lemma_pow2_pos(2098);
        if k == 0 {
            lemma_rounded_zero(52, 1074);
        }
        lemma_whole_unique(k as int, s | a);
    }
    s | a
}

/// Zero over anything rounds to zero.
proof fn lemma_zero_fraction(d: nat)
    requires
        d > 0,
    ensures
        rounded(52, 0, d) == 0,
{
    lemma_pow2_pos(53);
    vstd::arithmetic::div_mod::lemma_basic_div(0, d as int);
    assert(crate::rounding::step_exp(52, 0) == 0);
    lemma_pow2_pos(0);
    assert(d * pow2(0) > 0) by (nonlinear_arith)
        requires
            d > 0,
            pow2(0) > 0,
    ;
    vstd::arithmetic::div_mod::lemma_basic_div(0, (d * pow2(0)) as int);
    vstd::arithmetic::div_mod::lemma_small_mod(0, d * pow2(0));
    assert(0 * pow2(0) == 0) by (nonlinear_arith);
}

} // verus!
