//! The fused multiply-add of binary64 patterns: a product and a sum with one
//! rounding.
use vstd::prelude::*;
use vstd::arithmetic::power2::*;
use crate::rounding::{
    lemma_rounded_dyadic_scaled, lemma_rounded_far, lemma_rounded_of_powers, lemma_rounded_scale,
    rounded,
};
use crate::double::arith::{lemma_same_rounding, round_pack, unpack};
use crate::double::{
    is_finite, is_infinite, is_nan, lemma_fields, lemma_magnitude_of, lemma_magnitude_order,
    lemma_on_grid, lemma_same_fields, lemma_signs, lemma_specials, lemma_with_sign, magnitude, one,
    rounds_to, sign, value, ABS_MASK, INF_BITS, NAN_BITS, SIGN_MASK,
};
use crate::wide::{bit_length_wide, lemma_pow2_fits, shl, split};

verus! {

/// A whole number under a sign.
pub open spec fn signed(negative: bool, m: int) -> int {
    if negative {
        -m
    } else {
        m
    }
}

/// Whether `r` is the rounded value of the whole number `t` over the
/// magnitude of 1: positive zero for 0, else the nearest number, ties to
/// even, under the sign of `t`.
pub open spec fn is_rounding_of(t: int, r: u64) -> bool {
    if t == 0 {
        r == 0
    } else {
        sign(r) == (t < 0) && rounds_to(r, rounded(52, vstd::math::abs(t) as nat, one()))
    }
}

/// The rounded sum of two terms that are not zero, each a significand times
/// a power of two under a sign, counted in units of 2^-2148: the first term
/// reaches at least as high as the second.
///
/// Both terms are laid on one scale of 126 bits below the top of the first.
/// Where the second does not fit, what is cut off its low end is less than
/// one unit of that scale, and only tells the rounding which way to lean.
fn add_dominated(p: u128, gp: u32, lp: u32, np: bool, q: u128, gq: u32, lq: u32, nq: bool) -> (r:
    u64)
    requires
        1 <= lp <= 106,
        1 <= lq <= 106,
        pow2((lp - 1) as nat) <= p < pow2(lp as nat),
        pow2((lq - 1) as nat) <= q < pow2(lq as nat),
        gp <= 6000,
        gq <= 6000,
        gp + lp >= gq + lq,
    ensures
        is_rounding_of(signed(np, p * pow2(gp as nat)) + signed(nq, q * pow2(gq as nat)), r),
{
    let s: u64 = if np {
        SIGN_MASK
    } else {
        0
    };
    let sq: u64 = if nq {
        SIGN_MASK
    } else {
        0
    };
    let top = gp + lp;
    let lowest = if gp < gq {
        gp
    } else {
        gq
    };
    proof {
        lemma_fields(s);
        lemma_fields(sq);
        lemma_pow2_pos(gp as nat);
        lemma_pow2_pos(gq as nat);
        lemma_pow2_fits(126);
        lemma_pow2_unfold(126);
        lemma_pow2_unfold(127);
        lemma_pow2_strictly_increases(106, 125);
    }
    let ghost tp: nat = p as nat * pow2(gp as nat);
    let ghost tq: nat = q as nat * pow2(gq as nat);
    let ghost t = signed(np, tp as int) + signed(nq, tq as int);
    if top - lowest <= 125 {
        let up = gp - lowest;
        let uq = gq - lowest;
        proof {
            lemma_shifted_fits(p as nat, lp as nat, up as nat, 125);
            lemma_shifted_fits(q as nat, lq as nat, uq as nat, 125);
            lemma_pow2_fits(125);
        }
        let vp = shl(p, up);
        let vq = shl(q, uq);
        let (n, negative) = if np == nq {
            (vp + vq, s)
        } else if vp >= vq {
            (vp - vq, s)
        } else {
            (vq - vp, sq)
        };
        proof {
            let unit = pow2(lowest as nat) as int;
            lemma_pow2_pos(lowest as nat);
            lemma_pow2_adds(up as nat, lowest as nat);
            lemma_pow2_adds(uq as nat, lowest as nat);
            assert(tp == vp * unit && tq == vq * unit) by (nonlinear_arith)
                requires
                    tp == p * pow2(gp as nat),
                    tq == q * pow2(gq as nat),
                    vp == p * pow2(up as nat),
                    vq == q * pow2(uq as nat),
                    pow2(gp as nat) == pow2(up as nat) * unit,
                    pow2(gq as nat) == pow2(uq as nat) * unit,
            ;
            assert(vstd::math::abs(t) == n * unit && (n == 0 <==> t == 0) && (t != 0 ==> (t < 0) == (
            negative != 0))) by (nonlinear_arith)
                requires
                    t == signed(np, vp * unit) + signed(nq, vq * unit),
                    unit > 0,
                    vp >= 0,
                    vq >= 0,
                    np == nq ==> n == vp + vq && (negative != 0) == np,
                    np != nq && vp >= vq ==> n == vp - vq && (negative != 0) == np,
                    np != nq && vp < vq ==> n == vq - vp && (negative != 0) == nq,
            ;
        }
        if n == 0 {
            return 0;
        }
        let m = round_pack(n, lowest as i32 - 1074);
        proof {
            lemma_rounded_of_powers(52, n as nat, 1, lowest as nat, 1074);
            assert(1 * pow2(1074) == pow2(1074));
            lemma_rounded_dyadic_scaled(52, n as nat, lowest - 1074);
            lemma_finish(negative, m);
        }
        negative | m
    } else {
        let base = top - 125;
        let up = gp - base;
        let down = base - gq;
        proof {
            lemma_shifted_fits(p as nat, lp as nat, up as nat, 125);
            lemma_pow2_adds((lp - 1) as nat, up as nat);
            lemma_pow2_pos(up as nat);
            assert(pow2(124) <= p * pow2(up as nat)) by (nonlinear_arith)
                requires
                    pow2((lp - 1) as nat) <= p,
                    pow2(124) == pow2((lp - 1) as nat) * pow2(up as nat),
            ;
            lemma_pow2_fits(125);
            lemma_pow2_fits(124);
            lemma_pow2_fits(106);
        }
        let vp = shl(p, up);
        let (vq, rest) = if down >= 128 {
            proof {
                lemma_pow2_strictly_increases(106, down as nat);
                if lq < 106 {
                    lemma_pow2_strictly_increases(lq as nat, 106);
                }
            }
            (0, q)
        } else {
            split(q, down)
        };
        proof {
            // what stays of the second term is small, and what is cut off is
            // less than a unit
            lemma_pow2_pos(down as nat);
            vstd::arithmetic::div_mod::lemma_fundamental_div_mod(q as int, pow2(down as nat) as int);
            vstd::arithmetic::div_mod::lemma_mod_bound(q as int, pow2(down as nat) as int);
            if down >= 128 {
                vstd::arithmetic::div_mod::lemma_small_mod(q as nat, pow2(down as nat));
                vstd::arithmetic::div_mod::lemma_basic_div(q as int, pow2(down as nat) as int);
            }
            if lq < 106 {
                lemma_pow2_strictly_increases(lq as nat, 106);
            }
            assert(vq < pow2(106)) by (nonlinear_arith)
                requires
                    q == pow2(down as nat) * vq + rest,
                    rest >= 0,
                    q < pow2(106),
                    pow2(down as nat) >= 1,
                    vq >= 0,
            ;
            lemma_pow2_strictly_increases(106, 124);
        }
        let n = if np == nq {
            vp + vq
        } else {
            vp - vq
        };
        proof {
            let unit = pow2(base as nat);
            lemma_pow2_pos(base as nat);
            lemma_pow2_adds(up as nat, base as nat);
            lemma_pow2_adds(down as nat, gq as nat);
            let cut = rest as nat * pow2(gq as nat);
            assert(tp == vp * unit && tq == vq * unit + cut && cut < unit && (rest == 0 ==> cut == 0)
                && (rest > 0 ==> cut > 0)) by (nonlinear_arith)
                requires
                    tp == p * pow2(gp as nat),
                    tq == q * pow2(gq as nat),
                    vp == p * pow2(up as nat),
                    q == pow2(down as nat) * vq + rest,
                    0 <= rest < pow2(down as nat),
                    pow2(gp as nat) == pow2(up as nat) * unit,
                    unit == pow2(down as nat) * pow2(gq as nat),
                    cut == rest * pow2(gq as nat),
                    pow2(gq as nat) > 0,
            ;
            lemma_pow2_strictly_increases(55, 106);
            lemma_pow2_unfold(107);
            lemma_pow2_strictly_increases(107, 124);
            assert(n >= pow2(55));
            assert(n * unit >= unit) by (nonlinear_arith)
                requires
                    n >= 1,
            ;
            if rest != 0 {
                lemma_rounded_far(52, n as nat, base as nat, cut, np == nq, 1074);
            } else {
                lemma_rounded_of_powers(52, n as nat, 1, base as nat, 1074);
                assert(1 * pow2(1074) == pow2(1074));
                lemma_rounded_dyadic_scaled(52, n as nat, base - 1074);
            }
            assert(vstd::math::abs(t) == (if np == nq {
                n * unit + cut
            } else {
                n * unit - cut
            }) && t != 0 && (t < 0) == np) by (nonlinear_arith)
                requires
                    t == signed(np, vp * unit) + signed(nq, vq * unit + cut),
                    np == nq ==> n == vp + vq,
                    np != nq ==> n == vp - vq,
                    n * unit >= unit,
                    0 <= cut < unit,
                    vq >= 0,
            ;
        }
        let m = if rest == 0 {
            round_pack(n, base as i32 - 1074)
        } else if np == nq {
            round_pack(2 * n + 1, base as i32 - 1075)
        } else {
            round_pack(2 * n - 1, base as i32 - 1075)
        };
        proof {
            lemma_finish(s, m);
        }
        s | m
    }
}

/// A significand of `len` bits, moved up by `up` places, stays below
/// `2^limit` where `len + up` does.
proof fn lemma_shifted_fits(sig: nat, len: nat, up: nat, limit: nat)
    requires
        sig < pow2(len),
        len + up <= limit,
        limit < 128,
    ensures
        sig * pow2(up) < pow2(limit),
        sig * pow2(up) <= u128::MAX,
{
    lemma_pow2_adds(len, up);
    lemma_pow2_pos(up);
    if len + up < limit {
        lemma_pow2_strictly_increases(len + up, limit);
    }
    assert(sig * pow2(up) < pow2(len) * pow2(up)) by (nonlinear_arith)
        requires
            sig < pow2(len),
            pow2(up) > 0,
    ;
    lemma_pow2_fits(limit);
}

/// The rounded sum of two terms that are not zero, each a significand times
/// a power of two under a sign, counted in units of 2^-2148.
fn add_terms(p: u128, gp: u32, np: bool, q: u128, gq: u32, nq: bool) -> (r: u64)
    requires
        0 < p < 0x400_0000_0000_0000_0000_0000_0000,
        0 < q < 0x400_0000_0000_0000_0000_0000_0000,
        gp <= 6000,
        gq <= 6000,
    ensures
        is_rounding_of(signed(np, p * pow2(gp as nat)) + signed(nq, q * pow2(gq as nat)), r),
{
    let lp = bit_length_wide(p);
    let lq = bit_length_wide(q);
    proof {
        lemma_pow2_fits(106);
        lemma2_to64();
        lemma2_to64_rest();
        lemma_pow2_adds(64, 42);
        if lp > 106 {
            if lp > 107 {
                lemma_pow2_strictly_increases(106, (lp - 1) as nat);
            }
            assert(false);
        }
        if lq > 106 {
            if lq > 107 {
                lemma_pow2_strictly_increases(106, (lq - 1) as nat);
            }
            assert(false);
        }
    }
    if gp + lp >= gq + lq {
        add_dominated(p, gp, lp, np, q, gq, lq, nq)
    } else {
        add_dominated(q, gq, lq, nq, p, gp, lp, np)
    }
}

/// Whether `r` is `a` times `b` plus `c`, rounded once.
///
/// For three finite numbers it is the exact value of the product plus the
/// third, rounded to the nearest number, ties to even. An exact zero is
/// positive, unless the product and the third are both negative zeros.
/// Infinities behave as in a product followed by a sum, and whatever has no
/// numeric result there gives the NaN `NAN_BITS`.
pub open spec fn is_fused(a: u64, b: u64, c: u64, r: u64) -> bool {
    let negative = sign(a) != sign(b);
    if is_nan(a) || is_nan(b) || is_nan(c) || (is_infinite(a) && magnitude(b) == 0) || (magnitude(
        a,
    ) == 0 && is_infinite(b)) {
        r == NAN_BITS
    } else if is_infinite(a) || is_infinite(b) {
        if is_infinite(c) && sign(c) != negative {
            r == NAN_BITS
        } else {
            is_infinite(r) && sign(r) == negative
        }
    } else if is_infinite(c) {
        r == c
    } else {
        let t = value(a) * value(b) + value(c) * one();
        if t == 0 {
            r == if negative && sign(c) {
                SIGN_MASK
            } else {
                0
            }
        } else {
            sign(r) == (t < 0) && rounds_to(r, rounded(52, vstd::math::abs(t) as nat, one()))
        }
    }
}

/// `a` times `b` plus `c`: the one pattern that `is_fused` admits.
pub open spec fn fused_of(a: u64, b: u64, c: u64) -> u64 {
    choose|r: u64| is_fused(a, b, c, r)
}

/// `is_fused` admits one pattern only.
pub proof fn lemma_fused_unique(a: u64, b: u64, c: u64, r: u64)
    requires
        is_fused(a, b, c, r),
    ensures
        r == fused_of(a, b, c),
{
    let w = fused_of(a, b, c);
    assert(is_fused(a, b, c, w));
    let negative = sign(a) != sign(b);
    if is_nan(a) || is_nan(b) || is_nan(c) || (is_infinite(a) && magnitude(b) == 0) || (magnitude(
        a,
    ) == 0 && is_infinite(b)) {
    } else if is_infinite(a) || is_infinite(b) {
        if !(is_infinite(c) && sign(c) != negative) {
            lemma_same_fields(r, w);
        }
    } else if is_infinite(c) {
    } else if value(a) * value(b) + value(c) * one() != 0 {
        lemma_same_rounding(r, w);
    }
}

/// Every three patterns have a fused product and sum.
pub proof fn lemma_fused_exists(a: u64, b: u64, c: u64)
    ensures
        is_fused(a, b, c, fused_of(a, b, c)),
{
    let negative = sign(a) != sign(b);
    if is_nan(a) || is_nan(b) || is_nan(c) || (is_infinite(a) && magnitude(b) == 0) || (magnitude(
        a,
    ) == 0 && is_infinite(b)) {
        assert(is_fused(a, b, c, NAN_BITS));
    } else if is_infinite(a) || is_infinite(b) {
        if is_infinite(c) && sign(c) != negative {
            assert(is_fused(a, b, c, NAN_BITS));
        } else {
            let r = if negative {
                0xfff0_0000_0000_0000u64
            } else {
                INF_BITS
            };
            lemma_fields(r);
            assert(is_fused(a, b, c, r));
        }
    } else if is_infinite(c) {
        assert(is_fused(a, b, c, c));
    } else {
        let t = value(a) * value(b) + value(c) * one();
        if t == 0 {
            let z = if negative && sign(c) {
                SIGN_MASK
            } else {
                0
            };
            assert(is_fused(a, b, c, z));
        } else {
            lemma_pow2_pos(1074);
            let r = crate::double::lemma_rounding_exists(vstd::math::abs(t) as nat, one(), t < 0);
            assert(is_fused(a, b, c, r));
        }
    }
}

/// The two terms of `a` times `b` plus `c`, for three finite numbers: the
/// product and the third number, each as a significand, the exponent of a
/// power of two and a sign, in units of 2^-2148.
fn terms(a: u64, b: u64, c: u64) -> (r: (u128, u32, bool, u64, u32, bool))
    requires
        is_finite(a),
        is_finite(b),
        is_finite(c),
    ensures
        r.0 < 0x400_0000_0000_0000_0000_0000_0000,
        r.1 <= 4090,
        r.2 == (sign(a) != sign(b)),
        r.3 < 0x20_0000_0000_0000,
        1074 <= r.4 <= 3119,
        r.5 == sign(c),
        value(a) * value(b) + value(c) * one() == signed(r.2, r.0 * pow2(r.1 as nat)) + signed(
            r.5,
            r.3 * pow2(r.4 as nat),
        ),
        magnitude(c) * one() == r.3 * pow2(r.4 as nat),
{
    let np = (a ^ b) & SIGN_MASK != 0;
    let nc = c & SIGN_MASK != 0;
    proof {
        lemma_fields(a);
        lemma_fields(b);
        lemma_fields(c);
        lemma_fields(a & ABS_MASK);
        lemma_fields(b & ABS_MASK);
        lemma_fields(c & ABS_MASK);
        lemma_magnitude_of(a);
        lemma_magnitude_of(b);
        lemma_magnitude_of(c);
        lemma2_to64();
        lemma2_to64_rest();
        lemma_signs(a, b);
    }
    let (sa, xa) = unpack(a & ABS_MASK);
    let (sb, xb) = unpack(b & ABS_MASK);
    let (sc, xc) = unpack(c & ABS_MASK);
    assert(sa * sb < 0x400_0000_0000_0000_0000_0000_0000) by (nonlinear_arith)
        requires
            sa < 0x20_0000_0000_0000,
            sb < 0x20_0000_0000_0000,
    ;
    let p = sa as u128 * sb as u128;
    let gp = (xa + xb) as u32;
    let gc = (xc + 1074) as u32;
    proof {
        lemma_pow2_adds(xa as nat, xb as nat);
        lemma_pow2_adds(xc as nat, 1074);
        lemma_terms(
            value(a),
            value(b),
            value(c),
            sa as int,
            pow2(xa as nat) as int,
            sb as int,
            pow2(xb as nat) as int,
            sc as int,
            pow2(xc as nat) as int,
            pow2(1074) as int,
            sign(a),
            sign(b),
            nc,
        );
        assert(magnitude(c) * one() == sc * pow2(gc as nat)) by (nonlinear_arith)
            requires
                magnitude(c) == sc * pow2(xc as nat),
                pow2(gc as nat) == pow2(xc as nat) * pow2(1074),
                one() == pow2(1074),
        ;
    }
    (p, gp, np, sc, gc, nc)
}

/// `a` times `b` plus `c` for three finite numbers.
fn fused_finite(a: u64, b: u64, c: u64) -> (r: u64)
    requires
        is_finite(a),
        is_finite(b),
        is_finite(c),
    ensures
        is_fused(a, b, c, r),
{
    let (p, gp, np, sc, gc, nc) = terms(a, b, c);
    proof {
        lemma_pow2_pos(gp as nat);
        lemma_pow2_pos(gc as nat);
        lemma_fields(a);
        lemma_fields(b);
        lemma_fields(c);
    }
    if p == 0 {
        proof {
            assert(0 * pow2(gp as nat) == 0) by (nonlinear_arith);
            assert(0 * pow2(gc as nat) == 0) by (nonlinear_arith);
        }
        if sc == 0 {
            return if np && nc {
                SIGN_MASK
            } else {
                0
            };
        }
        proof {
            // the third number alone, which needs no rounding
            lemma_on_grid(c);
            lemma_pow2_pos(1074);
            assert(1 * one() == one());
            lemma_rounded_scale(52, magnitude(c), 1, one());
            assert(sc * pow2(gc as nat) > 0) by (nonlinear_arith)
                requires
                    sc > 0,
                    pow2(gc as nat) > 0,
            ;
        }
        return c;
    }
    proof {
        assert(p * pow2(gp as nat) > 0) by (nonlinear_arith)
            requires
                p > 0,
                pow2(gp as nat) > 0,
        ;
    }
    if sc == 0 {
        let m = round_pack(p, gp as i32 - 1074);
        let s = (a ^ b) & SIGN_MASK;
        proof {
            assert(0 * pow2(gc as nat) == 0) by (nonlinear_arith);
            lemma_rounded_of_powers(52, p as nat, 1, gp as nat, 1074);
            assert(1 * pow2(1074) == pow2(1074));
            lemma_rounded_dyadic_scaled(52, p as nat, gp - 1074);
            lemma_signs(a, b);
            lemma_fields(s);
            lemma_finish(s, m);
        }
        return s | m;
    }
    add_terms(p, gp, np, sc as u128, gc, nc)
}

/// The exact value of a product plus a third number, as two terms.
proof fn lemma_terms(
    va: int,
    vb: int,
    vc: int,
    sa: int,
    qa: int,
    sb: int,
    qb: int,
    sc: int,
    qc: int,
    unit: int,
    na: bool,
    nb: bool,
    nc: bool,
)
    requires
        va == signed(na, sa * qa),
        vb == signed(nb, sb * qb),
        vc == signed(nc, sc * qc),
    ensures
        va * vb + vc * unit == signed(na != nb, (sa * sb) * (qa * qb)) + signed(
            nc,
            sc * (qc * unit),
        ),
{
    assert((sa * qa) * (sb * qb) == (sa * sb) * (qa * qb)) by (nonlinear_arith);
    assert((sc * qc) * unit == sc * (qc * unit)) by (nonlinear_arith);
    assert(va * vb == signed(na != nb, (sa * qa) * (sb * qb))) by (nonlinear_arith)
        requires
            va == signed(na, sa * qa),
            vb == signed(nb, sb * qb),
    ;
    assert(vc * unit == signed(nc, (sc * qc) * unit)) by (nonlinear_arith)
        requires
            vc == signed(nc, sc * qc),
    ;
}

/// `a` times `b` plus `c`, rounded once.
pub fn fused(a: u64, b: u64, c: u64) -> (r: u64)
    ensures
        is_fused(a, b, c, r),
        r == fused_of(a, b, c),
{
    let r = fused_parts(a, b, c);
    proof {
        lemma_fused_unique(a, b, c, r);
    }
    r
}

/// The fused product and sum, case by case.
fn fused_parts(a: u64, b: u64, c: u64) -> (r: u64)
    ensures
        is_fused(a, b, c, r),
{
    let ma = a & ABS_MASK;
    let mb = b & ABS_MASK;
    let mc = c & ABS_MASK;
    let s = (a ^ b) & SIGN_MASK;
    proof {
        lemma_fields(a);
        lemma_fields(b);
        lemma_fields(c);
        lemma_fields(0);
        lemma_magnitude_order(a, 0);
        lemma_magnitude_order(b, 0);
        lemma_magnitude_order(0, 0);
        lemma_specials();
        lemma_signs(a, b);
        lemma_fields(s);
    }
    if ma > INF_BITS || mb > INF_BITS || mc > INF_BITS {
        NAN_BITS
    } else if ma == INF_BITS || mb == INF_BITS {
        if ma == 0 || mb == 0 {
            NAN_BITS
        } else if mc == INF_BITS && (c & SIGN_MASK) != s {
            NAN_BITS
        } else {
            proof {
                lemma_with_sign(s, INF_BITS);
                lemma_fields(s | INF_BITS);
            }
            s | INF_BITS
        }
    } else if mc == INF_BITS {
        c
    } else {
        fused_finite(a, b, c)
    }
}

/// A magnitude pattern under a sign bit.
proof fn lemma_finish(s: u64, m: u64)
    requires
        s & 0x8000_0000_0000_0000 == s,
        m <= INF_BITS,
    ensures
        sign(s | m) == (s != 0),
        forall|v: nat| rounds_to(m, v) ==> rounds_to(s | m, v),
{
    lemma_with_sign(s, m);
    lemma_fields(s | m);
    lemma_fields(m);
    lemma_magnitude_of(s | m);
    lemma_magnitude_of(m);
    lemma_fields(s);
}

} // verus!
