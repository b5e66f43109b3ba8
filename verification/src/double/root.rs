//! The square root of binary64 patterns.
use vstd::prelude::*;
use vstd::arithmetic::power2::*;
use crate::root::{isqrt, lemma_root_compare, lemma_rounded_root, rounded_root};
use crate::scalar::Fast;
use crate::double::arith::{lemma_same_rounding, normalize, round_pack, unpack};
use crate::double::{
    is_infinite, is_nan, lemma_fields, lemma_magnitude_of, lemma_magnitude_order, lemma_specials,
    magnitude, one, rounds_to, sign, ABS_MASK, INF_BITS, NAN_BITS, SIGN_MASK,
};
use crate::wide::shl;

verus! {

/// Whether `r` is the square root of `a`.
///
/// The root of a positive finite number is the exact root rounded to the
/// nearest number, ties to even. A zero of either sign and positive
/// infinity are their own roots. A negative number, negative infinity and
/// a NaN give the NaN `NAN_BITS`.
pub open spec fn is_root(a: u64, r: u64) -> bool {
    if is_nan(a) || (sign(a) && magnitude(a) != 0) {
        r == NAN_BITS
    } else if magnitude(a) == 0 || is_infinite(a) {
        r == a
    } else {
        !sign(r) && rounds_to(r, rounded_root(52, magnitude(a) * one()))
    }
}

/// The square root of `a`: the one pattern that `is_root` admits.
pub open spec fn root_of(a: u64) -> u64 {
    choose|r: u64| is_root(a, r)
}

/// `is_root` admits one pattern only.
pub proof fn lemma_root_unique(a: u64, r: u64)
    requires
        is_root(a, r),
    ensures
        r == root_of(a),
{
    let c = root_of(a);
    assert(is_root(a, c));
    if !(is_nan(a) || (sign(a) && magnitude(a) != 0)) && !(magnitude(a) == 0 || is_infinite(a)) {
        lemma_same_rounding(r, c);
    }
}

/// Every pattern has a square root.
pub proof fn lemma_root_exists(a: u64)
    ensures
        is_root(a, root_of(a)),
{
    if is_nan(a) || (sign(a) && magnitude(a) != 0) {
        assert(is_root(a, NAN_BITS));
    } else if magnitude(a) == 0 || is_infinite(a) {
        assert(is_root(a, a));
    } else {
        let w = magnitude(a) * one();
        let p = crate::root::lemma_rounded_root_form(52, w);
        let r = crate::double::lemma_pattern_exists(rounded_root(52, w), p, false);
        assert(is_root(a, r));
    }
}

/// The magnitude of a number over the magnitude of 1, as a significand of
/// 53 or 54 bits times a power of four.
proof fn lemma_root_terms(m: nat, sa: nat, xa: nat, na: nat, la: nat, sig: nat, hh: nat)
    requires
        m == sa * pow2(xa),
        na == sa * pow2(la),
        la <= xa + 1074,
        (xa + 1074 - la) % 2 == 1 ==> sig == 2 * na && 2 * hh + 1 == xa + 1074 - la,
        (xa + 1074 - la) % 2 == 0 ==> sig == na && 2 * hh == xa + 1074 - la,
        hh >= 28,
    ensures
        m * pow2(1074) == (sig * pow2(56)) * pow2(2 * (hh - 28) as nat),
{
    let h = (xa + 1074 - la) as nat;
    lemma_pow2_adds(xa, 1074);
    lemma_pow2_adds(la, h);
    lemma_pow2_adds(56, 2 * (hh - 28) as nat);
    lemma_pow2_unfold((2 * hh + 1) as nat);
    assert(m * pow2(1074) == na * pow2(h)) by (nonlinear_arith)
        requires
            m == sa * pow2(xa),
            na == sa * pow2(la),
            pow2(xa + 1074) == pow2(xa) * pow2(1074),
            pow2(xa + 1074) == pow2(la) * pow2(h),
    ;
    assert(na * pow2(h) == sig * pow2(2 * hh)) by (nonlinear_arith)
        requires
            h % 2 == 1 ==> sig == 2 * na && pow2(h) == 2 * pow2(2 * hh),
            h % 2 == 0 ==> sig == na && h == 2 * hh,
    ;
    assert(sig * pow2(2 * hh) == (sig * pow2(56)) * pow2(2 * (hh - 28) as nat))
        by (nonlinear_arith)
        requires
            pow2(2 * hh) == pow2(56) * pow2(2 * (hh - 28) as nat),
    ;
}

/// The square root of a finite magnitude that is not zero.
fn root_finite(ma: u64) -> (m: u64)
    requires
        0 < ma < INF_BITS,
    ensures
        m <= INF_BITS,
        rounds_to(m, rounded_root(52, magnitude(ma) * one())),
{
    let (sa, xa) = unpack(ma);
    proof {
        lemma_fields(ma);
        lemma_fields(0);
        lemma_magnitude_order(ma, 0);
        lemma_magnitude_order(0, 0);
        assert(sa > 0) by (nonlinear_arith)
            requires
                sa * pow2(xa as nat) > 0,
        ;
        lemma2_to64();
        lemma2_to64_rest();
    }
    let (na, la) = normalize(sa);
    let h = xa + 1074 - la;
    let (sig, hh) = if h % 2 == 1 {
        (2 * na, (h - 1) / 2)
    } else {
        (na, h / 2)
    };
    let n = shl(sig as u128, 56);
    let s = isqrt(n);
    proof {
        lemma_root_terms(
            magnitude(ma),
            sa as nat,
            xa as nat,
            na as nat,
            la as nat,
            sig as nat,
            hh as nat,
        );
        assert(0x40_0000_0000_0000 * 0x40_0000_0000_0000 <= n) by (nonlinear_arith)
            requires
                n == sig * pow2(56),
                pow2(56) == 0x100_0000_0000_0000,
                sig >= 0x10_0000_0000_0000,
        ;
        assert(n < 0x80_0000_0000_0000 * 0x80_0000_0000_0000) by (nonlinear_arith)
            requires
                n == sig * pow2(56),
                pow2(56) == 0x100_0000_0000_0000,
                sig < 0x40_0000_0000_0000,
        ;
        lemma_root_compare(n as nat, s as nat, 0x40_0000_0000_0000);
        lemma_root_compare(n as nat, s as nat, 0x80_0000_0000_0000);
        lemma_rounded_root(52, n as nat, s as nat, (hh - 28) as nat);
        assert(s * s < 0x80_0000_0000_0000 * 0x80_0000_0000_0000) by (nonlinear_arith)
            requires
                s < 0x80_0000_0000_0000,
        ;
    }
    if s as u128 * s as u128 == n {
        round_pack(s as u128, hh as i32 - 28)
    } else {
        round_pack((2 * s + 1) as u128, hh as i32 - 29)
    }
}

/// The square root of `a`.
pub fn root(a: u64) -> (r: u64)
    ensures
        is_root(a, r),
        r == root_of(a),
{
    let ma = a & ABS_MASK;
    proof {
        lemma_fields(a);
        lemma_fields(ma);
        lemma_fields(0);
        lemma_magnitude_of(a);
        lemma_magnitude_order(a, 0);
        lemma_magnitude_order(0, 0);
        lemma_specials();
    }
    let r = if ma > INF_BITS {
        NAN_BITS
    } else if ma == 0 {
        a
    } else if a >= SIGN_MASK {
        NAN_BITS
    } else if ma == INF_BITS {
        a
    } else {
        let m = root_finite(ma);
        proof {
            lemma_fields(m);
        }
        m
    };
    proof {
        lemma_root_unique(a, r);
    }
    r
}

impl Fast<u64> {
    /// The square root of `self`, rounded to the nearest number.
    pub fn sqrt(self) -> (r: Self)
        ensures
            is_root(self.0, r.0),
            r.0 == root_of(self.0),
    {
        Fast(root(self.0))
    }
}

} // verus!
