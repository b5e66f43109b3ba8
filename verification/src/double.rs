//! The binary64 format: one sign bit, eleven exponent bits, 52 fraction bits.
use vstd::prelude::*;
use vstd::arithmetic::power2::*;
use crate::model;
use crate::scalar::Fast;

pub mod approx;
pub mod arith;
pub mod fused;
pub mod integral;
pub mod laws;
pub mod ops;
pub mod power;
pub mod reduce;
pub mod root;

verus! {

/// The sign bit.
pub const SIGN_MASK: u64 = 0x8000_0000_0000_0000;

/// The bits of the fraction field.
pub const FRAC_MASK: u64 = 0x000f_ffff_ffff_ffff;

/// Every bit but the sign bit.
pub const ABS_MASK: u64 = 0x7fff_ffff_ffff_ffff;

/// The pattern of 1.0.
pub const ONE_BITS: u64 = 0x3ff0_0000_0000_0000;

/// The pattern of positive infinity.
pub const INF_BITS: u64 = 0x7ff0_0000_0000_0000;

/// The pattern of the NaN that operations without a numeric result return.
pub const NAN_BITS: u64 = 0x7ff8_0000_0000_0000;

/// Whether the sign bit is set.
pub open spec fn sign(bits: u64) -> bool {
    bits & 0x8000_0000_0000_0000 != 0
}

/// The biased exponent field.
pub open spec fn exponent(bits: u64) -> u64 {
    (bits >> 52) & 0x7ff
}

/// The fraction field.
pub open spec fn fraction(bits: u64) -> u64 {
    bits & 0x000f_ffff_ffff_ffff
}

pub open spec fn is_nan(bits: u64) -> bool {
    exponent(bits) == 0x7ff && fraction(bits) != 0
}

pub open spec fn is_infinite(bits: u64) -> bool {
    exponent(bits) == 0x7ff && fraction(bits) == 0
}

pub open spec fn is_finite(bits: u64) -> bool {
    exponent(bits) < 0x7ff
}

/// The magnitude that `bits` denotes, in units of 2^-1074.
pub open spec fn magnitude(bits: u64) -> nat {
    model::magnitude(52, exponent(bits) as nat, fraction(bits) as nat)
}

/// The number that `bits` denotes, in units of 2^-1074. Both zeros denote 0.
pub open spec fn value(bits: u64) -> int {
    if sign(bits) {
        -(magnitude(bits) as int)
    } else {
        magnitude(bits) as int
    }
}

/// The magnitude of 1.0, in units of 2^-1074.
pub open spec fn one() -> nat {
    pow2(1074)
}

/// The magnitude of infinity, in units of 2^-1074: the least magnitude that
/// no finite number reaches.
pub open spec fn overflow() -> nat {
    pow2(2098)
}

/// Whether `bits` denotes the magnitude `m` of a rounded result: infinity
/// where `m` is out of range, else the finite number of that magnitude.
pub open spec fn rounds_to(bits: u64, m: nat) -> bool {
    if m >= overflow() {
        is_infinite(bits)
    } else {
        is_finite(bits) && magnitude(bits) == m
    }
}

/// `a < b` as numbers: false as soon as one of them is a NaN.
pub open spec fn less(a: u64, b: u64) -> bool {
    !is_nan(a) && !is_nan(b) && value(a) < value(b)
}

/// `a == b` as numbers: false as soon as one of them is a NaN, true of the
/// two zeros.
pub open spec fn equal(a: u64, b: u64) -> bool {
    !is_nan(a) && !is_nan(b) && value(a) == value(b)
}

/// What the fields of a pattern are to its integer reading.
pub proof fn lemma_fields(bits: u64)
    by (bit_vector)
    ensures
        exponent(bits) <= 0x7ff,
        fraction(bits) < 0x10_0000_0000_0000,
        bits & 0x7fff_ffff_ffff_ffff <= 0x7fff_ffff_ffff_ffff,
        bits & 0x7fff_ffff_ffff_ffff == exponent(bits) * 0x10_0000_0000_0000 + fraction(bits),
        (bits & 0x7fff_ffff_ffff_ffff) & 0x7fff_ffff_ffff_ffff == bits & 0x7fff_ffff_ffff_ffff,
        bits <= 0x7fff_ffff_ffff_ffff ==> bits >> 52 == exponent(bits),
        sign(bits) <==> bits >= 0x8000_0000_0000_0000,
        sign(bits) ==> bits == (bits & 0x7fff_ffff_ffff_ffff) + 0x8000_0000_0000_0000,
        !sign(bits) ==> bits == bits & 0x7fff_ffff_ffff_ffff,
        bits & 0x8000_0000_0000_0000 == if sign(bits) {
            0x8000_0000_0000_0000u64
        } else {
            0u64
        },
        bits ^ 0x8000_0000_0000_0000 == if sign(bits) {
            bits - 0x8000_0000_0000_0000
        } else {
            bits + 0x8000_0000_0000_0000
        },
        is_nan(bits) <==> bits & 0x7fff_ffff_ffff_ffff > 0x7ff0_0000_0000_0000,
        is_infinite(bits) <==> bits & 0x7fff_ffff_ffff_ffff == 0x7ff0_0000_0000_0000,
        is_finite(bits) <==> bits & 0x7fff_ffff_ffff_ffff < 0x7ff0_0000_0000_0000,
{
}

/// The pattern of a magnitude `a` under the sign of `bits`.
pub proof fn lemma_with_sign(bits: u64, a: u64)
    by (bit_vector)
    requires
        a <= 0x7fff_ffff_ffff_ffff,
    ensures
        ({
            let r = (bits & 0x8000_0000_0000_0000) | a;
            &&& r & 0x7fff_ffff_ffff_ffff == a
            &&& sign(r) == sign(bits)
            &&& exponent(r) == exponent(a)
            &&& fraction(r) == fraction(a)
            &&& a == bits & 0x7fff_ffff_ffff_ffff ==> r == bits
        }),
{
}

/// The sign bits of two patterns, combined.
pub proof fn lemma_signs(a: u64, b: u64)
    by (bit_vector)
    ensures
        (a ^ b) & 0x8000_0000_0000_0000 == if sign(a) != sign(b) {
            0x8000_0000_0000_0000u64
        } else {
            0u64
        },
        a & b & 0x8000_0000_0000_0000 == if sign(a) && sign(b) {
            0x8000_0000_0000_0000u64
        } else {
            0u64
        },
{
}

/// The magnitude of a pattern, read off the pattern less its sign bit.
pub proof fn lemma_magnitude_of(bits: u64)
    ensures
        magnitude(bits) == model::magnitude_of(52, (bits & 0x7fff_ffff_ffff_ffff) as nat),
        magnitude(bits) == magnitude(bits & 0x7fff_ffff_ffff_ffff),
{
    let a = bits & 0x7fff_ffff_ffff_ffff;
    lemma_fields(bits);
    lemma_fields(a);
    lemma2_to64();
    lemma2_to64_rest();
    vstd::arithmetic::div_mod::lemma_fundamental_div_mod_converse(
        a as int,
        0x10_0000_0000_0000,
        exponent(bits) as int,
        fraction(bits) as int,
    );
    vstd::arithmetic::div_mod::lemma_fundamental_div_mod_converse(
        a as int,
        0x10_0000_0000_0000,
        exponent(a) as int,
        fraction(a) as int,
    );
}

/// Patterns without their sign bit are ordered as the magnitudes they denote.
pub proof fn lemma_magnitude_order(a: u64, b: u64)
    ensures
        (a & 0x7fff_ffff_ffff_ffff) < (b & 0x7fff_ffff_ffff_ffff) <==> magnitude(a) < magnitude(b),
        (a & 0x7fff_ffff_ffff_ffff) == (b & 0x7fff_ffff_ffff_ffff) <==> magnitude(a) == magnitude(b),
        a & 0x7fff_ffff_ffff_ffff == 0 <==> magnitude(a) == 0,
{
    lemma_fields(a);
    lemma_fields(b);
    lemma_fields(0);
    lemma2_to64();
    lemma2_to64_rest();
    let (ea, fa) = (exponent(a) as nat, fraction(a) as nat);
    let (eb, fb) = (exponent(b) as nat, fraction(b) as nat);
    if ea < eb || (ea == eb && fa < fb) {
        model::lemma_magnitude_increases(52, ea, fa, eb, fb);
    } else if eb < ea || (ea == eb && fb < fa) {
        model::lemma_magnitude_increases(52, eb, fb, ea, fa);
    }
    if ea != 0 || fa != 0 {
        model::lemma_magnitude_increases(52, 0, 0, ea, fa);
    }
}

/// Whether `bits` is a NaN.
pub fn is_nan_bits(bits: u64) -> (r: bool)
    ensures
        r == is_nan(bits),
{
    proof {
        lemma_fields(bits);
    }
    bits & ABS_MASK > INF_BITS
}

/// The comparison `a < b` of the numbers denoted.
pub fn lt(a: u64, b: u64) -> (r: bool)
    ensures
        r == less(a, b),
{
    proof {
        lemma_fields(a);
        lemma_fields(b);
        lemma_magnitude_order(a, b);
        lemma_magnitude_order(b, a);
    }
    if is_nan_bits(a) || is_nan_bits(b) {
        return false;
    }
    let ma = a & 0x7fff_ffff_ffff_ffff;
    let mb = b & 0x7fff_ffff_ffff_ffff;
    if a >= SIGN_MASK {
        if b >= SIGN_MASK {
            mb < ma
        } else {
            ma != 0 || mb != 0
        }
    } else {
        b < SIGN_MASK && ma < mb
    }
}

/// The comparison `a == b` of the numbers denoted.
pub fn eq(a: u64, b: u64) -> (r: bool)
    ensures
        r == equal(a, b),
{
    proof {
        lemma_fields(a);
        lemma_fields(b);
        lemma_magnitude_order(a, b);
        lemma_magnitude_order(b, a);
    }
    if is_nan_bits(a) || is_nan_bits(b) {
        return false;
    }
    let ma = a & 0x7fff_ffff_ffff_ffff;
    let mb = b & 0x7fff_ffff_ffff_ffff;
    a == b || (ma == 0 && mb == 0)
}

/// The magnitude of infinity, and the NaN of this module.
pub proof fn lemma_specials()
    ensures
        !sign(INF_BITS),
        is_infinite(INF_BITS),
        magnitude(INF_BITS) == overflow(),
        is_nan(NAN_BITS),
{
    lemma_fields(INF_BITS);
    lemma_fields(NAN_BITS);
    lemma_pow2_adds(52, 2046);
}

/// A pattern is its three fields.
pub proof fn lemma_same_fields(a: u64, b: u64)
    requires
        sign(a) == sign(b),
        exponent(a) == exponent(b),
        fraction(a) == fraction(b),
    ensures
        a == b,
{
    lemma_fields(a);
    lemma_fields(b);
}

/// Two patterns that are not NaNs, of one sign and one magnitude, are the
/// same pattern.
pub proof fn lemma_same_number(a: u64, b: u64)
    requires
        sign(a) == sign(b),
        magnitude(a) == magnitude(b),
    ensures
        a == b,
{
    lemma_fields(a);
    lemma_fields(b);
    lemma2_to64();
    lemma2_to64_rest();
    model::lemma_magnitude_injective(
        52,
        exponent(a) as nat,
        fraction(a) as nat,
        exponent(b) as nat,
        fraction(b) as nat,
    );
    lemma_same_fields(a, b);
}

/// A finite magnitude is a significand that fits the format, times a power
/// of two: it lies on the grid of the format, and below infinity.
pub proof fn lemma_on_grid(bits: u64)
    requires
        is_finite(bits),
    ensures
        crate::rounding::rounded(52, magnitude(bits), 1) == magnitude(bits),
        magnitude(bits) < overflow(),
{
    let e = exponent(bits) as nat;
    let f = fraction(bits) as nat;
    lemma_fields(bits);
    lemma_fields(INF_BITS);
    lemma_specials();
    lemma_magnitude_order(bits, INF_BITS);
    lemma2_to64();
    lemma2_to64_rest();
    model::lemma_significand(52, e, f);
    crate::rounding::lemma_rounded_exact(52, model::significand(52, e, f), model::scale(e));
}

/// A magnitude that some pattern denotes is the rounded magnitude that a
/// pattern of either sign denotes.
pub proof fn lemma_pattern_exists(m: nat, a: nat, negative: bool) -> (r: u64)
    requires
        model::magnitude_of(52, a) == m,
    ensures
        sign(r) == negative,
        rounds_to(r, m),
{
    let s: u64 = if negative {
        SIGN_MASK
    } else {
        0
    };
    lemma_fields(s);
    lemma_specials();
    lemma_fields(INF_BITS);
    if m >= overflow() {
        lemma_with_sign(s, INF_BITS);
        s | INF_BITS
    } else {
        lemma_magnitude_of(INF_BITS);
        if a >= INF_BITS {
            if a > INF_BITS {
                model::lemma_magnitude_of_increases(52, INF_BITS as nat, a);
            }
            assert(false);
        }
        let bits = a as u64;
        lemma_with_sign(s, bits);
        lemma_magnitude_of(bits);
        lemma_magnitude_of(s | bits);
        lemma_fields(bits);
        lemma_fields(s | bits);
        s | bits
    }
}

/// Every rounded result has a pattern, under either sign.
pub proof fn lemma_rounding_exists(n: nat, d: nat, negative: bool) -> (r: u64)
    requires
        d > 0,
    ensures
        sign(r) == negative,
        rounds_to(r, crate::rounding::rounded(52, n, d)),
{
    let j = crate::rounding::step_exp(52, n / d);
    let a = j * pow2(52) + crate::rounding::nearest_even(n, d * pow2(j));
    crate::rounding::lemma_rounded_form(52, n, d);
    lemma_pattern_exists(crate::rounding::rounded(52, n, d), a, negative)
}

/// The magnitude of the pattern of 1.0.
pub proof fn lemma_one()
    ensures
        !sign(ONE_BITS),
        is_finite(ONE_BITS),
        magnitude(ONE_BITS) == one(),
        one() > 0,
{
    lemma_fields(ONE_BITS);
    lemma_pow2_adds(52, 1022);
    lemma_pow2_pos(1074);
}

impl Fast<u64> {
    /// Positive zero.
    pub fn zero() -> (r: Self)
        ensures
            r.0 == 0,
            !sign(r.0),
            magnitude(r.0) == 0,
    {
        proof {
            lemma_fields(0);
            lemma_magnitude_order(0, 0);
        }
        Fast(0)
    }

    /// The number 1.
    pub fn one() -> (r: Self)
        ensures
            r.0 == ONE_BITS,
            !sign(r.0),
            is_finite(r.0),
            magnitude(r.0) == one(),
    {
        proof {
            lemma_one();
        }
        Fast(ONE_BITS)
    }

    /// Whether `self` is zero, of either sign.
    pub fn is_zero(&self) -> (r: bool)
        ensures
            r == equal(self.0, 0),
            r == (magnitude(self.0) == 0),
    {
        proof {
            lemma_fields(self.0);
            lemma_fields(0);
            lemma_magnitude_order(self.0, 0);
        }
        self.0 & ABS_MASK == 0
    }

    /// Whether `self` is the number 1.
    pub fn is_one(&self) -> (r: bool)
        ensures
            r == equal(self.0, ONE_BITS),
            r == (self.0 == ONE_BITS),
    {
        proof {
            lemma_fields(self.0);
            lemma_fields(ONE_BITS);
            lemma_magnitude_order(self.0, ONE_BITS);
            lemma_one();
        }
        self.0 == ONE_BITS
    }

    /// The absolute value: the sign bit is cleared, also on a NaN.
    pub fn abs(self) -> (r: Self)
        ensures
            !sign(r.0),
            exponent(r.0) == exponent(self.0),
            fraction(r.0) == fraction(self.0),
            magnitude(r.0) == magnitude(self.0),
    {
        proof {
            lemma_fields(self.0);
            lemma_fields(self.0 & ABS_MASK);
        }
        Fast(self.0 & ABS_MASK)
    }
}

/// Flipping the sign bit negates the number and keeps its two fields.
pub proof fn lemma_negated(bits: u64)
    ensures
        sign(bits ^ 0x8000_0000_0000_0000) != sign(bits),
        exponent(bits ^ 0x8000_0000_0000_0000) == exponent(bits),
        fraction(bits ^ 0x8000_0000_0000_0000) == fraction(bits),
        value(bits ^ 0x8000_0000_0000_0000) == -value(bits),
{
    lemma_fields(bits);
    lemma_fields(bits ^ 0x8000_0000_0000_0000);
}

} // verus!
