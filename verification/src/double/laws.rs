//! Laws of binary64 arithmetic: every operation has its result, and on
//! finite numbers addition and multiplication have their identities.
use vstd::prelude::*;
use vstd::arithmetic::power2::*;
use crate::model::{lemma_significand, scale, significand};
use crate::rounding::{lemma_rounded_exact, lemma_rounded_scale};
use crate::double::arith::{
    is_product, is_quotient, is_remainder, is_sum, lemma_sum_symmetric, lemma_sum_unique,
    product_of, quotient_of, remainder_of, sum_of,
};
use crate::double::{
    equal, exponent, fraction, is_finite, is_infinite, is_nan, lemma_fields, lemma_magnitude_of,
    lemma_magnitude_order, lemma_on_grid, lemma_one, lemma_pattern_exists, lemma_rounding_exists,
    lemma_same_fields, lemma_same_number, magnitude, one, overflow, rounds_to, sign, value,
    INF_BITS, NAN_BITS, ONE_BITS, SIGN_MASK,
};

verus! {

/// Every two patterns have a sum.
pub proof fn lemma_sum_exists(a: u64, b: u64)
    ensures
        is_sum(a, b, sum_of(a, b)),
{
    if is_nan(a) || is_nan(b) || (is_infinite(a) && is_infinite(b) && sign(a) != sign(b)) {
        assert(is_sum(a, b, NAN_BITS));
    } else if is_infinite(a) {
        assert(is_sum(a, b, a));
    } else if is_infinite(b) {
        assert(is_sum(a, b, b));
    } else {
        let s = value(a) + value(b);
        if s == 0 {
            let z = if sign(a) && sign(b) {
                SIGN_MASK
            } else {
                0
            };
            assert(is_sum(a, b, z));
        } else {
            let r = lemma_rounding_exists(vstd::math::abs(s) as nat, 1, s < 0);
            assert(is_sum(a, b, r));
        }
    }
}

/// The pattern of an infinity of either sign.
proof fn lemma_infinity(negative: bool) -> (r: u64)
    ensures
        sign(r) == negative,
        is_infinite(r),
        rounds_to(r, overflow()),
{
    let r = if negative {
        0xfff0_0000_0000_0000u64
    } else {
        INF_BITS
    };
    lemma_fields(r);
    r
}

/// Every two patterns have a product.
pub proof fn lemma_product_exists(a: u64, b: u64)
    ensures
        is_product(a, b, product_of(a, b)),
{
    lemma_one();
    if is_nan(a) || is_nan(b) || (is_infinite(a) && magnitude(b) == 0) || (magnitude(a) == 0
        && is_infinite(b)) {
        assert(is_product(a, b, NAN_BITS));
    } else if is_infinite(a) || is_infinite(b) {
        let r = lemma_infinity(sign(a) != sign(b));
        assert(is_product(a, b, r));
    } else {
        let r = lemma_rounding_exists(magnitude(a) * magnitude(b), one(), sign(a) != sign(b));
        assert(is_product(a, b, r));
    }
}

/// Every two patterns have a quotient.
pub proof fn lemma_quotient_exists(a: u64, b: u64)
    ensures
        is_quotient(a, b, quotient_of(a, b)),
{
    if is_nan(a) || is_nan(b) || (is_infinite(a) && is_infinite(b)) || (magnitude(a) == 0
        && magnitude(b) == 0) {
        assert(is_quotient(a, b, NAN_BITS));
    } else if is_infinite(a) || magnitude(b) == 0 {
        let r = lemma_infinity(sign(a) != sign(b));
        assert(is_quotient(a, b, r));
    } else if is_infinite(b) {
        lemma_fields(0);
        lemma_magnitude_of(0);
        lemma_magnitude_order(0, 0);
        let r = lemma_pattern_exists(0, 0, sign(a) != sign(b));
        lemma_pow2_pos(2098);
        assert(is_quotient(a, b, r));
    } else {
        let r = lemma_rounding_exists(magnitude(a) * one(), magnitude(b), sign(a) != sign(b));
        assert(is_quotient(a, b, r));
    }
}

/// Every two patterns have a remainder.
pub proof fn lemma_remainder_exists(a: u64, b: u64)
    ensures
        is_remainder(a, b, remainder_of(a, b)),
{
    if is_nan(a) || is_nan(b) || is_infinite(a) || magnitude(b) == 0 {
        assert(is_remainder(a, b, NAN_BITS));
    } else if is_infinite(b) {
        assert(is_remainder(a, b, a));
    } else if magnitude(a) < magnitude(b) {
        lemma_fields(a);
        vstd::arithmetic::div_mod::lemma_small_mod(magnitude(a), magnitude(b));
        assert(is_remainder(a, b, a));
    } else {
        // what is left is a significand below that of `b`, at the scale of `b`
        let (ea, fa) = (exponent(a) as nat, fraction(a) as nat);
        let (eb, fb) = (exponent(b) as nat, fraction(b) as nat);
        let (sa, xa) = (significand(52, ea, fa), scale(ea));
        let (sb, xb) = (significand(52, eb, fb), scale(eb));
        lemma_fields(a);
        lemma_fields(b);
        lemma_magnitude_order(a, b);
        lemma_magnitude_order(b, a);
        lemma_significand(52, ea, fa);
        lemma_significand(52, eb, fb);
        lemma2_to64();
    lemma2_to64_rest();
        assert(xa >= xb);
        let q = pow2(xb) as int;
        let wide = (sa * pow2((xa - xb) as nat)) as int;
        lemma_pow2_pos(xb);
        lemma_pow2_adds((xa - xb) as nat, xb);
        assert(sb > 0) by (nonlinear_arith)
            requires
                sb * pow2(xb) > 0,
        ;
        assert(magnitude(a) == q * wide && magnitude(b) == q * sb) by (nonlinear_arith)
            requires
                magnitude(a) == sa * pow2(xa),
                magnitude(b) == sb * pow2(xb),
                pow2(xa) == pow2((xa - xb) as nat) * q,
                wide == sa * pow2((xa - xb) as nat),
                q == pow2(xb),
        ;
        vstd::arithmetic::div_mod::lemma_truncate_middle(wide, q, sb as int);
        vstd::arithmetic::div_mod::lemma_mod_bound(wide, sb as int);
        let rest = (wide % (sb as int)) as nat;
        let m = rest * pow2(xb);
        assert(m == q * (wide % (sb as int)) && m < magnitude(b)) by (nonlinear_arith)
            requires
                m == rest * q,
                rest == wide % (sb as int),
                rest < sb,
                magnitude(b) == q * sb,
                q > 0,
        ;
        lemma_rounded_exact(52, rest, xb);
        lemma_on_grid(b);
        let r = lemma_rounding_exists(m, 1, sign(a));
        assert(is_remainder(a, b, r));
    }
}

/// Where the exact sum of two finite numbers is a number of the format,
/// their sum is that number.
pub proof fn lemma_sum_exact(a: u64, b: u64, c: u64)
    requires
        is_finite(a),
        is_finite(b),
        is_finite(c),
        value(c) == value(a) + value(b),
    ensures
        equal(sum_of(a, b), c),
{
    lemma_sum_exists(a, b);
    lemma_on_grid(c);
    lemma_fields(sum_of(a, b));
    lemma_fields(c);
    lemma_magnitude_order(sum_of(a, b), 0);
    lemma_magnitude_order(0, 0);
}

/// Addition is commutative, on every pair of patterns.
pub proof fn lemma_sum_commutes(a: u64, b: u64)
    ensures
        sum_of(a, b) == sum_of(b, a),
{
    lemma_sum_exists(a, b);
    lemma_sum_symmetric(a, b, sum_of(a, b));
    lemma_sum_unique(b, a, sum_of(a, b));
}

/// Zero is the identity of addition: a number plus positive zero is that
/// number, and the same pattern unless the number is negative zero.
pub proof fn lemma_sum_zero(a: u64)
    requires
        !is_nan(a),
    ensures
        equal(sum_of(a, 0), a),
        value(a) != 0 || !sign(a) ==> sum_of(a, 0) == a,
{
    let r = sum_of(a, 0);
    lemma_sum_exists(a, 0);
    lemma_fields(a);
    lemma_fields(0);
    lemma_fields(r);
    lemma_magnitude_order(0, 0);
    lemma_magnitude_order(a, 0);
    lemma_magnitude_order(r, 0);
    if is_finite(a) {
        lemma_on_grid(a);
        if value(a) != 0 {
            lemma_same_number(r, a);
        } else if !sign(a) {
            lemma_same_number(r, a);
        }
    }
}

/// One is the identity of multiplication: a number times one is that
/// number, in the same pattern.
pub proof fn lemma_product_one(a: u64)
    requires
        !is_nan(a),
    ensures
        product_of(a, ONE_BITS) == a,
{
    let r = product_of(a, ONE_BITS);
    lemma_product_exists(a, ONE_BITS);
    lemma_one();
    lemma_fields(a);
    lemma_fields(r);
    lemma_fields(ONE_BITS);
    if is_infinite(a) {
        lemma_same_fields(r, a);
    } else {
        lemma_on_grid(a);
        assert(1 * one() == one());
        lemma_rounded_scale(52, magnitude(a), 1, one());
        lemma_same_number(r, a);
    }
}

} // verus!
