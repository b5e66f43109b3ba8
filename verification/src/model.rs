//! The numbers that binary floating-point patterns denote.
//!
//! A pattern splits into a sign bit, a biased exponent field `e` and a
//! fraction field `f`. Every finite number of a format is a whole multiple of
//! the format's smallest subnormal, so its magnitude is modelled as a natural
//! number counted in that unit. Infinity gets the magnitude that its fields
//! would have as a finite number, which lies above every finite magnitude.
use vstd::prelude::*;
use vstd::arithmetic::div_mod::*;
use vstd::arithmetic::mul::*;
use vstd::arithmetic::power2::*;

verus! {

/// The magnitude denoted by exponent field `e` and fraction field `f` in a
/// format with `frac` fraction bits, in units of the smallest subnormal.
pub open spec fn magnitude(frac: nat, e: nat, f: nat) -> nat {
    if e == 0 {
        f
    } else {
        (pow2(frac) + f) * pow2((e - 1) as nat)
    }
}

/// The significand of a pattern: its fraction, with the implicit leading bit
/// where the exponent field is not 0.
pub open spec fn significand(frac: nat, e: nat, f: nat) -> nat {
    if e == 0 {
        f
    } else {
        pow2(frac) + f
    }
}

/// The exponent of the power of two that the significand of a pattern
/// counts.
pub open spec fn scale(e: nat) -> nat {
    if e == 0 {
        0
    } else {
        (e - 1) as nat
    }
}

/// A magnitude is its significand times two to its scale.
pub proof fn lemma_significand(frac: nat, e: nat, f: nat)
    ensures
        magnitude(frac, e, f) == significand(frac, e, f) * pow2(scale(e)),
{
    lemma2_to64();
    if e == 0 {
        assert(f * 1 == f) by (nonlinear_arith);
    }
}

/// Magnitude grows strictly with the pair (exponent field, fraction field)
/// in lexicographic order.
pub proof fn lemma_magnitude_increases(frac: nat, e1: nat, f1: nat, e2: nat, f2: nat)
    requires
        f1 < pow2(frac),
        f2 < pow2(frac),
        e1 < e2 || (e1 == e2 && f1 < f2),
    ensures
        magnitude(frac, e1, f1) < magnitude(frac, e2, f2),
{
    let p = pow2(frac) as int;
    if e1 == e2 {
        if e1 != 0 {
            let q = pow2((e1 - 1) as nat) as int;
            lemma_pow2_pos((e1 - 1) as nat);
            lemma_mul_strict_inequality(p + f1, p + f2, q);
        }
    } else {
        let q2 = pow2((e2 - 1) as nat) as int;
        lemma_pow2_pos((e2 - 1) as nat);
        // the larger exponent alone already reaches p * q2
        lemma_mul_inequality(p, p + f2, q2);
        lemma_mul_inequality(1, q2, p);
        assert(p <= p * q2) by {
            lemma_mul_is_commutative(p, q2);
        }
        if e1 != 0 {
            let q1 = pow2((e1 - 1) as nat) as int;
            lemma_pow2_pos((e1 - 1) as nat);
            lemma_mul_strict_inequality(p + f1, 2 * p, q1);
            lemma_pow2_unfold(e1);
            assert((2 * p) * q1 == p * pow2(e1)) by {
                lemma_mul_is_associative(p, 2, q1);
            }
            if e1 < e2 - 1 {
                lemma_pow2_strictly_increases(e1, (e2 - 1) as nat);
            }
            lemma_mul_inequality(pow2(e1) as int, q2, p);
            lemma_mul_is_commutative(p, pow2(e1) as int);
            lemma_mul_is_commutative(p, q2);
        }
    }
}

/// Two patterns of one format with the same magnitude have the same fields.
pub proof fn lemma_magnitude_injective(frac: nat, e1: nat, f1: nat, e2: nat, f2: nat)
    requires
        f1 < pow2(frac),
        f2 < pow2(frac),
        magnitude(frac, e1, f1) == magnitude(frac, e2, f2),
    ensures
        e1 == e2,
        f1 == f2,
{
    if e1 < e2 || (e1 == e2 && f1 < f2) {
        lemma_magnitude_increases(frac, e1, f1, e2, f2);
    } else if e2 < e1 || (e1 == e2 && f2 < f1) {
        lemma_magnitude_increases(frac, e2, f2, e1, f1);
    }
}

/// The magnitude denoted by a pattern whose reading without its sign bit is
/// `a`, in a format with `frac` fraction bits.
pub open spec fn magnitude_of(frac: nat, a: nat) -> nat {
    magnitude(frac, a / pow2(frac), a % pow2(frac))
}

/// Patterns are ordered as the magnitudes that they denote.
pub proof fn lemma_magnitude_of_increases(frac: nat, a: nat, b: nat)
    requires
        a < b,
    ensures
        magnitude_of(frac, a) < magnitude_of(frac, b),
{
    let p = pow2(frac) as int;
    lemma_pow2_pos(frac);
    lemma_fundamental_div_mod(a as int, p);
    lemma_fundamental_div_mod(b as int, p);
    lemma_mod_bound(a as int, p);
    lemma_mod_bound(b as int, p);
    lemma_div_is_ordered(a as int, b as int, p);
    lemma_magnitude_increases(frac, a / pow2(frac), a % pow2(frac), b / pow2(frac), b % pow2(frac));
}

/// Within one binade, its upper end included, magnitude is linear in the
/// pattern: the pattern less `(e - 1) * 2^frac` is the significand, counted
/// in units of `2^(e - 1)`.
pub proof fn lemma_binade(frac: nat, e: nat, a: nat)
    requires
        1 <= e,
        e * pow2(frac) <= a <= (e + 1) * pow2(frac),
    ensures
        magnitude_of(frac, a) == (a - (e - 1) * pow2(frac)) * pow2((e - 1) as nat),
{
    let p = pow2(frac) as int;
    let q = pow2((e - 1) as nat) as int;
    lemma_pow2_pos(frac);
    assert((e + 1) * p == e * p + p && (e - 1) * p == e * p - p) by (nonlinear_arith);
    if a < (e + 1) * p {
        lemma_fundamental_div_mod_converse(a as int, p, e as int, a - e * p);
    } else {
        lemma_fundamental_div_mod_converse(a as int, p, (e + 1) as int, 0);
        lemma_pow2_unfold(e);
        assert((p + 0) * (2 * q) == (a - (e - 1) * p) * q) by (nonlinear_arith)
            requires
                a == e * p + p,
                (e - 1) * p == e * p - p,
        ;
    }
}

/// The largest multiple of `one` that is not above `m`.
pub open spec fn whole_below(m: nat, one: nat) -> nat {
    (m / one) * one
}

/// The smallest multiple of `one` that is not below `m`.
pub open spec fn whole_above(m: nat, one: nat) -> nat {
    if m % one == 0 {
        m
    } else {
        (m / one + 1) * one
    }
}

/// The multiple of `one` nearest to `m`; halfway between two, the larger.
pub open spec fn whole_nearest(m: nat, one: nat) -> nat {
    if 2 * (m % one) < one {
        (m / one) * one
    } else {
        (m / one + 1) * one
    }
}

/// Below `one` there is no whole part.
pub proof fn lemma_whole_small(m: nat, one: nat)
    requires
        m < one,
    ensures
        m / one == 0,
        m % one == m,
{
    lemma_small_mod(m, one);
    lemma_basic_div(m as int, one as int);
}

/// A magnitude with exponent field `e` is a multiple of `2^u` for every
/// `u < e`.
pub proof fn lemma_whole_large(frac: nat, e: nat, f: nat, u: nat)
    requires
        u < e,
    ensures
        magnitude(frac, e, f) % pow2(u) == 0,
        (magnitude(frac, e, f) / pow2(u)) * pow2(u) == magnitude(frac, e, f),
{
    let m = magnitude(frac, e, f) as int;
    let d = pow2(u) as int;
    let c = ((pow2(frac) + f) * pow2((e - 1 - u) as nat)) as int;
    lemma_pow2_pos(u);
    lemma_pow2_adds((e - 1 - u) as nat, u);
    assert(m == c * d) by {
        lemma_mul_is_associative((pow2(frac) + f) as int, pow2((e - 1 - u) as nat) as int, d);
    }
    lemma_mod_multiples_basic(c, d);
    lemma_fundamental_div_mod(m, d);
    lemma_mul_is_commutative(d, m / d);
}

/// Clearing the low `k` bits of a pattern of exponent field `e`, and then
/// adding `2^k`, gives the two multiples of `2^(k + e - 1)` that enclose its
/// magnitude. Both stay within the binade, its upper end included.
pub proof fn lemma_whole_in_binade(frac: nat, e: nat, a: nat, k: nat)
    requires
        1 <= e,
        k <= frac,
        e * pow2(frac) <= a < (e + 1) * pow2(frac),
    ensures
        ({
            let one = pow2((k + e - 1) as nat);
            let m = magnitude_of(frac, a);
            let down = (a / pow2(k)) * pow2(k);
            &&& e * pow2(frac) <= down <= a
            &&& down + pow2(k) <= (e + 1) * pow2(frac)
            &&& m % one == (a % pow2(k)) * pow2((e - 1) as nat)
            &&& magnitude_of(frac, down) == (m / one) * one
            &&& magnitude_of(frac, (down + pow2(k)) as nat) == (m / one + 1) * one
        }),
{
    let p = pow2(frac) as int;
    let kk = pow2(k) as int;
    let q = pow2((e - 1) as nat) as int;
    let r = pow2((frac - k) as nat) as int;
    let one = pow2((k + e - 1) as nat) as int;
    lemma_pow2_pos(frac);
    lemma_pow2_pos(k);
    lemma_pow2_pos((e - 1) as nat);
    lemma_pow2_pos((frac - k) as nat);
    lemma_pow2_adds((frac - k) as nat, k);
    lemma_pow2_adds(k, (e - 1) as nat);
    assert(p == r * kk);
    assert(one == kk * q);
    let c = (e - 1) * p;
    let j = (e - 1) * r;
    let ai = a as int;
    let sig = ai - c;
    assert(c == j * kk) by {
        lemma_mul_is_associative(e - 1, r, kk);
    }
    assert((e + 1) * p == c + 2 * p && e * p == c + p) by (nonlinear_arith)
        requires
            c == (e - 1) * p,
    ;
    assert(p <= sig < 2 * p);
    // quotient and remainder of the pattern are those of the significand
    lemma_hoist_over_denominator(sig, j, kk as nat);
    assert(ai / kk == sig / kk + j);
    assert(ai % kk == sig % kk) by {
        lemma_mod_multiples_vanish(j, sig, kk);
        lemma_mul_is_commutative(j, kk);
    }
    let down = (ai / kk) * kk;
    assert(down == (sig / kk) * kk + c) by {
        lemma_mul_is_distributive_add_other_way(kk, sig / kk, j);
    }
    lemma_fundamental_div_mod(sig, kk);
    lemma_mul_is_commutative(kk, sig / kk);
    assert(r <= sig / kk < 2 * r) by {
        lemma_div_is_ordered(p, sig, kk);
        lemma_div_by_multiple(r, kk);
        assert(sig < kk * (2 * r)) by (nonlinear_arith)
            requires
                sig < 2 * p,
                p == r * kk,
        ;
        lemma_multiply_divide_lt(sig, kk, 2 * r);
    }
    assert(p <= (sig / kk) * kk && (sig / kk + 1) * kk <= 2 * p) by (nonlinear_arith)
        requires
            r <= sig / kk < 2 * r,
            p == r * kk,
            kk > 0,
    ;
    assert((sig / kk + 1) * kk == (sig / kk) * kk + kk) by (nonlinear_arith);
    // the magnitudes
    lemma_binade(frac, e, a);
    lemma_binade(frac, e, down as nat);
    lemma_binade(frac, e, (down + kk) as nat);
    let m = magnitude_of(frac, a) as int;
    assert(m == sig * q);
    assert(m / one == sig / kk) by {
        lemma_div_multiples_vanish_quotient(q, sig, kk);
        lemma_mul_is_commutative(q, sig);
        lemma_mul_is_commutative(q, kk);
    }
    assert(m % one == (sig % kk) * q) by {
        lemma_truncate_middle(sig, q, kk);
        lemma_mul_is_commutative(q, sig);
        lemma_mul_is_commutative(q, kk);
        lemma_mul_is_commutative(q, sig % kk);
    }
    assert(((sig / kk) * kk) * q == (sig / kk) * one) by {
        lemma_mul_is_associative(sig / kk, kk, q);
    }
    assert(((sig / kk + 1) * kk) * q == (sig / kk + 1) * one) by {
        lemma_mul_is_associative(sig / kk + 1, kk, q);
    }
}

} // verus!
