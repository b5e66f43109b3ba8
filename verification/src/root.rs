//! Square roots, rounded to the nearest number of a format.
//!
//! The root of a whole number is rarely a fraction, so its rounding cannot
//! go through [`crate::rounding::rounded`]. It is stated over squares
//! instead: the root lies below a bound exactly when the number lies below
//! the bound's square.
use vstd::prelude::*;
use vstd::arithmetic::div_mod::*;
use vstd::arithmetic::power2::*;
use crate::model::magnitude_of;
use crate::rounding::{
    lemma_bit_length, lemma_nearest_even_bounds, lemma_pattern_of, lemma_rounded_dyadic,
    lemma_step_exp, lemma_step_exp_bounds, lemma_sticky_quotient, rounded_dyadic, step_exp,
};

verus! {

/// Whether `s` is the whole part of the square root of `w`.
pub open spec fn is_root_floor(w: nat, s: nat) -> bool {
    s * s <= w < (s + 1) * (s + 1)
}

/// The whole part of the square root of `w`.
pub open spec fn root_floor(w: nat) -> nat {
    choose|s: nat| is_root_floor(w, s)
}

/// The magnitude on the grid that is nearest to the square root of `w`,
/// ties to even.
///
/// With `2^j` the grid step at the root, `q` is the root counted in steps,
/// rounded down. The root lies above the middle between `q` and `q + 1`
/// steps exactly when `4 * w` lies above the square of `2 * q + 1` steps.
pub open spec fn rounded_root(frac: nat, w: nat) -> nat {
    let j = step_exp(frac, root_floor(w));
    let q = root_floor(w / pow2(2 * j));
    let mid = (2 * q + 1) * (2 * q + 1) * pow2(2 * j);
    if 4 * w < mid || (4 * w == mid && q % 2 == 0) {
        q * pow2(j)
    } else {
        (q + 1) * pow2(j)
    }
}

/// Squares grow with their roots.
pub proof fn lemma_squares(a: nat, b: nat)
    ensures
        a <= b ==> a * a <= b * b,
        a < b ==> a * a < b * b,
        a * a < b * b ==> a < b,
        a * a <= b * b ==> a <= b,
{
    if a <= b {
        assert(a * a <= b * b) by (nonlinear_arith)
            requires
                a <= b,
        ;
    }
    if a < b {
        assert(a * a < b * b) by (nonlinear_arith)
            requires
                a < b,
        ;
    }
    if b <= a {
        assert(b * b <= a * a) by (nonlinear_arith)
            requires
                b <= a,
        ;
    }
    if b < a {
        assert(b * b < a * a) by (nonlinear_arith)
            requires
                b < a,
        ;
    }
}

/// Every whole number has a root.
pub proof fn lemma_root_exists(w: nat) -> (s: nat)
    ensures
        is_root_floor(w, s),
        root_floor(w) == s,
    decreases w,
{
    if w == 0 {
        assert(is_root_floor(0, 0)) by (nonlinear_arith);
        lemma_root_unique(w, 0, root_floor(w));
        0
    } else {
        let below = lemma_root_exists((w - 1) as nat);
        let next = below + 1;
        assert((next + 1) * (next + 1) > next * next) by (nonlinear_arith);
        let s = if next * next <= w {
            next
        } else {
            below
        };
        assert(is_root_floor(w, s));
        lemma_root_unique(w, s, root_floor(w));
        s
    }
}

/// A whole number has one root only.
pub proof fn lemma_root_unique(w: nat, s: nat, t: nat)
    requires
        is_root_floor(w, s),
        is_root_floor(w, t),
    ensures
        s == t,
{
    lemma_squares(s + 1, t);
    lemma_squares(t + 1, s);
}

/// The root lies below a bound exactly when the number lies below the
/// square of the bound.
pub proof fn lemma_root_compare(w: nat, s: nat, bound: nat)
    requires
        is_root_floor(w, s),
    ensures
        w < bound * bound <==> s < bound,
        w == bound * bound ==> s == bound,
{
    lemma_squares(s + 1, bound);
    lemma_squares(bound, s);
    lemma_squares(bound + 1, s);
}

/// The root of `n * 4^e` lies between `s * 2^e` and `(s + 1) * 2^e`, where
/// `s` is the root of `n`.
pub proof fn lemma_root_scaled_up(n: nat, s: nat, e: nat)
    requires
        is_root_floor(n, s),
    ensures
        s * pow2(e) <= root_floor(n * pow2(2 * e)) < (s + 1) * pow2(e),
{
    let w = n * pow2(2 * e);
    let f = lemma_root_exists(w);
    let p = pow2(e) as int;
    lemma_pow2_adds(e, e);
    lemma_pow2_pos(e);
    assert((s * p) * (s * p) == (s * s) * (p * p) && ((s + 1) * p) * ((s + 1) * p) == ((s + 1) * (s
        + 1)) * (p * p)) by (nonlinear_arith);
    assert(p * p > 0) by (nonlinear_arith)
        requires
            p > 0,
    ;
    assert((s * s) * (p * p) <= n * (p * p) < ((s + 1) * (s + 1)) * (p * p)) by (nonlinear_arith)
        requires
            s * s <= n < (s + 1) * (s + 1),
            p * p > 0,
    ;
    lemma_root_compare(w, f, s * pow2(e));
    lemma_root_compare(w, f, (s + 1) * pow2(e));
}

/// The root of `n / 4^d` is `s / 2^d`, where `s` is the root of `n`.
pub proof fn lemma_root_scaled_down(n: nat, s: nat, d: nat)
    requires
        is_root_floor(n, s),
    ensures
        is_root_floor(n / pow2(2 * d), s / pow2(d)),
        root_floor(n / pow2(2 * d)) == s / pow2(d),
{
    let p = pow2(d) as int;
    let pp = pow2(2 * d) as int;
    let q = s as int / p;
    let v = n as int / pp;
    lemma_pow2_adds(d, d);
    lemma_pow2_pos(d);
    lemma_pow2_pos(2 * d);
    lemma_fundamental_div_mod(s as int, p);
    lemma_mod_bound(s as int, p);
    lemma_fundamental_div_mod(n as int, pp);
    lemma_mod_bound(n as int, pp);
    // q * p <= s < (q + 1) * p
    assert(q * p <= s && s + 1 <= (q + 1) * p) by (nonlinear_arith)
        requires
            s == p * q + s as int % p,
            0 <= s as int % p < p,
    ;
    lemma_squares((q * p) as nat, s);
    lemma_squares(s + 1, ((q + 1) * p) as nat);
    assert((q * p) * (q * p) == (q * q) * pp && ((q + 1) * p) * ((q + 1) * p) == ((q + 1) * (q + 1))
        * pp) by (nonlinear_arith)
        requires
            pp == p * p,
    ;
    // so q * q <= n / pp < (q + 1) * (q + 1)
    assert(q * q <= v < (q + 1) * (q + 1)) by (nonlinear_arith)
        requires
            (q * q) * pp <= n < ((q + 1) * (q + 1)) * pp,
            n == pp * v + n as int % pp,
            0 <= n as int % pp < pp,
            pp > 0,
    ;
    let r = lemma_root_exists(v as nat);
    lemma_root_unique(v as nat, r, q as nat);
}

/// The rounded root of `n * 4^e` from the whole part `s` of the root of
/// `n`, once `s` has two bits more than the format keeps: where `s` is the
/// exact root it is rounded as it stands, else with half a unit added.
pub proof fn lemma_rounded_root(frac: nat, n: nat, s: nat, e: nat)
    requires
        is_root_floor(n, s),
        s >= pow2(frac + 2),
    ensures
        rounded_root(frac, n * pow2(2 * e)) == if s * s == n {
            rounded_dyadic(frac, s, e as int)
        } else {
            rounded_dyadic(frac, 2 * s + 1, e - 1)
        },
{
    let w = n * pow2(2 * e);
    lemma_pow2_pos(frac + 2);
    let len = lemma_bit_length(s);
    if len < frac + 3 {
        if len < frac + 2 {
            lemma_pow2_strictly_increases(len, frac + 2);
        }
        assert(false);
    }
    let d = (len - 1 - frac) as nat;
    let j = d + e;
    let pd = pow2(d) as int;
    let half = pow2((d - 1) as nat) as int;
    lemma_pow2_pos(d);
    lemma_pow2_pos((d - 1) as nat);
    lemma_pow2_unfold(d);
    lemma_pow2_pos(e);
    lemma_pow2_pos(j);
    // the step at the root
    let f = root_floor(w);
    lemma_root_scaled_up(n, s, e);
    lemma_pow2_adds((len - 1) as nat, e);
    lemma_pow2_adds(len, e);
    assert(pow2((len - 1) as nat) * pow2(e) <= s * pow2(e) && (s + 1) * pow2(e) <= pow2(len) * pow2(
        e,
    )) by (nonlinear_arith)
        requires
            pow2((len - 1) as nat) <= s,
            s + 1 <= pow2(len),
            pow2(e) > 0,
    ;
    lemma_step_exp(frac, f, j);
    // the root counted in steps, rounded down
    let q = s as int / pd;
    let low = s as int % pd;
    lemma_pow2_adds(2 * e, 2 * d);
    lemma_pow2_pos(2 * e);
    lemma_pow2_pos(2 * d);
    assert(w / pow2(2 * j) == n / pow2(2 * d)) by {
        lemma_div_multiples_vanish_quotient(pow2(2 * e) as int, n as int, pow2(2 * d) as int);
        vstd::arithmetic::mul::lemma_mul_is_commutative(pow2(2 * e) as int, n as int);
    }
    lemma_root_scaled_down(n, s, d);
    assert(root_floor(w / pow2(2 * j)) == q);
    // the middle between q and q + 1 steps
    let bound = (2 * q + 1) * half;
    lemma_pow2_adds((d - 1) as nat, (d - 1) as nat);
    lemma_pow2_unfold(2 * d);
    lemma_pow2_unfold((2 * d - 1) as nat);
    let mid = (2 * q + 1) * (2 * q + 1) * pow2(2 * j);
    assert(mid == 4 * ((bound * bound) * pow2(2 * e))) by (nonlinear_arith)
        requires
            mid == (2 * q + 1) * (2 * q + 1) * pow2(2 * j),
            pow2(2 * j) == pow2(2 * e) * pow2(2 * d),
            pow2(2 * d) == 4 * (half * half),
            bound == (2 * q + 1) * half,
    ;
    assert((4 * w < mid <==> n < bound * bound) && (4 * w == mid <==> n == bound * bound))
        by (nonlinear_arith)
        requires
            w == n * pow2(2 * e),
            mid == 4 * ((bound * bound) * pow2(2 * e)),
            pow2(2 * e) > 0,
    ;
    lemma_root_compare(n, s, bound as nat);
    lemma_fundamental_div_mod(s as int, pd);
    lemma_mod_bound(s as int, pd);
    assert(s < bound <==> 2 * low < pd) by (nonlinear_arith)
        requires
            s == pd * q + low,
            bound == (2 * q + 1) * half,
            pd == 2 * half,
    ;
    assert(s == bound <==> 2 * low == pd) by (nonlinear_arith)
        requires
            s == pd * q + low,
            bound == (2 * q + 1) * half,
            pd == 2 * half,
    ;
    // the two forms of the significand
    lemma_pow2_unfold(len);
    lemma_pow2_unfold(len + 1);
    if s * s == n {
        lemma_rounded_dyadic(frac, s, e as int, len);
    } else {
        lemma_rounded_dyadic(frac, 2 * s + 1, e - 1, len + 1);
        lemma_pow2_unfold(d + 1);
        assert((2 * s + 1) / 2 == s && (2 * s + 1) % 2 == 1);
        lemma_sticky_quotient(2 * s + 1, 2, pow2(d));
    }
}

/// Every rounded root lies on the grid: it is a count of steps that fits
/// the format, and the pattern of that count denotes it. It is less than
/// twice the root and one.
pub proof fn lemma_rounded_root_form(frac: nat, w: nat) -> (a: nat)
    ensures
        magnitude_of(frac, a) == rounded_root(frac, w),
        rounded_root(frac, w) <= 2 * root_floor(w) + 1,
{
    let f = lemma_root_exists(w);
    let j = step_exp(frac, f);
    let q = root_floor(w / pow2(2 * j));
    lemma_step_exp_bounds(frac, f);
    lemma_root_scaled_down(w, f, j);
    lemma_pow2_pos(j);
    lemma_pow2_pos(frac);
    lemma_pow2_unfold(frac + 1);
    lemma_pow2_adds(frac, j);
    lemma_pow2_adds(frac + 1, j);
    if j >= 1 {
        lemma_nearest_even_bounds(f, pow2(j), pow2(frac), pow2(frac + 1));
    } else {
        assert(pow2(0) == 1) by {
            lemma2_to64();
        }
        assert(f / 1 == f);
    }
    let mid = (2 * q + 1) * (2 * q + 1) * pow2(2 * j);
    let up: nat = if 4 * w < mid || (4 * w == mid && q % 2 == 0) {
        q
    } else {
        q + 1
    };
    lemma_pattern_of(frac, j, up);
    lemma_fundamental_div_mod(f as int, pow2(j) as int);
    lemma_mod_bound(f as int, pow2(j) as int);
    assert(up * pow2(j) <= 2 * f + 1) by (nonlinear_arith)
        requires
            up <= q + 1,
            f == pow2(j) * q + f as int % (pow2(j) as int),
            0 <= f as int % (pow2(j) as int),
            j >= 1 ==> q >= 1,
            j == 0 ==> pow2(j) == 1,
            pow2(j) >= 1,
    ;
    j * pow2(frac) + up
}

/// The whole part of the square root of `n`.
pub(crate) fn isqrt(n: u128) -> (s: u64)
    requires
        n < 0x4000_0000_0000_0000_0000_0000_0000_0000,
    ensures
        is_root_floor(n as nat, s as nat),
        s < 0x8000_0000_0000_0000,
{
    let mut lo: u64 = 0;
    let mut hi: u64 = 0x8000_0000_0000_0000;
    assert(0x8000_0000_0000_0000u64 * 0x8000_0000_0000_0000u64
        == 0x4000_0000_0000_0000_0000_0000_0000_0000) by (nonlinear_arith);
    while hi - lo > 1
        invariant
            lo < hi <= 0x8000_0000_0000_0000,
            lo * lo <= n < hi * hi,
        decreases hi - lo,
    {
        let mid = lo + (hi - lo) / 2;
        assert(mid * mid < 0x8000_0000_0000_0000 * 0x8000_0000_0000_0000) by (nonlinear_arith)
            requires
                mid < 0x8000_0000_0000_0000,
        ;
        if mid as u128 * mid as u128 <= n {
            lo = mid;
        } else {
            hi = mid;
        }
    }
    lo
}

} // verus!
