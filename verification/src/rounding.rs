//! Rounding an exact result to the nearest number of a format.
//!
//! An exact result is a fraction `n / d` of the format's smallest subnormal.
//! The numbers of a format with `frac` fraction bits lie on a grid whose step
//! is 1 below `2^(frac + 1)` and doubles with every power of two from there
//! on. Rounding picks the grid point nearest to the exact result and, halfway
//! between two, the one with the even significand.
use vstd::prelude::*;
use vstd::arithmetic::div_mod::*;
use vstd::arithmetic::mul::*;
use vstd::arithmetic::power2::*;
use crate::model::{lemma_binade, magnitude_of};

verus! {

/// The whole number nearest to `n / d`; halfway between two, the even one.
pub open spec fn nearest_even(n: nat, d: nat) -> nat {
    let q = n / d;
    let r = n % d;
    if 2 * r < d || (2 * r == d && q % 2 == 0) {
        q
    } else {
        q + 1
    }
}

/// The exponent of the grid step at the whole number `v`: 0 below
/// `2^(frac + 1)`, and one more with each doubling from there on.
pub open spec fn step_exp(frac: nat, v: nat) -> nat
    decreases v,
{
    if v < pow2(frac + 1) || v == 0 {
        0
    } else {
        1 + step_exp(frac, v / 2)
    }
}

/// The magnitude on the grid that is nearest to `n / d`, ties to even.
pub open spec fn rounded(frac: nat, n: nat, d: nat) -> nat {
    let j = step_exp(frac, n / d);
    nearest_even(n, d * pow2(j)) * pow2(j)
}

/// The magnitude on the grid that is nearest to `sig * 2^exp`, ties to even.
pub open spec fn rounded_dyadic(frac: nat, sig: nat, exp: int) -> nat {
    if exp >= 0 {
        rounded(frac, sig * pow2(exp as nat), 1)
    } else {
        rounded(frac, sig, pow2((-exp) as nat))
    }
}

/// The magnitude on the grid that is nearest to `n / d` times `2^x`, ties to
/// even.
pub open spec fn rounded_scaled(frac: nat, n: nat, d: nat, x: int) -> nat {
    if x >= 0 {
        rounded(frac, n * pow2(x as nat), d)
    } else {
        rounded(frac, n, d * pow2((-x) as nat))
    }
}

/// The whole part of `sig * 2^exp`.
pub open spec fn whole_part(sig: nat, exp: int) -> nat {
    if exp >= 0 {
        sig * pow2(exp as nat)
    } else {
        sig / pow2((-exp) as nat)
    }
}

/// Zero rounds to zero.
pub proof fn lemma_rounded_zero(frac: nat, exp: int)
    ensures
        rounded_dyadic(frac, 0, exp) == 0,
{
    lemma_pow2_pos(frac + 1);
    lemma_pow2_pos(0);
    if exp >= 0 {
        assert(0 * pow2(exp as nat) == 0) by (nonlinear_arith);
        assert(step_exp(frac, 0) == 0);
        assert(1 * pow2(0) == pow2(0));
        lemma_small_mod(0, pow2(0));
        lemma_basic_div(0, pow2(0) as int);
    } else {
        let d = pow2((-exp) as nat);
        lemma_pow2_pos((-exp) as nat);
        lemma_small_mod(0, d);
        lemma_basic_div(0, d as int);
        assert(step_exp(frac, 0) == 0);
        assert(d * pow2(0) > 0) by (nonlinear_arith)
            requires
                d > 0,
                pow2(0) > 0,
        ;
        lemma_small_mod(0, d * pow2(0));
        lemma_basic_div(0, (d * pow2(0)) as int);
    }
    assert(0 * pow2(0) == 0) by (nonlinear_arith);
}

/// Scaling numerator and denominator alike does not change the result.
pub proof fn lemma_rounded_scale(frac: nat, n: nat, d: nat, c: nat)
    requires
        d > 0,
        c > 0,
    ensures
        rounded(frac, n * c, d * c) == rounded(frac, n, d),
{
    lemma_div_multiples_vanish_quotient(c as int, n as int, d as int);
    lemma_mul_is_commutative(c as int, n as int);
    lemma_mul_is_commutative(c as int, d as int);
    let j = step_exp(frac, n / d);
    lemma_pow2_pos(j);
    assert((d * c) * pow2(j) == (d * pow2(j)) * c) by (nonlinear_arith);
    assert(d * pow2(j) > 0) by (nonlinear_arith)
        requires
            d > 0,
            pow2(j) > 0,
    ;
    lemma_nearest_even_scale(n, d * pow2(j), c);
}

/// Powers of two in numerator and denominator are a scale.
pub proof fn lemma_rounded_of_powers(frac: nat, n: nat, d: nat, x: nat, y: nat)
    requires
        d > 0,
    ensures
        rounded(frac, n * pow2(x), d * pow2(y)) == rounded_scaled(frac, n, d, x - y),
{
    lemma_pow2_pos(x);
    lemma_pow2_pos(y);
    if x >= y {
        let c = pow2(y);
        lemma_pow2_adds((x - y) as nat, y);
        assert(n * pow2(x) == (n * pow2((x - y) as nat)) * c) by {
            lemma_mul_is_associative(n as int, pow2((x - y) as nat) as int, c as int);
        }
        lemma_rounded_scale(frac, n * pow2((x - y) as nat), d, c);
    } else {
        let c = pow2(x);
        lemma_pow2_adds((y - x) as nat, x);
        lemma_pow2_pos((y - x) as nat);
        assert(d * pow2(y) == (d * pow2((y - x) as nat)) * c) by {
            lemma_mul_is_associative(d as int, pow2((y - x) as nat) as int, c as int);
        }
        assert(d * pow2((y - x) as nat) > 0) by (nonlinear_arith)
            requires
                d > 0,
                pow2((y - x) as nat) > 0,
        ;
        lemma_rounded_scale(frac, n, d * pow2((y - x) as nat), c);
    }
}

/// A power of two in the numerator or in the denominator moves the scale.
pub proof fn lemma_rounded_scaled_shift(frac: nat, n: nat, d: nat, k: nat, x: int)
    requires
        d > 0,
    ensures
        rounded_scaled(frac, n * pow2(k), d, x) == rounded_scaled(frac, n, d, x + k),
        rounded_scaled(frac, n, d * pow2(k), x) == rounded_scaled(frac, n, d, x - k),
{
    lemma2_to64();
    lemma_pow2_pos(k);
    assert(d * 1 == d && n * 1 == n) by (nonlinear_arith);
    if x >= 0 {
        lemma_pow2_adds(k, x as nat);
        assert((n * pow2(k)) * pow2(x as nat) == n * pow2(k + x as nat)) by {
            lemma_mul_is_associative(n as int, pow2(k) as int, pow2(x as nat) as int);
        }
        lemma_rounded_of_powers(frac, n, d, k + x as nat, 0);
        lemma_rounded_of_powers(frac, n, d, x as nat, k);
    } else {
        let y = (-x) as nat;
        lemma_pow2_adds(k, y);
        assert((d * pow2(k)) * pow2(y) == d * pow2(k + y)) by {
            lemma_mul_is_associative(d as int, pow2(k) as int, pow2(y) as int);
        }
        lemma_rounded_of_powers(frac, n, d, k, y);
        lemma_rounded_of_powers(frac, n, d, 0, k + y);
    }
}

/// A dyadic value is a fraction over 1.
pub proof fn lemma_rounded_dyadic_scaled(frac: nat, sig: nat, x: int)
    ensures
        rounded_dyadic(frac, sig, x) == rounded_scaled(frac, sig, 1, x),
{
    if x < 0 {
        assert(1 * pow2((-x) as nat) == pow2((-x) as nat));
    }
}

/// A fraction that divides out is a dyadic value.
pub proof fn lemma_rounded_divides(frac: nat, q: nat, d: nat, x: int)
    requires
        d > 0,
    ensures
        rounded_scaled(frac, q * d, d, x) == rounded_dyadic(frac, q, x),
{
    if x >= 0 {
        let c = pow2(x as nat);
        assert((q * d) * c == (q * c) * d && d == 1 * d) by (nonlinear_arith);
        lemma_rounded_scale(frac, q * c, 1, d);
    } else {
        let c = pow2((-x) as nat);
        lemma_pow2_pos((-x) as nat);
        assert(d * c == c * d) by (nonlinear_arith);
        lemma_rounded_scale(frac, q, c, d);
    }
}

/// The step exponent of a whole number from the binade it lies in.
pub proof fn lemma_step_exp(frac: nat, v: nat, j: nat)
    requires
        v < pow2(frac + j + 1),
        j >= 1 ==> pow2(frac + j) <= v,
    ensures
        step_exp(frac, v) == j,
    decreases j,
{
    lemma_pow2_pos(frac + 1);
    if j == 0 {
    } else {
        if j > 1 {
            lemma_pow2_strictly_increases(frac + 1, frac + j);
        }
        lemma_pow2_unfold(frac + j + 1);
        lemma_pow2_unfold(frac + j);
        lemma_step_exp(frac, v / 2, (j - 1) as nat);
    }
}

/// The binade that a whole number lies in, from its step exponent.
pub proof fn lemma_step_exp_bounds(frac: nat, v: nat)
    ensures
        v < pow2(frac + step_exp(frac, v) + 1),
        step_exp(frac, v) >= 1 ==> pow2(frac + step_exp(frac, v)) <= v,
    decreases v,
{
    lemma_pow2_pos(frac + 1);
    if v < pow2(frac + 1) || v == 0 {
    } else {
        lemma_step_exp_bounds(frac, v / 2);
        let j1 = step_exp(frac, v / 2);
        lemma_pow2_unfold(frac + j1 + 2);
        lemma_pow2_unfold(frac + j1 + 1);
    }
}

/// Scaling numerator and denominator alike does not change the rounding.
pub proof fn lemma_nearest_even_scale(n: nat, d: nat, c: nat)
    requires
        d > 0,
        c > 0,
    ensures
        nearest_even(n * c, d * c) == nearest_even(n, d),
{
    let (ni, di, ci) = (n as int, d as int, c as int);
    lemma_div_multiples_vanish_quotient(ci, ni, di);
    lemma_truncate_middle(ni, ci, di);
    lemma_mul_is_commutative(ci, ni);
    lemma_mul_is_commutative(ci, di);
    let r = ni % di;
    assert((2 * (ci * r) < di * ci <==> 2 * r < di) && (2 * (ci * r) == di * ci <==> 2 * r == di))
        by (nonlinear_arith)
        requires
            ci > 0,
    ;
}

/// A whole multiple of the denominator rounds to its quotient.
pub proof fn lemma_nearest_even_exact(q: nat, d: nat)
    requires
        d > 0,
    ensures
        nearest_even(q * d, d) == q,
{
    lemma_div_multiples_vanish(q as int, d as int);
    lemma_mod_multiples_basic(q as int, d as int);
    lemma_mul_is_commutative(q as int, d as int);
}

/// Rounding keeps a fraction between the whole bounds of its numerator.
pub proof fn lemma_nearest_even_bounds(n: nat, d: nat, lo: nat, hi: nat)
    requires
        d > 0,
        lo * d <= n < hi * d,
    ensures
        lo <= n / d < hi,
        lo <= nearest_even(n, d) <= hi,
{
    let (ni, di) = (n as int, d as int);
    lemma_fundamental_div_mod(ni, di);
    lemma_mod_bound(ni, di);
    let q = ni / di;
    assert(lo <= q < hi) by (nonlinear_arith)
        requires
            lo * di <= ni < hi * di,
            ni == di * q + ni % di,
            0 <= ni % di < di,
            di > 0,
    ;
}

/// The exponent of the grid step at `sig * 2^exp`, for a significand of
/// `len` bits.
pub proof fn lemma_step_dyadic(frac: nat, sig: nat, exp: int, len: nat)
    requires
        len >= 1,
        pow2((len - 1) as nat) <= sig < pow2(len),
    ensures
        ({
            let top = len - 1 + exp;
            let j = if top > frac {
                top - frac
            } else {
                0
            };
            step_exp(frac, whole_part(sig, exp)) == j
        }),
{
    let top = len - 1 + exp;
    let j: nat = if top > frac {
        (top - frac) as nat
    } else {
        0
    };
    let lo = pow2((len - 1) as nat);
    let hi = pow2(len);
    if exp >= 0 {
        let c = pow2(exp as nat);
        let n = sig * c;
        lemma_pow2_pos(exp as nat);
        lemma_pow2_adds((len - 1) as nat, exp as nat);
        lemma_pow2_adds(len, exp as nat);
        lemma_mul_inequality(lo as int, sig as int, c as int);
        lemma_mul_strict_inequality(sig as int, hi as int, c as int);
        if top > frac {
            lemma_step_exp(frac, n, j);
        } else {
            if top < frac {
                lemma_pow2_strictly_increases((top + 1) as nat, frac + 1);
            }
            lemma_step_exp(frac, n, 0);
        }
    } else {
        let d = pow2((-exp) as nat);
        lemma_pow2_pos((-exp) as nat);
        if top > frac {
            lemma_pow2_adds(top as nat, (-exp) as nat);
            lemma_pow2_adds((top + 1) as nat, (-exp) as nat);
            lemma_nearest_even_bounds(sig, d, pow2(top as nat), pow2((top + 1) as nat));
            lemma_step_exp(frac, sig / d, j);
        } else {
            lemma_pow2_adds(frac + 1, (-exp) as nat);
            if len < frac + 1 - exp {
                lemma_pow2_strictly_increases(len, (frac + 1 - exp) as nat);
            }
            assert(0 * d == 0) by (nonlinear_arith);
            lemma_nearest_even_bounds(sig, d, 0, pow2(frac + 1));
            lemma_step_exp(frac, sig / d, 0);
        }
    }
}

/// Rounding a fraction that does not divide out, over an even multiple of
/// its denominator: the remainder can only tip the rounding upwards from
/// the half, never make a tie.
pub proof fn lemma_sticky_quotient(n: nat, d: nat, k: nat)
    requires
        d > 0,
        n % d != 0,
        k >= 2,
        k % 2 == 0,
    ensures
        nearest_even(n, d * k) == (n / d) / k + if 2 * ((n / d) % k) >= k {
            1nat
        } else {
            0nat
        },
{
    let (ni, di, ki) = (n as int, d as int, k as int);
    lemma_div_denominator(ni, di, ki);
    lemma_breakdown(ni, di, ki);
    let t = (ni / di) % ki;
    let r = ni % di;
    lemma_mod_bound(ni, di);
    lemma_mod_bound(ni / di, ki);
    let h = ki / 2;
    assert(ki == 2 * h);
    if t >= h {
        assert(2 * (di * t + r) > di * ki) by (nonlinear_arith)
            requires
                t >= h,
                ki == 2 * h,
                r > 0,
                di > 0,
        ;
    } else {
        assert(2 * (di * t + r) < di * ki) by (nonlinear_arith)
            requires
                t <= h - 1,
                ki == 2 * h,
                r < di,
                di > 0,
        ;
    }
}

/// A fraction that does not divide out rounds as its whole part with half a
/// unit added, once the whole part has two bits more than the format keeps.
pub proof fn lemma_rounded_sticky(frac: nat, n: nat, d: nat, x: int)
    requires
        d > 0,
        n % d != 0,
        n / d >= pow2(frac + 2),
    ensures
        rounded_scaled(frac, n, d, x) == rounded_dyadic(frac, 2 * (n / d) + 1, x - 1),
{
    let q = n / d;
    let r = n % d;
    let (ni, di, qi) = (n as int, d as int, q as int);
    lemma_pow2_pos(frac + 2);
    lemma_fundamental_div_mod(ni, di);
    lemma_mod_bound(ni, di);
    let len = lemma_bit_length(q);
    if len < frac + 3 {
        if len < frac + 2 {
            lemma_pow2_strictly_increases(len, frac + 2);
        }
        assert(false);
    }
    let top = len - 1 + x;
    let j: nat = if top > frac {
        (top - frac) as nat
    } else {
        0
    };
    // the half-unit form
    let sig = 2 * q + 1;
    lemma_pow2_unfold(len);
    lemma_pow2_unfold(len + 1);
    lemma_rounded_dyadic(frac, sig, x - 1, len + 1);
    let shift = j - (x - 1);
    assert(shift >= 2);
    let k = pow2((shift - 1) as nat);
    lemma_pow2_unfold(shift as nat);
    lemma_pow2_unfold((shift - 1) as nat);
    lemma_pow2_pos((shift - 2) as nat);
    assert(pow2(shift as nat) == 2 * k);
    assert(sig / 2 == q && sig % 2 == 1);
    lemma_sticky_quotient(sig, 2, k);
    lemma_sticky_quotient(n, d, k);
    // the fraction itself
    lemma_pow2_pos(j);
    if x >= 0 {
        let c = pow2(x as nat);
        lemma_pow2_pos(x as nat);
        let v = (n * c) / d;
        // the whole part lies between q * c and (q + 1) * c
        lemma_pow2_adds((len - 1) as nat, x as nat);
        lemma_pow2_adds(len, x as nat);
        let ci = c as int;
        assert(ni * ci == di * (qi * ci) + r * ci) by (nonlinear_arith)
            requires
                ni == di * qi + r,
        ;
        assert(0 <= r * ci < di * ci) by (nonlinear_arith)
            requires
                0 <= r < di,
                ci > 0,
        ;
        assert(di * ((qi + 1) * ci) == di * (qi * ci) + di * ci) by (nonlinear_arith);
        assert(pow2((len - 1) as nat) * ci <= qi * ci && (qi + 1) * ci <= pow2(len) * ci)
            by (nonlinear_arith)
            requires
                ci > 0,
                pow2((len - 1) as nat) <= qi,
                qi + 1 <= pow2(len),
        ;
        lemma_mul_is_commutative(di, (q * c) as int);
        lemma_mul_is_commutative(di, ((q + 1) * c) as int);
        lemma_nearest_even_bounds(n * c, d, q * c, (q + 1) * c);
        lemma_step_exp(frac, v, j);
        lemma_pow2_adds((shift - 1) as nat, x as nat);
        assert(d * pow2(j) == (d * k) * c) by {
            lemma_mul_is_associative(di, k as int, c as int);
        }
        assert(d * k > 0) by (nonlinear_arith)
            requires
                d > 0,
                k > 0,
        ;
        lemma_nearest_even_scale(n, d * k, c);
    } else {
        let c = pow2((-x) as nat);
        lemma_pow2_pos((-x) as nat);
        lemma_div_denominator(ni, di, c as int);
        lemma_step_dyadic(frac, q, x, len);
        lemma_pow2_adds((-x) as nat, j);
        assert((d * c) * pow2(j) == d * k) by {
            lemma_mul_is_associative(di, c as int, pow2(j) as int);
        }
    }
}

/// A large term with a small one added or taken away rounds as the large
/// one with half a unit added or taken away: `s` counts units of `2^e`, the
/// small term `t` is less than one such unit, and the sum is a numerator
/// over `2^y`.
pub proof fn lemma_rounded_far(frac: nat, s: nat, e: nat, t: nat, plus: bool, y: nat)
    requires
        s >= pow2(frac + 3),
        0 < t < pow2(e),
    ensures
        s * pow2(e) > t,
        rounded(
            frac,
            if plus {
                s * pow2(e) + t
            } else {
                (s * pow2(e) - t) as nat
            },
            pow2(y),
        ) == rounded_dyadic(
            frac,
            if plus {
                2 * s + 1
            } else {
                (2 * s - 1) as nat
            },
            e - 1 - y,
        ),
{
    let d = pow2(e);
    lemma_pow2_pos(e);
    lemma_pow2_pos(frac + 2);
    lemma_pow2_unfold(frac + 3);
    assert(s * d >= d) by (nonlinear_arith)
        requires
            s >= 1,
            d > 0,
    ;
    let n: nat = if plus {
        s * d + t
    } else {
        (s * d - t) as nat
    };
    let q: nat = if plus {
        s
    } else {
        (s - 1) as nat
    };
    let r: nat = if plus {
        t
    } else {
        (d - t) as nat
    };
    assert(n == q * d + r) by (nonlinear_arith)
        requires
            plus ==> n == s * d + t && q == s && r == t,
            !plus ==> n == s * d - t && q == s - 1 && r == d - t,
    ;
    lemma_fundamental_div_mod_converse(n as int, d as int, q as int, r as int);
    lemma_rounded_sticky(frac, n, d, e - y);
    assert(d == 1 * pow2(e));
    lemma_rounded_scaled_shift(frac, n, 1, e, e - y);
    if y > 0 {
        assert(1 * pow2(y) == pow2(y));
    } else {
        lemma2_to64();
        assert(n * 1 == n) by (nonlinear_arith);
    }
}

/// What rounding does to `sig * 2^exp`, for a significand of `len` bits.
///
/// With `j` the exponent of the grid step at that value, the result is the
/// significand counted in steps, rounded, times the step: an exact shift to
/// the left where the value lies on the grid already (`shift <= 0`), else a
/// rounding away of its low `shift` bits. The count is at most
/// `2^(frac + 1)`, and at least `2^frac` from the second binade on.
pub proof fn lemma_rounded_dyadic(frac: nat, sig: nat, exp: int, len: nat)
    requires
        len >= 1,
        pow2((len - 1) as nat) <= sig < pow2(len),
    ensures
        ({
            let top = len - 1 + exp;
            let j = if top > frac {
                top - frac
            } else {
                0
            };
            let shift = j - exp;
            let q = if shift <= 0 {
                sig * pow2((-shift) as nat)
            } else {
                nearest_even(sig, pow2(shift as nat))
            };
            &&& rounded_dyadic(frac, sig, exp) == q * pow2(j as nat)
            &&& q <= pow2(frac + 1)
            &&& j >= 1 ==> pow2(frac) <= q
        }),
{
    let top = len - 1 + exp;
    let j: nat = if top > frac {
        (top - frac) as nat
    } else {
        0
    };
    let shift = j - exp;
    let lo = pow2((len - 1) as nat);
    let hi = pow2(len);
    lemma_pow2_pos(j);
    lemma_pow2_pos(frac);
    lemma_pow2_unfold(frac + 1);
    if exp >= 0 {
        let c = pow2(exp as nat);
        let n = sig * c;
        lemma_pow2_pos(exp as nat);
        lemma_pow2_adds((len - 1) as nat, exp as nat);
        lemma_pow2_adds(len, exp as nat);
        lemma_mul_inequality(lo as int, sig as int, c as int);
        lemma_mul_strict_inequality(sig as int, hi as int, c as int);
        assert(pow2(top as nat) <= n < pow2((top + 1) as nat));
        if top > frac {
            lemma_step_exp(frac, n, j);
        } else {
            if top < frac {
                lemma_pow2_strictly_increases((top + 1) as nat, frac + 1);
            }
            lemma_step_exp(frac, n, 0);
        }
        assert(n / 1 == n);
        assert(step_exp(frac, n / 1) == j);
        assert(1 * pow2(j) == pow2(j));
        if shift <= 0 {
            let q = sig * pow2((-shift) as nat);
            lemma_pow2_adds((-shift) as nat, j);
            assert(n == q * pow2(j)) by {
                lemma_mul_is_associative(sig as int, pow2((-shift) as nat) as int, pow2(j) as int);
            }
            lemma_nearest_even_exact(q, pow2(j));
            // the count of steps
            lemma_pow2_adds((len - 1) as nat, (-shift) as nat);
            lemma_pow2_adds(len, (-shift) as nat);
            lemma_pow2_pos((-shift) as nat);
            lemma_mul_inequality(lo as int, sig as int, pow2((-shift) as nat) as int);
            lemma_mul_strict_inequality(sig as int, hi as int, pow2((-shift) as nat) as int);
            if top > frac {
                assert(len - 1 - shift == frac);
            } else {
                assert(len - shift <= frac + 1);
                if len - shift < frac + 1 {
                    lemma_pow2_strictly_increases((len - shift) as nat, frac + 1);
                }
            }
        } else {
            lemma_pow2_adds(shift as nat, exp as nat);
            lemma_pow2_pos(shift as nat);
            lemma_nearest_even_scale(sig, pow2(shift as nat), c);
            lemma_count_bounds(frac, sig, len, shift as nat, j);
        }
    } else {
        let d = pow2((-exp) as nat);
        lemma_pow2_pos((-exp) as nat);
        lemma_pow2_adds((-exp) as nat, j);
        lemma_pow2_pos(shift as nat);
        assert(d * pow2(j) == pow2(shift as nat));
        if top > frac {
            lemma_pow2_adds(top as nat, (-exp) as nat);
            lemma_pow2_adds((top + 1) as nat, (-exp) as nat);
            lemma_nearest_even_bounds(sig, d, pow2(top as nat), pow2((top + 1) as nat));
            lemma_step_exp(frac, sig / d, j);
        } else {
            lemma_pow2_adds(frac + 1, (-exp) as nat);
            if len < frac + 1 - exp {
                lemma_pow2_strictly_increases(len, (frac + 1 - exp) as nat);
            }
            assert(0 * d == 0) by (nonlinear_arith);
            lemma_nearest_even_bounds(sig, d, 0, pow2(frac + 1));
            lemma_step_exp(frac, sig / d, 0);
        }
        lemma_count_bounds(frac, sig, len, shift as nat, j);
    }
}

/// Bounds on the count of steps after the low `shift` bits of a significand
/// of `len` bits are rounded away.
proof fn lemma_count_bounds(frac: nat, sig: nat, len: nat, shift: nat, j: nat)
    requires
        len >= 1,
        pow2((len - 1) as nat) <= sig < pow2(len),
        shift >= 1,
        j >= 1 ==> len - 1 - shift == frac,
        j == 0 ==> len <= frac + 1 + shift,
    ensures
        nearest_even(sig, pow2(shift)) <= pow2(frac + 1),
        j >= 1 ==> pow2(frac) <= nearest_even(sig, pow2(shift)),
{
    lemma_pow2_pos(shift);
    if j >= 1 {
        lemma_pow2_adds(frac, shift);
        lemma_pow2_adds(frac + 1, shift);
        lemma_nearest_even_bounds(sig, pow2(shift), pow2(frac), pow2(frac + 1));
    } else {
        lemma_pow2_adds(frac + 1, shift);
        if len < frac + 1 + shift {
            lemma_pow2_strictly_increases(len, frac + 1 + shift);
        }
        assert(0 * pow2(shift) == 0) by (nonlinear_arith);
        lemma_nearest_even_bounds(sig, pow2(shift), 0, pow2(frac + 1));
    }
}

/// Every positive number has a bit length.
pub proof fn lemma_bit_length(v: nat) -> (len: nat)
    requires
        v > 0,
    ensures
        len >= 1,
        pow2((len - 1) as nat) <= v < pow2(len),
    decreases v,
{
    lemma2_to64();
    if v == 1 {
        1
    } else {
        let len = lemma_bit_length(v / 2);
        lemma_pow2_unfold(len);
        lemma_pow2_unfold(len + 1);
        len + 1
    }
}

/// A significand that fits the format is on the grid at every scale:
/// rounding keeps it.
pub proof fn lemma_rounded_exact(frac: nat, sig: nat, x: nat)
    requires
        sig < pow2(frac + 1),
    ensures
        rounded_dyadic(frac, sig, x as int) == sig * pow2(x),
        rounded(frac, sig * pow2(x), 1) == sig * pow2(x),
{
    if sig == 0 {
        lemma_rounded_zero(frac, x as int);
        assert(0 * pow2(x) == 0) by (nonlinear_arith);
    } else {
        let len = lemma_bit_length(sig);
        if len > frac + 1 {
            if len - 1 > frac + 1 {
                lemma_pow2_strictly_increases(frac + 1, (len - 1) as nat);
            }
            assert(false);
        }
        lemma_rounded_dyadic(frac, sig, x as int, len);
        let top = len - 1 + x;
        let j: nat = if top > frac {
            (top - frac) as nat
        } else {
            0
        };
        let up = (x - j) as nat;
        lemma_pow2_adds(up, j);
        lemma_mul_is_associative(sig as int, pow2(up) as int, pow2(j) as int);
    }
}

/// A term below a quarter of a step leaves a grid point where it is:
/// added to, or taken from, `sig` steps of `2^x`, it is rounded away.
pub proof fn lemma_rounded_absorbs(frac: nat, sig: nat, x: nat, l: nat)
    requires
        pow2(frac) <= sig < pow2(frac + 1),
        x >= 2,
        4 * l < pow2(x),
    ensures
        rounded(frac, sig * pow2(x) + l, 1) == sig * pow2(x),
        l <= sig * pow2(x),
        rounded(frac, (sig * pow2(x) - l) as nat, 1) == sig * pow2(x),
{
    let q = pow2(x) as int;
    let h = sig * pow2(x);
    let p = pow2(frac) as int;
    lemma_pow2_pos(x);
    lemma_pow2_pos(frac);
    lemma_pow2_unfold(frac + 1);
    lemma_pow2_adds(frac, x);
    lemma_pow2_adds(frac + 1, x);
    assert(p * q <= h && h + q <= 2 * p * q && q <= h) by (nonlinear_arith)
        requires
            1 <= p <= sig < 2 * p,
            h == sig * q,
            q > 0,
    ;
    assert(1 * pow2(x) == pow2(x));
    // adding
    let up = (h + l) as nat;
    assert(up / 1 == up);
    lemma_step_exp(frac, up, x);
    lemma_fundamental_div_mod_converse(up as int, q, sig as int, l as int);
    // taking away
    let dn = (h - l) as nat;
    assert(dn / 1 == dn);
    if l == 0 {
    } else if sig > p {
        assert(dn == q * (sig - 1) + (q - l) && p * q <= dn) by (nonlinear_arith)
            requires
                dn == h - l,
                h == sig * q,
                sig > p,
                l < q,
        ;
        lemma_step_exp(frac, dn, x);
        lemma_fundamental_div_mod_converse(dn as int, q, sig - 1, q - l);
    } else {
        let q1 = pow2((x - 1) as nat) as int;
        lemma_pow2_unfold(x);
        lemma_pow2_pos((x - 1) as nat);
        lemma_pow2_adds(frac, (x - 1) as nat);
        assert(1 * pow2((x - 1) as nat) == pow2((x - 1) as nat));
        assert(dn == q1 * (2 * p - 1) + (q1 - l) && p * q1 <= dn && h == (2 * p) * q1)
            by (nonlinear_arith)
            requires
                dn == h - l,
                h == p * q,
                q == 2 * q1,
                2 * l < q1,
                p >= 1,
        ;
        lemma_step_exp(frac, dn, (x - 1) as nat);
        lemma_fundamental_div_mod_converse(dn as int, q1, 2 * p - 1, q1 - l);
    }
}

/// Every rounded magnitude lies on the grid: it is a count of steps that
/// fits the format, and the pattern of that count denotes it.
pub proof fn lemma_rounded_form(frac: nat, n: nat, d: nat)
    requires
        d > 0,
    ensures
        ({
            let j = step_exp(frac, n / d);
            let q = nearest_even(n, d * pow2(j));
            &&& q <= pow2(frac + 1)
            &&& j >= 1 ==> pow2(frac) <= q
            &&& rounded(frac, n, d) == q * pow2(j)
            &&& magnitude_of(frac, j * pow2(frac) + q) == rounded(frac, n, d)
        }),
{
    let v = n / d;
    let j = step_exp(frac, v);
    let p = pow2(frac) as int;
    let s = pow2(j) as int;
    let (ni, di) = (n as int, d as int);
    lemma_step_exp_bounds(frac, v);
    lemma_pow2_pos(j);
    lemma_pow2_pos(frac);
    lemma_pow2_unfold(frac + 1);
    lemma_pow2_adds(frac, j);
    lemma_pow2_adds(frac + 1, j);
    lemma_fundamental_div_mod(ni, di);
    lemma_mod_bound(ni, di);
    let vi = v as int;
    assert(di * s > 0) by (nonlinear_arith)
        requires
            di > 0,
            s > 0,
    ;
    assert(ni < (2 * p) * (di * s)) by (nonlinear_arith)
        requires
            ni == di * vi + ni % di,
            ni % di < di,
            vi < (2 * p) * s,
            di > 0,
    ;
    if j >= 1 {
        assert(p * (di * s) <= ni) by (nonlinear_arith)
            requires
                ni == di * vi + ni % di,
                0 <= ni % di,
                p * s <= vi,
                di > 0,
        ;
        lemma_nearest_even_bounds(n, d * pow2(j), pow2(frac), pow2(frac + 1));
    } else {
        assert(0 * (di * s) == 0) by (nonlinear_arith);
        lemma_nearest_even_bounds(n, d * pow2(j), 0, pow2(frac + 1));
    }
    lemma_pattern_of(frac, j, nearest_even(n, d * pow2(j)));
}

/// The number of bits of `x`: the least `len` with `x < 2^len`.
pub(crate) fn bit_length(x: u64) -> (len: u32)
    ensures
        len <= 64,
        x < pow2(len as nat),
        len >= 1 ==> pow2((len - 1) as nat) <= x,
{
    proof {
        lemma_leading_zeros(x);
    }
    64 - x.leading_zeros()
}

/// The leading zeros of `x` bracket it between two powers of two.
proof fn lemma_leading_zeros(x: u64)
    ensures
        0 <= vstd::std_specs::bits::u64_leading_zeros(x) <= 64,
        x < pow2((64 - vstd::std_specs::bits::u64_leading_zeros(x)) as nat),
        x > 0 ==> pow2((63 - vstd::std_specs::bits::u64_leading_zeros(x)) as nat) <= x,
    decreases x,
{
    reveal(vstd::std_specs::bits::u64_leading_zeros);
    if x == 0 {
        lemma_pow2_pos(0);
    } else {
        lemma_leading_zeros(x / 2);
        let z = vstd::std_specs::bits::u64_leading_zeros(x / 2);
        if x / 2 == 0 {
            assert(z == 64);
            lemma2_to64();
        } else {
            lemma_pow2_unfold((64 - z + 1) as nat);
            lemma_pow2_unfold((63 - z + 1) as nat);
        }
    }
}

/// The pattern of a count of steps: `q` steps of `2^j` are denoted by the
/// pattern `j * 2^frac + q`, the carry into the next binade included.
pub proof fn lemma_pattern_of(frac: nat, j: nat, q: nat)
    requires
        q <= pow2(frac + 1),
        j >= 1 ==> pow2(frac) <= q,
    ensures
        magnitude_of(frac, j * pow2(frac) + q) == q * pow2(j),
{
    let p = pow2(frac) as int;
    lemma_pow2_pos(frac);
    lemma_pow2_unfold(frac + 1);
    let a = j * pow2(frac) + q;
    if j == 0 && q < p {
        assert(0 * p == 0) by (nonlinear_arith);
        lemma_small_mod(q, p as nat);
        lemma_basic_div(q as int, p);
        assert(pow2(0) == 1) by {
            lemma2_to64();
        }
    } else {
        assert((j + 1) * p == j * p + p && (j + 2) * p == j * p + 2 * p) by (nonlinear_arith);
        lemma_binade(frac, j + 1, a);
        assert((j + 1 - 1) * p == j * p);
    }
}

} // verus!
