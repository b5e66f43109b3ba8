//! Rounding a binary32 scalar to a whole number.
use vstd::prelude::*;
use vstd::arithmetic::power2::*;
use vstd::bits::*;
use crate::model;
use crate::scalar::Fast;
use crate::single::{
    is_finite, lemma_fields, lemma_magnitude_of, lemma_magnitude_order, lemma_with_sign, magnitude,
    one, sign, ONE_BITS, SIGN_MASK,
};

verus! {

/// The pattern of 0.5.
pub const HALF_BITS: u32 = 0x3f00_0000;

/// The pattern of 2^23. From here on every number is whole.
pub const WHOLE_BITS: u32 = 0x4b00_0000;

/// The magnitudes of one half and of one.
pub proof fn lemma_landmarks()
    ensures
        2 * magnitude(HALF_BITS) == one(),
        magnitude(ONE_BITS) == one(),
        one() > 0,
{
    lemma_fields(HALF_BITS);
    lemma_fields(ONE_BITS);
    lemma_pow2_adds(23, 125);
    lemma_pow2_adds(23, 126);
    lemma_pow2_unfold(149);
    lemma_pow2_pos(149);
}

/// Splits a magnitude pattern of a number in [1, 2^23) at its binary point.
///
/// Returns the pattern with its fractional bits cleared, the fractional bits,
/// and the step between the patterns of two neighbouring whole numbers.
fn split(a: u32) -> (r: (u32, u32, u32))
    requires
        ONE_BITS <= a < WHOLE_BITS,
    ensures
        ({
            let (down, low, step) = r;
            let m = magnitude(a);
            &&& ONE_BITS <= down <= a
            &&& down + step <= WHOLE_BITS
            &&& a == down + low
            &&& low < step
            &&& m % one() == 0 <==> low == 0
            &&& 2 * (m % one()) < one() <==> 2 * low < step
            &&& magnitude(down) == (m / one()) * one()
            &&& magnitude((down + step) as u32) == (m / one() + 1) * one()
        }),
{
    let e = a >> 23;
    proof {
        lemma_fields(a);
    }
    let k = 150 - e;
    let step = 1u32 << k;
    proof {
        lemma2_to64();
        lemma_u32_pow2_no_overflow(k as nat);
        lemma_u32_shl_is_mul(1, k);
        lemma_pow2_strictly_increases(0, k as nat);
    }
    let mask = step - 1;
    let low = a & mask;
    proof {
        lemma_u32_low_bits_mask_is_mod(a, k as nat);
        assert(low == a % step);
    }
    let down = a - low;
    proof {
        model::lemma_whole_in_binade(23, e as nat, a as nat, k as nat);
        vstd::arithmetic::div_mod::lemma_fundamental_div_mod(a as int, step as int);
        assert(down == (a as nat / pow2(k as nat)) * pow2(k as nat)) by {
            vstd::arithmetic::mul::lemma_mul_is_commutative(step as int, a as int / step as int);
        }
        assert((k + e - 1) as nat == 149);
        lemma_fields(down);
        lemma_fields((down + step) as u32);
        lemma_magnitude_of(a);
        lemma_magnitude_of(down);
        lemma_magnitude_of((down + step) as u32);
        let q = pow2((e - 1) as nat) as int;
        lemma_pow2_pos((e - 1) as nat);
        lemma_pow2_adds(k as nat, (e - 1) as nat);
        assert(one() == step * q);
        let m = magnitude(a) as int;
        assert(m % (one() as int) == low * q);
        assert((low * q == 0 <==> low == 0) && (2 * (low * q) < step * q <==> 2 * low < step))
            by (nonlinear_arith)
            requires
                q > 0,
                low >= 0,
        ;
    }
    (down, low, step)
}

/// The pattern of the largest whole magnitude not above that of `a`.
fn below(a: u32) -> (r: u32)
    requires
        a <= 0x7fff_ffff,
    ensures
        r <= 0x7fff_ffff,
        !is_finite(a) ==> r == a,
        is_finite(a) ==> is_finite(r) && magnitude(r) == model::whole_below(magnitude(a), one()),
{
    proof {
        lemma_facts(a);
    }
    if a < ONE_BITS {
        0
    } else if a >= WHOLE_BITS {
        a
    } else {
        let (down, _, _) = split(a);
        proof {
            lemma_fields(down);
            lemma_still_magnitude(down);
        }
        down
    }
}

/// The pattern of the smallest whole magnitude not below that of `a`.
fn above(a: u32) -> (r: u32)
    requires
        a <= 0x7fff_ffff,
    ensures
        r <= 0x7fff_ffff,
        !is_finite(a) ==> r == a,
        is_finite(a) ==> is_finite(r) && magnitude(r) == model::whole_above(magnitude(a), one()),
{
    proof {
        lemma_facts(a);
    }
    if a == 0 {
        0
    } else if a < ONE_BITS {
        ONE_BITS
    } else if a >= WHOLE_BITS {
        a
    } else {
        let (down, low, step) = split(a);
        let r = if low == 0 {
            a
        } else {
            down + step
        };
        proof {
            lemma_fields(r);
            lemma_still_magnitude(r);
        }
        r
    }
}

/// The pattern of the whole magnitude nearest to that of `a`; halfway
/// between two, of the larger.
fn nearest(a: u32) -> (r: u32)
    requires
        a <= 0x7fff_ffff,
    ensures
        r <= 0x7fff_ffff,
        !is_finite(a) ==> r == a,
        is_finite(a) ==> is_finite(r) && magnitude(r) == model::whole_nearest(
            magnitude(a),
            one(),
        ),
{
    proof {
        lemma_facts(a);
        lemma_magnitude_order(a, HALF_BITS);
        lemma_still_magnitude(HALF_BITS);
    }
    if a < HALF_BITS {
        0
    } else if a < ONE_BITS {
        ONE_BITS
    } else if a >= WHOLE_BITS {
        a
    } else {
        let (down, low, step) = split(a);
        let r = if low < step - low {
            down
        } else {
            down + step
        };
        proof {
            lemma_fields(r);
            lemma_still_magnitude(r);
        }
        r
    }
}

/// A pattern with a clear sign bit is its own magnitude pattern.
proof fn lemma_still_magnitude(a: u32)
    requires
        a <= 0x7fff_ffff,
    ensures
        a & 0x7fff_ffff == a,
{
    lemma_fields(a);
}

/// What the roundings need of a magnitude pattern outside [1, 2^23).
proof fn lemma_facts(a: u32)
    requires
        a <= 0x7fff_ffff,
    ensures
        is_finite(a) <==> a < 0x7f80_0000,
        is_finite(0) && magnitude(0) == 0,
        is_finite(ONE_BITS) && magnitude(ONE_BITS) == one(),
        2 * magnitude(HALF_BITS) == one(),
        a == 0 <==> magnitude(a) == 0,
        a < ONE_BITS ==> magnitude(a) < one() && magnitude(a) / one() == 0 && magnitude(a) % one()
            == magnitude(a) && (magnitude(a) / one()) * one() == 0 && (magnitude(a) / one() + 1)
            * one() == one(),
        a < ONE_BITS ==> (a < HALF_BITS <==> 2 * magnitude(a) < one()),
        WHOLE_BITS <= a < 0x7f80_0000 ==> magnitude(a) % one() == 0 && (magnitude(a) / one())
            * one() == magnitude(a),
{
    lemma_landmarks();
    lemma_still_magnitude(a);
    lemma_still_magnitude(0);
    lemma_still_magnitude(ONE_BITS);
    lemma_still_magnitude(HALF_BITS);
    lemma_fields(a);
    lemma_fields(0);
    lemma_fields(ONE_BITS);
    lemma_magnitude_order(a, 0);
    lemma_magnitude_order(a, ONE_BITS);
    lemma_magnitude_order(a, HALF_BITS);
    if a < ONE_BITS {
        model::lemma_whole_small(magnitude(a), one());
        assert(0 * one() == 0 && (0 + 1) * one() == one()) by (nonlinear_arith);
    }
    if WHOLE_BITS <= a < 0x7f80_0000 {
        let e = crate::single::exponent(a);
        let f = crate::single::fraction(a);
        model::lemma_whole_large(23, e as nat, f as nat, 149);
    }
}

impl Fast<u32> {
    /// The whole part: the nearest whole number that is not larger in
    /// magnitude. Infinities and NaNs are returned as they are.
    pub fn trunc(self) -> (r: Self)
        ensures
            sign(r.0) == sign(self.0),
            !is_finite(self.0) ==> r.0 == self.0,
            is_finite(self.0) ==> is_finite(r.0) && magnitude(r.0) == model::whole_below(
                magnitude(self.0),
                one(),
            ),
    {
        let a = self.0 & 0x7fff_ffff;
        proof {
            lemma_fields(self.0);
            lemma_fields(a);
            lemma_with_sign(self.0, a);
            lemma_magnitude_of(self.0);
        }
        let r = below(a);
        proof {
            lemma_with_sign(self.0, r);
            lemma_magnitude_of((self.0 & SIGN_MASK) | r);
        }
        Fast((self.0 & SIGN_MASK) | r)
    }

    /// The largest whole number that is not above `self`. Infinities and
    /// NaNs are returned as they are.
    pub fn floor(self) -> (r: Self)
        ensures
            sign(r.0) == sign(self.0),
            !is_finite(self.0) ==> r.0 == self.0,
            is_finite(self.0) ==> is_finite(r.0) && magnitude(r.0) == if sign(self.0) {
                model::whole_above(magnitude(self.0), one())
            } else {
                model::whole_below(magnitude(self.0), one())
            },
    {
        let a = self.0 & 0x7fff_ffff;
        proof {
            lemma_fields(self.0);
            lemma_fields(a);
            lemma_with_sign(self.0, a);
            lemma_magnitude_of(self.0);
        }
        let r = if self.0 >= SIGN_MASK {
            above(a)
        } else {
            below(a)
        };
        proof {
            lemma_with_sign(self.0, r);
            lemma_magnitude_of((self.0 & SIGN_MASK) | r);
        }
        Fast((self.0 & SIGN_MASK) | r)
    }

    /// The smallest whole number that is not below `self`. Infinities and
    /// NaNs are returned as they are.
    pub fn ceil(self) -> (r: Self)
        ensures
            sign(r.0) == sign(self.0),
            !is_finite(self.0) ==> r.0 == self.0,
            is_finite(self.0) ==> is_finite(r.0) && magnitude(r.0) == if sign(self.0) {
                model::whole_below(magnitude(self.0), one())
            } else {
                model::whole_above(magnitude(self.0), one())
            },
    {
        let a = self.0 & 0x7fff_ffff;
        proof {
            lemma_fields(self.0);
            lemma_fields(a);
            lemma_with_sign(self.0, a);
            lemma_magnitude_of(self.0);
        }
        let r = if self.0 >= SIGN_MASK {
            below(a)
        } else {
            above(a)
        };
        proof {
            lemma_with_sign(self.0, r);
            lemma_magnitude_of((self.0 & SIGN_MASK) | r);
        }
        Fast((self.0 & SIGN_MASK) | r)
    }

    /// The nearest whole number; halfway between two, the one away from
    /// zero. Infinities and NaNs are returned as they are.
    pub fn round(self) -> (r: Self)
        ensures
            sign(r.0) == sign(self.0),
            !is_finite(self.0) ==> r.0 == self.0,
            is_finite(self.0) ==> is_finite(r.0) && magnitude(r.0) == model::whole_nearest(
                magnitude(self.0),
                one(),
            ),
    {
        let a = self.0 & 0x7fff_ffff;
        proof {
            lemma_fields(self.0);
            lemma_fields(a);
            lemma_with_sign(self.0, a);
            lemma_magnitude_of(self.0);
        }
        let r = nearest(a);
        proof {
            lemma_with_sign(self.0, r);
            lemma_magnitude_of((self.0 & SIGN_MASK) | r);
        }
        Fast((self.0 & SIGN_MASK) | r)
    }
}

} // verus!
