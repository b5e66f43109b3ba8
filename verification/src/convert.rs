//! Conversion between the two widths.
//!
//! Widening is exact: every binary32 number is a binary64 number. Narrowing
//! rounds to the nearest binary32 number, ties to even, and gives an
//! infinity where the magnitude is out of range. A NaN stays a NaN of the
//! same sign: its leading fraction bits are kept and its quiet bit is set.
//!
//! The unit of binary64 magnitudes is `2^925` times smaller than that of
//! binary32 magnitudes: a number's magnitude in binary64 is `2^925` times its
//! magnitude in binary32.
use vstd::prelude::*;
use vstd::arithmetic::power2::*;
use crate::double;
use crate::rounding::{
    lemma_rounded_dyadic_scaled, lemma_rounded_exact, lemma_rounded_of_powers, lemma_rounded_scale,
    rounded,
};
use crate::scalar::Fast;
use crate::single;

verus! {

/// The NaN that a binary32 NaN widens to.
pub open spec fn widened_nan(a: u32) -> u64 {
    ((if single::sign(a) {
        0x8000_0000_0000_0000
    } else {
        0int
    }) + 0x7ff8_0000_0000_0000 + (single::fraction(a) % 0x40_0000) * 0x2000_0000) as u64
}

/// The NaN that a binary64 NaN narrows to.
pub open spec fn narrowed_nan(a: u64) -> u32 {
    ((if double::sign(a) {
        0x8000_0000
    } else {
        0int
    }) + 0x7fc0_0000 + (double::fraction(a) / 0x2000_0000) % 0x40_0000) as u32
}

/// Whether `r` is the binary32 pattern `a` as a binary64 pattern.
pub open spec fn is_widened(a: u32, r: u64) -> bool {
    if single::is_nan(a) {
        r == widened_nan(a)
    } else {
        &&& double::sign(r) == single::sign(a)
        &&& if single::is_infinite(a) {
            double::is_infinite(r)
        } else {
            double::is_finite(r) && double::magnitude(r) == single::magnitude(a) * pow2(925)
        }
    }
}

/// Whether `r` is the binary64 pattern `a` rounded to a binary32 pattern.
pub open spec fn is_narrowed(a: u64, r: u32) -> bool {
    if double::is_nan(a) {
        r == narrowed_nan(a)
    } else {
        &&& single::sign(r) == double::sign(a)
        &&& single::rounds_to(
            r,
            if double::is_infinite(a) {
                single::overflow()
            } else {
                rounded(23, double::magnitude(a), pow2(925))
            },
        )
    }
}

/// The one pattern that `is_widened` admits.
pub open spec fn widened_of(a: u32) -> u64 {
    choose|r: u64| is_widened(a, r)
}

/// The one pattern that `is_narrowed` admits.
pub open spec fn narrowed_of(a: u64) -> u32 {
    choose|r: u32| is_narrowed(a, r)
}

/// `is_widened` admits one pattern only.
pub proof fn lemma_widened_unique(a: u32, r: u64)
    requires
        is_widened(a, r),
    ensures
        r == widened_of(a),
{
    let c = widened_of(a);
    assert(is_widened(a, c));
    if !single::is_nan(a) {
        if single::is_infinite(a) {
            double::lemma_same_fields(r, c);
        } else {
            double::lemma_same_number(r, c);
        }
    }
}

/// `is_narrowed` admits one pattern only.
pub proof fn lemma_narrowed_unique(a: u64, r: u32)
    requires
        is_narrowed(a, r),
    ensures
        r == narrowed_of(a),
{
    let c = narrowed_of(a);
    assert(is_narrowed(a, c));
    if !double::is_nan(a) {
        single::arith::lemma_same_rounding(r, c);
    }
}

/// A binary32 magnitude, counted in binary64 units, is a binary64
/// magnitude in range.
proof fn lemma_widened_magnitude(a: u32)
    requires
        single::is_finite(a),
    ensures
        rounded(52, single::magnitude(a) * pow2(925), 1) == single::magnitude(a) * pow2(925),
        single::magnitude(a) * pow2(925) < double::overflow(),
{
    let e = single::exponent(a) as nat;
    let f = single::fraction(a) as nat;
    let sig = crate::model::significand(23, e, f);
    let x = crate::model::scale(e);
    single::lemma_fields(a);
    crate::model::lemma_significand(23, e, f);
    lemma2_to64();
    lemma2_to64_rest();
    lemma_rounded_exact(52, sig, x + 925);
    lemma_pow2_adds(x, 925);
    lemma_pow2_adds(24, x + 925);
    lemma_pow2_strictly_increases(x + 949, 2098);
    lemma_pow2_pos(x + 925);
    assert(sig * pow2(x + 925) < pow2(24) * pow2(x + 925)) by (nonlinear_arith)
        requires
            sig < pow2(24),
            pow2(x + 925) > 0,
    ;
    assert(single::magnitude(a) * pow2(925) == sig * pow2(x + 925)) by (nonlinear_arith)
        requires
            single::magnitude(a) == sig * pow2(x),
            pow2(x + 925) == pow2(x) * pow2(925),
    ;
}

/// Every pattern has a widening, and every pattern a narrowing.
pub proof fn lemma_conversions_exist(a: u32, b: u64)
    ensures
        is_widened(a, widened_of(a)),
        is_narrowed(b, narrowed_of(b)),
{
    single::lemma_fields(a);
    double::lemma_fields(b);
    if single::is_nan(a) {
        assert(is_widened(a, widened_nan(a)));
    } else if single::is_infinite(a) {
        let r: u64 = if single::sign(a) {
            0xfff0_0000_0000_0000
        } else {
            0x7ff0_0000_0000_0000
        };
        double::lemma_fields(r);
        assert(is_widened(a, r));
    } else {
        lemma_widened_magnitude(a);
        let r = double::lemma_rounding_exists(
            single::magnitude(a) * pow2(925),
            1,
            single::sign(a),
        );
        assert(is_widened(a, r));
    }
    if double::is_nan(b) {
        assert(is_narrowed(b, narrowed_nan(b)));
    } else if double::is_infinite(b) {
        let r: u32 = if double::sign(b) {
            0xff80_0000
        } else {
            0x7f80_0000
        };
        single::lemma_fields(r);
        lemma_pow2_pos(277);
        assert(is_narrowed(b, r));
    } else {
        lemma_pow2_pos(925);
        let r = single::lemma_rounding_exists(double::magnitude(b), pow2(925), double::sign(b));
        assert(is_narrowed(b, r));
    }
}

/// Widening a number and narrowing it again gives the number back, in the
/// same pattern.
pub proof fn lemma_widen_narrow(a: u32)
    requires
        !single::is_nan(a),
    ensures
        narrowed_of(widened_of(a)) == a,
{
    let w = widened_of(a);
    let r = narrowed_of(w);
    lemma_conversions_exist(a, w);
    single::lemma_fields(a);
    single::lemma_fields(r);
    double::lemma_fields(w);
    if single::is_infinite(a) {
        single::lemma_same_fields(r, a);
    } else {
        single::lemma_on_grid(a);
        lemma_pow2_pos(925);
        assert(1 * pow2(925) == pow2(925));
        lemma_rounded_scale(23, single::magnitude(a), 1, pow2(925));
        single::lemma_same_number(r, a);
    }
}

/// Narrowing a finite number and widening it again gives the nearest
/// binary32 number, which need not be the number itself.
pub proof fn lemma_narrow_widen(b: u64)
    requires
        double::is_finite(b),
        rounded(23, double::magnitude(b), pow2(925)) < single::overflow(),
    ensures
        double::is_finite(widened_of(narrowed_of(b))),
        double::sign(widened_of(narrowed_of(b))) == double::sign(b),
        double::magnitude(widened_of(narrowed_of(b))) == rounded(
            23,
            double::magnitude(b),
            pow2(925),
        ) * pow2(925),
{
    let n = narrowed_of(b);
    lemma_conversions_exist(n, b);
    double::lemma_fields(b);
    single::lemma_fields(n);
}

impl Fast<u32> {
    /// The same number in binary64.
    pub fn as_64(self) -> (r: Fast<u64>)
        ensures
            is_widened(self.0, r.0),
            r.0 == widened_of(self.0),
    {
        let a = self.0;
        let s = if a >= single::SIGN_MASK {
            double::SIGN_MASK
        } else {
            0
        };
        let ma = a & single::ABS_MASK;
        proof {
            single::lemma_fields(a);
            single::lemma_fields(ma);
            single::lemma_magnitude_of(a);
            double::lemma_fields(s);
            double::lemma_specials();
        }
        let r = if ma > single::INF_BITS {
            let m = double::NAN_BITS + ((a & single::FRAC_MASK) % 0x40_0000) as u64 * 0x2000_0000;
            proof {
                double::lemma_with_sign(s, m);
                double::lemma_fields(s | m);
            }
            s | m
        } else if ma == single::INF_BITS {
            proof {
                double::lemma_with_sign(s, double::INF_BITS);
                double::lemma_fields(s | double::INF_BITS);
            }
            s | double::INF_BITS
        } else {
            let (sig, x) = single::arith::unpack(ma);
            let m = double::arith::round_pack(sig as u128, x as i32 + 925);
            proof {
                lemma2_to64();
                lemma2_to64_rest();
                lemma_rounded_exact(52, sig as nat, (x + 925) as nat);
                // a binary32 number is in range
                lemma_pow2_adds(x as nat, 925);
                lemma_pow2_adds(24, (x + 925) as nat);
                lemma_pow2_strictly_increases((x + 949) as nat, 2098);
                lemma_pow2_pos((x + 925) as nat);
                assert(sig * pow2((x + 925) as nat) < pow2(24) * pow2((x + 925) as nat))
                    by (nonlinear_arith)
                    requires
                        sig < pow2(24),
                        pow2((x + 925) as nat) > 0,
                ;
                assert(single::magnitude(a) * pow2(925) == sig * pow2((x + 925) as nat))
                    by (nonlinear_arith)
                    requires
                        single::magnitude(a) == sig * pow2(x as nat),
                        pow2((x + 925) as nat) == pow2(x as nat) * pow2(925),
                ;
                double::lemma_with_sign(s, m);
                double::lemma_fields(s | m);
                double::lemma_fields(m);
                double::lemma_magnitude_of(s | m);
                double::lemma_magnitude_of(m);
            }
            s | m
        };
        proof {
            lemma_widened_unique(a, r);
        }
        Fast(r)
    }
}

impl Fast<u64> {
    /// An approximation of the natural logarithm of `self`: that of binary32,
    /// taken of `self` narrowed, and widened. It is no more precise than the
    /// binary32 approximation.
    pub fn fastln(self) -> (r: Self)
        ensures
            r.0 == widened_of(single::approx::fastln_of(narrowed_of(self.0))),
    {
        self.as_32().fastln().as_64()
    }

    /// The nearest number in binary32, ties to even.
    pub fn as_32(self) -> (r: Fast<u32>)
        ensures
            is_narrowed(self.0, r.0),
            r.0 == narrowed_of(self.0),
    {
        let a = self.0;
        let s = if a >= double::SIGN_MASK {
            single::SIGN_MASK
        } else {
            0
        };
        let ma = a & double::ABS_MASK;
        proof {
            double::lemma_fields(a);
            double::lemma_fields(ma);
            double::lemma_magnitude_of(a);
            single::lemma_fields(s);
            single::lemma_specials();
        }
        let r = if ma > double::INF_BITS {
            let m = single::NAN_BITS + (((a & double::FRAC_MASK) / 0x2000_0000) % 0x40_0000) as u32;
            proof {
                single::lemma_with_sign(s, m);
                single::lemma_fields(s | m);
            }
            s | m
        } else if ma == double::INF_BITS {
            proof {
                single::lemma_with_sign(s, single::INF_BITS);
                single::lemma_fields(s | single::INF_BITS);
                lemma_pow2_pos(277);
            }
            s | single::INF_BITS
        } else {
            let (sig, x) = double::arith::unpack(ma);
            let m = single::arith::round_pack(sig as u128, x as i32 - 925);
            proof {
                lemma2_to64();
                lemma2_to64_rest();
                lemma_rounded_of_powers(23, sig as nat, 1, x as nat, 925);
                assert(1 * pow2(925) == pow2(925));
                lemma_rounded_dyadic_scaled(23, sig as nat, x - 925);
                single::lemma_with_sign(s, m);
                single::lemma_fields(s | m);
                single::lemma_fields(m);
                single::lemma_magnitude_of(s | m);
                single::lemma_magnitude_of(m);
            }
            s | m
        };
        proof {
            lemma_narrowed_unique(a, r);
        }
        Fast(r)
    }
}

} // verus!
