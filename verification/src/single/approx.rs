//! Cheap approximations of the exponential and of the natural logarithm.
//!
//! Both are short chains of rounded operations, so each has one result for
//! every pattern. Neither reduces its argument or treats special values:
//! they are meant for finite arguments of moderate size, positive ones for
//! the logarithm, and are only as good as the comments below say.
use vstd::prelude::*;
use vstd::arithmetic::power2::*;
use crate::scalar::Fast;
use crate::single::arith::{
    difference, difference_of, product, product_of, sum, sum_of, whole, whole_of,
};
use crate::single::fused::{fused, fused_of};
use crate::single::{exponent, fraction, lemma_fields, magnitude, sign, ONE_BITS, SIGN_MASK};

verus! {

/// The pattern of 1/256, by which `fastexp` scales its argument.
pub const EXP_SCALE: u32 = 0x3b80_0000;

/// The pattern of the smallest mantissa that `fastln_split` hands out, a
/// number just above 2/3.
pub const LN_WINDOW: u32 = 0x3f2a_aaab;

/// The pattern of 0.230836749, the leading coefficient of the odd half of
/// the polynomial in `fastln`.
pub const LN_C0: u32 = 0x3e6c_6078;

/// The pattern of -0.279208571, the other coefficient of the odd half.
pub const LN_C1: u32 = 0xbe8e_f46d;

/// The pattern of 0.331826031, the leading coefficient of the even half.
pub const LN_C2: u32 = 0x3ea9_e51a;

/// The pattern of -0.498910338, the other coefficient of the even half.
pub const LN_C3: u32 = 0xbeff_712d;

/// The pattern of 0.693147182, the natural logarithm of 2.
pub const LN_2: u32 = 0x3f31_7218;

/// `y` squared `n` times over: `y` to the power `2^n`, rounded after each
/// squaring.
pub open spec fn squared(y: u32, n: nat) -> u32
    decreases n,
{
    if n == 0 {
        y
    } else {
        squared(product_of(y, y), (n - 1) as nat)
    }
}

/// What `fastexp` returns: one plus a 256th of `x`, raised to the power 256
/// by eight squarings.
pub open spec fn fastexp_of(x: u32) -> u32 {
    squared(sum_of(ONE_BITS, product_of(x, EXP_SCALE)), 8)
}

/// The power of two that `fastln_split` takes out of `bits`.
pub open spec fn ln_exponent(bits: u32) -> int {
    let e = ((bits - LN_WINDOW) % 0x1_0000_0000) / 0x80_0000;
    if e >= 256 {
        e - 512
    } else {
        e
    }
}

/// The pattern of the mantissa that `fastln_split` leaves of `bits`.
pub open spec fn ln_mantissa(bits: u32) -> u32 {
    (LN_WINDOW + (bits - LN_WINDOW) % 0x80_0000) as u32
}

/// What `fastln` returns for the pattern `bits`.
pub open spec fn fastln_of(bits: u32) -> u32 {
    let i = whole_of(ln_exponent(bits));
    let f = difference_of(ln_mantissa(bits), ONE_BITS);
    let s = product_of(f, f);
    let r = fused_of(LN_C0, f, LN_C1);
    let t = fused_of(LN_C2, f, LN_C3);
    let r = fused_of(r, s, t);
    let r = fused_of(r, s, f);
    fused_of(i, LN_2, r)
}

/// For a positive normal number the split is exact: the number is its
/// mantissa times two to the power of its exponent.
pub proof fn lemma_split_scales(bits: u32)
    requires
        !sign(bits),
        0 < exponent(bits) < 0xff,
    ensures
        ln_exponent(bits) >= 0 ==> magnitude(bits) == magnitude(ln_mantissa(bits)) * pow2(
            ln_exponent(bits) as nat,
        ),
        ln_exponent(bits) < 0 ==> magnitude(ln_mantissa(bits)) == magnitude(bits) * pow2(
            (-ln_exponent(bits)) as nat,
        ),
{
    let k = ln_exponent(bits);
    let m = ln_mantissa(bits);
    let e = exponent(bits) as nat;
    let f = fraction(bits) as nat;
    lemma_fields(bits);
    lemma_fields(m);
    // the mantissa has the fraction field of the number, and an exponent
    // field that is `k` below
    let d = (bits - LN_WINDOW) % 0x1_0000_0000;
    assert(m == LN_WINDOW + d % 0x80_0000);
    assert(m + k * 0x80_0000 == bits);
    assert(fraction(m) == f && exponent(m) + k == e && exponent(m) >= 126);
    let em = exponent(m) as nat;
    let sig = (pow2(23) + f) as int;
    if k >= 0 {
        lemma_pow2_adds((em - 1) as nat, k as nat);
        assert(sig * pow2((e - 1) as nat) == (sig * pow2((em - 1) as nat)) * pow2(k as nat))
            by (nonlinear_arith)
            requires
                pow2((e - 1) as nat) == pow2((em - 1) as nat) * pow2(k as nat),
        ;
    } else {
        lemma_pow2_adds((e - 1) as nat, (-k) as nat);
        assert(sig * pow2((em - 1) as nat) == (sig * pow2((e - 1) as nat)) * pow2((-k) as nat))
            by (nonlinear_arith)
            requires
                pow2((em - 1) as nat) == pow2((e - 1) as nat) * pow2((-k) as nat),
        ;
    }
}

impl Fast<u32> {
    /// An approximation of the exponential of `self`.
    ///
    /// It is `(1 + self / 256)` raised to the power 256 by eight squarings,
    /// each operation rounded. The error grows with the magnitude of
    /// `self`: below two parts in a thousand at 0.7, between one and three
    /// per cent at 3. The argument is not reduced, so large arguments give
    /// poor results.
    pub fn fastexp(self) -> (r: Self)
        ensures
            r.0 == fastexp_of(self.0),
    {
        proof {
            reveal_with_fuel(squared, 9);
        }
        let mut y = sum(ONE_BITS, product(self.0, EXP_SCALE));
        y = product(y, y);
        y = product(y, y);
        y = product(y, y);
        y = product(y, y);
        y = product(y, y);
        y = product(y, y);
        y = product(y, y);
        y = product(y, y);
        Fast(y)
    }

    /// Splits `self` into a power of two and a mantissa near 1, by integer
    /// arithmetic on the pattern alone.
    ///
    /// Returns `(k, m)`. The mantissa `m` always lies in the window from
    /// about 2/3 to about 4/3, and the pattern of `m` plus `k` steps of the
    /// exponent field is the pattern of `self`, modulo 2^32. For a positive
    /// normal `self` nothing wraps round and the two have one fraction
    /// field, so `self` is `m` times `2^k`, and its logarithm is `k` times
    /// the logarithm of 2 plus the logarithm of `m`.
    ///
    /// For zeros, subnormals, negative numbers, infinities and NaNs the
    /// split is still defined but carries no such meaning.
    pub fn fastln_split(self) -> (r: (i32, Self))
        ensures
            r.0 == ln_exponent(self.0),
            r.1.0 == ln_mantissa(self.0),
            -256 <= r.0 < 256,
            LN_WINDOW <= r.1.0 < LN_WINDOW + 0x80_0000,
            (r.1.0 + r.0 * 0x80_0000 - self.0) % 0x1_0000_0000 == 0,
            !sign(self.0) ==> {
                &&& r.1.0 + r.0 * 0x80_0000 == self.0
                &&& fraction(r.1.0) == fraction(self.0)
                &&& exponent(r.1.0) + r.0 == exponent(self.0)
            },
    {
        let bits = self.0;
        let d = bits.wrapping_sub(LN_WINDOW);
        let e = d & 0xff80_0000;
        assert(e == d - d % 0x80_0000 && e >> 23 == d / 0x80_0000 && e >> 23 < 512 && (e
            >= 0x8000_0000 <==> e >> 23 >= 256)) by (bit_vector)
            requires
                e == d & 0xff80_0000,
        ;
        let m = bits.wrapping_sub(e);
        let k = if e >= SIGN_MASK {
            (e >> 23) as i32 - 512
        } else {
            (e >> 23) as i32
        };
        proof {
            lemma_fields(bits);
            lemma_fields(m);
            assert(m == LN_WINDOW + d % 0x80_0000);
            assert(!sign(m));
        }
        (k, Fast(m))
    }

    /// An approximation of the natural logarithm of `self`.
    ///
    /// The argument is split by `fastln_split` into `m` times `2^k`. With
    /// `f = m - 1`, the logarithm of `m` is approximated by a polynomial in
    /// `f`, evaluated with fused multiply-adds, and `k` times the logarithm
    /// of 2 is added by a last one. For a positive normal argument the
    /// result lies within about one part in a hundred thousand of the
    /// logarithm; for any other argument it means nothing.
    pub fn fastln(self) -> (r: Self)
        ensures
            r.0 == fastln_of(self.0),
    {
        let (k, m) = self.fastln_split();
        let i = whole(k);
        let f = difference(m.0, ONE_BITS);
        let s = product(f, f);
        let r = fused(LN_C0, f, LN_C1);
        let t = fused(LN_C2, f, LN_C3);
        let r = fused(r, s, t);
        let r = fused(r, s, f);
        Fast(fused(i, LN_2, r))
    }
}

} // verus!
