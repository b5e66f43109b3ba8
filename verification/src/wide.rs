//! Shifts and bit lengths of 128-bit integers as arithmetic.
use vstd::prelude::*;
use vstd::arithmetic::power2::*;
use vstd::bits::*;
use crate::rounding::bit_length;

verus! {

/// Every power of two below the 128th fits 128 bits.
pub proof fn lemma_pow2_fits(k: nat)
    requires
        k < 128,
    ensures
        0 < pow2(k) <= 0x8000_0000_0000_0000_0000_0000_0000_0000,
        pow2(127) == 0x8000_0000_0000_0000_0000_0000_0000_0000,
        pow2(128) == 0x1_0000_0000_0000_0000_0000_0000_0000_0000,
{
    lemma2_to64();
    lemma2_to64_rest();
    lemma_pow2_pos(k);
    lemma_pow2_adds(64, 64);
    lemma_pow2_adds(64, 63);
    if k < 127 {
        lemma_pow2_strictly_increases(k, 127);
    }
}

/// A shift to the left that loses no bit multiplies by a power of two.
pub proof fn lemma_shl_is_mul(x: u128, k: u128)
    requires
        k < 128,
        x * pow2(k as nat) <= u128::MAX,
    ensures
        x << k == x * pow2(k as nat),
    decreases k,
{
    lemma2_to64();
    if k == 0 {
        assert(x << 0 == x) by (bit_vector);
        assert(x * 1 == x) by (nonlinear_arith);
    } else {
        let j = (k - 1) as u128;
        lemma_pow2_unfold(k as nat);
        assert(x * pow2(k as nat) == 2 * (x * pow2(j as nat))) by (nonlinear_arith)
            requires
                pow2(k as nat) == 2 * pow2(j as nat),
        ;
        lemma_shl_is_mul(x, j);
        let y = x << j;
        assert(y == x * pow2(j as nat));
        assert(2 * y <= u128::MAX);
        assert(x << k == y << 1) by (bit_vector)
            requires
                y == x << j,
                j + 1 == k,
                k < 128,
        ;
        assert(y << 1 == 2 * y) by (bit_vector)
            requires
                y <= 0x7fff_ffff_ffff_ffff_ffff_ffff_ffff_ffff,
        ;
    }
}

/// `x` times two to the `k`, where that fits.
pub(crate) fn shl(x: u128, k: u32) -> (r: u128)
    requires
        k < 128,
        x * pow2(k as nat) <= u128::MAX,
    ensures
        r == x * pow2(k as nat),
{
    proof {
        lemma_shl_is_mul(x, k as u128);
    }
    x << k
}

/// `x` divided by two to the `k`, and what is left.
pub(crate) fn split(x: u128, k: u32) -> (r: (u128, u128))
    requires
        k < 128,
    ensures
        r.0 == x as nat / pow2(k as nat),
        r.1 == x as nat % pow2(k as nat),
{
    proof {
        lemma_pow2_fits(k as nat);
        lemma_u128_shr_is_div(x, k as u128);
        lemma_shl_is_mul(1, k as u128);
    }
    let step = 1u128 << k;
    (x >> k, x % step)
}

/// The number of bits of `x`: the least `len` with `x < 2^len`.
pub(crate) fn bit_length_wide(x: u128) -> (len: u32)
    ensures
        len <= 128,
        x < pow2(len as nat),
        len >= 1 ==> pow2((len - 1) as nat) <= x,
{
    proof {
        lemma2_to64();
        lemma_pow2_fits(0);
        lemma_u128_shr_is_div(x, 64);
    }
    let hi = (x >> 64) as u64;
    if hi != 0 {
        let len = bit_length(hi);
        proof {
            lemma_pow2_adds((len - 1) as nat, 64);
            lemma_pow2_adds(len as nat, 64);
            let h = 0x1_0000_0000_0000_0000int;
            vstd::arithmetic::div_mod::lemma_fundamental_div_mod(x as int, h);
            vstd::arithmetic::div_mod::lemma_mod_bound(x as int, h);
            assert(pow2((len - 1) as nat) * h <= hi * h && (hi + 1) * h <= pow2(len as nat) * h)
                by (nonlinear_arith)
                requires
                    pow2((len - 1) as nat) <= hi,
                    hi + 1 <= pow2(len as nat),
                    h > 0,
            ;
        }
        len + 64
    } else {
        bit_length(x as u64)
    }
}

} // verus!
