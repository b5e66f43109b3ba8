//! Whole powers of binary64 scalars.
use vstd::prelude::*;
use crate::scalar::Fast;
use crate::double::arith::{product, product_of, quotient, quotient_of};
use crate::double::ONE_BITS;

verus! {

/// `acc` times `a` to the power `n`, by squaring `a` and multiplying it in
/// for each bit of `n`, from the lowest bit up. Every product is rounded.
pub open spec fn power_chain(acc: u64, a: u64, n: nat) -> u64
    decreases n,
{
    let next = if n % 2 == 1 {
        product_of(acc, a)
    } else {
        acc
    };
    if n / 2 == 0 {
        next
    } else {
        power_chain(next, product_of(a, a), n / 2)
    }
}

/// `a` to the whole power `k`: the chain of products for the magnitude of
/// `k`, and the reciprocal of that where `k` is negative.
pub open spec fn power_of(a: u64, k: int) -> u64 {
    let r = power_chain(ONE_BITS, a, vstd::math::abs(k) as nat);
    if k < 0 {
        quotient_of(ONE_BITS, r)
    } else {
        r
    }
}

impl Fast<u64> {
    /// `self` to the whole power `n`, by repeated squaring. The power 0 of
    /// anything is 1. The roundings of the products add up, so the result
    /// is near the power, not the nearest number to it.
    pub fn powi(self, n: i32) -> (r: Self)
        ensures
            r.0 == power_of(self.0, n as int),
    {
        let mut left: u32 = if n < 0 {
            (-(n as i64)) as u32
        } else {
            n as u32
        };
        let mut a = self.0;
        let mut acc = ONE_BITS;
        loop
            invariant
                power_chain(acc, a, left as nat) == power_chain(
                    ONE_BITS,
                    self.0,
                    vstd::math::abs(n as int) as nat,
                ),
            ensures
                acc == power_chain(ONE_BITS, self.0, vstd::math::abs(n as int) as nat),
            decreases left,
        {
            if left % 2 == 1 {
                acc = product(acc, a);
            }
            left = left / 2;
            if left == 0 {
                break ;
            }
            a = product(a, a);
        }
        if n < 0 {
            Fast(quotient(ONE_BITS, acc))
        } else {
            Fast(acc)
        }
    }
}

} // verus!
