//! A cheap approximation of the exponential.
//!
//! It is a short chain of rounded operations, so it has one result for every
//! pattern. It does not reduce its argument or treat special values: it is
//! meant for finite arguments of moderate size.
use vstd::prelude::*;
use crate::double::arith::{product, product_of, sum, sum_of};
use crate::double::ONE_BITS;
use crate::scalar::Fast;

verus! {

/// The pattern of 1/256, by which `fastexp` scales its argument.
pub const EXP_SCALE: u64 = 0x3f70_0000_0000_0000;

/// `y` squared `n` times over: `y` to the power `2^n`, rounded after each
/// squaring.
pub open spec fn squared(y: u64, n: nat) -> u64
    decreases n,
{
    if n == 0 {
        y
    } else {
        squared(product_of(y, y), (n - 1) as nat)
    }
}

/// What `fastexp` returns: one plus a 256th of `x`, raised to the power 256
/// by eight squarings.
pub open spec fn fastexp_of(x: u64) -> u64 {
    squared(sum_of(ONE_BITS, product_of(x, EXP_SCALE)), 8)
}

impl Fast<u64> {
    /// An approximation of the exponential of `self`.
    ///
    /// It is `(1 + self / 256)` raised to the power 256 by eight squarings,
    /// each operation rounded. The error grows with the magnitude of
    /// `self`: below two parts in a thousand at 0.7, between one and three
    /// per cent at 3. The argument is not reduced, so large arguments give
    /// poor results.
    pub fn fastexp(self) -> (r: Self)
        ensures
            r.0 == fastexp_of(self.0),
    {
        proof {
            reveal_with_fuel(squared, 9);
        }
        let mut y = sum(ONE_BITS, product(self.0, EXP_SCALE));
        y = product(y, y);
        y = product(y, y);
        y = product(y, y);
        y = product(y, y);
        y = product(y, y);
        y = product(y, y);
        y = product(y, y);
        y = product(y, y);
        Fast(y)
    }
}

} // verus!
