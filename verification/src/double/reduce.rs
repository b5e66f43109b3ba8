//! Fused multiply-add and summation of binary64 scalars.
use vstd::prelude::*;
use crate::scalar::Fast;
use crate::double::arith::{sum, sum_of};
use crate::double::fused::{fused, fused_of, is_fused};

verus! {

/// The sum of a sequence of scalars, taken from the left and starting at
/// positive zero, each addition rounded.
pub open spec fn total(items: Seq<Fast<u64>>) -> u64
    decreases items.len(),
{
    if items.len() == 0 {
        0
    } else {
        sum_of(total(items.drop_last()), items.last().0)
    }
}

impl Fast<u64> {
    /// `self` times `a` plus `b`, rounded once.
    pub fn mul_add(self, a: Self, b: Self) -> (r: Self)
        ensures
            is_fused(self.0, a.0, b.0, r.0),
            r.0 == fused_of(self.0, a.0, b.0),
    {
        Fast(fused(self.0, a.0, b.0))
    }

    /// The sum of `items`, taken from the left and starting at positive
    /// zero.
    pub fn sum(items: &[Self]) -> (r: Self)
        ensures
            r.0 == total(items@),
    {
        let mut acc: u64 = 0;
        let mut i: usize = 0;
        while i < items.len()
            invariant
                i <= items.len(),
                acc == total(items@.take(i as int)),
            decreases items.len() - i,
        {
            proof {
                assert(items@.take(i + 1).drop_last() == items@.take(i as int));
            }
            acc = sum(acc, items[i].0);
            i = i + 1;
        }
        proof {
            assert(items@.take(i as int) == items@);
        }
        Fast(acc)
    }
}

} // verus!
