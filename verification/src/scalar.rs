//! The scalar wrapper.
use vstd::prelude::*;

verus! {

/// A scalar of relaxed arithmetic, held as the IEEE-754 bit pattern `B`.
///
/// The type enforces no invariant: any pattern is a scalar, NaNs and
/// infinities included.
#[derive(Clone, Copy, Debug)]
pub struct Fast<B>(pub B);

/// A binary32 scalar.
pub type F32 = Fast<u32>;

/// A binary64 scalar.
pub type F64 = Fast<u64>;

/// Wraps a bit pattern.
pub fn fa<B>(x: B) -> (r: Fast<B>)
    ensures
        r.0 == x,
{
    Fast(x)
}

impl Default for Fast<u32> {
    /// Positive zero.
    fn default() -> (r: Self)
        ensures
            r.0 == 0,
    {
        Fast(0)
    }
}

impl Default for Fast<u64> {
    /// Positive zero.
    fn default() -> (r: Self)
        ensures
            r.0 == 0,
    {
        Fast(0)
    }
}

} // verus!
