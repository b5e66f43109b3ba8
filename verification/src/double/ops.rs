//! The operators of binary64 scalars.
//!
//! Each operator comes in three shapes: scalar with scalar, scalar with a raw
//! pattern, and raw pattern with scalar. The assigning forms take a scalar or
//! a raw pattern on the right. All of them go through the arithmetic of
//! [`crate::double::arith`], whose results their specifications name.
use vstd::prelude::*;
use vstd::std_specs::ops::{
    AddSpecImpl, DivSpecImpl, MulSpecImpl, NegSpecImpl, RemSpecImpl, SubSpecImpl,
};
use crate::scalar::Fast;
use crate::double::arith::{
    difference, difference_of, product, product_of, quotient, quotient_of, remainder, remainder_of,
    sum, sum_of,
};
use crate::double::SIGN_MASK;

verus! {

impl core::ops::Add for Fast<u64> {
    type Output = Fast<u64>;

    /// The sum of two scalars.
    fn add(self, rhs: Fast<u64>) -> (r: Fast<u64>) {
        Fast(sum(self.0, rhs.0))
    }
}

impl AddSpecImpl for Fast<u64> {
    open spec fn obeys_add_spec() -> bool {
        true
    }

    open spec fn add_req(self, rhs: Fast<u64>) -> bool {
        true
    }

    open spec fn add_spec(self, rhs: Fast<u64>) -> Fast<u64> {
        Fast(sum_of(self.0, rhs.0))
    }
}

impl core::ops::Add<u64> for Fast<u64> {
    type Output = Fast<u64>;

    /// The sum of a scalar and a raw pattern.
    fn add(self, rhs: u64) -> (r: Fast<u64>) {
        Fast(sum(self.0, rhs))
    }
}

impl AddSpecImpl<u64> for Fast<u64> {
    open spec fn obeys_add_spec() -> bool {
        true
    }

    open spec fn add_req(self, rhs: u64) -> bool {
        true
    }

    open spec fn add_spec(self, rhs: u64) -> Fast<u64> {
        Fast(sum_of(self.0, rhs))
    }
}

impl core::ops::Add<Fast<u64>> for u64 {
    type Output = Fast<u64>;

    /// The sum of a raw pattern and a scalar.
    fn add(self, rhs: Fast<u64>) -> (r: Fast<u64>) {
        Fast(sum(self, rhs.0))
    }
}

impl AddSpecImpl<Fast<u64>> for u64 {
    open spec fn obeys_add_spec() -> bool {
        true
    }

    open spec fn add_req(self, rhs: Fast<u64>) -> bool {
        true
    }

    open spec fn add_spec(self, rhs: Fast<u64>) -> Fast<u64> {
        Fast(sum_of(self, rhs.0))
    }
}

impl core::ops::AddAssign for Fast<u64> {
    /// Replaces `self` by its sum with a scalar.
    fn add_assign(&mut self, rhs: Fast<u64>)
        ensures
            final(self).0 == sum_of(old(self).0, rhs.0),
    {
        self.0 = sum(self.0, rhs.0);
    }
}

impl core::ops::AddAssign<u64> for Fast<u64> {
    /// Replaces `self` by its sum with a raw pattern.
    fn add_assign(&mut self, rhs: u64)
        ensures
            final(self).0 == sum_of(old(self).0, rhs),
    {
        self.0 = sum(self.0, rhs);
    }
}

impl core::ops::Sub for Fast<u64> {
    type Output = Fast<u64>;

    /// The difference of two scalars.
    fn sub(self, rhs: Fast<u64>) -> (r: Fast<u64>) {
        Fast(difference(self.0, rhs.0))
    }
}

impl SubSpecImpl for Fast<u64> {
    open spec fn obeys_sub_spec() -> bool {
        true
    }

    open spec fn sub_req(self, rhs: Fast<u64>) -> bool {
        true
    }

    open spec fn sub_spec(self, rhs: Fast<u64>) -> Fast<u64> {
        Fast(difference_of(self.0, rhs.0))
    }
}

impl core::ops::Sub<u64> for Fast<u64> {
    type Output = Fast<u64>;

    /// The difference of a scalar and a raw pattern.
    fn sub(self, rhs: u64) -> (r: Fast<u64>) {
        Fast(difference(self.0, rhs))
    }
}

impl SubSpecImpl<u64> for Fast<u64> {
    open spec fn obeys_sub_spec() -> bool {
        true
    }

    open spec fn sub_req(self, rhs: u64) -> bool {
        true
    }

    open spec fn sub_spec(self, rhs: u64) -> Fast<u64> {
        Fast(difference_of(self.0, rhs))
    }
}

impl core::ops::Sub<Fast<u64>> for u64 {
    type Output = Fast<u64>;

    /// The difference of a raw pattern and a scalar.
    fn sub(self, rhs: Fast<u64>) -> (r: Fast<u64>) {
        Fast(difference(self, rhs.0))
    }
}

impl SubSpecImpl<Fast<u64>> for u64 {
    open spec fn obeys_sub_spec() -> bool {
        true
    }

    open spec fn sub_req(self, rhs: Fast<u64>) -> bool {
        true
    }

    open spec fn sub_spec(self, rhs: Fast<u64>) -> Fast<u64> {
        Fast(difference_of(self, rhs.0))
    }
}

impl core::ops::SubAssign for Fast<u64> {
    /// Replaces `self` by its difference with a scalar.
    fn sub_assign(&mut self, rhs: Fast<u64>)
        ensures
            final(self).0 == difference_of(old(self).0, rhs.0),
    {
        self.0 = difference(self.0, rhs.0);
    }
}

impl core::ops::SubAssign<u64> for Fast<u64> {
    /// Replaces `self` by its difference with a raw pattern.
    fn sub_assign(&mut self, rhs: u64)
        ensures
            final(self).0 == difference_of(old(self).0, rhs),
    {
        self.0 = difference(self.0, rhs);
    }
}

impl core::ops::Mul for Fast<u64> {
    type Output = Fast<u64>;

    /// The product of two scalars.
    fn mul(self, rhs: Fast<u64>) -> (r: Fast<u64>) {
        Fast(product(self.0, rhs.0))
    }
}

impl MulSpecImpl for Fast<u64> {
    open spec fn obeys_mul_spec() -> bool {
        true
    }

    open spec fn mul_req(self, rhs: Fast<u64>) -> bool {
        true
    }

    open spec fn mul_spec(self, rhs: Fast<u64>) -> Fast<u64> {
        Fast(product_of(self.0, rhs.0))
    }
}

impl core::ops::Mul<u64> for Fast<u64> {
    type Output = Fast<u64>;

    /// The product of a scalar and a raw pattern.
    fn mul(self, rhs: u64) -> (r: Fast<u64>) {
        Fast(product(self.0, rhs))
    }
}

impl MulSpecImpl<u64> for Fast<u64> {
    open spec fn obeys_mul_spec() -> bool {
        true
    }

    open spec fn mul_req(self, rhs: u64) -> bool {
        true
    }

    open spec fn mul_spec(self, rhs: u64) -> Fast<u64> {
        Fast(product_of(self.0, rhs))
    }
}

impl core::ops::Mul<Fast<u64>> for u64 {
    type Output = Fast<u64>;

    /// The product of a raw pattern and a scalar.
    fn mul(self, rhs: Fast<u64>) -> (r: Fast<u64>) {
        Fast(product(self, rhs.0))
    }
}

impl MulSpecImpl<Fast<u64>> for u64 {
    open spec fn obeys_mul_spec() -> bool {
        true
    }

    open spec fn mul_req(self, rhs: Fast<u64>) -> bool {
        true
    }

    open spec fn mul_spec(self, rhs: Fast<u64>) -> Fast<u64> {
        Fast(product_of(self, rhs.0))
    }
}

impl core::ops::MulAssign for Fast<u64> {
    /// Replaces `self` by its product with a scalar.
    fn mul_assign(&mut self, rhs: Fast<u64>)
        ensures
            final(self).0 == product_of(old(self).0, rhs.0),
    {
        self.0 = product(self.0, rhs.0);
    }
}

impl core::ops::MulAssign<u64> for Fast<u64> {
    /// Replaces `self` by its product with a raw pattern.
    fn mul_assign(&mut self, rhs: u64)
        ensures
            final(self).0 == product_of(old(self).0, rhs),
    {
        self.0 = product(self.0, rhs);
    }
}

impl core::ops::Div for Fast<u64> {
    type Output = Fast<u64>;

    /// The quotient of two scalars.
    fn div(self, rhs: Fast<u64>) -> (r: Fast<u64>) {
        Fast(quotient(self.0, rhs.0))
    }
}

impl DivSpecImpl for Fast<u64> {
    open spec fn obeys_div_spec() -> bool {
        true
    }

    open spec fn div_req(self, rhs: Fast<u64>) -> bool {
        true
    }

    open spec fn div_spec(self, rhs: Fast<u64>) -> Fast<u64> {
        Fast(quotient_of(self.0, rhs.0))
    }
}

impl core::ops::Div<u64> for Fast<u64> {
    type Output = Fast<u64>;

    /// The quotient of a scalar and a raw pattern.
    fn div(self, rhs: u64) -> (r: Fast<u64>) {
        Fast(quotient(self.0, rhs))
    }
}

impl DivSpecImpl<u64> for Fast<u64> {
    open spec fn obeys_div_spec() -> bool {
        true
    }

    open spec fn div_req(self, rhs: u64) -> bool {
        true
    }

    open spec fn div_spec(self, rhs: u64) -> Fast<u64> {
        Fast(quotient_of(self.0, rhs))
    }
}

impl core::ops::Div<Fast<u64>> for u64 {
    type Output = Fast<u64>;

    /// The quotient of a raw pattern and a scalar.
    fn div(self, rhs: Fast<u64>) -> (r: Fast<u64>) {
        Fast(quotient(self, rhs.0))
    }
}

impl DivSpecImpl<Fast<u64>> for u64 {
    open spec fn obeys_div_spec() -> bool {
        true
    }

    open spec fn div_req(self, rhs: Fast<u64>) -> bool {
        true
    }

    open spec fn div_spec(self, rhs: Fast<u64>) -> Fast<u64> {
        Fast(quotient_of(self, rhs.0))
    }
}

impl core::ops::DivAssign for Fast<u64> {
    /// Replaces `self` by its quotient with a scalar.
    fn div_assign(&mut self, rhs: Fast<u64>)
        ensures
            final(self).0 == quotient_of(old(self).0, rhs.0),
    {
        self.0 = quotient(self.0, rhs.0);
    }
}

impl core::ops::DivAssign<u64> for Fast<u64> {
    /// Replaces `self` by its quotient with a raw pattern.
    fn div_assign(&mut self, rhs: u64)
        ensures
            final(self).0 == quotient_of(old(self).0, rhs),
    {
        self.0 = quotient(self.0, rhs);
    }
}

impl core::ops::Rem for Fast<u64> {
    type Output = Fast<u64>;

    /// The remainder of two scalars.
    fn rem(self, rhs: Fast<u64>) -> (r: Fast<u64>) {
        Fast(remainder(self.0, rhs.0))
    }
}

impl RemSpecImpl for Fast<u64> {
    open spec fn obeys_rem_spec() -> bool {
        true
    }

    open spec fn rem_req(self, rhs: Fast<u64>) -> bool {
        true
    }

    open spec fn rem_spec(self, rhs: Fast<u64>) -> Fast<u64> {
        Fast(remainder_of(self.0, rhs.0))
    }
}

impl core::ops::Rem<u64> for Fast<u64> {
    type Output = Fast<u64>;

    /// The remainder of a scalar and a raw pattern.
    fn rem(self, rhs: u64) -> (r: Fast<u64>) {
        Fast(remainder(self.0, rhs))
    }
}

impl RemSpecImpl<u64> for Fast<u64> {
    open spec fn obeys_rem_spec() -> bool {
        true
    }

    open spec fn rem_req(self, rhs: u64) -> bool {
        true
    }

    open spec fn rem_spec(self, rhs: u64) -> Fast<u64> {
        Fast(remainder_of(self.0, rhs))
    }
}

impl core::ops::Rem<Fast<u64>> for u64 {
    type Output = Fast<u64>;

    /// The remainder of a raw pattern and a scalar.
    fn rem(self, rhs: Fast<u64>) -> (r: Fast<u64>) {
        Fast(remainder(self, rhs.0))
    }
}

impl RemSpecImpl<Fast<u64>> for u64 {
    open spec fn obeys_rem_spec() -> bool {
        true
    }

    open spec fn rem_req(self, rhs: Fast<u64>) -> bool {
        true
    }

    open spec fn rem_spec(self, rhs: Fast<u64>) -> Fast<u64> {
        Fast(remainder_of(self, rhs.0))
    }
}

impl core::ops::RemAssign for Fast<u64> {
    /// Replaces `self` by its remainder with a scalar.
    fn rem_assign(&mut self, rhs: Fast<u64>)
        ensures
            final(self).0 == remainder_of(old(self).0, rhs.0),
    {
        self.0 = remainder(self.0, rhs.0);
    }
}

impl core::ops::RemAssign<u64> for Fast<u64> {
    /// Replaces `self` by its remainder with a raw pattern.
    fn rem_assign(&mut self, rhs: u64)
        ensures
            final(self).0 == remainder_of(old(self).0, rhs),
    {
        self.0 = remainder(self.0, rhs);
    }
}

impl core::ops::Neg for Fast<u64> {
    type Output = Fast<u64>;

    /// The negation: the sign bit is flipped, also on a zero or a NaN.
    fn neg(self) -> (r: Fast<u64>) {
        Fast(self.0 ^ SIGN_MASK)
    }
}

impl NegSpecImpl for Fast<u64> {
    open spec fn obeys_neg_spec() -> bool {
        true
    }

    open spec fn neg_req(self) -> bool {
        true
    }

    open spec fn neg_spec(self) -> Fast<u64> {
        Fast(self.0 ^ 0x8000_0000_0000_0000)
    }
}

} // verus!
