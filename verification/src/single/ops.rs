//! The operators of binary32 scalars.
//!
//! Each operator comes in three shapes: scalar with scalar, scalar with a raw
//! pattern, and raw pattern with scalar. The assigning forms take a scalar or
//! a raw pattern on the right. All of them go through the arithmetic of
//! [`crate::single::arith`], whose results their specifications name.
use vstd::prelude::*;
use vstd::std_specs::ops::{
    AddSpecImpl, DivSpecImpl, MulSpecImpl, NegSpecImpl, RemSpecImpl, SubSpecImpl,
};
use crate::scalar::Fast;
use crate::single::arith::{
    difference, difference_of, product, product_of, quotient, quotient_of, remainder, remainder_of,
    sum, sum_of,
};
use crate::single::SIGN_MASK;

verus! {

impl core::ops::Add for Fast<u32> {
    type Output = Fast<u32>;

    /// The sum of two scalars.
    fn add(self, rhs: Fast<u32>) -> (r: Fast<u32>) {
        Fast(sum(self.0, rhs.0))
    }
}

impl AddSpecImpl for Fast<u32> {
    open spec fn obeys_add_spec() -> bool {
        true
    }

    open spec fn add_req(self, rhs: Fast<u32>) -> bool {
        true
    }

    open spec fn add_spec(self, rhs: Fast<u32>) -> Fast<u32> {
        Fast(sum_of(self.0, rhs.0))
    }
}

impl core::ops::Add<u32> for Fast<u32> {
    type Output = Fast<u32>;

    /// The sum of a scalar and a raw pattern.
    fn add(self, rhs: u32) -> (r: Fast<u32>) {
        Fast(sum(self.0, rhs))
    }
}

impl AddSpecImpl<u32> for Fast<u32> {
    open spec fn obeys_add_spec() -> bool {
        true
    }

    open spec fn add_req(self, rhs: u32) -> bool {
        true
    }

    open spec fn add_spec(self, rhs: u32) -> Fast<u32> {
        Fast(sum_of(self.0, rhs))
    }
}

impl core::ops::Add<Fast<u32>> for u32 {
    type Output = Fast<u32>;

    /// The sum of a raw pattern and a scalar.
    fn add(self, rhs: Fast<u32>) -> (r: Fast<u32>) {
        Fast(sum(self, rhs.0))
    }
}

impl AddSpecImpl<Fast<u32>> for u32 {
    open spec fn obeys_add_spec() -> bool {
        true
    }

    open spec fn add_req(self, rhs: Fast<u32>) -> bool {
        true
    }

    open spec fn add_spec(self, rhs: Fast<u32>) -> Fast<u32> {
        Fast(sum_of(self, rhs.0))
    }
}

impl core::ops::AddAssign for Fast<u32> {
    /// Replaces `self` by its sum with a scalar.
    fn add_assign(&mut self, rhs: Fast<u32>)
        ensures
            final(self).0 == sum_of(old(self).0, rhs.0),
    {
        self.0 = sum(self.0, rhs.0);
    }
}

impl core::ops::AddAssign<u32> for Fast<u32> {
    /// Replaces `self` by its sum with a raw pattern.
    fn add_assign(&mut self, rhs: u32)
        ensures
            final(self).0 == sum_of(old(self).0, rhs),
    {
        self.0 = sum(self.0, rhs);
    }
}

impl core::ops::Sub for Fast<u32> {
    type Output = Fast<u32>;

    /// The difference of two scalars.
    fn sub(self, rhs: Fast<u32>) -> (r: Fast<u32>) {
        Fast(difference(self.0, rhs.0))
    }
}

impl SubSpecImpl for Fast<u32> {
    open spec fn obeys_sub_spec() -> bool {
        true
    }

    open spec fn sub_req(self, rhs: Fast<u32>) -> bool {
        true
    }

    open spec fn sub_spec(self, rhs: Fast<u32>) -> Fast<u32> {
        Fast(difference_of(self.0, rhs.0))
    }
}

impl core::ops::Sub<u32> for Fast<u32> {
    type Output = Fast<u32>;

    /// The difference of a scalar and a raw pattern.
    fn sub(self, rhs: u32) -> (r: Fast<u32>) {
        Fast(difference(self.0, rhs))
    }
}

impl SubSpecImpl<u32> for Fast<u32> {
    open spec fn obeys_sub_spec() -> bool {
        true
    }

    open spec fn sub_req(self, rhs: u32) -> bool {
        true
    }

    open spec fn sub_spec(self, rhs: u32) -> Fast<u32> {
        Fast(difference_of(self.0, rhs))
    }
}

impl core::ops::Sub<Fast<u32>> for u32 {
    type Output = Fast<u32>;

    /// The difference of a raw pattern and a scalar.
    fn sub(self, rhs: Fast<u32>) -> (r: Fast<u32>) {
        Fast(difference(self, rhs.0))
    }
}

impl SubSpecImpl<Fast<u32>> for u32 {
    open spec fn obeys_sub_spec() -> bool {
        true
    }

    open spec fn sub_req(self, rhs: Fast<u32>) -> bool {
        true
    }

    open spec fn sub_spec(self, rhs: Fast<u32>) -> Fast<u32> {
        Fast(difference_of(self, rhs.0))
    }
}

impl core::ops::SubAssign for Fast<u32> {
    /// Replaces `self` by its difference with a scalar.
    fn sub_assign(&mut self, rhs: Fast<u32>)
        ensures
            final(self).0 == difference_of(old(self).0, rhs.0),
    {
        self.0 = difference(self.0, rhs.0);
    }
}

impl core::ops::SubAssign<u32> for Fast<u32> {
    /// Replaces `self` by its difference with a raw pattern.
    fn sub_assign(&mut self, rhs: u32)
        ensures
            final(self).0 == difference_of(old(self).0, rhs),
    {
        self.0 = difference(self.0, rhs);
    }
}

impl core::ops::Mul for Fast<u32> {
    type Output = Fast<u32>;

    /// The product of two scalars.
    fn mul(self, rhs: Fast<u32>) -> (r: Fast<u32>) {
        Fast(product(self.0, rhs.0))
    }
}

impl MulSpecImpl for Fast<u32> {
    open spec fn obeys_mul_spec() -> bool {
        true
    }

    open spec fn mul_req(self, rhs: Fast<u32>) -> bool {
        true
    }

    open spec fn mul_spec(self, rhs: Fast<u32>) -> Fast<u32> {
        Fast(product_of(self.0, rhs.0))
    }
}

impl core::ops::Mul<u32> for Fast<u32> {
    type Output = Fast<u32>;

    /// The product of a scalar and a raw pattern.
    fn mul(self, rhs: u32) -> (r: Fast<u32>) {
        Fast(product(self.0, rhs))
    }
}

impl MulSpecImpl<u32> for Fast<u32> {
    open spec fn obeys_mul_spec() -> bool {
        true
    }

    open spec fn mul_req(self, rhs: u32) -> bool {
        true
    }

    open spec fn mul_spec(self, rhs: u32) -> Fast<u32> {
        Fast(product_of(self.0, rhs))
    }
}

impl core::ops::Mul<Fast<u32>> for u32 {
    type Output = Fast<u32>;

    /// The product of a raw pattern and a scalar.
    fn mul(self, rhs: Fast<u32>) -> (r: Fast<u32>) {
        Fast(product(self, rhs.0))
    }
}

impl MulSpecImpl<Fast<u32>> for u32 {
    open spec fn obeys_mul_spec() -> bool {
        true
    }

    open spec fn mul_req(self, rhs: Fast<u32>) -> bool {
        true
    }

    open spec fn mul_spec(self, rhs: Fast<u32>) -> Fast<u32> {
        Fast(product_of(self, rhs.0))
    }
}

impl core::ops::MulAssign for Fast<u32> {
    /// Replaces `self` by its product with a scalar.
    fn mul_assign(&mut self, rhs: Fast<u32>)
        ensures
            final(self).0 == product_of(old(self).0, rhs.0),
    {
        self.0 = product(self.0, rhs.0);
    }
}

impl core::ops::MulAssign<u32> for Fast<u32> {
    /// Replaces `self` by its product with a raw pattern.
    fn mul_assign(&mut self, rhs: u32)
        ensures
            final(self).0 == product_of(old(self).0, rhs),
    {
        self.0 = product(self.0, rhs);
    }
}

impl core::ops::Div for Fast<u32> {
    type Output = Fast<u32>;

    /// The quotient of two scalars.
    fn div(self, rhs: Fast<u32>) -> (r: Fast<u32>) {
        Fast(quotient(self.0, rhs.0))
    }
}

impl DivSpecImpl for Fast<u32> {
    open spec fn obeys_div_spec() -> bool {
        true
    }

    open spec fn div_req(self, rhs: Fast<u32>) -> bool {
        true
    }

    open spec fn div_spec(self, rhs: Fast<u32>) -> Fast<u32> {
        Fast(quotient_of(self.0, rhs.0))
    }
}

impl core::ops::Div<u32> for Fast<u32> {
    type Output = Fast<u32>;

    /// The quotient of a scalar and a raw pattern.
    fn div(self, rhs: u32) -> (r: Fast<u32>) {
        Fast(quotient(self.0, rhs))
    }
}

impl DivSpecImpl<u32> for Fast<u32> {
    open spec fn obeys_div_spec() -> bool {
        true
    }

    open spec fn div_req(self, rhs: u32) -> bool {
        true
    }

    open spec fn div_spec(self, rhs: u32) -> Fast<u32> {
        Fast(quotient_of(self.0, rhs))
    }
}

impl core::ops::Div<Fast<u32>> for u32 {
    type Output = Fast<u32>;

    /// The quotient of a raw pattern and a scalar.
    fn div(self, rhs: Fast<u32>) -> (r: Fast<u32>) {
        Fast(quotient(self, rhs.0))
    }
}

impl DivSpecImpl<Fast<u32>> for u32 {
    open spec fn obeys_div_spec() -> bool {
        true
    }

    open spec fn div_req(self, rhs: Fast<u32>) -> bool {
        true
    }

    open spec fn div_spec(self, rhs: Fast<u32>) -> Fast<u32> {
        Fast(quotient_of(self, rhs.0))
    }
}

impl core::ops::DivAssign for Fast<u32> {
    /// Replaces `self` by its quotient with a scalar.
    fn div_assign(&mut self, rhs: Fast<u32>)
        ensures
            final(self).0 == quotient_of(old(self).0, rhs.0),
    {
        self.0 = quotient(self.0, rhs.0);
    }
}

impl core::ops::DivAssign<u32> for Fast<u32> {
    /// Replaces `self` by its quotient with a raw pattern.
    fn div_assign(&mut self, rhs: u32)
        ensures
            final(self).0 == quotient_of(old(self).0, rhs),
    {
        self.0 = quotient(self.0, rhs);
    }
}

impl core::ops::Rem for Fast<u32> {
    type Output = Fast<u32>;

    /// The remainder of two scalars.
    fn rem(self, rhs: Fast<u32>) -> (r: Fast<u32>) {
        Fast(remainder(self.0, rhs.0))
    }
}

impl RemSpecImpl for Fast<u32> {
    open spec fn obeys_rem_spec() -> bool {
        true
    }

    open spec fn rem_req(self, rhs: Fast<u32>) -> bool {
        true
    }

    open spec fn rem_spec(self, rhs: Fast<u32>) -> Fast<u32> {
        Fast(remainder_of(self.0, rhs.0))
    }
}

impl core::ops::Rem<u32> for Fast<u32> {
    type Output = Fast<u32>;

    /// The remainder of a scalar and a raw pattern.
    fn rem(self, rhs: u32) -> (r: Fast<u32>) {
        Fast(remainder(self.0, rhs))
    }
}

impl RemSpecImpl<u32> for Fast<u32> {
    open spec fn obeys_rem_spec() -> bool {
        true
    }

    open spec fn rem_req(self, rhs: u32) -> bool {
        true
    }

    open spec fn rem_spec(self, rhs: u32) -> Fast<u32> {
        Fast(remainder_of(self.0, rhs))
    }
}

impl core::ops::Rem<Fast<u32>> for u32 {
    type Output = Fast<u32>;

    /// The remainder of a raw pattern and a scalar.
    fn rem(self, rhs: Fast<u32>) -> (r: Fast<u32>) {
        Fast(remainder(self, rhs.0))
    }
}

impl RemSpecImpl<Fast<u32>> for u32 {
    open spec fn obeys_rem_spec() -> bool {
        true
    }

    open spec fn rem_req(self, rhs: Fast<u32>) -> bool {
        true
    }

    open spec fn rem_spec(self, rhs: Fast<u32>) -> Fast<u32> {
        Fast(remainder_of(self, rhs.0))
    }
}

impl core::ops::RemAssign for Fast<u32> {
    /// Replaces `self` by its remainder with a scalar.
    fn rem_assign(&mut self, rhs: Fast<u32>)
        ensures
            final(self).0 == remainder_of(old(self).0, rhs.0),
    {
        self.0 = remainder(self.0, rhs.0);
    }
}

impl core::ops::RemAssign<u32> for Fast<u32> {
    /// Replaces `self` by its remainder with a raw pattern.
    fn rem_assign(&mut self, rhs: u32)
        ensures
            final(self).0 == remainder_of(old(self).0, rhs),
    {
        self.0 = remainder(self.0, rhs);
    }
}

impl core::ops::Neg for Fast<u32> {
    type Output = Fast<u32>;

    /// The negation: the sign bit is flipped, also on a zero or a NaN.
    fn neg(self) -> (r: Fast<u32>) {
        Fast(self.0 ^ SIGN_MASK)
    }
}

impl NegSpecImpl for Fast<u32> {
    open spec fn obeys_neg_spec() -> bool {
        true
    }

    open spec fn neg_req(self) -> bool {
        true
    }

    open spec fn neg_spec(self) -> Fast<u32> {
        Fast(self.0 ^ 0x8000_0000)
    }
}

} // verus!
