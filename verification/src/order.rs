//! A total order for scalars, built on the partial order of the numbers.
//!
//! Numbers are only partially ordered: a NaN is neither below, nor equal to,
//! nor above anything. The order of this module answers `Less` where the
//! first number is below the second, `Equal` where the two are equal, and
//! `Greater` in every other case. So every comparison that involves a NaN
//! answers `Greater`, that of a NaN with itself too: on NaNs the order is not
//! reflexive. Sorted containers that may meet a NaN must not rely on it.
use vstd::prelude::*;
use core::cmp::Ordering;
use crate::scalar::Fast;
use crate::double;
use crate::single;

verus! {

/// The order of two binary32 patterns.
pub open spec fn compare32(a: u32, b: u32) -> Ordering {
    if single::less(a, b) {
        Ordering::Less
    } else if single::equal(a, b) {
        Ordering::Equal
    } else {
        Ordering::Greater
    }
}

impl Fast<u32> {
    /// Orders `self` against `other`.
    pub fn cmp(&self, other: &Self) -> (r: Ordering)
        ensures
            r == compare32(self.0, other.0),
    {
        if single::lt(self.0, other.0) {
            Ordering::Less
        } else if single::eq(self.0, other.0) {
            Ordering::Equal
        } else {
            Ordering::Greater
        }
    }
}

impl PartialEq for Fast<u32> {
    /// Equality of the numbers: a NaN equals nothing, the two zeros are equal.
    fn eq(&self, other: &Self) -> (r: bool) {
        single::eq(self.0, other.0)
    }
}

impl vstd::std_specs::cmp::PartialEqSpecImpl for Fast<u32> {
    open spec fn obeys_eq_spec() -> bool {
        true
    }

    open spec fn eq_spec(&self, other: &Self) -> bool {
        single::equal(self.0, other.0)
    }
}

impl PartialEq<u32> for Fast<u32> {
    /// Equality with the number that the raw pattern `other` denotes.
    fn eq(&self, other: &u32) -> (r: bool) {
        single::eq(self.0, *other)
    }
}

impl vstd::std_specs::cmp::PartialEqSpecImpl<u32> for Fast<u32> {
    open spec fn obeys_eq_spec() -> bool {
        true
    }

    open spec fn eq_spec(&self, other: &u32) -> bool {
        single::equal(self.0, *other)
    }
}

impl PartialOrd for Fast<u32> {
    /// The partial order of the numbers: `None` as soon as one is a NaN.
    fn partial_cmp(&self, other: &Self) -> (r: Option<Ordering>) {
        if single::lt(self.0, other.0) {
            Some(Ordering::Less)
        } else if single::eq(self.0, other.0) {
            Some(Ordering::Equal)
        } else if single::lt(other.0, self.0) {
            Some(Ordering::Greater)
        } else {
            None
        }
    }
}

impl vstd::std_specs::cmp::PartialOrdSpecImpl for Fast<u32> {
    open spec fn obeys_partial_cmp_spec() -> bool {
        true
    }

    open spec fn partial_cmp_spec(&self, other: &Self) -> Option<Ordering> {
        if single::less(self.0, other.0) {
            Some(Ordering::Less)
        } else if single::equal(self.0, other.0) {
            Some(Ordering::Equal)
        } else if single::less(other.0, self.0) {
            Some(Ordering::Greater)
        } else {
            None
        }
    }
}

impl PartialOrd<u32> for Fast<u32> {
    /// The total order against the raw pattern `other`, never `None`.
    fn partial_cmp(&self, other: &u32) -> (r: Option<Ordering>) {
        Some(self.cmp(&Fast(*other)))
    }
}

impl vstd::std_specs::cmp::PartialOrdSpecImpl<u32> for Fast<u32> {
    open spec fn obeys_partial_cmp_spec() -> bool {
        true
    }

    open spec fn partial_cmp_spec(&self, other: &u32) -> Option<Ordering> {
        Some(compare32(self.0, *other))
    }
}

/// A number compares `Equal` to itself: on numbers the order is
/// reflexive.
pub proof fn lemma_compare32_reflexive(a: u32)
    requires
        !single::is_nan(a),
    ensures
        compare32(a, a) == Ordering::Equal,
{
}

/// On numbers the order is antisymmetric: turning a comparison round turns
/// its answer round, and two numbers of which neither is above the other
/// are equal.
pub proof fn lemma_compare32_antisymmetric(a: u32, b: u32)
    requires
        !single::is_nan(a),
        !single::is_nan(b),
    ensures
        compare32(a, b) == Ordering::Less <==> compare32(b, a) == Ordering::Greater,
        compare32(a, b) == Ordering::Equal <==> compare32(b, a) == Ordering::Equal,
        compare32(a, b) != Ordering::Greater && compare32(b, a) != Ordering::Greater
            ==> single::equal(a, b),
{
}

/// On numbers the order is transitive, strictly so as soon as one of the two
/// steps is strict.
pub proof fn lemma_compare32_transitive(a: u32, b: u32, c: u32)
    requires
        !single::is_nan(a),
        !single::is_nan(b),
        !single::is_nan(c),
        compare32(a, b) != Ordering::Greater,
        compare32(b, c) != Ordering::Greater,
    ensures
        compare32(a, c) != Ordering::Greater,
        compare32(a, b) == Ordering::Less || compare32(b, c) == Ordering::Less ==> compare32(a, c)
            == Ordering::Less,
{
}

/// The hazard of this order: a comparison that involves a NaN answers
/// `Greater`, whichever side the NaN is on. A NaN is above itself.
pub proof fn lemma_compare32_nan(a: u32, b: u32)
    requires
        single::is_nan(a) || single::is_nan(b),
    ensures
        compare32(a, b) == Ordering::Greater,
        compare32(b, a) == Ordering::Greater,
{
}

/// The order of two binary64 patterns.
pub open spec fn compare64(a: u64, b: u64) -> Ordering {
    if double::less(a, b) {
        Ordering::Less
    } else if double::equal(a, b) {
        Ordering::Equal
    } else {
        Ordering::Greater
    }
}

impl Fast<u64> {
    /// Orders `self` against `other`.
    pub fn cmp(&self, other: &Self) -> (r: Ordering)
        ensures
            r == compare64(self.0, other.0),
    {
        if double::lt(self.0, other.0) {
            Ordering::Less
        } else if double::eq(self.0, other.0) {
            Ordering::Equal
        } else {
            Ordering::Greater
        }
    }
}

impl PartialEq for Fast<u64> {
    /// Equality of the numbers: a NaN equals nothing, the two zeros are equal.
    fn eq(&self, other: &Self) -> (r: bool) {
        double::eq(self.0, other.0)
    }
}

impl vstd::std_specs::cmp::PartialEqSpecImpl for Fast<u64> {
    open spec fn obeys_eq_spec() -> bool {
        true
    }

    open spec fn eq_spec(&self, other: &Self) -> bool {
        double::equal(self.0, other.0)
    }
}

impl PartialEq<u64> for Fast<u64> {
    /// Equality with the number that the raw pattern `other` denotes.
    fn eq(&self, other: &u64) -> (r: bool) {
        double::eq(self.0, *other)
    }
}

impl vstd::std_specs::cmp::PartialEqSpecImpl<u64> for Fast<u64> {
    open spec fn obeys_eq_spec() -> bool {
        true
    }

    open spec fn eq_spec(&self, other: &u64) -> bool {
        double::equal(self.0, *other)
    }
}

impl PartialOrd for Fast<u64> {
    /// The partial order of the numbers: `None` as soon as one is a NaN.
    fn partial_cmp(&self, other: &Self) -> (r: Option<Ordering>) {
        if double::lt(self.0, other.0) {
            Some(Ordering::Less)
        } else if double::eq(self.0, other.0) {
            Some(Ordering::Equal)
        } else if double::lt(other.0, self.0) {
            Some(Ordering::Greater)
        } else {
            None
        }
    }
}

impl vstd::std_specs::cmp::PartialOrdSpecImpl for Fast<u64> {
    open spec fn obeys_partial_cmp_spec() -> bool {
        true
    }

    open spec fn partial_cmp_spec(&self, other: &Self) -> Option<Ordering> {
        if double::less(self.0, other.0) {
            Some(Ordering::Less)
        } else if double::equal(self.0, other.0) {
            Some(Ordering::Equal)
        } else if double::less(other.0, self.0) {
            Some(Ordering::Greater)
        } else {
            None
        }
    }
}

impl PartialOrd<u64> for Fast<u64> {
    /// The total order against the raw pattern `other`, never `None`.
    fn partial_cmp(&self, other: &u64) -> (r: Option<Ordering>) {
        Some(self.cmp(&Fast(*other)))
    }
}

impl vstd::std_specs::cmp::PartialOrdSpecImpl<u64> for Fast<u64> {
    open spec fn obeys_partial_cmp_spec() -> bool {
        true
    }

    open spec fn partial_cmp_spec(&self, other: &u64) -> Option<Ordering> {
        Some(compare64(self.0, *other))
    }
}

/// A number compares `Equal` to itself: on numbers the order is
/// reflexive.
pub proof fn lemma_compare64_reflexive(a: u64)
    requires
        !double::is_nan(a),
    ensures
        compare64(a, a) == Ordering::Equal,
{
}

/// On numbers the order is antisymmetric: turning a comparison round turns
/// its answer round, and two numbers of which neither is above the other
/// are equal.
pub proof fn lemma_compare64_antisymmetric(a: u64, b: u64)
    requires
        !double::is_nan(a),
        !double::is_nan(b),
    ensures
        compare64(a, b) == Ordering::Less <==> compare64(b, a) == Ordering::Greater,
        compare64(a, b) == Ordering::Equal <==> compare64(b, a) == Ordering::Equal,
        compare64(a, b) != Ordering::Greater && compare64(b, a) != Ordering::Greater
            ==> double::equal(a, b),
{
}

/// On numbers the order is transitive, strictly so as soon as one of the two
/// steps is strict.
pub proof fn lemma_compare64_transitive(a: u64, b: u64, c: u64)
    requires
        !double::is_nan(a),
        !double::is_nan(b),
        !double::is_nan(c),
        compare64(a, b) != Ordering::Greater,
        compare64(b, c) != Ordering::Greater,
    ensures
        compare64(a, c) != Ordering::Greater,
        compare64(a, b) == Ordering::Less || compare64(b, c) == Ordering::Less ==> compare64(a, c)
            == Ordering::Less,
{
}

/// The hazard of this order: a comparison that involves a NaN answers
/// `Greater`, whichever side the NaN is on. A NaN is above itself.
pub proof fn lemma_compare64_nan(a: u64, b: u64)
    requires
        double::is_nan(a) || double::is_nan(b),
    ensures
        compare64(a, b) == Ordering::Greater,
        compare64(b, a) == Ordering::Greater,
{
}

} // verus!
