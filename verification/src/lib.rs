//! Scalars for relaxed ("fast-math") numeric code.
//!
//! A scalar is carried as its IEEE-754 bit pattern: `Fast<u32>` is a binary32
//! number and `Fast<u64>` a binary64 number. Every operation is integer
//! arithmetic on the pattern, and its contract is stated over the number
//! that the pattern denotes.
//!
//! Relaxed arithmetic asks for the ordinary rounded result on finite
//! operands and leaves everything else open. This library gives the
//! correctly rounded result on finite operands and fixes the rest as
//! IEEE-754 does, so every operation has one result for every pattern:
//! stricter than relaxed code may assume, never looser.
//!
//! - [`model`] says what number a pattern denotes: every finite number is a
//!   whole multiple of the smallest subnormal of its format.
//! - [`rounding`] and [`root`] say what the nearest number to an exact
//!   result is, for fractions and for square roots.
//! - [`single`] and [`double`] hold the two formats, each with its
//!   arithmetic, fused multiply-add, square root, whole powers, roundings to
//!   whole numbers, operators, summation and laws; `single` holds the fast
//!   logarithm, and both the fast exponential.
//! - [`order`] builds the total order, which puts every comparison with a
//!   NaN at `Greater`.
//! - [`convert`] widens and narrows between the two formats.
//! - [`scalar`] is the wrapper type, and [`wide`] a few helpers on 128-bit
//!   integers.
pub mod convert;
pub mod double;
pub mod model;
pub mod order;
pub mod root;
pub mod rounding;
pub mod scalar;
pub mod single;
pub mod wide;
