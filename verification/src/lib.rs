//! Correctly rounded precision conversion for arbitrary-precision binary
//! floating-point values.
//!
//! A [`value::BigFloat`] holds a sign, an exponent class and a mantissa of a
//! precision fixed when the value is made. [`copy::copy`],
//! [`copy::copy_with_sign`] and [`copy::abs`] write one value into another of
//! any precision: exactly where the destination is at least as wide, rounded
//! under a [`round::Round`] where it is narrower. They return an
//! [`round::Approx`], which tells whether the stored value equals the source,
//! lies above or below it, or overflowed to an infinity.
//!
//! The modules, from the ground up:
//!
//! - [`consts`]: sizes and limits of the representation;
//! - [`round`]: signs, rounding modes and outcomes, and the step from a mode
//!   to one on the magnitude alone;
//! - [`limbs`]: the number that a sequence of words stands for;
//! - [`rounding`]: what rounding a number to fewer bits means;
//! - [`value`]: the value, its model and its invariant;
//! - [`packed`]: the sign and the exponent class in one word;
//! - [`scan`]: reading the round bit and the sticky bit off the words;
//! - [`commit`]: writing the words, truncated or widened, and adding with
//!   carry;
//! - [`copy`]: the copying functions and what they compute;
//! - [`laws`]: what holds of every copy.
pub mod commit;
pub mod consts;
pub mod copy;
pub mod laws;
pub mod limbs;
pub mod packed;
pub mod round;
pub mod rounding;
pub mod scan;
pub mod value;
