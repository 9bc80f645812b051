//! Sizes and limits of the representation.
use vstd::prelude::*;

verus! {

/// Bits in one mantissa word.
pub const LIMB_BITS: u64 = 64;

/// A word with only its highest bit set: the top word of the smallest
/// normalized mantissa.
pub const LIMB_HIGH_BIT: u64 = 0x8000_0000_0000_0000;

/// Position of the sign bit in the packed sign and exponent.
pub const SIGN_SHIFT: u64 = 63;

/// The bits of the packed sign and exponent that hold the biased exponent.
pub const BIASED_EXPONENT_MASK: u64 = 0x7fff_ffff_ffff_ffff;

/// What is added to the exponent of a finite value to pack it.
pub const EXPONENT_BIAS: u64 = 0x3fff_ffff_ffff_ffff;

/// The biased exponent that stands for zero.
pub const BIASED_EXPONENT_ZERO: u64 = 0;

/// The biased exponent that stands for an infinity: one past that of the
/// largest finite exponent.
pub const BIASED_EXPONENT_INF: u64 = 0x7fff_ffff_ffff_fffe;

/// The biased exponent that stands for a value that is not a number.
pub const BIASED_EXPONENT_NAN: u64 = 0x7fff_ffff_ffff_ffff;

/// Largest exponent of a finite value.
pub const MAX_EXPONENT_INCLUSIVE: i64 = 0x3fff_ffff_ffff_fffe;

/// Smallest exponent of a finite value.
pub const MIN_EXPONENT_INCLUSIVE: i64 = -0x3fff_ffff_ffff_fffe;

} // verus!
