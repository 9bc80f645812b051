//! The sign and the exponent class packed into one word.
//!
//! The highest bit is the sign, set for a negative value. The 63 bits under
//! it hold the biased exponent: 0 for a zero, the two largest numbers for an
//! infinity and for a value that is not a number, and `e + EXPONENT_BIAS` for
//! a finite value of exponent `e`. The finite exponents in range fill the
//! numbers in between, so that every word unpacks to a sign and a class, and
//! the biased exponent of an infinity is one past that of the largest finite
//! exponent.
use crate::consts::{
    BIASED_EXPONENT_INF,
    BIASED_EXPONENT_MASK,
    BIASED_EXPONENT_NAN,
    BIASED_EXPONENT_ZERO,
    EXPONENT_BIAS,
    MAX_EXPONENT_INCLUSIVE,
    MIN_EXPONENT_INCLUSIVE,
    SIGN_SHIFT,
};
use crate::round::Sign;
use crate::value::{exponent_in_range, BigFloat, Exponent};
use vstd::prelude::*;

verus! {

/// The biased exponent of an exponent class.
pub open spec fn spec_biased(exponent: Exponent) -> int {
    match exponent {
        Exponent::Zero => BIASED_EXPONENT_ZERO as int,
        Exponent::Finite(e) => e + EXPONENT_BIAS,
        Exponent::Inf => BIASED_EXPONENT_INF as int,
        Exponent::NaN => BIASED_EXPONENT_NAN as int,
    }
}

/// The packed word of a sign and an exponent class: the biased exponent, and
/// `2^63` more for a negative sign.
pub open spec fn spec_pack(sign: Sign, exponent: Exponent) -> int {
    spec_biased(exponent) + if sign == Sign::Neg {
        0x8000_0000_0000_0000int
    } else {
        0
    }
}

/// The sign and the exponent class that a packed word holds.
pub open spec fn spec_unpack(bits: u64) -> (Sign, Exponent) {
    let sign = if bits >= 0x8000_0000_0000_0000 {
        Sign::Neg
    } else {
        Sign::Pos
    };
    let biased = bits as int % 0x8000_0000_0000_0000;
    let exponent = if biased == BIASED_EXPONENT_ZERO {
        Exponent::Zero
    } else if biased == BIASED_EXPONENT_INF {
        Exponent::Inf
    } else if biased == BIASED_EXPONENT_NAN {
        Exponent::NaN
    } else {
        Exponent::Finite((biased - EXPONENT_BIAS) as i64)
    };
    (sign, exponent)
}

/// A carry out of the mantissa adds one to the packed word: the exponent
/// after it has the next biased exponent, which past the largest finite
/// exponent is that of an infinity.
pub proof fn lemma_successor_is_next_biased(sign: Sign, e: i64)
    requires
        exponent_in_range(e),
    ensures
        spec_pack(sign, Exponent::Finite(e).spec_successor()) == spec_pack(
            sign,
            Exponent::Finite(e),
        ) + 1,
{
}

/// Packs a sign and an exponent class into one word. There is no word for a
/// finite exponent out of range.
pub fn pack(sign: Sign, exponent: Exponent) -> (bits: Option<u64>)
    ensures
        bits is Some <==> (exponent matches Exponent::Finite(e) ==> exponent_in_range(e)),
        bits matches Some(b) ==> b == spec_pack(sign, exponent) && spec_unpack(b) == (
            sign,
            exponent,
        ),
{
    let biased: u64 = match exponent {
        Exponent::Zero => BIASED_EXPONENT_ZERO,
        Exponent::Inf => BIASED_EXPONENT_INF,
        Exponent::NaN => BIASED_EXPONENT_NAN,
        Exponent::Finite(e) => {
            if e < MIN_EXPONENT_INCLUSIVE || e > MAX_EXPONENT_INCLUSIVE {
                return None;
            }
            if e >= 0 {
                EXPONENT_BIAS + (e as u64)
            } else {
                EXPONENT_BIAS - ((-e) as u64)
            }
        },
    };
    let high: u64 = match sign {
        Sign::Pos => 0,
        Sign::Neg => 1,
    };
    assert(biased <= 0x7fff_ffff_ffff_ffff ==> ((high << 63) | biased) == high
        * 0x8000_0000_0000_0000 + biased) by (bit_vector)
        requires
            high <= 1,
    ;
    Some((high << SIGN_SHIFT) | biased)
}

/// Unpacks a word into the sign and the exponent class that it holds. Every
/// word holds some, and packs to itself again.
pub fn unpack(bits: u64) -> (parts: (Sign, Exponent))
    ensures
        parts == spec_unpack(bits),
        parts.1 matches Exponent::Finite(e) ==> exponent_in_range(e),
        spec_pack(parts.0, parts.1) == bits,
{
    assert((bits >> 63) == 0 <==> bits < 0x8000_0000_0000_0000) by (bit_vector);
    assert((bits & 0x7fff_ffff_ffff_ffff) == bits % 0x8000_0000_0000_0000) by (bit_vector);
    let sign = if (bits >> SIGN_SHIFT) == 0 {
        Sign::Pos
    } else {
        Sign::Neg
    };
    let biased = bits & BIASED_EXPONENT_MASK;
    let exponent = if biased == BIASED_EXPONENT_ZERO {
        Exponent::Zero
    } else if biased == BIASED_EXPONENT_INF {
        Exponent::Inf
    } else if biased == BIASED_EXPONENT_NAN {
        Exponent::NaN
    } else if biased >= EXPONENT_BIAS {
        Exponent::Finite((biased - EXPONENT_BIAS) as i64)
    } else {
        Exponent::Finite(-((EXPONENT_BIAS - biased) as i64))
    };
    (sign, exponent)
}

impl BigFloat {
    /// The sign and the exponent class of the value packed into one word, if
    /// the exponent has one.
    pub fn sign_biased_exponent(&self) -> (bits: Option<u64>)
        ensures
            bits is Some <==> (self@.exponent matches Exponent::Finite(e) ==> exponent_in_range(e)),
            bits matches Some(b) ==> b == spec_pack(self@.sign, self@.exponent) && spec_unpack(b)
                == (self@.sign, self@.exponent),
    {
        pack(self.sign, self.exponent)
    }

    /// Gives the value the sign and the exponent class that `bits` hold, and
    /// leaves its precision and its mantissa as they are.
    pub fn set_sign_biased_exponent(&mut self, bits: u64)
        ensures
            (final(self)@.sign, final(self)@.exponent) == spec_unpack(bits),
            final(self)@.precision == old(self)@.precision,
            final(self)@.mantissa == old(self)@.mantissa,
            final(self).limbs() == old(self).limbs(),
    {
        let (sign, exponent) = unpack(bits);
        self.sign = sign;
        self.exponent = exponent;
    }
}

} // verus!
