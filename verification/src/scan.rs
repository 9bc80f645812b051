//! Reading the bits that a narrower mantissa drops.
//!
//! A mantissa cut `whole` words and `partial` bits above its low end loses
//! its low `64 * whole + partial` bits. The functions here tell, from the
//! words alone, the round bit, the sticky bit and the lowest bit kept.
use crate::limbs::{lemma_limbs_value_bit, lemma_limbs_value_low_clear, limbs_value};
use crate::rounding::{kept_is_odd, round_bit, sticky_bit};
use vstd::arithmetic::power2::{lemma_pow2_pos, pow2};
use vstd::bits::{
    lemma_u64_low_bits_mask_is_mod,
    lemma_u64_pow2_no_overflow,
    lemma_u64_shl_is_mul,
    lemma_u64_shr_is_div,
    low_bits_mask,
};
use vstd::prelude::*;

verus! {

/// A word with its low `bits` bits set and the others clear.
pub fn low_mask(bits: u64) -> (mask: u64)
    requires
        bits < 64,
    ensures
        mask == pow2(bits as nat) - 1,
        forall|w: u64| #[trigger] (w & mask) == w as nat % pow2(bits as nat),
{
    proof {
        lemma_u64_pow2_no_overflow(bits as nat);
        lemma_u64_shl_is_mul(1, bits);
        assert forall|w: u64| #[trigger] (w & (low_bits_mask(bits as nat) as u64)) == w as nat
            % pow2(bits as nat) by {
            lemma_u64_low_bits_mask_is_mod(w, bits as nat);
        }
    }
    (1u64 << bits) - 1
}

/// Whether bit `bit` of `word` is set.
pub fn word_bit(word: u64, bit: u64) -> (set: bool)
    requires
        bit < 64,
    ensures
        set == ((word as nat / pow2(bit as nat)) % 2 == 1),
{
    proof {
        lemma_u64_shr_is_div(word, bit);
        let shifted = word >> bit;
        assert((shifted & 1 == 1) == (shifted % 2 == 1)) by (bit_vector);
    }
    (word >> bit) & 1 == 1
}

/// The round bit and the sticky bit of `src` cut `whole` words and `partial`
/// bits above its low end, in this order. Reads the word of the round bit and
/// the words under it, no others.
pub fn scan_discarded(src: &[u64], whole: usize, partial: u64) -> (bits: (bool, bool))
    requires
        whole < src@.len(),
        partial < 64,
        whole > 0 || partial > 0,
    ensures
        bits.0 == round_bit(limbs_value(src@), (64 * whole + partial) as nat),
        bits.1 == sticky_bit(limbs_value(src@), (64 * whole + partial) as nat),
{
    let (j, b): (usize, u64) = if partial == 0 {
        (whole - 1, 63)
    } else {
        (whole, partial - 1)
    };
    let word = src[j];
    let round = word_bit(word, b);
    let mut low: u64 = word & low_mask(b);
    let mut i: usize = j;
    while i > 0
        invariant
            i <= j < src@.len(),
            low == 0 <==> (word as nat % pow2(b as nat) == 0 && forall|t: int|
                i <= t < j ==> src@[t] == 0),
        decreases i,
    {
        i -= 1;
        let next = src[i];
        assert((low | next) == 0 <==> (low == 0 && next == 0)) by (bit_vector);
        low |= next;
    }
    proof {
        assert((64 * whole + partial - 1) as nat == (64 * j + b) as nat);
        lemma_limbs_value_bit(src@, j as int, b as nat);
        lemma_limbs_value_low_clear(src@, j as int, b as nat);
    }
    (round, low != 0)
}

/// Whether the lowest bit that is kept of `src`, cut `whole` words and
/// `partial` bits above its low end, is set.
pub fn lowest_kept_bit(src: &[u64], whole: usize, partial: u64) -> (odd: bool)
    requires
        whole < src@.len(),
        partial < 64,
    ensures
        odd == kept_is_odd(limbs_value(src@), (64 * whole + partial) as nat),
{
    proof {
        lemma_limbs_value_bit(src@, whole as int, partial as nat);
    }
    word_bit(src[whole], partial)
}

} // verus!
