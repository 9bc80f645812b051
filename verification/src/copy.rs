//! Copying a value into a destination of another precision.
//!
//! The destination keeps its precision. Where it is at least as wide as the
//! source the copy is exact; where it is narrower the source is rounded to
//! the destination's precision under the caller's rounding mode, and the
//! result tells on which side of the source the stored value lies.
use crate::commit::{copy_truncated, copy_widened, ripple_add, zero_limbs};
use crate::consts::LIMB_HIGH_BIT;
use crate::laws::{
    lemma_copy_keeps_invariant,
    lemma_equal_precision_copy_is_identical,
    lemma_widening_copy_is_exact,
};
use crate::limbs::{
    lemma_limbs_value_bound,
    lemma_limbs_value_leading_bit,
    lemma_limbs_value_zero,
    limbs_value,
};
use crate::round::{Approx, Round, RoundKnownSign, Sign};
use crate::rounding::{
    dropped,
    kept,
    lemma_exact_iff_bits_clear,
    lemma_kept_bounds,
    rounded,
    rounds_away,
};
use crate::scan::{lowest_kept_bit, scan_discarded};
use crate::value::{mantissa_bits, padding, padding_bits, BigFloat, Exponent, FloatModel};
use vstd::arithmetic::power2::{lemma_pow2_adds, lemma_pow2_pos, pow2};
use vstd::bits::{lemma_u64_pow2_no_overflow, lemma_u64_shl_is_mul};
use vstd::prelude::*;

verus! {

/// Number of low mantissa bits that a source of precision `src_precision`
/// loses in a destination of the smaller precision `dst_precision`: all of
/// its bits but the leading `dst_precision`.
pub open spec fn dropped_bits(src_precision: nat, dst_precision: nat) -> nat {
    (mantissa_bits(src_precision) - dst_precision) as nat
}

/// A finite `src` rounded into the narrower `dst` under `rnd`, with sign
/// `sign`, and how the result relates to the source.
///
/// The leading bits of the source mantissa, as many as the destination has,
/// are rounded under `rnd`. If the result takes one bit more than that, the
/// mantissa is the leading bit alone and the exponent grows by one, to an
/// infinity past the largest exponent.
pub open spec fn spec_copy_rounded(
    dst: FloatModel,
    src: FloatModel,
    rnd: RoundKnownSign,
    sign: Sign,
) -> (FloatModel, Approx) {
    let cut = dropped_bits(src.precision, dst.precision);
    let r = rounded(src.mantissa, cut, rnd);
    let carried = r >= pow2(dst.precision);
    let exponent = if carried {
        src.exponent.spec_successor()
    } else {
        src.exponent
    };
    let mantissa = if carried {
        pow2((mantissa_bits(dst.precision) - 1) as nat)
    } else {
        r * pow2(padding_bits(dst.precision))
    };
    let approx = if dropped(src.mantissa, cut) == 0 {
        Approx::Exact
    } else if rounds_away(src.mantissa, cut, rnd) {
        if exponent is Inf {
            Approx::Overflow
        } else {
            Approx::spec_from_sign(sign)
        }
    } else {
        Approx::spec_from_sign(sign.spec_neg())
    };
    (FloatModel { precision: dst.precision, sign, exponent, mantissa }, approx)
}

/// `src` copied into `dst` under `rnd`, with sign `sign`, and how the result
/// relates to the source.
///
/// The destination keeps its precision and takes the sign given. From a zero,
/// an infinity or a value that is not a number it takes the class and keeps
/// its own mantissa, which means nothing there. From a finite value it takes
/// the exponent and the mantissa: set above zero words where it is at least
/// as wide as the source, rounded where it is narrower.
pub open spec fn spec_copy_with_sign(dst: FloatModel, src: FloatModel, rnd: Round, sign: Sign) -> (
    FloatModel,
    Approx,
) {
    if src.exponent.is_special() {
        (FloatModel { sign, exponent: src.exponent, ..dst }, Approx::Exact)
    } else if dst.precision >= src.precision {
        (
            FloatModel {
                precision: dst.precision,
                sign,
                exponent: src.exponent,
                mantissa: src.mantissa * pow2(
                    (mantissa_bits(dst.precision) - mantissa_bits(src.precision)) as nat,
                ),
            },
            Approx::Exact,
        )
    } else {
        spec_copy_rounded(dst, src, rnd.spec_with_sign(sign), sign)
    }
}

/// After one unit in the last place is added to a truncated mantissa of
/// significand `q`: a carry out of the words means that `q + 1` no longer
/// fits the precision and leaves the words zero; without one the words hold
/// `q + 1`.
proof fn lemma_increment_outcome(q: nat, precision: nat, pad: nat, sum: nat, carry: bool)
    requires
        q < pow2(precision),
        sum < pow2(precision + pad),
        sum + (if carry {
            pow2(precision + pad)
        } else {
            0
        }) == q * pow2(pad) + pow2(pad),
    ensures
        carry <==> q + 1 >= pow2(precision),
        carry ==> sum == 0,
        !carry ==> sum == (q + 1) * pow2(pad),
{
    let unit = pow2(pad);
    let top = pow2(precision);
    lemma_pow2_pos(pad);
    lemma_pow2_adds(precision, pad);
    assert(q * unit + unit == (q + 1) * unit) by (nonlinear_arith);
    if carry {
        assert(q + 1 >= top && sum == 0) by (nonlinear_arith)
            requires
                sum + top * unit == (q + 1) * unit,
                q + 1 <= top,
                unit > 0,
                sum >= 0,
        ;
    } else {
        assert(q + 1 < top) by (nonlinear_arith)
            requires
                (q + 1) * unit < top * unit,
                unit > 0,
        ;
    }
}

/// Rounds a `src` of greater precision into `dst`, with sign `sign`.
///
/// The destination takes the sign given and the exponent class of the
/// source. From a zero, an infinity or a value that is not a number nothing
/// else is taken. From a finite value the discarded bits are read, the bits
/// kept are written, and one unit in the last place is added where the mode
/// rounds away from zero; a carry out of the mantissa raises the exponent.
pub fn copy_finite_with_sign_round(dst: &mut BigFloat, src: &BigFloat, rnd: Round, sign: Sign) -> (approx:
    Approx)
    requires
        old(dst).sized(),
        src.sized(),
        src@.precision > old(dst)@.precision,
    ensures
        final(dst).sized(),
        (final(dst)@, approx) == spec_copy_with_sign(old(dst)@, src@, rnd, sign),
        old(dst)@.canonical() && src.wf() ==> final(dst).wf(),
        src@.exponent.is_special() ==> final(dst).limbs() == old(dst).limbs(),
{
    proof {
        lemma_limbs_value_bound(dst.limbs());
        lemma_limbs_value_bound(src.limbs());
        lemma_copy_keeps_invariant(dst@, src@, rnd, sign);
    }
    dst.sign = sign;
    dst.exponent = src.exponent;
    match src.exponent {
        Exponent::Finite(_) => {},
        _ => {
            return Approx::Exact;
        },
    }
    let whole = src.mantissa.len() - dst.mantissa.len();
    let rnd = rnd.with_sign(sign);
    let partial = padding(dst.precision_bits);

    let ghost pd = dst@.precision;
    let ghost cut = dropped_bits(src@.precision, pd);
    let ghost v = src@.mantissa;
    let ghost q = kept(v, cut);
    proof {
        lemma_limbs_value_bound(src.limbs());
        assert((64 * whole + partial) as nat == cut);
        assert(pd + cut == mantissa_bits(src@.precision));
        lemma_kept_bounds(v, pd, cut);
        lemma_exact_iff_bits_clear(v, cut);
        assert(mantissa_bits(pd) == pd + padding_bits(pd));
    }
    let (round, sticky) = scan_discarded(src.mantissa.as_slice(), whole, partial);
    let odd = lowest_kept_bit(src.mantissa.as_slice(), whole, partial);
    copy_truncated(&mut dst.mantissa, src.mantissa.as_slice(), whole, partial);
    if !round && !sticky {
        Approx::Exact
    } else if rnd.rounds_away(round, sticky, odd) {
        proof {
            lemma_u64_pow2_no_overflow(partial as nat);
            lemma_u64_shl_is_mul(1, partial);
        }
        let carry = ripple_add(&mut dst.mantissa, 1u64 << partial);
        proof {
            lemma_limbs_value_bound(dst.limbs());
            lemma_increment_outcome(q, pd, padding_bits(pd), limbs_value(dst.limbs()), carry);
        }
        if carry {
            proof {
                lemma_limbs_value_zero(dst.limbs());
            }
            dst.exponent = dst.exponent.successor();
            let last = dst.mantissa.len() - 1;
            dst.mantissa[last] = LIMB_HIGH_BIT;
            proof {
                lemma_limbs_value_leading_bit(dst.limbs());
            }
        }
        match dst.exponent {
            Exponent::Inf => Approx::Overflow,
            _ => Approx::from_sign(sign),
        }
    } else {
        Approx::from_sign(sign.neg())
    }
}

/// Copies `src` into `dst` with sign `sign`, rounding under `rnd` where the
/// destination is narrower, and tells how the result relates to the source.
pub fn copy_with_sign(dst: &mut BigFloat, src: &BigFloat, rnd: Round, sign: Sign) -> (approx: Approx)
    requires
        old(dst).sized(),
        src.sized(),
    ensures
        final(dst).sized(),
        (final(dst)@, approx) == spec_copy_with_sign(old(dst)@, src@, rnd, sign),
        old(dst)@.canonical() && src.wf() ==> final(dst).wf(),
        src@.exponent.is_special() ==> final(dst).limbs() == old(dst).limbs(),
        !src@.exponent.is_special() && old(dst)@.precision >= src@.precision ==> final(dst).limbs()
            == zero_limbs((old(dst).limbs().len() - src.limbs().len()) as nat) + src.limbs(),
{
    proof {
        lemma_limbs_value_bound(dst.limbs());
        lemma_limbs_value_bound(src.limbs());
        lemma_copy_keeps_invariant(dst@, src@, rnd, sign);
    }
    dst.sign = sign;
    dst.exponent = src.exponent;
    match src.exponent {
        Exponent::Finite(_) => {},
        _ => {
            return Approx::Exact;
        },
    }
    if dst.precision_bits >= src.precision_bits {
        copy_widened(&mut dst.mantissa, src.mantissa.as_slice());
        proof {
            let shift = pow2((64 * (dst.limbs().len() - src.limbs().len())) as nat);
            assert(shift * src@.mantissa == src@.mantissa * shift) by (nonlinear_arith);
        }
        Approx::Exact
    } else {
        copy_finite_with_sign_round(dst, src, rnd, sign)
    }
}

/// Copies `src` into `dst`, sign included, rounding under `rnd` where the
/// destination is narrower.
///
/// Into a destination at least as wide as the source the copy is exact and
/// the destination stands for the same number; into one of the same precision
/// a finite source is copied bit for bit. A zero, an infinity or a value that
/// is not a number passes its sign and class on, whatever the rounding mode.
pub fn copy(dst: &mut BigFloat, src: &BigFloat, rnd: Round) -> (approx: Approx)
    requires
        old(dst).sized(),
        src.sized(),
    ensures
        final(dst).sized(),
        (final(dst)@, approx) == spec_copy_with_sign(old(dst)@, src@, rnd, src@.sign),
        old(dst)@.canonical() && src.wf() ==> final(dst).wf(),
        src@.exponent.is_special() ==> final(dst).limbs() == old(dst).limbs(),
        !src@.exponent.is_special() && old(dst)@.precision >= src@.precision ==> final(dst).limbs()
            == zero_limbs((old(dst).limbs().len() - src.limbs().len()) as nat) + src.limbs(),
        old(dst)@.precision >= src@.precision ==> approx == Approx::Exact
            && final(dst)@.same_value(src@),
        old(dst)@.precision == src@.precision && src@.exponent is Finite ==> final(dst)@ == src@
            && final(dst).limbs() == src.limbs(),
        src@.exponent.is_special() ==> approx == Approx::Exact && final(dst)@.exponent
            == src@.exponent && final(dst)@.sign == src@.sign,
{
    proof {
        if dst@.precision >= src@.precision {
            lemma_widening_copy_is_exact(dst@, src@, rnd, src@.sign);
        }
        if dst@.precision == src@.precision {
            lemma_equal_precision_copy_is_identical(dst@, src@, rnd, src@.sign);
        }
        assert(src@.with_sign(src@.sign) == src@);
    }
    let approx = copy_with_sign(dst, src, rnd, src.sign());
    proof {
        assert(zero_limbs(0) + src.limbs() =~= src.limbs());
    }
    approx
}

/// Copies the magnitude of `src` into `dst` with a positive sign, rounding
/// under `rnd` where the destination is narrower.
pub fn abs(dst: &mut BigFloat, src: &BigFloat, rnd: Round) -> (approx: Approx)
    requires
        old(dst).sized(),
        src.sized(),
    ensures
        final(dst).sized(),
        (final(dst)@, approx) == spec_copy_with_sign(old(dst)@, src@, rnd, Sign::Pos),
        old(dst)@.canonical() && src.wf() ==> final(dst).wf(),
        src@.exponent.is_special() ==> final(dst).limbs() == old(dst).limbs(),
        !src@.exponent.is_special() && old(dst)@.precision >= src@.precision ==> final(dst).limbs()
            == zero_limbs((old(dst).limbs().len() - src.limbs().len()) as nat) + src.limbs(),
{
    copy_with_sign(dst, src, rnd, Sign::Pos)
}

} // verus!
