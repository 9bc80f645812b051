//! What holds of every copy, proved over the model of the values.
//!
//! Each statement speaks of [`spec_copy_with_sign`], which the copying
//! functions are proved to compute, so each holds of every call of them.
use crate::consts::MAX_EXPONENT_INCLUSIVE;
use crate::copy::{dropped_bits, spec_copy_with_sign};
use crate::round::{Approx, Round, RoundKnownSign, Sign};
use crate::rounding::{
    dropped,
    kept,
    lemma_bits_shifted,
    lemma_exact_iff_bits_clear,
    lemma_kept_bounds,
    lemma_multiple_of_pow2,
    lemma_nearest_half_unit,
    lemma_rounded_brackets,
    round_bit,
    rounded,
    rounds_away,
    sticky_bit,
};
use crate::value::{mantissa_bits, padding_bits, Exponent, FloatModel};
use vstd::arithmetic::div_mod::{
    lemma_div_by_multiple,
    lemma_fundamental_div_mod,
    lemma_mod_multiples_basic,
};
use vstd::arithmetic::power2::{lemma_pow2_adds, lemma_pow2_pos, lemma_pow2_strictly_increases, pow2};
use vstd::prelude::*;

verus! {

impl FloatModel {
    /// The magnitude of a finite value in units of the lowest mantissa bit of
    /// a value of precision `precision` and exponent `exponent`, for a unit
    /// no greater than the value's own lowest mantissa bit.
    pub open spec fn magnitude_in_units_of(self, precision: nat, exponent: Exponent) -> nat
        recommends
            self.exponent is Finite,
            exponent is Finite,
            self.exponent->0 - mantissa_bits(self.precision) >= exponent->0 - mantissa_bits(
                precision,
            ),
    {
        self.mantissa * pow2(
            ((self.exponent->0 - mantissa_bits(self.precision)) - (exponent->0 - mantissa_bits(
                precision,
            ))) as nat,
        )
    }
}

impl Approx {
    /// The outcome seen from the other side of zero.
    pub open spec fn mirrored(self) -> Approx {
        match self {
            Approx::GreaterThanExact => Approx::LessThanExact,
            Approx::LessThanExact => Approx::GreaterThanExact,
            other => other,
        }
    }
}

/// A copy leaves a sized destination sized, and a well-formed source makes
/// a canonical destination well-formed.
pub proof fn lemma_copy_keeps_invariant(dst: FloatModel, src: FloatModel, rnd: Round, sign: Sign)
    requires
        dst.sized(),
        src.sized(),
    ensures
        spec_copy_with_sign(dst, src, rnd, sign).0.sized(),
        spec_copy_with_sign(dst, src, rnd, sign).0.precision == dst.precision,
        spec_copy_with_sign(dst, src, rnd, sign).0.sign == sign,
        dst.canonical() && src.wf() ==> spec_copy_with_sign(dst, src, rnd, sign).0.wf(),
{
    let res = spec_copy_with_sign(dst, src, rnd, sign).0;
    let ps = src.precision;
    let pd = dst.precision;
    let bs = mantissa_bits(ps);
    let bd = mantissa_bits(pd);
    let pad = padding_bits(pd);
    let f = src.mantissa;
    lemma_pow2_pos(pad);
    if src.exponent.is_special() {
    } else if pd >= ps {
        let gain = (bd - bs) as nat;
        let scale = pow2(gain);
        lemma_pow2_pos(gain);
        lemma_pow2_adds(bs, gain);
        assert(f * scale < pow2(bs) * scale) by (nonlinear_arith)
            requires
                f < pow2(bs),
                scale > 0,
        ;
        if dst.canonical() && src.wf() {
            let unit = pow2(padding_bits(ps));
            lemma_pow2_pos(padding_bits(ps));
            lemma_fundamental_div_mod(f as int, unit as int);
            let m = f / unit;
            assert(f == m * unit) by (nonlinear_arith)
                requires
                    f == unit * m + f % unit,
                    f % unit == 0,
            ;
            lemma_pow2_adds(padding_bits(ps), gain);
            assert(f * scale == m * pow2(padding_bits(ps) + gain)) by (nonlinear_arith)
                requires
                    f == m * unit,
                    pow2(padding_bits(ps) + gain) == unit * scale,
            ;
            lemma_multiple_of_pow2(m, pad, padding_bits(ps) + gain);
            lemma_pow2_adds((bs - 1) as nat, gain);
            assert(f * scale >= pow2((bs - 1) as nat) * scale) by (nonlinear_arith)
                requires
                    f >= pow2((bs - 1) as nat),
                    scale > 0,
            ;
        }
    } else {
        let cut = dropped_bits(ps, pd);
        let known = rnd.spec_with_sign(sign);
        let q = kept(f, cut);
        let r = rounded(f, cut, known);
        let unit = pow2(pad);
        assert(pd + cut == bs);
        assert(bd == pd + pad);
        lemma_kept_bounds(f, pd, cut);
        lemma_rounded_brackets(f, cut, known);
        lemma_pow2_adds(pd, pad);
        lemma_pow2_adds((pd - 1) as nat, pad);
        lemma_pow2_strictly_increases((bd - 1) as nat, bd);
        if r >= pow2(pd) {
            assert(pow2((bd - 1) as nat) == 1 * pow2((bd - 1) as nat)) by (nonlinear_arith);
            lemma_multiple_of_pow2(1, pad, (bd - 1) as nat);
        } else {
            assert(r * unit < pow2(pd) * unit) by (nonlinear_arith)
                requires
                    r < pow2(pd),
                    unit > 0,
            ;
            lemma_mod_multiples_basic(r as int, unit as int);
            if src.wf() {
                assert((pd - 1 + cut) as nat == (bs - 1) as nat);
                assert(r * unit >= pow2((pd - 1) as nat) * unit) by (nonlinear_arith)
                    requires
                        r >= pow2((pd - 1) as nat),
                        unit > 0,
                ;
            }
        }
    }
}

/// Into a destination at least as wide as the source every copy is exact:
/// the outcome says so and the destination stands for the same number as the
/// source under the sign given.
pub proof fn lemma_widening_copy_is_exact(dst: FloatModel, src: FloatModel, rnd: Round, sign: Sign)
    requires
        dst.precision >= src.precision,
    ensures
        spec_copy_with_sign(dst, src, rnd, sign).1 == Approx::Exact,
        spec_copy_with_sign(dst, src, rnd, sign).0.same_value(src.with_sign(sign)),
{
    let bs = mantissa_bits(src.precision);
    let bd = mantissa_bits(dst.precision);
    if !src.exponent.is_special() {
        let gain = (bd - bs) as nat;
        lemma_pow2_adds(gain, bs);
        assert((src.mantissa * pow2(gain)) * pow2(bs) == src.mantissa * pow2(bd))
            by (nonlinear_arith)
            requires
                pow2(bd) == pow2(gain) * pow2(bs),
        ;
    }
}

/// Into a destination of the source's precision every copy is exact and
/// takes the sign given and the exponent of the source; of a finite source it
/// takes the mantissa bit for bit, so that the destination is the source
/// under that sign. (Of a zero, an infinity or a value that is not a number
/// the mantissa means nothing and is not copied.)
pub proof fn lemma_equal_precision_copy_is_identical(
    dst: FloatModel,
    src: FloatModel,
    rnd: Round,
    sign: Sign,
)
    requires
        dst.precision == src.precision,
    ensures
        spec_copy_with_sign(dst, src, rnd, sign).1 == Approx::Exact,
        spec_copy_with_sign(dst, src, rnd, sign).0.sign == sign,
        spec_copy_with_sign(dst, src, rnd, sign).0.exponent == src.exponent,
        src.exponent is Finite ==> spec_copy_with_sign(dst, src, rnd, sign).0 == src.with_sign(
            sign,
        ),
{
    if !src.exponent.is_special() {
        assert(pow2(0) == 1) by {
            vstd::arithmetic::power2::lemma2_to64();
        }
        assert(src.mantissa * 1 == src.mantissa) by (nonlinear_arith);
    }
}

/// A copy of a zero, an infinity or a value that is not a number is exact
/// and takes the class of the source, whatever the mantissas, the precisions
/// and the rounding mode.
pub proof fn lemma_special_values_pass_through(
    dst: FloatModel,
    src: FloatModel,
    rnd: Round,
    sign: Sign,
)
    requires
        src.exponent.is_special(),
    ensures
        spec_copy_with_sign(dst, src, rnd, sign).1 == Approx::Exact,
        spec_copy_with_sign(dst, src, rnd, sign).0.exponent == src.exponent,
        spec_copy_with_sign(dst, src, rnd, sign).0.sign == sign,
        spec_copy_with_sign(dst, src, rnd, sign).0.mantissa == dst.mantissa,
        spec_copy_with_sign(dst, src, rnd, sign).0.precision == dst.precision,
{
}

/// The number that a finite source is rounded to in a narrower destination,
/// and the side of the source on which it lies.
///
/// Unless the copy overflows, the destination stands for the source mantissa
/// rounded to its leading bits, as many as the destination has: in units of
/// the source's lowest mantissa bit, its magnitude is the rounded number
/// times `2^cut`, with `cut` the number of bits dropped. The outcome is
/// `Exact` exactly when that equals the source, and else tells the side:
/// with a positive sign `GreaterThanExact` exactly when the magnitude grew,
/// with a negative sign exactly when it shrank.
pub proof fn lemma_narrowing_copy_value(dst: FloatModel, src: FloatModel, rnd: Round, sign: Sign)
    requires
        dst.sized(),
        src.sized(),
        src.exponent is Finite,
        dst.precision < src.precision,
        spec_copy_with_sign(dst, src, rnd, sign).1 != Approx::Overflow,
    ensures
        ({
            let (res, approx) = spec_copy_with_sign(dst, src, rnd, sign);
            let cut = dropped_bits(src.precision, dst.precision);
            let r = rounded(src.mantissa, cut, rnd.spec_with_sign(sign));
            let stored = res.magnitude_in_units_of(src.precision, src.exponent);
            &&& res.exponent is Finite
            &&& res.exponent->0 >= src.exponent->0
            &&& stored == r * pow2(cut)
            &&& approx == Approx::Exact <==> stored == src.mantissa
            &&& approx == Approx::spec_from_sign(sign) <==> stored > src.mantissa
            &&& approx == Approx::spec_from_sign(sign.spec_neg()) <==> stored < src.mantissa
        }),
{
    let (res, approx) = spec_copy_with_sign(dst, src, rnd, sign);
    let ps = src.precision;
    let pd = dst.precision;
    let bs = mantissa_bits(ps);
    let bd = mantissa_bits(pd);
    let pad = padding_bits(pd);
    let cut = dropped_bits(ps, pd);
    let known = rnd.spec_with_sign(sign);
    let f = src.mantissa;
    let r = rounded(f, cut, known);
    let e = src.exponent->0;
    assert(pd + cut == bs);
    assert(bd == pd + pad);
    assert(cut == pad + (bs - bd));
    lemma_kept_bounds(f, pd, cut);
    lemma_rounded_brackets(f, cut, known);
    lemma_exact_iff_bits_clear(f, cut);
    lemma_pow2_adds(pad, (bs - bd) as nat);
    let stored = res.magnitude_in_units_of(ps, src.exponent);
    if r >= pow2(pd) {
        // the mantissa is the leading bit alone, one exponent higher
        assert(r == pow2(pd));
        assert(res.exponent == Exponent::Finite((e + 1) as i64));
        let up = ((e + 1 - bd) - (e - bs)) as nat;
        assert(up == (bs - bd) + 1);
        lemma_pow2_adds((bd - 1) as nat, up);
        lemma_pow2_adds(pd, cut);
        assert((bd - 1) as nat + up == pd + cut);
        assert(stored == pow2((bd - 1) as nat) * pow2(up));
        assert(stored == r * pow2(cut));
    } else {
        let up = ((e - bd) - (e - bs)) as nat;
        assert(up == (bs - bd) as nat);
        assert((r * pow2(pad)) * pow2(up) == r * pow2(cut)) by (nonlinear_arith)
            requires
                pow2(cut) == pow2(pad) * pow2(up),
        ;
        assert(stored == (r * pow2(pad)) * pow2(up));
    }
    assert(stored == r * pow2(cut));
}

/// A narrowing copy rounds the significand: for a canonical finite source
/// of precision `ps` and a destination of precision `pd`, the round bit, the
/// sticky bit and the rounded number are those of the source significand
/// without its low `ps - pd` bits, and the destination's significand is that
/// number, or `2^(pd - 1)` where it takes one bit more than `pd`.
pub proof fn lemma_narrowing_copy_rounds_significand(
    dst: FloatModel,
    src: FloatModel,
    rnd: Round,
    sign: Sign,
)
    requires
        dst.sized(),
        src.sized(),
        src.canonical(),
        src.exponent is Finite,
        dst.precision < src.precision,
    ensures
        ({
            let res = spec_copy_with_sign(dst, src, rnd, sign).0;
            let cut = dropped_bits(src.precision, dst.precision);
            let d = (src.precision - dst.precision) as nat;
            let known = rnd.spec_with_sign(sign);
            let r = rounded(src.significand(), d, known);
            &&& round_bit(src.mantissa, cut) == round_bit(src.significand(), d)
            &&& sticky_bit(src.mantissa, cut) == sticky_bit(src.significand(), d)
            &&& kept(src.mantissa, cut) == kept(src.significand(), d)
            &&& rounded(src.mantissa, cut, known) == r
            &&& res.significand() == if r >= pow2(dst.precision) {
                pow2((dst.precision - 1) as nat)
            } else {
                r
            }
        }),
{
    let ps = src.precision;
    let pd = dst.precision;
    let pad_s = padding_bits(ps);
    let pad_d = padding_bits(pd);
    let cut = dropped_bits(ps, pd);
    let d = (ps - pd) as nat;
    let known = rnd.spec_with_sign(sign);
    let f = src.mantissa;
    let m = src.significand();
    let unit_s = pow2(pad_s);
    let unit_d = pow2(pad_d);
    lemma_pow2_pos(pad_s);
    lemma_pow2_pos(pad_d);
    lemma_fundamental_div_mod(f as int, unit_s as int);
    assert(f == m * unit_s) by (nonlinear_arith)
        requires
            f == unit_s * m + f % unit_s,
            f % unit_s == 0,
    ;
    assert(cut == d + pad_s);
    lemma_bits_shifted(m, pad_s, d);
    let r = rounded(m, d, known);
    if r >= pow2(pd) {
        lemma_pow2_adds((pd - 1) as nat, pad_d);
        lemma_div_by_multiple(pow2((pd - 1) as nat) as int, unit_d as int);
    } else {
        lemma_div_by_multiple(r as int, unit_d as int);
    }
}

/// Each mode keeps to its side of the source: a copy under `Up` never lies
/// below it and one under `Down` never above; toward zero the magnitude never
/// grows, so that the copy never overflows, and away from zero it never
/// shrinks.
pub proof fn lemma_modes_keep_their_side(dst: FloatModel, src: FloatModel, rnd: Round, sign: Sign)
    requires
        dst.sized(),
        src.sized(),
    ensures
        rnd == Round::Up ==> spec_copy_with_sign(dst, src, rnd, sign).1 != Approx::LessThanExact,
        rnd == Round::Down ==> spec_copy_with_sign(dst, src, rnd, sign).1
            != Approx::GreaterThanExact,
        rnd == Round::ToZero ==> spec_copy_with_sign(dst, src, rnd, sign).1 != Approx::Overflow
            && spec_copy_with_sign(dst, src, rnd, sign).1 != Approx::spec_from_sign(sign),
        rnd == Round::AwayFromZero ==> spec_copy_with_sign(dst, src, rnd, sign).1
            != Approx::spec_from_sign(sign.spec_neg()),
{
    if !src.exponent.is_special() && dst.precision < src.precision {
        let cut = dropped_bits(src.precision, dst.precision);
        lemma_rounded_brackets(src.mantissa, cut, rnd.spec_with_sign(sign));
    }
}

/// Under rounding to nearest the destination lies within half a unit in its
/// last place of a finite source, and a source half way between two
/// neighbours goes to the one whose last bit is 0.
///
/// The unit is that of a value of the destination's precision and the
/// source's exponent: `2^cut` lowest mantissa bits of the source, with `cut`
/// the number of bits dropped. Where the rounding carries into the next
/// exponent the result's own unit is twice that. The last bit is that of the
/// rounded number in this unit.
pub proof fn lemma_nearest_copy_within_half_ulp(dst: FloatModel, src: FloatModel, sign: Sign)
    requires
        dst.sized(),
        src.sized(),
        src.exponent is Finite,
        dst.precision < src.precision,
        spec_copy_with_sign(dst, src, Round::ToNearest, sign).1 != Approx::Overflow,
    ensures
        ({
            let res = spec_copy_with_sign(dst, src, Round::ToNearest, sign).0;
            let cut = dropped_bits(src.precision, dst.precision);
            let stored = res.magnitude_in_units_of(src.precision, src.exponent);
            &&& 2 * (stored - src.mantissa) <= pow2(cut)
            &&& 2 * (src.mantissa - stored) <= pow2(cut)
            &&& 2 * dropped(src.mantissa, cut) == pow2(cut) ==> stored == rounded(
                src.mantissa,
                cut,
                RoundKnownSign::ToNearest,
            ) * pow2(cut) && rounded(src.mantissa, cut, RoundKnownSign::ToNearest) % 2 == 0
        }),
{
    lemma_narrowing_copy_value(dst, src, Round::ToNearest, sign);
    lemma_nearest_half_unit(src.mantissa, dropped_bits(src.precision, dst.precision));
}

/// The copy of a value and the copy of its negation, each with its own sign,
/// have the same magnitude and opposite signs, and outcomes that mirror each
/// other, under every mode that does not name a direction: away from zero,
/// toward zero and to nearest.
pub proof fn lemma_copy_of_negation(dst: FloatModel, src: FloatModel, rnd: Round)
    requires
        rnd == Round::AwayFromZero || rnd == Round::ToZero || rnd == Round::ToNearest,
    ensures
        spec_copy_with_sign(dst, src.negated(), rnd, src.negated().sign).0 == spec_copy_with_sign(
            dst,
            src,
            rnd,
            src.sign,
        ).0.negated(),
        spec_copy_with_sign(dst, src.negated(), rnd, src.negated().sign).1 == spec_copy_with_sign(
            dst,
            src,
            rnd,
            src.sign,
        ).1.mirrored(),
{
}

/// A finite source at the largest exponent overflows wherever its rounding
/// carries out of the mantissa: where the mode rounds it away from zero and
/// the bits kept are all 1. The outcome is `Overflow` and the destination an
/// infinity of the sign given.
pub proof fn lemma_carry_past_largest_exponent(
    dst: FloatModel,
    src: FloatModel,
    rnd: Round,
    sign: Sign,
)
    requires
        dst.sized(),
        src.sized(),
        dst.precision < src.precision,
        src.exponent == Exponent::Finite(MAX_EXPONENT_INCLUSIVE),
        kept(src.mantissa, dropped_bits(src.precision, dst.precision)) + 1 == pow2(dst.precision),
        rounds_away(
            src.mantissa,
            dropped_bits(src.precision, dst.precision),
            rnd.spec_with_sign(sign),
        ),
    ensures
        spec_copy_with_sign(dst, src, rnd, sign).1 == Approx::Overflow,
        spec_copy_with_sign(dst, src, rnd, sign).0.exponent == Exponent::Inf,
        spec_copy_with_sign(dst, src, rnd, sign).0.sign == sign,
{
    let cut = dropped_bits(src.precision, dst.precision);
    lemma_rounded_brackets(src.mantissa, cut, rnd.spec_with_sign(sign));
}

/// Rounding away from zero saturates: a finite source at the largest exponent
/// whose kept bits are all 1 and whose dropped bits are not all 0 gives
/// `Overflow` and leaves in the destination an infinity of the sign given.
/// (With the dropped bits all 0 the source fits the destination and the copy
/// is exact.)
pub proof fn lemma_overflow_saturates(dst: FloatModel, src: FloatModel, rnd: Round, sign: Sign)
    requires
        dst.sized(),
        src.sized(),
        dst.precision < src.precision,
        rnd.spec_with_sign(sign) == RoundKnownSign::AwayFromZero,
        src.exponent == Exponent::Finite(MAX_EXPONENT_INCLUSIVE),
        kept(src.mantissa, dropped_bits(src.precision, dst.precision)) + 1 == pow2(dst.precision),
        dropped(src.mantissa, dropped_bits(src.precision, dst.precision)) != 0,
    ensures
        spec_copy_with_sign(dst, src, rnd, sign).1 == Approx::Overflow,
        spec_copy_with_sign(dst, src, rnd, sign).0.exponent == Exponent::Inf,
        spec_copy_with_sign(dst, src, rnd, sign).0.sign == sign,
{
    let cut = dropped_bits(src.precision, dst.precision);
    lemma_rounded_brackets(src.mantissa, cut, RoundKnownSign::AwayFromZero);
    lemma_carry_past_largest_exponent(dst, src, rnd, sign);
}

} // verus!
