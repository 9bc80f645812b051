//! Rounding a natural number to fewer bits.
//!
//! Dropping the low `d` bits of a number `m` keeps `m / 2^d`. Of the bits
//! dropped, the highest is the round bit and the rest make the sticky bit.
//! This module defines them as numbers, says what each rounding mode makes of
//! them, and proves how far the rounded number lies from `m`.
use crate::round::RoundKnownSign;
use vstd::arithmetic::div_mod::{
    lemma_fundamental_div_mod,
    lemma_fundamental_div_mod_converse,
    lemma_mod_bound,
    lemma_mod_multiples_basic,
};
use vstd::arithmetic::power2::{lemma_pow2_adds, lemma_pow2_pos, lemma_pow2_unfold, pow2};
use vstd::prelude::*;

verus! {

/// What is left of `m` without its low `d` bits.
pub open spec fn kept(m: nat, d: nat) -> nat {
    m / pow2(d)
}

/// The low `d` bits of `m`: what is dropped.
pub open spec fn dropped(m: nat, d: nat) -> nat {
    m % pow2(d)
}

/// The highest of the low `d` bits of `m`.
pub open spec fn round_bit(m: nat, d: nat) -> bool {
    d >= 1 && (m / pow2((d - 1) as nat)) % 2 == 1
}

/// Whether any of the low `d` bits of `m` below the highest is set.
pub open spec fn sticky_bit(m: nat, d: nat) -> bool {
    d >= 1 && m % pow2((d - 1) as nat) != 0
}

/// Whether the lowest bit that is kept is set.
pub open spec fn kept_is_odd(m: nat, d: nat) -> bool {
    kept(m, d) % 2 == 1
}

/// Whether rounding `m` to its bits above the low `d` under `rnd` moves it
/// away from zero.
pub open spec fn rounds_away(m: nat, d: nat, rnd: RoundKnownSign) -> bool {
    rnd.spec_rounds_away(round_bit(m, d), sticky_bit(m, d), kept_is_odd(m, d))
}

/// `m` rounded to its bits above the low `d`, in units of `2^d`.
pub open spec fn rounded(m: nat, d: nat, rnd: RoundKnownSign) -> nat {
    if rounds_away(m, d, rnd) {
        kept(m, d) + 1
    } else {
        kept(m, d)
    }
}

/// Shifting a number up by `a` bits and cutting it `a` bits higher gives the
/// same quotient and the remainder shifted up.
pub proof fn lemma_cut_shifted(m: nat, a: nat, d: nat)
    ensures
        (m * pow2(a)) / pow2(d + a) == m / pow2(d),
        (m * pow2(a)) % pow2(d + a) == (m % pow2(d)) * pow2(a),
{
    let pa = pow2(a);
    let pd = pow2(d);
    lemma_pow2_pos(a);
    lemma_pow2_pos(d);
    lemma_pow2_adds(d, a);
    lemma_fundamental_div_mod(m as int, pd as int);
    lemma_mod_bound(m as int, pd as int);
    let q = (m / pd) as int;
    let r = (m % pd) as int;
    assert(m * pa == q * (pd * pa) + r * pa) by (nonlinear_arith)
        requires
            m == pd * q + r,
    ;
    assert(0 <= r * pa < pd * pa) by (nonlinear_arith)
        requires
            0 <= r < pd,
            pa > 0,
    ;
    lemma_fundamental_div_mod_converse((m * pa) as int, (pd * pa) as int, q, r * pa);
}

/// The bits kept, the round bit and the sticky bit of a number do not change
/// when the number and the cut are shifted up together.
pub proof fn lemma_bits_shifted(m: nat, a: nat, d: nat)
    requires
        d >= 1,
    ensures
        kept(m * pow2(a), d + a) == kept(m, d),
        round_bit(m * pow2(a), d + a) == round_bit(m, d),
        sticky_bit(m * pow2(a), d + a) == sticky_bit(m, d),
        kept_is_odd(m * pow2(a), d + a) == kept_is_odd(m, d),
{
    lemma_cut_shifted(m, a, d);
    lemma_cut_shifted(m, a, (d - 1) as nat);
    assert((d - 1) as nat + a == (d + a - 1) as nat);
    lemma_pow2_pos(a);
    let low = m % pow2((d - 1) as nat);
    assert(low * pow2(a) != 0 <==> low != 0) by (nonlinear_arith)
        requires
            pow2(a) > 0,
    ;
}

/// The dropped bits are the round bit, worth half a unit, and the bits under
/// it; the kept bits are those above the round bit.
pub proof fn lemma_dropped_parts(m: nat, d: nat)
    requires
        d >= 1,
    ensures
        dropped(m, d) == (if round_bit(m, d) {
            pow2((d - 1) as nat)
        } else {
            0
        }) + m % pow2((d - 1) as nat),
        m % pow2((d - 1) as nat) < pow2((d - 1) as nat),
        pow2(d) == 2 * pow2((d - 1) as nat),
        kept(m, d) == (m / pow2((d - 1) as nat)) / 2,
        m == kept(m, d) * pow2(d) + dropped(m, d),
        dropped(m, d) < pow2(d),
{
    let half = pow2((d - 1) as nat);
    lemma_pow2_pos((d - 1) as nat);
    lemma_pow2_pos(d);
    lemma_pow2_unfold(d);
    lemma_fundamental_div_mod(m as int, half as int);
    lemma_mod_bound(m as int, half as int);
    let q1 = (m / half) as int;
    let r1 = (m % half) as int;
    let q2 = q1 / 2;
    let b = q1 % 2;
    assert(q1 == 2 * q2 + b && 0 <= b < 2);
    let r = b * half + r1;
    assert(m == q2 * (2 * half) + r) by (nonlinear_arith)
        requires
            m == half * q1 + r1,
            q1 == 2 * q2 + b,
            r == b * half + r1,
    ;
    assert(0 <= r < 2 * half) by (nonlinear_arith)
        requires
            r == b * half + r1,
            0 <= b < 2,
            0 <= r1 < half,
    ;
    lemma_fundamental_div_mod_converse(m as int, (2 * half) as int, q2, r);
    assert(b * half == if b == 1 { half as int } else { 0 }) by (nonlinear_arith)
        requires
            0 <= b < 2,
    ;
    assert(kept(m, d) * pow2(d) == q2 * (2 * half)) by (nonlinear_arith)
        requires
            kept(m, d) == q2,
            pow2(d) == 2 * half,
    ;
}

/// Nothing is lost exactly when the round bit and the sticky bit are both
/// clear.
pub proof fn lemma_exact_iff_bits_clear(m: nat, d: nat)
    requires
        d >= 1,
    ensures
        (!round_bit(m, d) && !sticky_bit(m, d)) <==> dropped(m, d) == 0,
        dropped(m, d) == 0 <==> m == kept(m, d) * pow2(d),
{
    lemma_dropped_parts(m, d);
    lemma_pow2_pos((d - 1) as nat);
}

/// Keeping the bits above the low `d` of a number of `p + d` bits leaves a
/// number of `p` bits, and a set leading bit stays the leading bit.
pub proof fn lemma_kept_bounds(m: nat, p: nat, d: nat)
    requires
        m < pow2(p + d),
    ensures
        kept(m, d) < pow2(p),
        p >= 1 && m >= pow2((p - 1 + d) as nat) ==> kept(m, d) >= pow2((p - 1) as nat),
{
    let pd = pow2(d);
    lemma_pow2_pos(d);
    lemma_pow2_adds(p, d);
    lemma_fundamental_div_mod(m as int, pd as int);
    lemma_mod_bound(m as int, pd as int);
    let q = m / pd;
    assert(q < pow2(p)) by (nonlinear_arith)
        requires
            m == pd * q + m % pd,
            m % pd >= 0,
            m < pow2(p) * pd,
            pd > 0,
    ;
    if p >= 1 && m >= pow2((p - 1 + d) as nat) {
        lemma_pow2_adds((p - 1) as nat, d);
        let low = pow2((p - 1) as nat);
        assert(q >= low) by (nonlinear_arith)
            requires
                m == pd * q + m % pd,
                m % pd < pd,
                m >= low * pd,
                pd > 0,
        ;
    }
}

/// A multiple of a power of two is a multiple of every smaller one.
pub proof fn lemma_multiple_of_pow2(m: nat, lo: nat, hi: nat)
    requires
        lo <= hi,
    ensures
        (m * pow2(hi)) % pow2(lo) == 0,
{
    let unit = pow2(lo);
    let rest = pow2((hi - lo) as nat);
    lemma_pow2_pos(lo);
    lemma_pow2_adds((hi - lo) as nat, lo);
    assert(m * pow2(hi) == (m * rest) * unit) by (nonlinear_arith)
        requires
            pow2(hi) == rest * unit,
    ;
    lemma_mod_multiples_basic((m * rest) as int, unit as int);
}

/// Rounding moves a number by less than one unit, and toward the side that
/// the mode names. Where nothing is dropped no mode moves it. Where something
/// is, rounding toward zero goes down to the kept bits and rounding away from
/// zero up to the next unit.
pub proof fn lemma_rounded_brackets(m: nat, d: nat, rnd: RoundKnownSign)
    requires
        d >= 1,
    ensures
        kept(m, d) * pow2(d) <= m < (kept(m, d) + 1) * pow2(d),
        rounded(m, d, rnd) == kept(m, d) || rounded(m, d, rnd) == kept(m, d) + 1,
        dropped(m, d) == 0 <==> kept(m, d) * pow2(d) == m,
        dropped(m, d) == 0 ==> !rounds_away(m, d, rnd),
        rnd == RoundKnownSign::ToZero ==> !rounds_away(m, d, rnd),
        rnd == RoundKnownSign::AwayFromZero ==> (rounds_away(m, d, rnd) <==> dropped(m, d) != 0),
        rounds_away(m, d, rnd) <==> rounded(m, d, rnd) * pow2(d) > m,
{
    lemma_dropped_parts(m, d);
    lemma_exact_iff_bits_clear(m, d);
    let q = kept(m, d);
    let unit = pow2(d);
    assert((q + 1) * unit == q * unit + unit) by (nonlinear_arith);
}

/// Rounding to nearest moves a number by at most half a unit, and a number
/// that lies half way between two units goes to the even one.
pub proof fn lemma_nearest_half_unit(m: nat, d: nat)
    requires
        d >= 1,
    ensures
        2 * (rounded(m, d, RoundKnownSign::ToNearest) * pow2(d) - m) <= pow2(d),
        2 * (m - rounded(m, d, RoundKnownSign::ToNearest) * pow2(d)) <= pow2(d),
        2 * dropped(m, d) == pow2(d) ==> rounded(m, d, RoundKnownSign::ToNearest) % 2 == 0,
{
    lemma_dropped_parts(m, d);
    lemma_pow2_pos((d - 1) as nat);
    let q = kept(m, d);
    let unit = pow2(d);
    assert((q + 1) * unit == q * unit + unit) by (nonlinear_arith);
}

} // verus!
