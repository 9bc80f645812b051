//! Writing mantissa words: the truncating copy, the widening copy and the
//! addition that carries from word to word.
use crate::limbs::{
    lemma_limbs_value_cut,
    lemma_limbs_value_one,
    lemma_limbs_value_split,
    lemma_limbs_value_zero,
    lemma_pow2_64,
    limbs_value,
};
use crate::rounding::kept;
use crate::scan::low_mask;
use vstd::arithmetic::div_mod::{lemma_fundamental_div_mod, lemma_mod_bound};
use vstd::arithmetic::power2::{lemma_pow2_adds, lemma_pow2_pos, pow2};
use vstd::prelude::*;

verus! {

/// `count` words that are all zero.
pub open spec fn zero_limbs(count: nat) -> Seq<u64> {
    Seq::new(count, |i: int| 0u64)
}

/// `word` with its low `bits` bits cleared.
pub open spec fn clear_low(word: u64, bits: nat) -> u64 {
    (word - word as nat % pow2(bits)) as u64
}

/// The words of `src` from word `whole` up, the first of them without its
/// low `partial` bits.
pub open spec fn truncated_limbs(src: Seq<u64>, whole: int, partial: nat) -> Seq<u64> {
    src.skip(whole).update(0, clear_low(src[whole], partial))
}

/// The truncated words stand for the bits kept, shifted back up over the
/// bits cleared.
pub proof fn lemma_truncated_value(src: Seq<u64>, whole: int, partial: nat)
    requires
        0 <= whole < src.len(),
        partial < 64,
    ensures
        limbs_value(truncated_limbs(src, whole, partial)) == kept(
            limbs_value(src),
            (64 * whole + partial) as nat,
        ) * pow2(partial),
{
    let t = truncated_limbs(src, whole, partial);
    let w = src[whole] as nat;
    let unit = pow2(partial);
    let rest_unit = pow2((64 - partial) as nat);
    let above = limbs_value(src.skip(whole + 1));
    lemma_pow2_pos(partial);
    lemma_pow2_64();
    lemma_pow2_adds(partial, (64 - partial) as nat);
    lemma_fundamental_div_mod(w as int, unit as int);
    lemma_mod_bound(w as int, unit as int);
    lemma_limbs_value_cut(src, whole, partial);
    lemma_limbs_value_split(t, 1);
    lemma_limbs_value_one(t.take(1));
    assert(t.take(1)[0] == t[0]);
    assert(t.skip(1) =~= src.skip(whole + 1));
    assert(t[0] == unit * (w / unit));
    let q = w / unit;
    let k = kept(limbs_value(src), (64 * whole + partial) as nat);
    assert(k == q + rest_unit * above);
    assert(limbs_value(t) == unit * q + pow2(64) * above);
    assert(unit * q + (unit * rest_unit) * above == (q + rest_unit * above) * unit)
        by (nonlinear_arith);
}

/// Zero words under a sequence shift its number up by 64 bits each.
pub proof fn lemma_widened_value(src: Seq<u64>, count: nat)
    ensures
        limbs_value(zero_limbs(count) + src) == pow2(64 * count) * limbs_value(src),
{
    let wide = zero_limbs(count) + src;
    lemma_limbs_value_split(wide, count as int);
    assert(wide.take(count as int) =~= zero_limbs(count));
    assert(wide.skip(count as int) =~= src);
    lemma_limbs_value_zero(zero_limbs(count));
}

/// Copies the words of `src` from word `whole` up into `dst` and clears the
/// low `partial` bits of the first: rounding toward zero.
pub fn copy_truncated(dst: &mut Vec<u64>, src: &[u64], whole: usize, partial: u64)
    requires
        old(dst).len() >= 1,
        old(dst).len() + whole == src@.len(),
        partial < 64,
    ensures
        final(dst)@ == truncated_limbs(src@, whole as int, partial as nat),
        limbs_value(final(dst)@) == kept(limbs_value(src@), (64 * whole + partial) as nat) * pow2(
            partial as nat,
        ),
{
    let n = dst.len();
    let total = src.len();
    let mut i: usize = 0;
    while i < n
        invariant
            dst.len() == n,
            total == src@.len(),
            n + whole == total,
            i <= n,
            forall|t: int| 0 <= t < i ==> dst@[t] == src@[whole + t],
        decreases n - i,
    {
        dst[i] = src[whole + i];
        i += 1;
    }
    let mask = low_mask(partial);
    let first = dst[0];
    assert(first & !mask == first - (first & mask)) by (bit_vector);
    dst[0] = first & !mask;
    proof {
        assert(dst@ =~= truncated_limbs(src@, whole as int, partial as nat));
        lemma_truncated_value(src@, whole as int, partial as nat);
    }
}

/// Clears the low words of `dst` and copies `src` into its high words: the
/// same leading bits at a greater length.
pub fn copy_widened(dst: &mut Vec<u64>, src: &[u64])
    requires
        old(dst).len() >= src@.len(),
    ensures
        final(dst)@ == zero_limbs((old(dst).len() - src@.len()) as nat) + src@,
        limbs_value(final(dst)@) == pow2((64 * (old(dst).len() - src@.len())) as nat)
            * limbs_value(src@),
{
    let n = dst.len();
    let extra = n - src.len();
    let mut i: usize = 0;
    while i < extra
        invariant
            dst.len() == n,
            extra <= n,
            i <= extra,
            forall|t: int| 0 <= t < i ==> dst@[t] == 0,
        decreases extra - i,
    {
        dst[i] = 0;
        i += 1;
    }
    while i < n
        invariant
            dst.len() == n,
            extra + src@.len() == n,
            extra <= i <= n,
            forall|t: int| 0 <= t < extra ==> dst@[t] == 0,
            forall|t: int| extra <= t < i ==> dst@[t] == src@[t - extra],
        decreases n - i,
    {
        dst[i] = src[i - extra];
        i += 1;
    }
    proof {
        assert(dst@ =~= zero_limbs(extra as nat) + src@);
        lemma_widened_value(src@, extra as nat);
    }
}

/// Adds `addend` to the number that `words` stand for, carrying from each
/// word into the next. Returns whether a carry left the last word; the
/// words then hold the sum less `2^(64 n)`.
pub fn ripple_add(words: &mut Vec<u64>, addend: u64) -> (carry: bool)
    requires
        old(words).len() >= 1,
    ensures
        final(words)@.len() == old(words)@.len(),
        limbs_value(final(words)@) + (if carry {
            pow2((64 * old(words)@.len()) as nat)
        } else {
            0
        }) == limbs_value(old(words)@) + addend,
{
    let ghost before = words@;
    let n = words.len();
    let mut pending: u64 = addend;
    let mut i: usize = 0;
    proof {
        lemma_pow2_64();
        assert(words@.take(0).len() == 0);
        assert(before.take(0).len() == 0);
        assert(pending * pow2((64 * 0) as nat) == pending as int) by (nonlinear_arith)
            requires
                pow2((64 * 0) as nat) == 1,
        ;
    }
    while i < n
        invariant
            words.len() == n,
            before.len() == n,
            n >= 1,
            i <= n,
            i >= 1 ==> pending <= 1,
            forall|t: int| i <= t < n ==> words@[t] == before[t],
            limbs_value(words@.take(i as int)) + pending * pow2((64 * i) as nat) == limbs_value(
                before.take(i as int),
            ) + addend,
        decreases n - i,
    {
        let ghost unit = pow2((64 * i) as nat);
        let ghost low_new = limbs_value(words@.take(i as int));
        let ghost low_old = limbs_value(before.take(i as int));
        let ghost prior = words@;
        let word = words[i];
        let sum = word.wrapping_add(pending);
        let out: u64 = if sum < pending {
            1
        } else {
            0
        };
        words[i] = sum;
        proof {
            lemma_pow2_64();
            lemma_pow2_adds((64 * i) as nat, 64);
            assert(sum + out * pow2(64) == word + pending);
            assert(words@.take(i + 1).drop_last() =~= prior.take(i as int));
            assert(before.take(i + 1).drop_last() =~= before.take(i as int));
            assert(limbs_value(words@.take(i + 1)) == low_new + sum as nat * unit);
            assert(limbs_value(before.take(i + 1)) == low_old + word as nat * unit);
            let next_unit = pow2((64 * (i + 1)) as nat);
            assert(next_unit == unit * pow2(64));
            assert(low_new + sum * unit + out * next_unit == low_old + word * unit + addend)
                by (nonlinear_arith)
                requires
                    low_new + pending * unit == low_old + addend,
                    sum + out * pow2(64) == word + pending,
                    next_unit == unit * pow2(64),
            ;
        }
        pending = out;
        i += 1;
    }
    proof {
        assert(words@.take(n as int) =~= words@);
        assert(before.take(n as int) =~= before);
        let top = pow2((64 * n) as nat);
        assert(pending * top == if pending != 0 { top as int } else { 0 }) by (nonlinear_arith)
            requires
                pending <= 1,
        ;
    }
    pending != 0
}

} // verus!
