//! Word sequences read as natural numbers.
//!
//! A mantissa is a sequence of 64-bit words, least significant first. This
//! module says which number such a sequence stands for and proves the facts
//! about it that the rounding code rests on.
use vstd::arithmetic::div_mod::{lemma_fundamental_div_mod_converse, lemma_mod_multiples_vanish};
use vstd::arithmetic::power2::{
    lemma2_to64,
    lemma2_to64_rest,
    lemma_pow2_adds,
    lemma_pow2_pos,
    lemma_pow2_unfold,
    pow2,
};
use vstd::prelude::*;

verus! {

/// The number that `s` stands for: the sum of `s[i] * 2^(64 i)`.
pub open spec fn limbs_value(s: Seq<u64>) -> nat
    decreases s.len(),
{
    if s.len() == 0 {
        0
    } else {
        limbs_value(s.drop_last()) + s.last() as nat * pow2((64 * (s.len() - 1)) as nat)
    }
}

/// `2^64` is one more than the largest word.
pub proof fn lemma_pow2_64()
    ensures
        pow2(64) == 0x1_0000_0000_0000_0000,
        pow2(63) == 0x8000_0000_0000_0000,
        pow2(0) == 1,
        pow2(1) == 2,
{
    lemma2_to64();
    lemma2_to64_rest();
}

/// A single word stands for itself.
pub proof fn lemma_limbs_value_one(s: Seq<u64>)
    requires
        s.len() == 1,
    ensures
        limbs_value(s) == s[0],
{
    lemma_pow2_64();
    assert(s.drop_last().len() == 0);
    assert(limbs_value(s.drop_last()) == 0);
    assert(limbs_value(s) == 0 + s.last() as nat * pow2(0));
}

/// `n` words hold a number below `2^(64 n)`.
pub proof fn lemma_limbs_value_bound(s: Seq<u64>)
    ensures
        limbs_value(s) < pow2((64 * s.len()) as nat),
    decreases s.len(),
{
    if s.len() == 0 {
        lemma_pow2_64();
    } else {
        let n = s.len();
        let low = limbs_value(s.drop_last());
        let top = s.last() as nat;
        let unit = pow2((64 * (n - 1)) as nat);
        lemma_limbs_value_bound(s.drop_last());
        lemma_pow2_64();
        lemma_pow2_adds((64 * (n - 1)) as nat, 64);
        assert(low + top * unit < unit * pow2(64)) by (nonlinear_arith)
            requires
                low < unit,
                top < pow2(64),
        ;
    }
}

/// Cutting a sequence after `k` words cuts its number at bit `64 k`.
pub proof fn lemma_limbs_value_split(s: Seq<u64>, k: int)
    requires
        0 <= k <= s.len(),
    ensures
        limbs_value(s) == limbs_value(s.take(k)) + pow2((64 * k) as nat) * limbs_value(
            s.skip(k),
        ),
    decreases s.len(),
{
    if k == s.len() {
        assert(s.take(k) =~= s);
        assert(s.skip(k).len() == 0);
        assert(pow2((64 * k) as nat) * limbs_value(s.skip(k)) == 0) by (nonlinear_arith)
            requires
                limbs_value(s.skip(k)) == 0,
        ;
    } else {
        let n = s.len();
        let front = s.drop_last();
        let top = s.last() as nat;
        lemma_limbs_value_split(front, k);
        assert(front.take(k) =~= s.take(k));
        assert(s.skip(k).drop_last() =~= front.skip(k));
        assert(s.skip(k).last() == s.last());
        let rest = limbs_value(front.skip(k));
        let base = pow2((64 * k) as nat);
        let unit = pow2((64 * (n - k - 1)) as nat);
        assert(limbs_value(s.skip(k)) == rest + top * unit);
        lemma_pow2_adds((64 * k) as nat, (64 * (n - k - 1)) as nat);
        assert(base * unit == pow2((64 * (n - 1)) as nat));
        assert(base * (rest + top * unit) == base * rest + top * (base * unit))
            by (nonlinear_arith);
    }
}

/// The number is zero exactly when every word is zero.
pub proof fn lemma_limbs_value_zero(s: Seq<u64>)
    ensures
        limbs_value(s) == 0 <==> (forall|i: int| 0 <= i < s.len() ==> s[i] == 0),
    decreases s.len(),
{
    if s.len() > 0 {
        let n = s.len();
        let front = s.drop_last();
        let top = s.last() as nat;
        let unit = pow2((64 * (n - 1)) as nat);
        lemma_limbs_value_zero(front);
        lemma_pow2_pos((64 * (n - 1)) as nat);
        assert(top * unit == 0 <==> top == 0) by (nonlinear_arith)
            requires
                unit > 0,
        ;
        if limbs_value(s) == 0 {
            assert forall|i: int| 0 <= i < s.len() implies s[i] == 0 by {
                if i < n - 1 {
                    assert(front[i] == s[i]);
                }
            }
        }
        if forall|i: int| 0 <= i < s.len() ==> s[i] == 0 {
            assert forall|i: int| 0 <= i < front.len() implies front[i] == 0 by {
                assert(front[i] == s[i]);
            }
        }
    }
}

/// Two sequences of one length that stand for one number are the same
/// sequence.
pub proof fn lemma_limbs_value_injective(a: Seq<u64>, b: Seq<u64>)
    requires
        a.len() == b.len(),
        limbs_value(a) == limbs_value(b),
    ensures
        a == b,
    decreases a.len(),
{
    if a.len() > 0 {
        let n = a.len();
        let unit = pow2((64 * (n - 1)) as nat);
        lemma_pow2_pos((64 * (n - 1)) as nat);
        lemma_limbs_value_bound(a.drop_last());
        lemma_limbs_value_bound(b.drop_last());
        let x = limbs_value(a) as int;
        assert(x == a.last() as int * unit + limbs_value(a.drop_last())) by (nonlinear_arith)
            requires
                x == limbs_value(a.drop_last()) + a.last() as nat * unit,
        ;
        assert(x == b.last() as int * unit + limbs_value(b.drop_last())) by (nonlinear_arith)
            requires
                x == limbs_value(b.drop_last()) + b.last() as nat * unit,
        ;
        lemma_fundamental_div_mod_converse(
            x,
            unit as int,
            a.last() as int,
            limbs_value(a.drop_last()) as int,
        );
        lemma_fundamental_div_mod_converse(
            x,
            unit as int,
            b.last() as int,
            limbs_value(b.drop_last()) as int,
        );
        lemma_limbs_value_injective(a.drop_last(), b.drop_last());
        assert(a =~= a.drop_last().push(a.last()));
        assert(b =~= b.drop_last().push(b.last()));
    } else {
        assert(a =~= b);
    }
}

/// Cutting the number at bit `b` of word `j`: the quotient is made of the
/// upper part of that word and the words above it, the remainder of its
/// lower part and the words below it.
pub proof fn lemma_limbs_value_cut(s: Seq<u64>, j: int, b: nat)
    requires
        0 <= j < s.len(),
        b < 64,
    ensures
        limbs_value(s) / pow2((64 * j + b) as nat) == s[j] as nat / pow2(b) + pow2(
            (64 - b) as nat,
        ) * limbs_value(s.skip(j + 1)),
        limbs_value(s) % pow2((64 * j + b) as nat) == limbs_value(s.take(j)) + pow2(
            (64 * j) as nat,
        ) * (s[j] as nat % pow2(b)),
{
    let below = limbs_value(s.take(j));
    let above = limbs_value(s.skip(j + 1));
    let base = pow2((64 * j) as nat);
    let pb = pow2(b);
    let pc = pow2((64 - b) as nat);
    let w = s[j] as nat;
    let wl = w % pb;
    let wh = w / pb;
    lemma_pow2_pos(b);
    lemma_pow2_pos((64 * j) as nat);
    lemma_pow2_pos((64 - b) as nat);
    lemma_pow2_adds(b, (64 - b) as nat);
    lemma_pow2_adds((64 * j) as nat, b);
    lemma_pow2_64();
    lemma_limbs_value_split(s, j);
    lemma_limbs_value_split(s.skip(j), 1);
    assert(s.skip(j).take(1).len() == 1);
    lemma_limbs_value_one(s.skip(j).take(1));
    assert(s.skip(j).take(1)[0] == s[j]);
    assert(s.skip(j).skip(1) =~= s.skip(j + 1));
    lemma_limbs_value_bound(s.take(j));
    assert(limbs_value(s.skip(j)) == w + pow2(64) * above);
    assert(w == pb * wh + wl && 0 <= wl < pb) by {
        vstd::arithmetic::div_mod::lemma_fundamental_div_mod(w as int, pb as int);
        vstd::arithmetic::div_mod::lemma_mod_bound(w as int, pb as int);
    }
    let x = limbs_value(s) as int;
    let q = (wh + pc * above) as int;
    let r = (below + base * wl) as int;
    let d = (base * pb) as int;
    assert(x == q * d + r) by (nonlinear_arith)
        requires
            x == below + base * (w + (pb * pc) * above),
            w == pb * wh + wl,
            q == wh + pc * above,
            r == below + base * wl,
            d == base * pb,
    ;
    assert(0 <= r < d) by (nonlinear_arith)
        requires
            r == below + base * wl,
            d == base * pb,
            0 <= below < base,
            0 <= wl < pb,
    ;
    lemma_fundamental_div_mod_converse(x, d, q, r);
}

/// Bit `b` of word `j` is bit `64 j + b` of the number.
pub proof fn lemma_limbs_value_bit(s: Seq<u64>, j: int, b: nat)
    requires
        0 <= j < s.len(),
        b < 64,
    ensures
        (limbs_value(s) / pow2((64 * j + b) as nat)) % 2 == (s[j] as nat / pow2(b)) % 2,
{
    lemma_limbs_value_cut(s, j, b);
    let above = limbs_value(s.skip(j + 1));
    let rest = pow2((63 - b) as nat) * above;
    let upper = pow2((64 - b) as nat) * above;
    lemma_pow2_unfold((64 - b) as nat);
    assert(upper == 2 * rest) by (nonlinear_arith)
        requires
            pow2((64 - b) as nat) == 2 * pow2((63 - b) as nat),
            rest == pow2((63 - b) as nat) * above,
            upper == pow2((64 - b) as nat) * above,
    ;
    let word_part = s[j] as nat / pow2(b);
    let quotient = limbs_value(s) / pow2((64 * j + b) as nat);
    assert(quotient == word_part + upper);
    lemma_even_addend(quotient, word_part, rest);
}

/// Adding an even number keeps the parity.
proof fn lemma_even_addend(q: nat, w: nat, r: nat)
    requires
        q == w + 2 * r,
    ensures
        q % 2 == w % 2,
{
    lemma_mod_multiples_vanish(r as int, w as int, 2);
}

/// The bits of the number below bit `b` of word `j` are all clear exactly
/// when those of word `j` below bit `b` and all the words under it are.
pub proof fn lemma_limbs_value_low_clear(s: Seq<u64>, j: int, b: nat)
    requires
        0 <= j < s.len(),
        b < 64,
    ensures
        limbs_value(s) % pow2((64 * j + b) as nat) == 0 <==> (s[j] as nat % pow2(b) == 0
            && forall|t: int| 0 <= t < j ==> s[t] == 0),
{
    lemma_limbs_value_cut(s, j, b);
    lemma_limbs_value_zero(s.take(j));
    lemma_pow2_pos((64 * j) as nat);
    let base = pow2((64 * j) as nat);
    let low = s[j] as nat % pow2(b);
    assert(base * low == 0 <==> low == 0) by (nonlinear_arith)
        requires
            base > 0,
    ;
    if forall|t: int| 0 <= t < j ==> s[t] == 0 {
        assert forall|t: int| 0 <= t < s.take(j).len() implies s.take(j)[t] == 0 by {
            assert(s.take(j)[t] == s[t]);
        }
    }
    if limbs_value(s.take(j)) == 0 {
        assert forall|t: int| 0 <= t < j implies s[t] == 0 by {
            assert(s.take(j)[t] == s[t]);
        }
    }
}

/// Words that are zero but for the highest bit of the last stand for
/// `2^(64 n - 1)`.
pub proof fn lemma_limbs_value_leading_bit(s: Seq<u64>)
    requires
        s.len() >= 1,
        s.last() == 0x8000_0000_0000_0000,
        forall|i: int| 0 <= i < s.len() - 1 ==> s[i] == 0,
    ensures
        limbs_value(s) == pow2((64 * s.len() - 1) as nat),
{
    let n = s.len();
    lemma_limbs_value_zero(s.drop_last());
    lemma_pow2_64();
    lemma_pow2_adds(63, (64 * (n - 1)) as nat);
}

} // verus!
