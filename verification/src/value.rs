//! The floating-point value, its storage and the number it stands for.
//!
//! A value has a precision of `p` bits, a sign, an exponent class and a
//! mantissa of `n = ceil(p / 64)` words, least significant word first. The
//! mantissa is read as a number `f` of `64 n` bits, and a finite value of
//! exponent `e` stands for `± f * 2^(e - 64 n)`. A well-formed value keeps
//! the bits of the first word that the precision does not cover at zero, and
//! a finite one has its leading bit set, so that its magnitude lies in
//! `[2^(e-1), 2^e)`. Of a zero, an infinity or a value that is not a number
//! the mantissa means nothing.
use crate::consts::{LIMB_BITS, LIMB_HIGH_BIT, MAX_EXPONENT_INCLUSIVE, MIN_EXPONENT_INCLUSIVE};
use crate::limbs::{
    lemma_limbs_value_bound,
    lemma_limbs_value_cut,
    lemma_limbs_value_injective,
    lemma_pow2_64,
    limbs_value,
};
use crate::round::Sign;
use crate::scan::low_mask;
use vstd::arithmetic::div_mod::lemma_fundamental_div_mod;
use vstd::arithmetic::power2::{lemma_pow2_pos, pow2};
use vstd::prelude::*;

verus! {

/// Exponent class of a value, with the exponent itself where it is finite.
#[derive(Clone, Copy, Debug, PartialEq, Eq, Structural)]
pub enum Exponent {
    /// A zero.
    Zero,
    /// A finite value other than zero, of magnitude in `[2^(e-1), 2^e)`.
    Finite(i64),
    /// An infinity.
    Inf,
    /// Not a number.
    NaN,
}

/// A binary floating-point value of a precision fixed when it is made.
#[derive(Clone, Debug)]
pub struct BigFloat {
    pub(crate) precision_bits: u64,
    pub(crate) sign: Sign,
    pub(crate) exponent: Exponent,
    pub(crate) mantissa: Vec<u64>,
}

/// What a [`BigFloat`] stands for: its precision, sign and exponent, and its
/// mantissa words read as one natural number.
pub struct FloatModel {
    pub precision: nat,
    pub sign: Sign,
    pub exponent: Exponent,
    pub mantissa: nat,
}

/// Number of words that hold a mantissa of `precision` bits.
pub open spec fn mantissa_len(precision: nat) -> nat {
    (precision + 63) / 64
}

/// Number of bits in the words that hold a mantissa of `precision` bits.
pub open spec fn mantissa_bits(precision: nat) -> nat {
    64 * mantissa_len(precision)
}

/// Number of low bits of the first word that a mantissa of `precision` bits
/// leaves unused.
pub open spec fn padding_bits(precision: nat) -> nat {
    (mantissa_bits(precision) - precision) as nat
}

/// Whether `e` is the exponent of some finite value.
pub open spec fn exponent_in_range(e: i64) -> bool {
    MIN_EXPONENT_INCLUSIVE <= e <= MAX_EXPONENT_INCLUSIVE
}

impl Exponent {
    /// Zero, an infinity or not a number: a value whose mantissa means
    /// nothing.
    pub open spec fn is_special(self) -> bool {
        !(self is Finite)
    }

    /// The exponent after a carry out of the mantissa: one more, or an
    /// infinity past the largest.
    pub open spec fn spec_successor(self) -> Exponent {
        match self {
            Exponent::Finite(e) => if e < MAX_EXPONENT_INCLUSIVE {
                Exponent::Finite((e + 1) as i64)
            } else {
                Exponent::Inf
            },
            other => other,
        }
    }

    /// The exponent after a carry out of the mantissa.
    #[verifier::when_used_as_spec(spec_successor)]
    pub fn successor(self) -> (r: Exponent)
        ensures
            r == self.spec_successor(),
    {
        match self {
            Exponent::Finite(e) => if e < MAX_EXPONENT_INCLUSIVE {
                Exponent::Finite(e + 1)
            } else {
                Exponent::Inf
            },
            other => other,
        }
    }
}

impl FloatModel {
    /// A precision of at least one bit and a mantissa that fits its words.
    pub open spec fn sized(self) -> bool {
        &&& self.precision >= 1
        &&& self.mantissa < pow2(mantissa_bits(self.precision))
    }

    /// The bits that the precision does not cover are zero.
    pub open spec fn canonical(self) -> bool {
        self.mantissa % pow2(padding_bits(self.precision)) == 0
    }

    /// The leading bit is set.
    pub open spec fn normalized(self) -> bool {
        self.mantissa >= pow2((mantissa_bits(self.precision) - 1) as nat)
    }

    /// The invariant of a value: sized and canonical and, where finite, with
    /// an exponent in range and normalized.
    pub open spec fn wf(self) -> bool {
        &&& self.sized()
        &&& self.canonical()
        &&& self.exponent matches Exponent::Finite(e) ==> exponent_in_range(e)
            && self.normalized()
    }

    /// The mantissa without its unused bits: the `precision` bits that count.
    /// A well-formed finite value stands for `± significand * 2^(e - p)`.
    pub open spec fn significand(self) -> nat {
        self.mantissa / pow2(padding_bits(self.precision))
    }

    /// The same value under another sign.
    pub open spec fn with_sign(self, sign: Sign) -> FloatModel {
        FloatModel { sign, ..self }
    }

    /// The value of opposite sign.
    pub open spec fn negated(self) -> FloatModel {
        self.with_sign(self.sign.spec_neg())
    }

    /// Whether `self` and `other`, of whatever precisions, have the same sign
    /// and class and, where finite, stand for the same number: the same
    /// exponent, and mantissas that are equal once brought to one length.
    pub open spec fn same_value(self, other: FloatModel) -> bool {
        &&& self.sign == other.sign
        &&& self.exponent == other.exponent
        &&& self.exponent is Finite ==> self.mantissa * pow2(mantissa_bits(other.precision))
            == other.mantissa * pow2(mantissa_bits(self.precision))
    }
}

impl View for BigFloat {
    type V = FloatModel;

    open(crate) spec fn view(&self) -> FloatModel {
        FloatModel {
            precision: self.precision_bits as nat,
            sign: self.sign,
            exponent: self.exponent,
            mantissa: limbs_value(self.mantissa@),
        }
    }
}

/// The leading bit and the padding of a word sequence laid out for
/// `precision`, as seen in the number it stands for.
pub proof fn lemma_storage_model(precision: nat, limbs: Seq<u64>)
    requires
        precision >= 1,
        limbs.len() == mantissa_len(precision),
    ensures
        padding_bits(precision) < 64,
        limbs_value(limbs) < pow2(mantissa_bits(precision)),
        limbs_value(limbs) % pow2(padding_bits(precision)) == limbs[0] as nat % pow2(
            padding_bits(precision),
        ),
        limbs.last() >= LIMB_HIGH_BIT <==> limbs_value(limbs) >= pow2(
            (mantissa_bits(precision) - 1) as nat,
        ),
{
    let n = limbs.len() as int;
    let pad = padding_bits(precision);
    let v = limbs_value(limbs);
    let unit = pow2(pad);
    lemma_pow2_pos(pad);
    lemma_pow2_64();
    lemma_limbs_value_bound(limbs);
    // the low end
    lemma_limbs_value_cut(limbs, 0, pad);
    assert(limbs.take(0).len() == 0);
    assert(limbs_value(limbs.take(0)) == 0);
    assert((64 * 0 + pad) as nat == pad);
    assert(pow2((64 * 0) as nat) == 1);
    assert(v % unit == 0 + 1 * (limbs[0] as nat % unit));
    // the high end
    let high = pow2((64 * (n - 1) + 63) as nat);
    lemma_limbs_value_cut(limbs, n - 1, 63);
    assert(limbs.skip(n).len() == 0);
    assert(limbs_value(limbs.skip(n)) == 0);
    assert(limbs.last() == limbs[n - 1]);
    assert(limbs.skip(n - 1 + 1) == limbs.skip(n));
    let twice = pow2((64 - 63) as nat) * limbs_value(limbs.skip(n));
    assert(twice == 0) by (nonlinear_arith)
        requires
            twice == pow2((64 - 63) as nat) * limbs_value(limbs.skip(n)),
            limbs_value(limbs.skip(n)) == 0,
    ;
    assert(v / high == limbs.last() as nat / pow2(63) + twice);
    lemma_pow2_pos((64 * (n - 1) + 63) as nat);
    lemma_fundamental_div_mod(v as int, high as int);
    let top = limbs.last() as nat / pow2(63);
    assert(limbs.last() >= LIMB_HIGH_BIT <==> top >= 1);
    assert(top >= 1 <==> v >= high) by (nonlinear_arith)
        requires
            v == high * top + v % high,
            0 <= v % high < high,
            high > 0,
    ;
}

impl BigFloat {
    /// The mantissa words, least significant first.
    pub open(crate) spec fn limbs(&self) -> Seq<u64> {
        self.mantissa@
    }

    /// The words are as many as the precision needs. Every function of this
    /// crate that takes a value asks this of it, and no more; every
    /// constructor establishes it.
    pub open spec fn sized(&self) -> bool {
        &&& self@.precision >= 1
        &&& self.limbs().len() == mantissa_len(self@.precision)
    }

    /// The invariant of a value: see [`FloatModel::wf`].
    pub open spec fn wf(&self) -> bool {
        &&& self.sized()
        &&& self@.wf()
    }

    /// A value made of the given parts, if the words, least significant
    /// first, are as many as a precision of at least one bit needs.
    pub fn from_parts(precision_bits: u64, sign: Sign, exponent: Exponent, mantissa: Vec<u64>) -> (r:
        Option<BigFloat>)
        ensures
            r is Some <==> precision_bits >= 1 && mantissa@.len() == mantissa_len(
                precision_bits as nat,
            ),
            r matches Some(x) ==> x.sized() && x@.precision == precision_bits && x@.sign == sign
                && x@.exponent == exponent && x.limbs() == mantissa@,
    {
        if precision_bits == 0 {
            return None;
        }
        let whole = precision_bits / LIMB_BITS;
        let needed = if precision_bits % LIMB_BITS == 0 {
            whole
        } else {
            whole + 1
        };
        if mantissa.len() as u64 != needed {
            return None;
        }
        Some(BigFloat { precision_bits, sign, exponent, mantissa })
    }

    /// Whether the value meets its invariant: the unused low bits of the
    /// first word are clear and, where the value is finite, the exponent is
    /// in range and the leading bit is set.
    pub fn is_well_formed(&self) -> (r: bool)
        requires
            self.sized(),
        ensures
            r == self.wf(),
    {
        proof {
            lemma_storage_model(self@.precision, self.limbs());
        }
        let n = self.mantissa.len();
        if self.mantissa[0] & low_mask(padding(self.precision_bits)) != 0 {
            return false;
        }
        match self.exponent {
            Exponent::Finite(e) => MIN_EXPONENT_INCLUSIVE <= e && e <= MAX_EXPONENT_INCLUSIVE
                && self.mantissa[n - 1] >= LIMB_HIGH_BIT,
            _ => true,
        }
    }

    /// The precision in bits.
    pub fn precision_bits(&self) -> (r: u64)
        ensures
            r == self@.precision,
    {
        self.precision_bits
    }

    /// The sign.
    pub fn sign(&self) -> (r: Sign)
        ensures
            r == self@.sign,
    {
        self.sign
    }

    /// The exponent class, with the exponent of a finite value.
    pub fn exponent(&self) -> (r: Exponent)
        ensures
            r == self@.exponent,
    {
        self.exponent
    }

    /// The mantissa words, least significant first.
    pub fn mantissa(&self) -> (r: &[u64])
        ensures
            r@ == self.limbs(),
            limbs_value(r@) == self@.mantissa,
    {
        self.mantissa.as_slice()
    }

    /// The number of mantissa words.
    pub fn mantissa_len(&self) -> (r: usize)
        ensures
            r == self.limbs().len(),
    {
        self.mantissa.len()
    }

    /// Writes `word` as mantissa word `index`, counted from the least
    /// significant, if the mantissa has such a word. Nothing else changes.
    pub fn set_limb(&mut self, index: usize, word: u64) -> (done: bool)
        ensures
            done == (index < old(self).limbs().len()),
            final(self).limbs() == (if done {
                old(self).limbs().update(index as int, word)
            } else {
                old(self).limbs()
            }),
            final(self)@.precision == old(self)@.precision,
            final(self)@.sign == old(self)@.sign,
            final(self)@.exponent == old(self)@.exponent,
    {
        if index < self.mantissa.len() {
            self.mantissa[index] = word;
            true
        } else {
            false
        }
    }
}

/// The number of low bits of the first word that a mantissa of
/// `precision_bits` bits leaves unused.
pub fn padding(precision_bits: u64) -> (pad: u64)
    ensures
        pad == padding_bits(precision_bits as nat),
        pad < 64,
{
    (LIMB_BITS - precision_bits % LIMB_BITS) % LIMB_BITS
}

/// The model of a sized value is sized, and its mantissa is the number that
/// the words stand for.
pub proof fn lemma_view_of_sized(x: &BigFloat)
    requires
        x.sized(),
    ensures
        x@.sized(),
        x@.mantissa == limbs_value(x.limbs()),
{
    lemma_limbs_value_bound(x.limbs());
}

/// The model says all there is to say of a value: two sized values with the
/// same model have the same mantissa words.
pub proof fn lemma_view_is_faithful(a: &BigFloat, b: &BigFloat)
    requires
        a.sized(),
        b.sized(),
        a@ == b@,
    ensures
        a.limbs() == b.limbs(),
{
    lemma_limbs_value_injective(a.limbs(), b.limbs());
}

} // verus!
