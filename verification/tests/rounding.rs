use bigfloat::consts::{MAX_EXPONENT_INCLUSIVE, MIN_EXPONENT_INCLUSIVE};
use bigfloat::copy::{abs, copy, copy_finite_with_sign_round, copy_with_sign};
use bigfloat::round::{Approx, Round, RoundKnownSign, Sign};
use bigfloat::value::{BigFloat, Exponent};

const TOP: u64 = 1 << 63;

fn float(precision_bits: u64, sign: Sign, exponent: Exponent, words: &[u64]) -> BigFloat {
    BigFloat::from_parts(precision_bits, sign, exponent, words.to_vec()).unwrap()
}

/// An eight-bit finite value with the given significand.
fn eight_bits(sign: Sign, exponent: i64, significand: u64) -> BigFloat {
    float(8, sign, Exponent::Finite(exponent), &[significand << 56])
}

fn four_bit_zero() -> BigFloat {
    float(4, Sign::Pos, Exponent::Zero, &[0])
}

#[test]
fn nearest_tie_from_odd_goes_up() {
    let src = eight_bits(Sign::Neg, 3, 0b1011_1000);
    let mut dst = four_bit_zero();
    assert_eq!(copy(&mut dst, &src, Round::ToNearest), Approx::LessThanExact);
    assert_eq!(dst.mantissa(), &[0b1100 << 60]);
    assert_eq!(dst.exponent(), Exponent::Finite(3));
    assert_eq!(dst.sign(), Sign::Neg);
    assert!(dst.is_well_formed());
}

#[test]
fn nearest_tie_from_even_stays() {
    let src = eight_bits(Sign::Neg, 3, 0b1010_1000);
    let mut dst = four_bit_zero();
    assert_eq!(copy(&mut dst, &src, Round::ToNearest), Approx::GreaterThanExact);
    assert_eq!(dst.mantissa(), &[0b1010 << 60]);
    assert_eq!(dst.exponent(), Exponent::Finite(3));
    assert!(dst.is_well_formed());
}

#[test]
fn carry_at_largest_exponent_gives_infinity() {
    let src = eight_bits(Sign::Neg, MAX_EXPONENT_INCLUSIVE, 0b1111_1001);
    let mut dst = four_bit_zero();
    assert_eq!(copy(&mut dst, &src, Round::ToNearest), Approx::Overflow);
    assert_eq!(dst.exponent(), Exponent::Inf);
    assert_eq!(dst.sign(), Sign::Neg);
    assert_eq!(dst.mantissa(), &[TOP]);
    assert!(dst.is_well_formed());
}

#[test]
fn away_from_zero_saturates_with_either_sign() {
    for sign in [Sign::Pos, Sign::Neg] {
        let src = eight_bits(sign, MAX_EXPONENT_INCLUSIVE, 0b1111_0001);
        let mut dst = four_bit_zero();
        assert_eq!(copy(&mut dst, &src, Round::AwayFromZero), Approx::Overflow);
        assert_eq!(dst.exponent(), Exponent::Inf);
        assert_eq!(dst.sign(), sign);
    }
}

#[test]
fn all_ones_that_fit_do_not_overflow() {
    let src = eight_bits(Sign::Pos, MAX_EXPONENT_INCLUSIVE, 0b1111_0000);
    let mut dst = four_bit_zero();
    assert_eq!(copy(&mut dst, &src, Round::AwayFromZero), Approx::Exact);
    assert_eq!(dst.exponent(), Exponent::Finite(MAX_EXPONENT_INCLUSIVE));
    assert_eq!(dst.mantissa(), &[0b1111 << 60]);
}

#[test]
fn toward_zero_never_overflows() {
    let src = eight_bits(Sign::Pos, MAX_EXPONENT_INCLUSIVE, 0b1111_1111);
    let mut dst = four_bit_zero();
    assert_eq!(copy(&mut dst, &src, Round::ToZero), Approx::LessThanExact);
    assert_eq!(dst.exponent(), Exponent::Finite(MAX_EXPONENT_INCLUSIVE));
    assert_eq!(dst.mantissa(), &[0b1111 << 60]);
}

#[test]
fn carry_below_largest_exponent_raises_it() {
    let src = eight_bits(Sign::Pos, MAX_EXPONENT_INCLUSIVE - 1, 0b1111_1000);
    let mut dst = four_bit_zero();
    assert_eq!(copy(&mut dst, &src, Round::ToNearest), Approx::GreaterThanExact);
    assert_eq!(dst.exponent(), Exponent::Finite(MAX_EXPONENT_INCLUSIVE));
    assert_eq!(dst.mantissa(), &[TOP]);
    let low = eight_bits(Sign::Pos, MIN_EXPONENT_INCLUSIVE, 0b1111_1000);
    assert_eq!(copy(&mut dst, &low, Round::ToNearest), Approx::GreaterThanExact);
    assert_eq!(dst.exponent(), Exponent::Finite(MIN_EXPONENT_INCLUSIVE + 1));
}

#[test]
fn directed_modes_follow_the_sign() {
    // 1011_0100 lies between 1011 and 1100, nearer to 1011.
    let cases = [
        (Round::ToNearest, Sign::Pos, 0b1011, Approx::LessThanExact),
        (Round::ToNearest, Sign::Neg, 0b1011, Approx::GreaterThanExact),
        (Round::ToZero, Sign::Pos, 0b1011, Approx::LessThanExact),
        (Round::ToZero, Sign::Neg, 0b1011, Approx::GreaterThanExact),
        (Round::AwayFromZero, Sign::Pos, 0b1100, Approx::GreaterThanExact),
        (Round::AwayFromZero, Sign::Neg, 0b1100, Approx::LessThanExact),
        (Round::Up, Sign::Pos, 0b1100, Approx::GreaterThanExact),
        (Round::Up, Sign::Neg, 0b1011, Approx::GreaterThanExact),
        (Round::Down, Sign::Pos, 0b1011, Approx::LessThanExact),
        (Round::Down, Sign::Neg, 0b1100, Approx::LessThanExact),
    ];
    for (rnd, sign, significand, approx) in cases {
        let src = eight_bits(sign, -5, 0b1011_0100);
        let mut dst = four_bit_zero();
        assert_eq!(copy(&mut dst, &src, rnd), approx);
        assert_eq!(dst.mantissa(), &[significand << 60]);
        assert_eq!(dst.exponent(), Exponent::Finite(-5));
        assert_eq!(dst.sign(), sign);
    }
}

#[test]
fn resolver_table() {
    for sign in [Sign::Pos, Sign::Neg] {
        assert_eq!(Round::ToNearest.with_sign(sign), RoundKnownSign::ToNearest);
        assert_eq!(Round::ToZero.with_sign(sign), RoundKnownSign::ToZero);
        assert_eq!(Round::AwayFromZero.with_sign(sign), RoundKnownSign::AwayFromZero);
    }
    assert_eq!(Round::Up.with_sign(Sign::Pos), RoundKnownSign::AwayFromZero);
    assert_eq!(Round::Up.with_sign(Sign::Neg), RoundKnownSign::ToZero);
    assert_eq!(Round::Down.with_sign(Sign::Pos), RoundKnownSign::ToZero);
    assert_eq!(Round::Down.with_sign(Sign::Neg), RoundKnownSign::AwayFromZero);
    assert_eq!(Round::ALL.len(), 5);
}

#[test]
fn decision_table() {
    for rnd in [RoundKnownSign::ToNearest, RoundKnownSign::ToZero, RoundKnownSign::AwayFromZero] {
        for odd in [false, true] {
            assert!(!rnd.rounds_away(false, false, odd));
            assert!(!RoundKnownSign::ToZero.rounds_away(true, odd, true));
            assert!(RoundKnownSign::AwayFromZero.rounds_away(false, true, odd));
            assert!(RoundKnownSign::AwayFromZero.rounds_away(true, false, odd));
        }
    }
    let nearest = RoundKnownSign::ToNearest;
    assert!(!nearest.rounds_away(false, true, true));
    assert!(!nearest.rounds_away(true, false, false));
    assert!(nearest.rounds_away(true, false, true));
    assert!(nearest.rounds_away(true, true, false));
    assert!(nearest.rounds_away(true, true, true));
}

#[test]
fn signs_and_outcomes() {
    assert_eq!(Sign::Pos.neg(), Sign::Neg);
    assert_eq!(Sign::Neg.neg(), Sign::Pos);
    assert!(Sign::Neg.is_negative());
    assert!(!Sign::Pos.is_negative());
    assert_eq!(Approx::from_sign(Sign::Pos), Approx::GreaterThanExact);
    assert_eq!(Approx::from_sign(Sign::Neg), Approx::LessThanExact);
}

#[test]
fn nearest_stays_within_half_a_unit() {
    for significand in 0b1000_0000u64..=0b1111_1111 {
        let src = eight_bits(Sign::Pos, 0, significand);
        let mut dst = four_bit_zero();
        let approx = copy(&mut dst, &src, Round::ToNearest);
        let raised = match dst.exponent() {
            Exponent::Finite(e) => e as u64,
            other => panic!("{other:?}"),
        };
        assert!(raised <= 1);
        // both in units of the last bit of the source
        let stored = ((dst.mantissa()[0] >> 60) << 4) << raised;
        assert!(2 * stored.abs_diff(significand) <= 16);
        if significand % 16 == 8 {
            assert_eq!((stored >> 4) % 2, 0);
        }
        let side = if stored == significand {
            Approx::Exact
        } else if stored > significand {
            Approx::GreaterThanExact
        } else {
            Approx::LessThanExact
        };
        assert_eq!(approx, side);
        assert!(dst.is_well_formed());
    }
}

#[test]
fn negation_mirrors_the_copy() {
    for rnd in [Round::AwayFromZero, Round::ToZero, Round::ToNearest] {
        for significand in [0b1000_0001u64, 0b1011_1000, 0b1111_1111, 0b1100_0000] {
            let plus = eight_bits(Sign::Pos, 7, significand);
            let minus = eight_bits(Sign::Neg, 7, significand);
            let mut a = four_bit_zero();
            let mut b = four_bit_zero();
            let left = copy(&mut a, &plus, rnd);
            let right = copy(&mut b, &minus, rnd);
            assert_eq!(a.mantissa(), b.mantissa());
            assert_eq!(a.exponent(), b.exponent());
            assert_eq!(a.sign(), Sign::Pos);
            assert_eq!(b.sign(), Sign::Neg);
            let mirrored = match left {
                Approx::GreaterThanExact => Approx::LessThanExact,
                Approx::LessThanExact => Approx::GreaterThanExact,
                other => other,
            };
            assert_eq!(right, mirrored);
        }
    }
}

#[test]
fn special_values_pass_through() {
    for class in [Exponent::Zero, Exponent::Inf, Exponent::NaN] {
        for &rnd in Round::ALL.iter() {
            for sign in [Sign::Pos, Sign::Neg] {
                let src = float(8, sign, class, &[0x1234_5678_9abc_def0]);
                let mut narrow = float(4, Sign::Pos, Exponent::Finite(1), &[0b1001 << 60]);
                assert_eq!(copy(&mut narrow, &src, rnd), Approx::Exact);
                assert_eq!(narrow.exponent(), class);
                assert_eq!(narrow.sign(), sign);
                assert_eq!(narrow.precision_bits(), 4);
                assert_eq!(narrow.mantissa(), &[0b1001 << 60]);
                let mut wide = float(70, Sign::Pos, Exponent::Finite(1), &[5 << 58, TOP]);
                assert_eq!(copy(&mut wide, &src, rnd), Approx::Exact);
                assert_eq!(wide.exponent(), class);
                assert_eq!(wide.sign(), sign);
                assert_eq!(wide.mantissa(), &[5 << 58, TOP]);
                assert!(wide.is_well_formed());
            }
        }
    }
}

#[test]
fn equal_precision_copy_is_identical() {
    for &rnd in Round::ALL.iter() {
        let src = float(70, Sign::Neg, Exponent::Finite(-9), &[0b101101 << 58, TOP | 77]);
        let mut dst = float(70, Sign::Pos, Exponent::Inf, &[0, 0]);
        assert_eq!(copy(&mut dst, &src, rnd), Approx::Exact);
        assert_eq!(dst.sign(), src.sign());
        assert_eq!(dst.exponent(), src.exponent());
        assert_eq!(dst.mantissa(), src.mantissa());
        assert_eq!(dst.precision_bits(), 70);
    }
}

#[test]
fn widening_sets_the_words_above_zeros() {
    let src = float(70, Sign::Pos, Exponent::Finite(2), &[0b11 << 58, TOP | 1]);
    let mut dst = float(200, Sign::Neg, Exponent::NaN, &[9, 9, 9, 9]);
    assert_eq!(copy(&mut dst, &src, Round::Down), Approx::Exact);
    assert_eq!(dst.mantissa(), &[0, 0, 0b11 << 58, TOP | 1]);
    assert_eq!(dst.exponent(), Exponent::Finite(2));
    assert_eq!(dst.sign(), Sign::Pos);
    assert!(dst.is_well_formed());
}

#[test]
fn abs_forces_a_positive_sign() {
    let src = eight_bits(Sign::Neg, 3, 0b1011_0100);
    let mut dst = four_bit_zero();
    // the magnitude is rounded as that of a positive value
    assert_eq!(abs(&mut dst, &src, Round::Up), Approx::GreaterThanExact);
    assert_eq!(dst.sign(), Sign::Pos);
    assert_eq!(dst.mantissa(), &[0b1100 << 60]);
    let mut wide = float(8, Sign::Neg, Exponent::Zero, &[0]);
    assert_eq!(abs(&mut wide, &src, Round::Down), Approx::Exact);
    assert_eq!(wide.sign(), Sign::Pos);
    assert_eq!(wide.mantissa(), src.mantissa());
}

#[test]
fn copy_with_sign_takes_the_sign_given() {
    let src = eight_bits(Sign::Pos, 3, 0b1011_0100);
    let mut dst = four_bit_zero();
    assert_eq!(copy_with_sign(&mut dst, &src, Round::Up, Sign::Neg), Approx::GreaterThanExact);
    assert_eq!(dst.sign(), Sign::Neg);
    assert_eq!(dst.mantissa(), &[0b1011 << 60]);
    assert_eq!(copy_with_sign(&mut dst, &src, Round::Down, Sign::Neg), Approx::LessThanExact);
    assert_eq!(dst.mantissa(), &[0b1100 << 60]);
}

#[test]
fn rounding_path_alone() {
    let src = eight_bits(Sign::Pos, 3, 0b1011_0100);
    let mut dst = four_bit_zero();
    let approx = copy_finite_with_sign_round(&mut dst, &src, Round::AwayFromZero, Sign::Pos);
    assert_eq!(approx, Approx::GreaterThanExact);
    assert_eq!(dst.mantissa(), &[0b1100 << 60]);
    let zero = float(8, Sign::Neg, Exponent::Zero, &[0]);
    let approx = copy_finite_with_sign_round(&mut dst, &zero, Round::AwayFromZero, Sign::Neg);
    assert_eq!(approx, Approx::Exact);
    assert_eq!(dst.exponent(), Exponent::Zero);
    assert_eq!(dst.sign(), Sign::Neg);
}

#[test]
fn cut_on_a_word_boundary() {
    // 128 bits into 64: the round bit is the top bit of the low word.
    let mut dst = float(64, Sign::Pos, Exponent::Zero, &[0]);
    let half = float(128, Sign::Pos, Exponent::Finite(0), &[TOP, TOP | 1]);
    assert_eq!(copy(&mut dst, &half, Round::ToNearest), Approx::GreaterThanExact);
    assert_eq!(dst.mantissa(), &[TOP | 2]);
    let half_even = float(128, Sign::Pos, Exponent::Finite(0), &[TOP, TOP | 2]);
    assert_eq!(copy(&mut dst, &half_even, Round::ToNearest), Approx::LessThanExact);
    assert_eq!(dst.mantissa(), &[TOP | 2]);
    let below_half = float(128, Sign::Pos, Exponent::Finite(0), &[TOP - 1, TOP | 1]);
    assert_eq!(copy(&mut dst, &below_half, Round::ToNearest), Approx::LessThanExact);
    assert_eq!(dst.mantissa(), &[TOP | 1]);
    let above_half = float(128, Sign::Pos, Exponent::Finite(0), &[TOP | 1, TOP | 2]);
    assert_eq!(copy(&mut dst, &above_half, Round::ToNearest), Approx::GreaterThanExact);
    assert_eq!(dst.mantissa(), &[TOP | 3]);
    let exact = float(128, Sign::Pos, Exponent::Finite(0), &[0, TOP | 1]);
    assert_eq!(copy(&mut dst, &exact, Round::AwayFromZero), Approx::Exact);
    assert_eq!(dst.mantissa(), &[TOP | 1]);
}

#[test]
fn sticky_bit_far_below() {
    // 256 bits into 70: one set bit in the lowest word decides.
    let mut dst = float(70, Sign::Pos, Exponent::Zero, &[0, 0]);
    let src = float(256, Sign::Pos, Exponent::Finite(0), &[1, 0, 1 << 57, TOP]);
    assert_eq!(copy(&mut dst, &src, Round::ToNearest), Approx::GreaterThanExact);
    assert_eq!(dst.mantissa(), &[1 << 58, TOP]);
    let tie = float(256, Sign::Pos, Exponent::Finite(0), &[0, 0, 1 << 57, TOP]);
    assert_eq!(copy(&mut dst, &tie, Round::ToNearest), Approx::LessThanExact);
    assert_eq!(dst.mantissa(), &[0, TOP]);
    let sticky_only = float(256, Sign::Pos, Exponent::Finite(0), &[0, 1, 0, TOP]);
    assert_eq!(copy(&mut dst, &sticky_only, Round::ToNearest), Approx::LessThanExact);
    assert_eq!(dst.mantissa(), &[0, TOP]);
    assert_eq!(copy(&mut dst, &sticky_only, Round::AwayFromZero), Approx::GreaterThanExact);
    assert_eq!(dst.mantissa(), &[1 << 58, TOP]);
}

#[test]
fn carry_runs_through_the_words() {
    let mut dst = float(128, Sign::Pos, Exponent::Zero, &[0, 0]);
    let src = float(192, Sign::Neg, Exponent::Finite(10), &[TOP, u64::MAX, TOP | 5]);
    assert_eq!(copy(&mut dst, &src, Round::ToNearest), Approx::LessThanExact);
    assert_eq!(dst.mantissa(), &[0, TOP | 6]);
    assert_eq!(dst.exponent(), Exponent::Finite(10));
    let ones = float(192, Sign::Neg, Exponent::Finite(10), &[1, u64::MAX, u64::MAX]);
    assert_eq!(copy(&mut dst, &ones, Round::Down), Approx::LessThanExact);
    assert_eq!(dst.mantissa(), &[0, TOP]);
    assert_eq!(dst.exponent(), Exponent::Finite(11));
    assert!(dst.is_well_formed());
    assert_eq!(copy(&mut dst, &ones, Round::Up), Approx::GreaterThanExact);
    assert_eq!(dst.mantissa(), &[u64::MAX, u64::MAX]);
    assert_eq!(dst.exponent(), Exponent::Finite(10));
}

#[test]
fn one_bit_destination() {
    let mut dst = float(1, Sign::Pos, Exponent::Zero, &[0]);
    let src = eight_bits(Sign::Pos, 0, 0b1100_0000);
    assert_eq!(copy(&mut dst, &src, Round::ToNearest), Approx::GreaterThanExact);
    assert_eq!(dst.mantissa(), &[TOP]);
    assert_eq!(dst.exponent(), Exponent::Finite(1));
    let src = eight_bits(Sign::Pos, 0, 0b1011_1111);
    assert_eq!(copy(&mut dst, &src, Round::ToNearest), Approx::LessThanExact);
    assert_eq!(dst.mantissa(), &[TOP]);
    assert_eq!(dst.exponent(), Exponent::Finite(0));
}
