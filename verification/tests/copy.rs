use bigfloat::consts;
use bigfloat::copy::copy;
use bigfloat::round::{Approx, Round, Sign};
use bigfloat::value::{BigFloat, Exponent};

/// Words written most significant first, in storage order.
fn rev<const N: usize>(mut words: [u64; N]) -> [u64; N] {
    words.reverse();
    words
}

/// A value in a buffer of `N` words, of which it uses as many as its
/// precision needs.
fn from_parts<const N: usize>(
    precision_bits: u64,
    sign: Sign,
    exponent: Exponent,
    buffer: [u64; N],
) -> BigFloat {
    let len = precision_bits.div_ceil(64) as usize;
    BigFloat::from_parts(precision_bits, sign, exponent, buffer[..len].to_vec()).unwrap()
}

#[test]
fn test_widening_copy() {
    let src = from_parts(
        4,
        Sign::Neg,
        Exponent::Finite(3),
        rev([0b1011_0000_0000_0000_0000_0000_0000_0000_0000_0000_0000_0000_0000_0000_0000]),
    );
    let mut dst = from_parts(8, Sign::Pos, Exponent::Zero, rev([0]));

    for &rnd in Round::ALL.iter() {
        assert!(copy(&mut dst, &src, rnd) == Approx::Exact);

        assert!(dst.precision_bits() == 8);
        assert!(dst.exponent() == Exponent::Finite(3));
        assert!(dst.sign() == Sign::Neg);
        assert!(
            dst.mantissa()
                == &[0b1011_0000_0000_0000_0000_0000_0000_0000_0000_0000_0000_0000_0000_0000_0000]
        );
    }
}

#[test]
fn test_very_widening_copy() {
    let src = from_parts(
        4,
        Sign::Neg,
        Exponent::Finite(3),
        rev([0b1011_0000_0000_0000_0000_0000_0000_0000_0000_0000_0000_0000_0000_0000_0000]),
    );
    let mut dst = from_parts(72, Sign::Pos, Exponent::Zero, rev([0, 0]));

    for &rnd in Round::ALL.iter() {
        assert!(copy(&mut dst, &src, rnd) == Approx::Exact);

        assert!(dst.precision_bits() == 72);
        assert!(dst.exponent() == Exponent::Finite(3));
        assert!(dst.sign() == Sign::Neg);
        assert!(
            dst.mantissa()
                == &rev([
                    0b1011_0000_0000_0000_0000_0000_0000_0000_0000_0000_0000_0000_0000_0000_0000,
                    0b0000_0000_0000_0000_0000_0000_0000_0000_0000_0000_0000_0000_0000_0000_0000
                ])
        );
    }
}

#[test]
fn test_narrowing_copy_exact() {
    let src = from_parts(
        8,
        Sign::Neg,
        Exponent::Finite(3),
        rev([0b1011_0000_0000_0000_0000_0000_0000_0000_0000_0000_0000_0000_0000_0000_0000_0000]),
    );
    let mut dst = from_parts(4, Sign::Pos, Exponent::Zero, rev([0, 0]));

    for &rnd in Round::ALL.iter() {
        assert!(copy(&mut dst, &src, rnd) == Approx::Exact);

        assert!(dst.precision_bits() == 4);
        assert!(dst.exponent() == Exponent::Finite(3));
        assert!(dst.sign() == Sign::Neg);
        assert!(
            dst.mantissa()
                == &[0b1011_0000_0000_0000_0000_0000_0000_0000_0000_0000_0000_0000_0000_0000_0000_0000]
        );
    }
}

#[test]
fn test_narrowing_copy_round_nearest_down() {
    let src = from_parts(
        8,
        Sign::Neg,
        Exponent::Finite(3),
        rev([0b1011_1001_0000_0000_0000_0000_0000_0000_0000_0000_0000_0000_0000_0000_0000_0000]),
    );
    let mut dst = from_parts(4, Sign::Pos, Exponent::Zero, rev([0, 0]));

    assert!(copy(&mut dst, &src, Round::ToNearest) == Approx::LessThanExact);
    assert!(dst.precision_bits() == 4);
    assert!(dst.exponent() == Exponent::Finite(3));
    assert!(dst.sign() == Sign::Neg);
    assert!(
        dst.mantissa()
            == &[0b1100_0000_0000_0000_0000_0000_0000_0000_0000_0000_0000_0000_0000_0000_0000_0000]
    );
}

#[test]
fn test_narrowing_copy_round_nearest_down_overflow() {
    let src = from_parts(
        8,
        Sign::Neg,
        Exponent::Finite(3),
        rev([0b1111_1001_0000_0000_0000_0000_0000_0000_0000_0000_0000_0000_0000_0000_0000_0000]),
    );
    let mut dst = from_parts(4, Sign::Pos, Exponent::Zero, rev([0, 0]));

    assert!(copy(&mut dst, &src, Round::ToNearest) == Approx::LessThanExact);
    assert!(dst.precision_bits() == 4);
    assert!(dst.exponent() == Exponent::Finite(4));
    assert!(dst.sign() == Sign::Neg);
    assert!(
        dst.mantissa()
            == &[0b1000_0000_0000_0000_0000_0000_0000_0000_0000_0000_0000_0000_0000_0000_0000_0000]
    );
}

#[test]
fn test_narrowing_copy_round_nearest_down_overflow_to_infinity() {
    let src = from_parts(
        8,
        Sign::Neg,
        Exponent::Finite(consts::MAX_EXPONENT_INCLUSIVE),
        rev([0b1111_1001_0000_0000_0000_0000_0000_0000_0000_0000_0000_0000_0000_0000_0000_0000]),
    );
    let mut dst = from_parts(4, Sign::Pos, Exponent::Zero, rev([0, 0]));

    assert!(copy(&mut dst, &src, Round::ToNearest) == Approx::Overflow);
    assert!(dst.precision_bits() == 4);
    assert!(dst.exponent() == Exponent::Inf);
    assert!(dst.sign() == Sign::Neg);
}

#[test]
fn test_narrowing_copy_round_nearest_up() {
    let src = from_parts(
        8,
        Sign::Neg,
        Exponent::Finite(3),
        rev([0b1011_0001_0000_0000_0000_0000_0000_0000_0000_0000_0000_0000_0000_0000_0000_0000]),
    );
    let mut dst = from_parts(4, Sign::Pos, Exponent::Zero, rev([0, 0]));

    assert!(copy(&mut dst, &src, Round::ToNearest) == Approx::GreaterThanExact);
    assert!(dst.precision_bits() == 4);
    assert!(dst.exponent() == Exponent::Finite(3));
    assert!(dst.sign() == Sign::Neg);
    assert!(
        dst.mantissa()
            == &[0b1011_0000_0000_0000_0000_0000_0000_0000_0000_0000_0000_0000_0000_0000_0000_0000]
    );
}

#[test]
fn test_narrowing_copy_round_nearest_halfway_down() {
    let src = from_parts(
        8,
        Sign::Neg,
        Exponent::Finite(3),
        rev([0b1011_1000_0000_0000_0000_0000_0000_0000_0000_0000_0000_0000_0000_0000_0000_0000]),
    );
    let mut dst = from_parts(4, Sign::Pos, Exponent::Zero, rev([0, 0]));

    assert!(copy(&mut dst, &src, Round::ToNearest) == Approx::LessThanExact);
    assert!(dst.precision_bits() == 4);
    assert!(dst.exponent() == Exponent::Finite(3));
    assert!(dst.sign() == Sign::Neg);
    assert!(
        dst.mantissa()
            == &[0b1100_0000_0000_0000_0000_0000_0000_0000_0000_0000_0000_0000_0000_0000_0000_0000]
    );
}

#[test]
fn test_narrowing_copy_round_nearest_halfway_up() {
    let src = from_parts(
        8,
        Sign::Neg,
        Exponent::Finite(3),
        rev([0b1010_1000_0000_0000_0000_0000_0000_0000_0000_0000_0000_0000_0000_0000_0000_0000]),
    );
    let mut dst = from_parts(4, Sign::Pos, Exponent::Zero, rev([0, 0]));

    assert!(copy(&mut dst, &src, Round::ToNearest) == Approx::GreaterThanExact);
    assert!(dst.precision_bits() == 4);
    assert!(dst.exponent() == Exponent::Finite(3));
    assert!(dst.sign() == Sign::Neg);
    assert!(
        dst.mantissa()
            == &[0b1010_0000_0000_0000_0000_0000_0000_0000_0000_0000_0000_0000_0000_0000_0000_0000]
    );
}

#[test]
fn test_narrowing_copy_round_up() {
    let src = from_parts(
        40,
        Sign::Neg,
        Exponent::Finite(3),
        rev([
            0b1010_1000_0000_0000_0000_0000_0000_0000_0000_0000_0000_0000_0000_0000_0000_0000,
            0b1010_1000_0000_0000_0000_0000_0000_0000_0000_0000_0000_0000_0000_0000_0000_0000,
        ]),
    );
    let mut dst = from_parts(4, Sign::Pos, Exponent::Zero, rev([0, 0]));

    assert!(copy(&mut dst, &src, Round::Up) == Approx::GreaterThanExact);
    assert!(dst.precision_bits() == 4);
    assert!(dst.exponent() == Exponent::Finite(3));
    assert!(dst.sign() == Sign::Neg);
    assert!(
        dst.mantissa()
            == &[0b1010_0000_0000_0000_0000_0000_0000_0000_0000_0000_0000_0000_0000_0000_0000_0000]
    );
}
