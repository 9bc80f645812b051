//! Signs, rounding modes and the outcome of a rounded operation.
use vstd::prelude::*;

verus! {

/// Sign of a value.
#[derive(Clone, Copy, Debug, PartialEq, Eq, Structural)]
pub enum Sign {
    Pos,
    Neg,
}

/// Rounding mode chosen by the caller, before the sign of the result is
/// known.
#[derive(Clone, Copy, Debug, PartialEq, Eq, Structural)]
pub enum Round {
    /// To the nearest representable value, ties to the one whose last bit is 0.
    ToNearest,
    /// Toward zero.
    ToZero,
    /// Away from zero.
    AwayFromZero,
    /// Toward positive infinity.
    Up,
    /// Toward negative infinity.
    Down,
}

/// Rounding mode on the magnitude alone, once the sign is known.
#[derive(Clone, Copy, Debug, PartialEq, Eq, Structural)]
pub enum RoundKnownSign {
    /// To the nearest representable magnitude, ties to the one whose last bit
    /// is 0.
    ToNearest,
    /// To the next magnitude below.
    ToZero,
    /// To the next magnitude above.
    AwayFromZero,
}

/// How a stored result relates to the exact value it stands for.
#[derive(Clone, Copy, Debug, PartialEq, Eq, Structural)]
pub enum Approx {
    /// The stored value is the exact one.
    Exact,
    /// The stored value lies above the exact one.
    GreaterThanExact,
    /// The stored value lies below the exact one.
    LessThanExact,
    /// The magnitude left the exponent range and the result is an infinity.
    Overflow,
}

impl Sign {
    /// The opposite sign.
    pub open spec fn spec_neg(self) -> Sign {
        match self {
            Sign::Pos => Sign::Neg,
            Sign::Neg => Sign::Pos,
        }
    }

    /// The opposite sign.
    #[verifier::when_used_as_spec(spec_neg)]
    pub fn neg(self) -> (r: Sign)
        ensures
            r == self.spec_neg(),
    {
        match self {
            Sign::Pos => Sign::Neg,
            Sign::Neg => Sign::Pos,
        }
    }

    /// Whether the sign is that of a negative value.
    pub open spec fn spec_is_negative(self) -> bool {
        self == Sign::Neg
    }

    /// Whether the sign is that of a negative value.
    #[verifier::when_used_as_spec(spec_is_negative)]
    pub fn is_negative(self) -> (r: bool)
        ensures
            r == (self == Sign::Neg),
    {
        match self {
            Sign::Pos => false,
            Sign::Neg => true,
        }
    }
}

impl Round {
    /// Every rounding mode.
    pub const ALL: [Round; 5] = [
        Round::ToNearest,
        Round::ToZero,
        Round::AwayFromZero,
        Round::Up,
        Round::Down,
    ];

    /// The magnitude-only mode that `self` amounts to for a value of sign
    /// `sign`: the two directed modes point away from zero on one side of
    /// zero and toward it on the other.
    pub open spec fn spec_with_sign(self, sign: Sign) -> RoundKnownSign {
        match self {
            Round::ToNearest => RoundKnownSign::ToNearest,
            Round::ToZero => RoundKnownSign::ToZero,
            Round::AwayFromZero => RoundKnownSign::AwayFromZero,
            Round::Up => if sign == Sign::Pos {
                RoundKnownSign::AwayFromZero
            } else {
                RoundKnownSign::ToZero
            },
            Round::Down => if sign == Sign::Pos {
                RoundKnownSign::ToZero
            } else {
                RoundKnownSign::AwayFromZero
            },
        }
    }

    /// The magnitude-only mode that `self` amounts to for a value of sign
    /// `sign`.
    #[verifier::when_used_as_spec(spec_with_sign)]
    pub fn with_sign(self, sign: Sign) -> (r: RoundKnownSign)
        ensures
            r == self.spec_with_sign(sign),
    {
        match self {
            Round::ToNearest => RoundKnownSign::ToNearest,
            Round::ToZero => RoundKnownSign::ToZero,
            Round::AwayFromZero => RoundKnownSign::AwayFromZero,
            Round::Up => match sign {
                Sign::Pos => RoundKnownSign::AwayFromZero,
                Sign::Neg => RoundKnownSign::ToZero,
            },
            Round::Down => match sign {
                Sign::Pos => RoundKnownSign::ToZero,
                Sign::Neg => RoundKnownSign::AwayFromZero,
            },
        }
    }
}

impl RoundKnownSign {
    /// Whether the magnitude is rounded away from zero, given the round bit,
    /// the sticky bit and whether the kept part is odd. With both bits clear
    /// the kept part is exact and no mode moves it; else rounding toward zero
    /// never does, rounding away from zero always does, and rounding to
    /// nearest does above the half and, at the half, from an odd kept part.
    pub open spec fn spec_rounds_away(self, round_bit: bool, sticky_bit: bool, odd: bool) -> bool {
        (round_bit || sticky_bit) && match self {
            RoundKnownSign::ToZero => false,
            RoundKnownSign::AwayFromZero => true,
            RoundKnownSign::ToNearest => round_bit && (sticky_bit || odd),
        }
    }

    /// Whether the magnitude is rounded away from zero, given the round bit,
    /// the sticky bit and whether the kept part is odd.
    #[verifier::when_used_as_spec(spec_rounds_away)]
    pub fn rounds_away(self, round_bit: bool, sticky_bit: bool, odd: bool) -> (r: bool)
        ensures
            r == self.spec_rounds_away(round_bit, sticky_bit, odd),
    {
        if !round_bit && !sticky_bit {
            false
        } else {
            match self {
                RoundKnownSign::ToZero => false,
                RoundKnownSign::AwayFromZero => true,
                RoundKnownSign::ToNearest => round_bit && (sticky_bit || odd),
            }
        }
    }
}

impl Approx {
    /// The outcome of a result whose magnitude exceeds the exact one: above it
    /// for a positive value, below it for a negative one.
    pub open spec fn spec_from_sign(sign: Sign) -> Approx {
        match sign {
            Sign::Pos => Approx::GreaterThanExact,
            Sign::Neg => Approx::LessThanExact,
        }
    }

    /// The outcome of a result whose magnitude exceeds the exact one: above it
    /// for a positive value, below it for a negative one.
    #[verifier::when_used_as_spec(spec_from_sign)]
    pub fn from_sign(sign: Sign) -> (r: Approx)
        ensures
            r == Approx::spec_from_sign(sign),
    {
        match sign {
            Sign::Pos => Approx::GreaterThanExact,
            Sign::Neg => Approx::LessThanExact,
        }
    }
}

} // verus!
