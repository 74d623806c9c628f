//! Scores as IEEE 754 binary64 values held by their bit pattern.
//!
//! The trainer never computes with scores: it stores them, compares them and
//! hands them on. A binary64 value that is not a NaN is ordered like the
//! sign-and-magnitude integer that its bits spell, so comparing two scores is
//! integer work, and that is all this module does with them.

use vstd::prelude::*;

verus! {

/// The bit that carries the sign.
pub const SIGN_BIT: u64 = 0x8000_0000_0000_0000;

/// Magnitude of an infinity. Every larger magnitude is a NaN.
pub const INFINITY_MAGNITUDE: u64 = 0x7FF0_0000_0000_0000;

/// Bit pattern of one half, the significance threshold of the maximization step.
pub const HALF_BITS: u64 = 0x3FE0_0000_0000_0000;

/// A binary64 value, kept as its 64 bits.
#[derive(Clone, Copy, Debug, PartialEq, Eq, Structural)]
pub struct Score {
    pub bits: u64,
}

impl Score {
    /// The bits without the sign.
    pub open spec fn magnitude(self) -> int {
        if self.bits >= SIGN_BIT {
            self.bits - SIGN_BIT
        } else {
            self.bits as int
        }
    }

    /// Whether the sign bit is set.
    pub open spec fn is_negative(self) -> bool {
        self.bits >= SIGN_BIT
    }

    /// Whether the bits spell a number (finite or infinite) rather than a NaN.
    pub open spec fn is_number(self) -> bool {
        self.magnitude() <= INFINITY_MAGNITUDE
    }

    /// The sign-and-magnitude integer of the bits. Among numbers, a larger
    /// rank is a larger value and equal ranks are equal values: both zeros
    /// have rank 0.
    pub open spec fn rank(self) -> int {
        if self.is_negative() {
            -self.magnitude()
        } else {
            self.magnitude()
        }
    }

    /// Numeric `<`: false as soon as one side is a NaN.
    pub open spec fn below(self, other: Score) -> bool {
        self.is_number() && other.is_number() && self.rank() < other.rank()
    }

    /// Numeric `>=`: false as soon as one side is a NaN.
    pub open spec fn at_least(self, other: Score) -> bool {
        self.is_number() && other.is_number() && self.rank() >= other.rank()
    }

    /// The score with the given bit pattern.
    pub fn from_bits(bits: u64) -> (score: Score)
        ensures
            score.bits == bits,
    {
        Score { bits }
    }

    /// The bit pattern of the score.
    pub fn to_bits(self) -> (bits: u64)
        ensures
            bits == self.bits,
    {
        self.bits
    }

    /// Positive zero, the score of the reserved pieces.
    pub fn zero() -> (score: Score)
        ensures
            score.bits == 0,
            score.is_number(),
            score.rank() == 0,
    {
        Score { bits: 0 }
    }

    /// One half.
    pub fn half() -> (score: Score)
        ensures
            score.bits == HALF_BITS,
            score.is_number(),
            score.rank() == HALF_BITS,
    {
        Score { bits: HALF_BITS }
    }

    /// Tells whether the bits spell a NaN.
    pub fn is_nan(self) -> (nan: bool)
        ensures
            nan == !self.is_number(),
    {
        if self.bits >= SIGN_BIT {
            self.bits - SIGN_BIT > INFINITY_MAGNITUDE
        } else {
            self.bits > INFINITY_MAGNITUDE
        }
    }

    /// The rank as a machine integer.
    pub fn key(self) -> (k: i64)
        ensures
            k == self.rank(),
    {
        if self.bits >= SIGN_BIT {
            let magnitude: u64 = self.bits - SIGN_BIT;
            -(magnitude as i64)
        } else {
            self.bits as i64
        }
    }

    /// Numeric `<` on two scores.
    pub fn is_below(self, other: Score) -> (lower: bool)
        ensures
            lower == self.below(other),
    {
        !self.is_nan() && !other.is_nan() && self.key() < other.key()
    }
}

} // verus!
