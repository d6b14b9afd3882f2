use vstd::prelude::*;

verus! {

/// The sign bit of an `f32` bit pattern.
pub const SIGN_BIT: u32 = 0x8000_0000;

/// The bit pattern of positive infinity; a larger magnitude is a NaN.
pub const INFINITY_BITS: u32 = 0x7f80_0000;

/// The rank given to every NaN: above the rank of every number, infinity
/// included.
pub const NAN_RANK: i64 = 0x8000_0000;

/// The magnitude part of an `f32` bit pattern: every bit but the sign.
pub open spec fn magnitude_of(bits: u32) -> int {
    (bits % 0x8000_0000) as int
}

/// The bits are those of a NaN.
pub open spec fn is_nan(bits: u32) -> bool {
    magnitude_of(bits) > INFINITY_BITS as int
}

/// Where an `f32` with these bits stands among all scores.
///
/// Two numbers compare as their ranks do: a non-negative `f32` orders as its
/// bit pattern does, and a negative one as its negated magnitude. Both zeros
/// get rank 0. A NaN compares with nothing (see `Score::exceeds`); its rank
/// only fixes where it is placed, which is above every number.
pub open spec fn rank_of(bits: u32) -> int {
    let m = magnitude_of(bits);
    if is_nan(bits) {
        NAN_RANK as int
    } else if bits >= SIGN_BIT {
        -m
    } else {
        m
    }
}

/// A similarity score, held as the IEEE 754 bit pattern of an `f32`.
#[derive(Debug, Clone, Copy)]
pub struct Score {
    pub bits: u32,
}

impl Score {
    /// The score's place in the order of all scores.
    pub open spec fn spec_rank(self) -> int {
        rank_of(self.bits)
    }

    pub fn from_bits(bits: u32) -> (s: Score)
        ensures
            s.bits == bits,
    {
        Score { bits }
    }

    /// The rank of the score, as an integer that orders scores as the
    /// numbers they hold compare.
    pub fn rank(&self) -> (r: i64)
        ensures
            r as int == self.spec_rank(),
    {
        let m: u32 = if self.bits >= SIGN_BIT {
            self.bits - SIGN_BIT
        } else {
            self.bits
        };
        if m > INFINITY_BITS {
            NAN_RANK
        } else if self.bits >= SIGN_BIT {
            -(m as i64)
        } else {
            m as i64
        }
    }

    pub open spec fn spec_is_nan(self) -> bool {
        is_nan(self.bits)
    }

    /// Whether the score is a NaN.
    pub fn is_nan(&self) -> (r: bool)
        ensures
            r == self.spec_is_nan(),
    {
        let m: u32 = if self.bits >= SIGN_BIT {
            self.bits - SIGN_BIT
        } else {
            self.bits
        };
        m > INFINITY_BITS
    }

    /// Whether this score is strictly above `other`, as `>` compares two
    /// `f32`: false whenever either is a NaN.
    pub open spec fn spec_exceeds(self, other: Score) -> bool {
        !self.spec_is_nan() && !other.spec_is_nan() && self.spec_rank() > other.spec_rank()
    }

    /// Whether this score is strictly above `other`; false whenever either
    /// is a NaN.
    pub fn exceeds(&self, other: &Score) -> (r: bool)
        ensures
            r == self.spec_exceeds(*other),
    {
        !self.is_nan() && !other.is_nan() && self.rank() > other.rank()
    }
}

} // verus!
