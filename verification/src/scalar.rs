//! Single-precision numbers, held as their bit patterns.
//!
//! The library stores, orders and selects numbers; adding, multiplying and
//! rounding them is the host's, through [`Arithmetic`]. What a comparison
//! answers is decided by the bit patterns alone, so that part is proved here.

use core::cmp::Ordering;
use vstd::prelude::*;

verus! {

/// The bit of the sign: numbers whose patterns start here are negative.
pub const SIGN_BIT: u32 = 0x8000_0000;

/// Bit pattern of positive infinity; a greater magnitude is not a number.
pub const INFINITY_BITS: u32 = 0x7f80_0000;

/// Bit pattern of the sum of no numbers, which leaves every number unchanged
/// when the number is added to it.
pub const NEGATIVE_ZERO_BITS: u32 = 0x8000_0000;

/// Bit pattern of `0.0`.
pub const ZERO_BITS: u32 = 0;

/// Bit pattern of `1.0`.
pub const ONE_BITS: u32 = 0x3f80_0000;

/// A single-precision number in the IEEE 754 binary32 encoding.
#[derive(Clone, Copy, Debug)]
pub struct Scalar {
    /// The encoding: sign, eight bits of exponent, twenty-three of fraction.
    pub bits: u32,
}

impl Scalar {
    /// The encoding without its sign.
    pub open spec fn magnitude(self) -> int {
        if self.bits >= SIGN_BIT {
            self.bits - SIGN_BIT
        } else {
            self.bits as int
        }
    }

    /// Whether the pattern stands for no number.
    pub open spec fn nan(self) -> bool {
        self.magnitude() > INFINITY_BITS
    }

    /// Whether the pattern stands for a number that is not infinite.
    pub open spec fn finite(self) -> bool {
        self.magnitude() < INFINITY_BITS
    }

    /// The place of a number on the line; the two zeros share a place.
    pub open spec fn rank(self) -> int {
        if self.bits >= SIGN_BIT {
            -self.magnitude()
        } else {
            self.magnitude()
        }
    }

    /// The place of a pattern in the total order, which sets the zeros apart
    /// and puts the patterns that are no number at its two ends.
    pub open spec fn total_rank(self) -> int {
        if self.bits >= SIGN_BIT {
            -self.magnitude() - 1
        } else {
            self.magnitude()
        }
    }

    /// `self < other`: false where either is no number.
    pub open spec fn less(self, other: Scalar) -> bool {
        !self.nan() && !other.nan() && self.rank() < other.rank()
    }

    /// `self <= other`: false where either is no number.
    pub open spec fn at_most(self, other: Scalar) -> bool {
        !self.nan() && !other.nan() && self.rank() <= other.rank()
    }

    /// `self == other` as numbers: false where either is no number.
    pub open spec fn equals(self, other: Scalar) -> bool {
        !self.nan() && !other.nan() && self.rank() == other.rank()
    }

    /// The greater of two numbers. A pattern that is no number gives way to the
    /// other; of two equal numbers the first stays.
    pub open spec fn greater(self, other: Scalar) -> Scalar {
        if self.nan() || self.less(other) {
            other
        } else {
            self
        }
    }

    /// The number with the given bit pattern.
    pub open spec fn of_bits(bits: u32) -> Scalar {
        Scalar { bits }
    }

    /// The number with the given bit pattern.
    #[verifier::when_used_as_spec(of_bits)]
    pub fn from_bits(bits: u32) -> (number: Scalar)
        ensures
            number == Scalar::of_bits(bits),
    {
        Scalar { bits }
    }

    /// The bit pattern.
    pub fn to_bits(self) -> (bits: u32)
        ensures
            bits == self.bits,
    {
        self.bits
    }

    /// Whether this is no number.
    pub fn is_nan(self) -> (answer: bool)
        ensures
            answer == self.nan(),
    {
        self.sign_magnitude().1 > INFINITY_BITS
    }

    /// Whether this is a number and not infinite.
    pub fn is_finite(self) -> (answer: bool)
        ensures
            answer == self.finite(),
    {
        self.sign_magnitude().1 < INFINITY_BITS
    }

    /// The place in the total order as an integer, see [`Scalar::total_rank`].
    pub fn total_key(self) -> (key: i32)
        ensures
            key == self.total_rank(),
    {
        let (sign, magnitude) = self.sign_magnitude();
        if sign {
            -(magnitude as i32) - 1
        } else {
            magnitude as i32
        }
    }

    /// The number at a place of the total order.
    pub fn from_total_key(key: i32) -> (number: Scalar)
        ensures
            number.total_rank() == key,
    {
        if key < 0 {
            Scalar { bits: SIGN_BIT + (-(key + 1)) as u32 }
        } else {
            Scalar { bits: key as u32 }
        }
    }

    /// Two patterns at one place of the total order are one pattern.
    pub proof fn lemma_total_rank_injective(self, other: Scalar)
        requires
            self.total_rank() == other.total_rank(),
        ensures
            self == other,
    {
    }

    /// Sign and magnitude of the encoding.
    fn sign_magnitude(self) -> (parts: (bool, u32))
        ensures
            parts.0 == (self.bits >= SIGN_BIT),
            parts.1 == self.magnitude(),
    {
        if self.bits >= SIGN_BIT {
            (true, self.bits - SIGN_BIT)
        } else {
            (false, self.bits)
        }
    }

    /// The greater of the two, see [`Scalar::greater`].
    pub fn max(self, other: Scalar) -> (number: Scalar)
        ensures
            number == self.greater(other),
    {
        if self.is_nan() || self < other {
            other
        } else {
            self
        }
    }
}

impl PartialEq for Scalar {
    fn eq(&self, other: &Scalar) -> (answer: bool) {
        let (left_sign, left) = self.sign_magnitude();
        let (right_sign, right) = other.sign_magnitude();
        left <= INFINITY_BITS && right <= INFINITY_BITS && left == right && (left_sign
            == right_sign || left == 0)
    }
}

impl vstd::std_specs::cmp::PartialEqSpecImpl for Scalar {
    open spec fn obeys_eq_spec() -> bool {
        true
    }

    open spec fn eq_spec(&self, other: &Scalar) -> bool {
        self.equals(*other)
    }
}

impl PartialOrd for Scalar {
    fn partial_cmp(&self, other: &Scalar) -> (answer: Option<Ordering>) {
        let (left_sign, left) = self.sign_magnitude();
        let (right_sign, right) = other.sign_magnitude();
        if left > INFINITY_BITS || right > INFINITY_BITS {
            None
        } else if left == 0 && right == 0 {
            Some(Ordering::Equal)
        } else if left_sign != right_sign {
            if left_sign {
                Some(Ordering::Less)
            } else {
                Some(Ordering::Greater)
            }
        } else if left == right {
            Some(Ordering::Equal)
        } else if (left < right) == left_sign {
            Some(Ordering::Greater)
        } else {
            Some(Ordering::Less)
        }
    }
}

impl vstd::std_specs::cmp::PartialOrdSpecImpl for Scalar {
    open spec fn obeys_partial_cmp_spec() -> bool {
        true
    }

    open spec fn partial_cmp_spec(&self, other: &Scalar) -> Option<Ordering> {
        if self.less(*other) {
            Some(Ordering::Less)
        } else if self.equals(*other) {
            Some(Ordering::Equal)
        } else if other.less(*self) {
            Some(Ordering::Greater)
        } else {
            None
        }
    }
}

} // verus!
