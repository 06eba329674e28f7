//! IEEE 754 binary64 data, held by their 64-bit encodings.
//!
//! To tell which of two numbers is the smaller, to take an absolute value
//! or the larger of two, nothing is needed but the order of the encodings,
//! their sign bit and the recognition of NaN. All of that is plain integer
//! work, stated and proved here.

use vstd::prelude::*;

verus! {

/// The sign bit of an encoding.
pub const SIGN_BIT: u64 = 0x8000_0000_0000_0000;

/// The encoding of positive infinity; every larger magnitude is a NaN.
pub const INFINITY_BITS: u64 = 0x7ff0_0000_0000_0000;

/// A binary64 datum. Two values are equal when their encodings are, which is
/// finer than numeric equality: the two zeros differ, and a NaN equals itself.
#[derive(Clone, Copy, Debug, PartialEq, Eq, Structural)]
pub struct Binary64 {
    pub bits: u64,
}

/// The encoding of positive zero.
pub const ZERO_BITS: u64 = 0;

/// The encoding of one.
pub const ONE_BITS: u64 = 0x3ff0_0000_0000_0000;

impl Binary64 {
    /// The encoding without its sign bit.
    pub open spec fn magnitude(self) -> int {
        if self.bits >= SIGN_BIT {
            self.bits - SIGN_BIT
        } else {
            self.bits as int
        }
    }

    /// Whether the sign bit is set (true of negative zero and of some NaNs).
    pub open spec fn sign(self) -> bool {
        self.bits >= SIGN_BIT
    }

    /// Whether the datum is a NaN.
    pub open spec fn is_nan_spec(self) -> bool {
        self.magnitude() > INFINITY_BITS
    }

    /// The place of a datum on the extended real line, counted in encodings
    /// from zero: both zeros have rank 0, the smallest positive subnormal has
    /// rank 1, positive infinity has the largest rank of any number. The rank
    /// of a NaN means nothing.
    pub open spec fn rank(self) -> int {
        if self.sign() {
            -self.magnitude()
        } else {
            self.magnitude()
        }
    }

    /// Numeric `<`: false as soon as either side is a NaN.
    pub open spec fn lt_spec(self, other: Binary64) -> bool {
        !self.is_nan_spec() && !other.is_nan_spec() && self.rank() < other.rank()
    }

    /// Numeric `<=`: false as soon as either side is a NaN.
    pub open spec fn le_spec(self, other: Binary64) -> bool {
        !self.is_nan_spec() && !other.is_nan_spec() && self.rank() <= other.rank()
    }

    /// Numeric `>`.
    pub open spec fn gt_spec(self, other: Binary64) -> bool {
        other.lt_spec(self)
    }

    /// The datum with its sign bit cleared.
    pub open spec fn abs_spec(self) -> Binary64 {
        Binary64 { bits: self.magnitude() as u64 }
    }

    /// The larger of two data, where a NaN loses against anything. Of two
    /// numerically equal data (the two zeros) the left one is kept.
    pub open spec fn max_spec(self, other: Binary64) -> Binary64 {
        if self.is_nan_spec() {
            other
        } else if other.is_nan_spec() {
            self
        } else if self.rank() < other.rank() {
            other
        } else {
            self
        }
    }

    /// The datum with the given encoding.
    pub open spec fn of(bits: u64) -> Binary64 {
        Binary64 { bits }
    }

    /// Wraps an encoding.
    #[verifier::when_used_as_spec(of)]
    pub fn from_bits(bits: u64) -> (r: Binary64)
        ensures
            r == Binary64::of(bits),
    {
        Binary64 { bits }
    }

    /// The encoding.
    pub fn to_bits(self) -> (r: u64)
        ensures
            r == self.bits,
    {
        self.bits
    }

    pub(crate) fn magnitude_bits(self) -> (r: u64)
        ensures
            r == self.magnitude(),
            r < SIGN_BIT,
    {
        if self.bits >= SIGN_BIT {
            self.bits - SIGN_BIT
        } else {
            self.bits
        }
    }

    /// Whether the datum is a NaN.
    pub fn is_nan(self) -> (r: bool)
        ensures
            r == self.is_nan_spec(),
    {
        self.magnitude_bits() > INFINITY_BITS
    }

    /// Numeric `<`.
    pub fn lt(self, other: Binary64) -> (r: bool)
        ensures
            r == self.lt_spec(other),
    {
        let a: u64 = self.magnitude_bits();
        let b: u64 = other.magnitude_bits();
        if a > INFINITY_BITS || b > INFINITY_BITS {
            false
        } else if self.bits >= SIGN_BIT {
            if other.bits >= SIGN_BIT {
                b < a
            } else {
                a != 0 || b != 0
            }
        } else {
            other.bits < SIGN_BIT && a < b
        }
    }

    /// Numeric `<=`.
    pub fn le(self, other: Binary64) -> (r: bool)
        ensures
            r == self.le_spec(other),
    {
        let a: u64 = self.magnitude_bits();
        let b: u64 = other.magnitude_bits();
        if a > INFINITY_BITS || b > INFINITY_BITS {
            false
        } else if self.bits >= SIGN_BIT {
            other.bits < SIGN_BIT || b <= a
        } else if other.bits >= SIGN_BIT {
            a == 0 && b == 0
        } else {
            a <= b
        }
    }

    /// Numeric `>`.
    pub fn gt(self, other: Binary64) -> (r: bool)
        ensures
            r == self.gt_spec(other),
    {
        other.lt(self)
    }

    /// The absolute value: the same datum with its sign bit cleared. A NaN
    /// stays a NaN.
    pub fn abs(self) -> (r: Binary64)
        ensures
            r == self.abs_spec(),
            !r.sign(),
            r.is_nan_spec() == self.is_nan_spec(),
    {
        Binary64 { bits: self.magnitude_bits() }
    }

    /// The larger of two data, ignoring a NaN on either side.
    pub fn max(self, other: Binary64) -> (r: Binary64)
        ensures
            r == self.max_spec(other),
    {
        if self.is_nan() {
            other
        } else if other.is_nan() {
            self
        } else if self.lt(other) {
            other
        } else {
            self
        }
    }
}

} // verus!
