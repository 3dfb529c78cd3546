//! Measured quantities.
//!
//! A quantity is an IEEE 754 binary64 number held by its bit pattern. The bench
//! never does arithmetic on one: it orders quantities, keeps them and hands them
//! on. What has to be computed from them is computed where they are measured,
//! and arrives here as quantities again.

use vstd::prelude::*;

verus! {

/// The weight of the sign bit in a bit pattern.
pub const SIGN_WEIGHT: u64 = 0x8000_0000_0000_0000;

/// The bit pattern of positive infinity; a magnitude above it is not a number.
pub const INFINITE: u64 = 0x7ff0_0000_0000_0000;

/// A measured quantity.
#[derive(Clone, Copy, PartialEq, Eq, Structural, Debug)]
pub struct Quantity {
    /// The binary64 bit pattern.
    pub bits: u64,
}

impl Quantity {
    /// The bit pattern without its sign.
    pub open spec fn magnitude(self) -> int {
        if self.bits >= SIGN_WEIGHT {
            self.bits - SIGN_WEIGHT
        } else {
            self.bits as int
        }
    }

    /// Whether the pattern stands for no number.
    pub open spec fn not_a_number(self) -> bool {
        self.magnitude() > INFINITE
    }

    /// Where a number stands in the order of all numbers; both zeros stand at 0.
    pub open spec fn place(self) -> int {
        if self.bits >= SIGN_WEIGHT {
            -self.magnitude()
        } else {
            self.magnitude()
        }
    }

    /// Where a bit pattern stands in the total order of all patterns: negative
    /// zero comes before positive zero, and patterns that are no numbers stand
    /// at the far ends.
    pub open spec fn total_place(self) -> int {
        if self.bits >= SIGN_WEIGHT {
            -self.magnitude() - 1
        } else {
            self.magnitude()
        }
    }

    /// `self < other`; never where one of them is not a number.
    pub open spec fn lt(self, other: Quantity) -> bool {
        !self.not_a_number() && !other.not_a_number() && self.place() < other.place()
    }

    /// `self <= other`; never where one of them is not a number.
    pub open spec fn le(self, other: Quantity) -> bool {
        !self.not_a_number() && !other.not_a_number() && self.place() <= other.place()
    }

    /// `self == other` as numbers; never where one of them is not a number.
    pub open spec fn equals(self, other: Quantity) -> bool {
        !self.not_a_number() && !other.not_a_number() && self.place() == other.place()
    }

    /// The smaller of two quantities; one that is not a number gives way, and of
    /// equal ones `self` is taken.
    pub open spec fn lesser(self, other: Quantity) -> Quantity {
        if self.not_a_number() || other.lt(self) {
            other
        } else {
            self
        }
    }

    /// The larger of two quantities; one that is not a number gives way, and of
    /// equal ones `self` is taken.
    pub open spec fn greater(self, other: Quantity) -> Quantity {
        if self.not_a_number() || self.lt(other) {
            other
        } else {
            self
        }
    }

    /// The quantity without its sign.
    pub open spec fn absolute(self) -> Quantity {
        Quantity { bits: self.magnitude() as u64 }
    }

    /// The quantity with the bit pattern `bits`.
    pub fn from_bits(bits: u64) -> (r: Quantity)
        ensures
            r.bits == bits,
    {
        Quantity { bits }
    }

    fn unsigned_bits(self) -> (r: u64)
        ensures
            r == self.magnitude(),
    {
        if self.bits >= SIGN_WEIGHT {
            self.bits - SIGN_WEIGHT
        } else {
            self.bits
        }
    }

    /// Whether the pattern stands for no number.
    pub fn is_not_a_number(self) -> (r: bool)
        ensures
            r == self.not_a_number(),
    {
        self.unsigned_bits() > INFINITE
    }

    fn rank(self) -> (r: i64)
        ensures
            r == self.place(),
    {
        let m: i64 = self.unsigned_bits() as i64;
        if self.bits >= SIGN_WEIGHT {
            -m
        } else {
            m
        }
    }

    /// Whether `self` is less than `other`.
    pub fn is_below(self, other: Quantity) -> (r: bool)
        ensures
            r == self.lt(other),
    {
        !self.is_not_a_number() && !other.is_not_a_number() && self.rank() < other.rank()
    }

    /// Whether `self` is less than or equal to `other`.
    pub fn is_at_most(self, other: Quantity) -> (r: bool)
        ensures
            r == self.le(other),
    {
        !self.is_not_a_number() && !other.is_not_a_number() && self.rank() <= other.rank()
    }

    /// Whether `self` stands no higher than `other` among all numbers.
    pub fn stands_no_higher(self, other: Quantity) -> (r: bool)
        ensures
            r == (self.place() <= other.place()),
    {
        self.rank() <= other.rank()
    }

    /// Whether `self` and `other` are the same number.
    pub fn is_equal(self, other: Quantity) -> (r: bool)
        ensures
            r == self.equals(other),
    {
        !self.is_not_a_number() && !other.is_not_a_number() && self.rank() == other.rank()
    }

    /// Whether `self` stands before `other` in the total order of bit patterns.
    pub fn is_totally_below(self, other: Quantity) -> (r: bool)
        ensures
            r == (self.total_place() < other.total_place()),
    {
        let a: i64 = if self.bits >= SIGN_WEIGHT {
            self.rank() - 1
        } else {
            self.rank()
        };
        let b: i64 = if other.bits >= SIGN_WEIGHT {
            other.rank() - 1
        } else {
            other.rank()
        };
        a < b
    }

    /// The smaller of two quantities.
    pub fn min_of(self, other: Quantity) -> (r: Quantity)
        ensures
            r == self.lesser(other),
    {
        if self.is_not_a_number() || other.is_below(self) {
            other
        } else {
            self
        }
    }

    /// The larger of two quantities.
    pub fn max_of(self, other: Quantity) -> (r: Quantity)
        ensures
            r == self.greater(other),
    {
        if self.is_not_a_number() || self.is_below(other) {
            other
        } else {
            self
        }
    }

    /// The quantity without its sign.
    pub fn unsigned(self) -> (r: Quantity)
        ensures
            r == self.absolute(),
    {
        Quantity { bits: self.unsigned_bits() }
    }
}

} // verus!
