//! Measured numbers, held as places in an order.
//!
//! Positions, speeds, gaps and times are double-precision numbers. The rules of
//! this library never do arithmetic on them: they compare them with each other
//! and with fixed thresholds. A [`Quantity`] is therefore the number's place in
//! the total order of doubles, an `i64` that can be turned into the number and
//! back without loss: for a number with bit pattern `b` (read as `i64`) it is
//! `b` when the sign bit is clear and `b` with its other 63 bits flipped when it
//! is set.

use vstd::prelude::*;

verus! {

/// Place of positive infinity. Everything past it is not a number.
pub const INFINITY: i64 = 0x7FF0_0000_0000_0000;

/// Place of `0.0`; `-0.0` sits just below it, at `-1`.
pub const ZERO: i64 = 0;

/// One measured number, as its place in the total order of doubles.
#[derive(Clone, Copy, Debug, PartialEq, Eq, Structural)]
pub struct Quantity {
    pub key: i64,
}

/// The quantity at a place, for contracts.
pub open spec fn place(key: i64) -> Quantity {
    Quantity { key }
}

impl Quantity {
    /// The place belongs to no number.
    pub open spec fn is_nan(self) -> bool {
        self.key > INFINITY || self.key < -1 - INFINITY
    }

    /// A number that is neither infinite nor missing.
    pub open spec fn is_finite(self) -> bool {
        -1 - INFINITY < self.key < INFINITY
    }

    /// Position on the number line: as the place, with the two zeros together.
    pub open spec fn rank(self) -> int {
        if self.key == -1 {
            0
        } else {
            self.key as int
        }
    }

    /// `self < other` as numbers; false when either is missing.
    pub open spec fn is_below(self, other: Quantity) -> bool {
        !self.is_nan() && !other.is_nan() && self.rank() < other.rank()
    }

    /// `self <= other` as numbers; false when either is missing.
    pub open spec fn is_at_most(self, other: Quantity) -> bool {
        !self.is_nan() && !other.is_nan() && self.rank() <= other.rank()
    }

    /// `self == other` as numbers; false when either is missing.
    pub open spec fn is_same(self, other: Quantity) -> bool {
        !self.is_nan() && !other.is_nan() && self.rank() == other.rank()
    }

    /// The smaller of two numbers; a missing one gives way to the other.
    pub open spec fn lesser(self, other: Quantity) -> Quantity {
        if self.is_nan() || other.is_below(self) {
            other
        } else {
            self
        }
    }

    /// The quantity at a place.
    pub fn at(key: i64) -> (q: Quantity)
        ensures
            q == place(key),
    {
        Quantity { key }
    }

    fn missing(self) -> (r: bool)
        ensures
            r == self.is_nan(),
    {
        self.key > INFINITY || self.key < -1 - INFINITY
    }

    /// Position on the number line.
    pub fn line_place(self) -> (r: i64)
        ensures
            r == self.rank(),
    {
        if self.key == -1 {
            0
        } else {
            self.key
        }
    }

    pub fn finite(self) -> (r: bool)
        ensures
            r == self.is_finite(),
    {
        -1 - INFINITY < self.key && self.key < INFINITY
    }

    pub fn below(self, other: Quantity) -> (r: bool)
        ensures
            r == self.is_below(other),
    {
        !self.missing() && !other.missing() && self.line_place() < other.line_place()
    }

    pub fn at_most(self, other: Quantity) -> (r: bool)
        ensures
            r == self.is_at_most(other),
    {
        !self.missing() && !other.missing() && self.line_place() <= other.line_place()
    }

    pub fn same(self, other: Quantity) -> (r: bool)
        ensures
            r == self.is_same(other),
    {
        !self.missing() && !other.missing() && self.line_place() == other.line_place()
    }

    /// `self` stands before `other` on the number line.
    pub fn before(self, other: Quantity) -> (r: bool)
        ensures
            r == (self.rank() < other.rank()),
    {
        self.line_place() < other.line_place()
    }

    pub fn least(self, other: Quantity) -> (r: Quantity)
        ensures
            r == self.lesser(other),
    {
        if self.missing() || other.below(self) {
            other
        } else {
            self
        }
    }
}

} // verus!
