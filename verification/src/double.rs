//! Double precision numbers, carried by their bit patterns.
//!
//! Coordinates, lengths and angles come from floating point arithmetic. The rules of this crate
//! only copy and compare them, and both can be done on the 64 bits of the IEEE 754 encoding.

use vstd::prelude::*;

verus! {

/// The sign bit.
pub const SIGN: u64 = 0x8000_0000_0000_0000;

/// The bits of positive infinity. Larger magnitudes encode "not a number".
pub const INFINITY: u64 = 0x7ff0_0000_0000_0000;

/// The bits of 0.
pub const ZERO: u64 = 0;

/// The bits of 1.
pub const ONE: u64 = 0x3ff0_0000_0000_0000;

/// A double precision number.
#[derive(Clone, Copy, Debug, PartialEq, Eq, Structural)]
pub struct Double {
    pub bits: u64,
}

/// A place in the plane of the scan, in metres from the sensor.
#[derive(Clone, Copy, Debug, PartialEq, Eq, Structural)]
pub struct Point {
    pub x: Double,
    pub y: Double,
}

impl Double {
    /// The bits without the sign.
    pub open spec fn magnitude(self) -> int {
        if self.bits < SIGN {
            self.bits as int
        } else {
            self.bits - SIGN
        }
    }

    /// An integer that orders numbers as their values do. Both zeros have rank 0.
    pub open spec fn rank(self) -> int {
        if self.bits < SIGN {
            self.magnitude()
        } else {
            -self.magnitude()
        }
    }

    /// Not a number.
    pub open spec fn nan(self) -> bool {
        self.magnitude() > INFINITY
    }

    /// The value of `self` is less than that of `other`; false if either is not a number.
    pub open spec fn lt(self, other: Double) -> bool {
        !self.nan() && !other.nan() && self.rank() < other.rank()
    }

    /// The value of `self` is at most that of `other`; false if either is not a number.
    pub open spec fn le(self, other: Double) -> bool {
        !self.nan() && !other.nan() && self.rank() <= other.rank()
    }

    /// Whether this is not a number.
    pub fn is_nan(self) -> (r: bool)
        ensures
            r == self.nan(),
    {
        if self.bits < SIGN {
            self.bits > INFINITY
        } else {
            self.bits - SIGN > INFINITY
        }
    }

    fn to_rank(self) -> (r: i64)
        requires
            !self.nan(),
        ensures
            r == self.rank(),
    {
        if self.bits < SIGN {
            self.bits as i64
        } else {
            -((self.bits - SIGN) as i64)
        }
    }

    /// Whether the value is less than that of `other`.
    pub fn less_than(self, other: Double) -> (r: bool)
        ensures
            r == self.lt(other),
    {
        !self.is_nan() && !other.is_nan() && self.to_rank() < other.to_rank()
    }

    /// Whether the value is at most that of `other`.
    pub fn at_most(self, other: Double) -> (r: bool)
        ensures
            r == self.le(other),
    {
        !self.is_nan() && !other.is_nan() && self.to_rank() <= other.to_rank()
    }
}

/// Numbers compare by value. Without a sign larger bits mean a larger value, with a sign a smaller
/// one; what has a sign lies below what has none, but for the two zeros, which are equal. Beyond
/// the infinities there is no number, and what is no number compares with nothing.
pub proof fn lemma_values_decide(a: Double, b: Double)
    ensures
        a.bits < b.bits <= 0x7ff0_0000_0000_0000 ==> a.lt(b) && a.le(b) && !b.lt(a) && !b.le(a),
        0x8000_0000_0000_0000 <= a.bits < b.bits <= 0xfff0_0000_0000_0000 ==> b.lt(a) && b.le(a)
            && !a.lt(b) && !a.le(b),
        0x8000_0000_0000_0000 < a.bits <= 0xfff0_0000_0000_0000 && b.bits <= 0x7ff0_0000_0000_0000
            ==> a.lt(b) && a.le(b) && !b.lt(a) && !b.le(a),
        a.bits == 0x8000_0000_0000_0000 && 0 < b.bits <= 0x7ff0_0000_0000_0000 ==> a.lt(b) && a.le(
            b,
        ) && !b.lt(a) && !b.le(a),
        a.bits == 0x8000_0000_0000_0000 && b.bits == 0 ==> a.le(b) && b.le(a) && !a.lt(b) && !b.lt(
            a,
        ),
        a.bits <= 0x7ff0_0000_0000_0000 || 0x8000_0000_0000_0000 <= a.bits
            <= 0xfff0_0000_0000_0000 ==> !a.nan() && a.le(a) && !a.lt(a),
        0x7ff0_0000_0000_0000 < a.bits < 0x8000_0000_0000_0000 || 0xfff0_0000_0000_0000 < a.bits
            ==> a.nan() && !a.lt(b) && !a.le(b) && !b.lt(a) && !b.le(a),
{
}

/// Comparing is consistent: of two numbers one is at most the other, less means at most and not
/// the other way round, and what holds from one to the next holds from the first to the last.
pub proof fn lemma_order_is_total(a: Double, b: Double, c: Double)
    ensures
        !a.nan() && !b.nan() ==> a.le(b) || b.le(a),
        a.lt(b) <==> a.le(b) && !b.le(a),
        a.le(b) && b.le(c) ==> a.le(c),
        a.lt(b) && b.le(c) ==> a.lt(c),
        a.le(b) && b.lt(c) ==> a.lt(c),
{
}

} // verus!
