//! Floating-point values by their bit patterns.
//!
//! Features are stored, compared and ordered here, never computed with. A value is therefore
//! held as the bits of its IEEE 754 encoding, and everything the library asks of it is a
//! question about those bits.

use vstd::prelude::*;

verus! {

/// A single-precision value.
#[derive(Clone, Copy, Debug, PartialEq, Eq, Structural, Hash, Default)]
pub struct F32 {
    pub bits: u32,
}

/// A double-precision value.
#[derive(Clone, Copy, Debug, PartialEq, Eq, Structural, Hash, Default)]
pub struct F64 {
    pub bits: u64,
}

impl F32 {
    /// The bits without the sign bit.
    pub open spec fn magnitude(self) -> int {
        self.bits as int % 0x8000_0000
    }

    /// Whether the sign bit is set.
    pub open spec fn negative(self) -> bool {
        self.bits >= 0x8000_0000
    }

    pub open spec fn nan(self) -> bool {
        self.magnitude() > 0x7f80_0000
    }

    pub open spec fn finite(self) -> bool {
        self.magnitude() < 0x7f80_0000
    }

    /// Where the value stands in the total order of all encodings: negative NaNs, then the
    /// numbers from negative infinity up with negative zero before positive zero, then
    /// positive NaNs.
    pub open spec fn total_key(self) -> int {
        if self.negative() {
            -1 - self.magnitude()
        } else {
            self.magnitude()
        }
    }

    /// Where a number stands in the numeric order, in which the two zeros are equal.
    pub open spec fn value_key(self) -> int {
        if self.negative() {
            -self.magnitude()
        } else {
            self.magnitude()
        }
    }

    /// The numeric `<=`, which never holds of a NaN.
    pub open spec fn numeric_le(self, other: F32) -> bool {
        !self.nan() && !other.nan() && self.value_key() <= other.value_key()
    }

    /// The value whose bits are `bits`.
    pub fn from_bits(bits: u32) -> (value: F32)
        ensures
            value.bits == bits,
    {
        F32 { bits }
    }

    /// Whether the value is neither infinite nor a NaN.
    pub fn is_finite(&self) -> (answer: bool)
        ensures
            answer == self.finite(),
    {
        self.bits % 0x8000_0000 < 0x7f80_0000
    }

    /// Whether the value comes at or before `other` in the total order of encodings.
    pub fn total_at_most(&self, other: &F32) -> (answer: bool)
        ensures
            answer == (self.total_key() <= other.total_key()),
    {
        self.order_key() <= other.order_key()
    }

    fn order_key(&self) -> (key: i64)
        ensures
            key == self.total_key(),
    {
        let magnitude: i64 = (self.bits % 0x8000_0000) as i64;
        if self.bits >= 0x8000_0000 {
            -1 - magnitude
        } else {
            magnitude
        }
    }

    fn number_key(&self) -> (key: i64)
        ensures
            key == self.value_key(),
    {
        let magnitude: i64 = (self.bits % 0x8000_0000) as i64;
        if self.bits >= 0x8000_0000 {
            -magnitude
        } else {
            magnitude
        }
    }

    /// The numeric `<=`.
    pub fn at_most(&self, other: &F32) -> (answer: bool)
        ensures
            answer == self.numeric_le(*other),
    {
        self.bits % 0x8000_0000 <= 0x7f80_0000 && other.bits % 0x8000_0000 <= 0x7f80_0000
            && self.number_key() <= other.number_key()
    }
}

impl F64 {
    /// The bits without the sign bit.
    pub open spec fn magnitude(self) -> int {
        self.bits as int % 0x8000_0000_0000_0000
    }

    /// Whether the sign bit is set.
    pub open spec fn negative(self) -> bool {
        self.bits >= 0x8000_0000_0000_0000
    }

    pub open spec fn nan(self) -> bool {
        self.magnitude() > 0x7ff0_0000_0000_0000
    }

    pub open spec fn finite(self) -> bool {
        self.magnitude() < 0x7ff0_0000_0000_0000
    }

    /// The numeric `==`: zeros of either sign are equal, a NaN equals nothing.
    pub open spec fn numeric_eq(self, other: F64) -> bool {
        &&& !self.nan()
        &&& !other.nan()
        &&& (self == other || (self.magnitude() == 0 && other.magnitude() == 0))
    }

    /// Whether the value is a number of zero or more. Negative zero is.
    pub open spec fn at_least_zero(self) -> bool {
        !self.nan() && (!self.negative() || self.magnitude() == 0)
    }

    /// The value whose bits are `bits`.
    pub fn from_bits(bits: u64) -> (value: F64)
        ensures
            value.bits == bits,
    {
        F64 { bits }
    }

    /// Whether the value is neither infinite nor a NaN.
    pub fn is_finite(&self) -> (answer: bool)
        ensures
            answer == self.finite(),
    {
        self.bits % 0x8000_0000_0000_0000 < 0x7ff0_0000_0000_0000
    }

    /// Whether the value is a number of zero or more.
    pub fn is_at_least_zero(&self) -> (answer: bool)
        ensures
            answer == self.at_least_zero(),
    {
        self.bits % 0x8000_0000_0000_0000 <= 0x7ff0_0000_0000_0000 && (self.bits
            < 0x8000_0000_0000_0000 || self.bits % 0x8000_0000_0000_0000 == 0)
    }

    /// The numeric `==`.
    pub fn equals(&self, other: &F64) -> (answer: bool)
        ensures
            answer == self.numeric_eq(*other),
    {
        let left: u64 = self.bits % 0x8000_0000_0000_0000;
        let right: u64 = other.bits % 0x8000_0000_0000_0000;
        left <= 0x7ff0_0000_0000_0000 && right <= 0x7ff0_0000_0000_0000 && (self.bits == other.bits
            || (left == 0 && right == 0))
    }
}

/// The total order tells any two encodings apart: equal places mean equal bits.
pub proof fn lemma_total_order_is_injective(left: F32, right: F32)
    ensures
        left.total_key() == right.total_key() ==> left == right,
{
}

/// The numeric order by the bits: positive numbers are ordered as their bits, negative ones
/// against them, a negative number is at most any positive one, zeros of either sign are equal,
/// and a NaN is not ordered at all.
pub proof fn law_numeric_order(left: F32, right: F32)
    ensures
        left.bits <= 0x7f80_0000 && right.bits <= 0x7f80_0000 ==> (left.numeric_le(right)
            <==> left.bits <= right.bits),
        0x8000_0000 <= left.bits <= 0xff80_0000 && 0x8000_0000 <= right.bits <= 0xff80_0000 ==> (
        left.numeric_le(right) <==> left.bits >= right.bits),
        0x8000_0000 <= left.bits <= 0xff80_0000 && right.bits <= 0x7f80_0000 ==> left.numeric_le(
            right,
        ),
        left.bits <= 0x7f80_0000 && 0x8000_0000 <= right.bits <= 0xff80_0000 ==> (
        left.numeric_le(right) <==> left.bits == 0 && right.bits == 0x8000_0000),
        0x7f80_0000 < left.bits < 0x8000_0000 || left.bits > 0xff80_0000 ==> !left.numeric_le(
            right,
        ) && !right.numeric_le(left),
        left.finite() <==> left.bits < 0x7f80_0000 || 0x8000_0000 <= left.bits < 0xff80_0000,
{
}

/// The total order by the bits: encodings without the sign bit are ordered as their bits, those
/// with it against them, and all of the latter come before all of the former.
pub proof fn law_total_order(left: F32, right: F32)
    ensures
        left.bits < 0x8000_0000 && right.bits < 0x8000_0000 ==> (left.total_key()
            <= right.total_key() <==> left.bits <= right.bits),
        left.bits >= 0x8000_0000 && right.bits >= 0x8000_0000 ==> (left.total_key()
            <= right.total_key() <==> left.bits >= right.bits),
        left.bits >= 0x8000_0000 && right.bits < 0x8000_0000 ==> left.total_key()
            < right.total_key(),
        left.total_key() == right.total_key() <==> left == right,
{
}

/// What doubles are finite, at least zero and equal, by the bits.
pub proof fn law_double_values(left: F64, right: F64)
    ensures
        left.finite() <==> left.bits < 0x7ff0_0000_0000_0000 || 0x8000_0000_0000_0000 <= left.bits
            < 0xfff0_0000_0000_0000,
        left.at_least_zero() <==> left.bits <= 0x7ff0_0000_0000_0000 || left.bits
            == 0x8000_0000_0000_0000,
        left.bits <= 0x7ff0_0000_0000_0000 || 0x8000_0000_0000_0000 <= left.bits
            <= 0xfff0_0000_0000_0000 ==> (left.numeric_eq(right) <==> left.bits == right.bits || (
        left.bits == 0 && right.bits == 0x8000_0000_0000_0000) || (left.bits
            == 0x8000_0000_0000_0000 && right.bits == 0)),
        0x7ff0_0000_0000_0000 < left.bits < 0x8000_0000_0000_0000 || left.bits
            > 0xfff0_0000_0000_0000 ==> !left.numeric_eq(right) && !right.numeric_eq(left),
{
}

} // verus!
