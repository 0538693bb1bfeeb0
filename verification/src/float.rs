//! Single-precision numbers carried as their bit patterns, with the comparisons
//! that ranking and validation make on them.

use vstd::prelude::*;

verus! {

/// The bit pattern of an IEEE 754 single-precision number: sign, exponent, fraction.
#[derive(Clone, Copy, Debug, PartialEq, Eq, Structural)]
pub struct FloatBits {
    pub bits: u32,
}

impl FloatBits {
    /// Exponent and fraction, without the sign.
    pub open spec fn magnitude(self) -> int {
        self.bits as int % 0x8000_0000
    }

    /// Whether the number is neither infinite nor NaN.
    pub open spec fn finite(self) -> bool {
        self.magnitude() < 0x7f80_0000
    }

    /// Whether the pattern is no number.
    pub open spec fn nan(self) -> bool {
        self.magnitude() > 0x7f80_0000
    }

    /// Whether the number is a zero of either sign.
    pub open spec fn zero(self) -> bool {
        self.magnitude() == 0
    }

    /// An integer that orders numbers as their values do; both zeros are 0.
    pub open spec fn rank(self) -> int {
        if self.bits < 0x8000_0000 {
            self.magnitude()
        } else {
            -self.magnitude()
        }
    }

    /// `self >= other` as numbers; false as soon as one of them is NaN.
    pub open spec fn at_least(self, other: Self) -> bool {
        !self.nan() && !other.nan() && self.rank() >= other.rank()
    }

    /// Place in the IEEE total order: negative patterns backwards below the
    /// positive ones.
    pub open spec fn total_rank(self) -> u32 {
        if self.bits < 0x8000_0000 {
            (self.bits + 0x8000_0000) as u32
        } else {
            (0xffff_ffff - self.bits) as u32
        }
    }

    pub fn is_finite(self) -> (r: bool)
        ensures
            r == self.finite(),
    {
        self.bits % 0x8000_0000 < 0x7f80_0000
    }

    pub fn is_zero(self) -> (r: bool)
        ensures
            r == self.zero(),
    {
        self.bits % 0x8000_0000 == 0
    }

    pub fn total_order(self) -> (r: u32)
        ensures
            r == self.total_rank(),
    {
        if self.bits < 0x8000_0000 {
            self.bits + 0x8000_0000
        } else {
            0xffff_ffff - self.bits
        }
    }

    pub fn ge(self, other: Self) -> (r: bool)
        ensures
            r == self.at_least(other),
    {
        let a: u32 = self.bits % 0x8000_0000;
        let b: u32 = other.bits % 0x8000_0000;
        if a > 0x7f80_0000 || b > 0x7f80_0000 {
            return false;
        }
        let x: i64 = if self.bits < 0x8000_0000 {
            a as i64
        } else {
            -(a as i64)
        };
        let y: i64 = if other.bits < 0x8000_0000 {
            b as i64
        } else {
            -(b as i64)
        };
        x >= y
    }
}

/// The total order extends the order of the values: a larger number never comes
/// before a smaller one, and distinct patterns never tie.
pub proof fn total_order_extends_value_order(a: FloatBits, b: FloatBits)
    ensures
        a.total_rank() == b.total_rank() ==> a == b,
        !a.nan() && !b.nan() && a.rank() > b.rank() ==> a.total_rank() > b.total_rank(),
{
}

/// Numbers compare by their signs and then by their sizes: above zero the larger pattern
/// is the larger number, below it the smaller one, the two zeros are equal, and what is
/// no number compares with nothing.
pub proof fn numbers_compare_by_sign_and_size(a: FloatBits, b: FloatBits)
    ensures
        (a.bits % 0x8000_0000 > 0x7f80_0000 || b.bits % 0x8000_0000 > 0x7f80_0000) ==> !a.at_least(
            b,
        ),
        a.bits <= 0x7f80_0000 && b.bits <= 0x7f80_0000 ==> (a.at_least(b) <==> a.bits >= b.bits),
        0x8000_0000 <= a.bits <= 0xff80_0000 && 0x8000_0000 <= b.bits <= 0xff80_0000 ==> (
        a.at_least(b) <==> a.bits <= b.bits),
        a.bits <= 0x7f80_0000 && 0x8000_0000 <= b.bits <= 0xff80_0000 ==> a.at_least(b),
        0x8000_0000 <= a.bits <= 0xff80_0000 && b.bits <= 0x7f80_0000 ==> (a.at_least(b) <==> a.bits
            == 0x8000_0000 && b.bits == 0),
        a.zero() <==> a.bits == 0 || a.bits == 0x8000_0000,
        a.finite() <==> a.bits < 0x7f80_0000 || 0x8000_0000 <= a.bits < 0xff80_0000,
{
}

} // verus!
