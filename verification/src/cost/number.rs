//! Doubles as values that are ordered and tested, but not computed with.

use std::cmp::Ordering;
use vstd::prelude::*;

verus! {

/// A double, held by its bits.
#[derive(Clone, Copy, Debug, PartialEq, Eq, Structural)]
pub struct Number {
    pub bits: u64,
}

/// The sign bit.
pub const SIGN: u64 = 0x8000_0000_0000_0000;

/// Bits of positive infinity.
pub const INFINITY: u64 = 0x7ff0_0000_0000_0000;

impl Number {
    /// The bits without the sign.
    pub open spec fn magnitude(self) -> u64 {
        if self.bits >= SIGN {
            (self.bits - SIGN) as u64
        } else {
            self.bits
        }
    }

    /// Whether the value is a number.
    pub open spec fn is_number(self) -> bool {
        self.magnitude() <= INFINITY
    }

    pub open spec fn is_finite(self) -> bool {
        self.magnitude() < INFINITY
    }

    /// Position in the total order of all doubles: negative ones first, and
    /// values that are no number outermost.
    pub open spec fn position(self) -> u64 {
        if self.bits >= SIGN {
            (u64::MAX - self.bits) as u64
        } else {
            (self.bits + SIGN) as u64
        }
    }

    /// Whether the value can be an amount: finite and not negative.
    pub open spec fn is_amount(self) -> bool {
        self.is_finite() && (self.bits < SIGN || self.magnitude() == 0)
    }

    pub fn from_bits(bits: u64) -> (r: Number)
        ensures
            r.bits == bits,
    {
        Number { bits }
    }

    pub fn zero() -> (r: Number)
        ensures
            r.bits == 0,
            r.is_amount(),
    {
        Number { bits: 0 }
    }

    fn unsigned(&self) -> (r: u64)
        ensures
            r == self.magnitude(),
    {
        if self.bits >= SIGN {
            self.bits - SIGN
        } else {
            self.bits
        }
    }

    pub fn ordered(&self) -> (r: u64)
        ensures
            r == self.position(),
    {
        if self.bits >= SIGN {
            u64::MAX - self.bits
        } else {
            self.bits + SIGN
        }
    }

    pub fn amount(&self) -> (r: bool)
        ensures
            r == self.is_amount(),
    {
        self.unsigned() < INFINITY && (self.bits < SIGN || self.unsigned() == 0)
    }

    /// The smaller of two numbers; what is no number gives way.
    pub open spec fn spec_least(self, other: Number) -> Number {
        if !self.is_number() {
            other
        } else if !other.is_number() || self.position() <= other.position() {
            self
        } else {
            other
        }
    }

    pub fn least(self, other: Number) -> (r: Number)
        ensures
            r == self.spec_least(other),
    {
        if self.unsigned() > INFINITY {
            other
        } else if other.unsigned() > INFINITY || self.ordered() <= other.ordered() {
            self
        } else {
            other
        }
    }

    /// The larger of two numbers; what is no number gives way.
    pub open spec fn spec_most(self, other: Number) -> Number {
        if !self.is_number() {
            other
        } else if !other.is_number() || other.position() <= self.position() {
            self
        } else {
            other
        }
    }

    pub fn most(self, other: Number) -> (r: Number)
        ensures
            r == self.spec_most(other),
    {
        if self.unsigned() > INFINITY {
            other
        } else if other.unsigned() > INFINITY || other.ordered() <= self.ordered() {
            self
        } else {
            other
        }
    }
}

/// Different doubles have different positions.
pub proof fn positions_are_distinct(a: Number, b: Number)
    requires
        a.position() == b.position(),
    ensures
        a == b,
{
}

/// How two positions compare.
pub open spec fn order_of(a: u64, b: u64) -> Ordering {
    if a < b {
        Ordering::Less
    } else if a == b {
        Ordering::Equal
    } else {
        Ordering::Greater
    }
}

pub fn compare_positions(a: u64, b: u64) -> (r: Ordering)
    ensures
        r == order_of(a, b),
{
    if a < b {
        Ordering::Less
    } else if a == b {
        Ordering::Equal
    } else {
        Ordering::Greater
    }
}

/// The smaller of two numbers is one of them and not beyond the other, and the
/// larger is the other one; what is no number is chosen only where both are none.
pub proof fn least_and_most_are_the_two(a: Number, b: Number)
    requires
        a.is_number(),
        b.is_number(),
    ensures
        a.spec_least(b).position() <= a.position(),
        a.spec_least(b).position() <= b.position(),
        a.spec_most(b).position() >= a.position(),
        a.spec_most(b).position() >= b.position(),
        a.spec_least(b) == a && a.spec_most(b) == b || a.spec_least(b) == b && a.spec_most(b) == a
            || a.position() == b.position(),
{
}

/// What is no number gives way to a number.
pub proof fn numbers_are_preferred(a: Number, b: Number)
    requires
        !a.is_number(),
        b.is_number(),
    ensures
        a.spec_least(b) == b,
        b.spec_least(a) == b,
        a.spec_most(b) == b,
        b.spec_most(a) == b,
{
}

/// Positions order doubles as numbers: larger bits mean a larger number from zero
/// up and a smaller one below zero, and every negative one comes before.
pub proof fn positions_order_numbers(a: Number, b: Number)
    ensures
        a.bits < SIGN && b.bits < SIGN ==> (a.position() < b.position() <==> a.bits < b.bits),
        a.bits >= SIGN && b.bits >= SIGN ==> (a.position() < b.position() <==> a.bits > b.bits),
        a.bits >= SIGN && b.bits < SIGN ==> a.position() < b.position(),
{
}

/// An amount is finite and not before zero, where the negative zero counts as
/// zero.
pub proof fn amounts_are_not_negative(a: Number)
    ensures
        a.is_amount() ==> a.is_finite() && a.is_number(),
        a.is_amount() && a.bits >= SIGN ==> a.bits == SIGN,
        a.bits < INFINITY ==> a.is_amount(),
        a.is_finite() <==> a.is_number() && a.magnitude() != INFINITY,
{
}

/// Exchanging two positions turns their order around, and only equal ones are neither
/// way in order.
pub proof fn exchanging_positions_turns_the_order(a: u64, b: u64)
    ensures
        order_of(a, b) is Less <==> order_of(b, a) is Greater,
        order_of(a, b) is Equal <==> a == b,
        order_of(a, b) is Less <==> a < b,
{
}

} // verus!
