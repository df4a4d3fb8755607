//! Floating-point quantities, carried by their bit patterns.

use vstd::prelude::*;

verus! {

/// The bit pattern of negative zero: the sign bit alone. Patterns from here on are negative.
pub const SIGN_BIT: u64 = 0x8000_0000_0000_0000;

/// The bit pattern of positive infinity. A magnitude above it is not a number.
pub const INFINITY_BITS: u64 = 0x7FF0_0000_0000_0000;

/// A double-precision number, given by its IEEE 754 bit pattern.
///
/// The library orders such numbers and hands them on; it does no arithmetic on them.
#[derive(Clone, Copy, Debug, PartialEq, Eq, Structural)]
pub struct Binary64 {
    pub bits: u64,
}

impl Binary64 {
    /// The bit pattern without the sign: it grows with the absolute value.
    pub open spec fn magnitude(self) -> int {
        if self.bits < SIGN_BIT {
            self.bits as int
        } else {
            self.bits - SIGN_BIT
        }
    }

    pub open spec fn not_a_number(self) -> bool {
        self.magnitude() > INFINITY_BITS
    }

    /// The magnitude with its sign. Both zeros are at 0, and numbers are ordered as their
    /// positions are.
    pub open spec fn position(self) -> int {
        if self.bits < SIGN_BIT {
            self.magnitude()
        } else {
            -self.magnitude()
        }
    }

    /// `self < other`, which is false as soon as one of them is not a number.
    pub open spec fn less(self, other: Binary64) -> bool {
        &&& !self.not_a_number()
        &&& !other.not_a_number()
        &&& self.position() < other.position()
    }

    /// `self >= other`, which is false as soon as one of them is not a number.
    pub open spec fn at_least(self, other: Binary64) -> bool {
        &&& !self.not_a_number()
        &&& !other.not_a_number()
        &&& self.position() >= other.position()
    }

    /// Whether the pattern stands for no number.
    pub fn is_nan(self) -> (nan: bool)
        ensures
            nan == self.not_a_number(),
    {
        if self.bits < SIGN_BIT {
            self.bits > INFINITY_BITS
        } else {
            self.bits - SIGN_BIT > INFINITY_BITS
        }
    }

    /// `self >= other`.
    pub fn reaches(self, other: Binary64) -> (reached: bool)
        ensures
            reached == self.at_least(other),
    {
        !self.is_nan() && !other.is_nan() && self.order_key() >= other.order_key()
    }

    /// An integer by which numbers are ordered: the position, shifted up to be non-negative.
    pub fn order_key(self) -> (key: u64)
        ensures
            key == self.position() + SIGN_BIT,
    {
        if self.bits < SIGN_BIT {
            self.bits + SIGN_BIT
        } else {
            SIGN_BIT - (self.bits - SIGN_BIT)
        }
    }
}

/// Numbers are totally ordered: of two of them, exactly one of `a < b` and `a >= b` holds, and
/// `<` is transitive and never holds of a number and itself.
pub proof fn numbers_are_totally_ordered(a: Binary64, b: Binary64, c: Binary64)
    requires
        !a.not_a_number(),
        !b.not_a_number(),
        !c.not_a_number(),
    ensures
        a.less(b) <==> !a.at_least(b),
        a.less(b) && b.less(c) ==> a.less(c),
        !a.less(a),
{
}

/// How bit patterns order numbers. Without the sign bit, a pattern above that of infinity is not a
/// number, and such a one is not at least anything, nor is anything at least it. Of numbers
/// without the sign bit the larger pattern is the larger number, of numbers with it the smaller
/// pattern is, and a number with it is below one without it, unless both are zero.
pub proof fn bit_patterns_order_numbers(a: Binary64, b: Binary64)
    ensures
        a.not_a_number() <==> a.bits % 0x8000_0000_0000_0000 > 0x7FF0_0000_0000_0000,
        a.not_a_number() || b.not_a_number() ==> !a.at_least(b) && !a.less(b),
        !a.not_a_number() && !b.not_a_number() ==> {
            let (minus_a, minus_b) = (
                a.bits >= 0x8000_0000_0000_0000,
                b.bits >= 0x8000_0000_0000_0000,
            );
            &&& !minus_a && !minus_b ==> (a.at_least(b) <==> a.bits >= b.bits)
            &&& minus_a && minus_b ==> (a.at_least(b) <==> a.bits <= b.bits)
            &&& !minus_a && minus_b ==> a.at_least(b)
            &&& minus_a && !minus_b ==> (a.at_least(b) <==> a.bits == 0x8000_0000_0000_0000
                && b.bits == 0)
            &&& a.less(b) <==> !a.at_least(b)
        },
{
}

/// The executable tests decide by these orders, and the key of a number grows with it.
pub proof fn tests_of_numbers_decide(
    a: Binary64,
    b: Binary64,
    nan: bool,
    reached: bool,
    keys: (u64, u64),
)
    requires
        call_ensures(Binary64::is_nan, (a,), nan),
        call_ensures(Binary64::reaches, (a, b), reached),
        call_ensures(Binary64::order_key, (a,), keys.0),
        call_ensures(Binary64::order_key, (b,), keys.1),
    ensures
        nan == a.not_a_number(),
        reached == a.at_least(b),
        !a.not_a_number() && !b.not_a_number() ==> (keys.0 >= keys.1 <==> a.at_least(b)),
{
}

} // verus!
