//! Fractional parameters, held as the bits of a double.
//!
//! A double is ordered by its sign and magnitude bits, so a range check on a
//! parameter needs no floating-point arithmetic.

use vstd::prelude::*;

verus! {

/// The bits of an infinite magnitude; a larger magnitude is no number.
pub const INFINITE: u64 = 0x7FF0_0000_0000_0000;

/// The sign bit of a double.
pub const SIGN: u64 = 0x8000_0000_0000_0000;

/// A double, by its IEEE 754 bits.
#[derive(Clone, Copy, Debug, PartialEq, Eq, Structural)]
pub struct Real {
    pub bits: u64,
}

impl Real {
    /// The bits without the sign.
    pub open spec fn magnitude(self) -> int {
        self.bits as int % (SIGN as int)
    }

    /// The place of the number on the number line, both zeros at 0; what is not
    /// a number has none.
    pub open spec fn rank(self) -> Option<int> {
        if self.magnitude() > INFINITE {
            None
        } else if self.bits >= SIGN {
            Some(-self.magnitude())
        } else {
            Some(self.magnitude())
        }
    }

    /// Above zero.
    pub open spec fn is_positive(self) -> bool {
        self.rank() is Some && self.rank()->0 > 0
    }

    /// Below zero.
    pub open spec fn is_negative(self) -> bool {
        self.rank() is Some && self.rank()->0 < 0
    }

    /// Below another number.
    pub open spec fn below(self, other: Real) -> bool {
        self.rank() is Some && other.rank() is Some && self.rank()->0 < other.rank()->0
    }

    /// At or above another number.
    pub open spec fn reaches(self, other: Real) -> bool {
        self.rank() is Some && other.rank() is Some && self.rank()->0 >= other.rank()->0
    }

    /// Neither infinite nor something that is not a number.
    pub open spec fn is_finite(self) -> bool {
        self.magnitude() < INFINITE
    }

    fn place(self) -> (r: Option<(bool, u64)>)
        ensures
            r is Some <==> self.rank() is Some,
            r matches Some(p) ==> p.0 == (self.bits >= SIGN) && p.1 == self.magnitude() && p.1
                <= INFINITE && self.rank() == Some(
                if p.0 {
                    -(p.1 as int)
                } else {
                    p.1 as int
                },
            ),
    {
        let m: u64 = self.bits % SIGN;
        if m > INFINITE {
            None
        } else {
            Some((self.bits >= SIGN, m))
        }
    }

    /// Whether the number is above zero.
    pub fn positive(self) -> (r: bool)
        ensures
            r == self.is_positive(),
    {
        match self.place() {
            Some((sign, m)) => !sign && m > 0,
            None => false,
        }
    }

    /// Whether the number is below zero.
    pub fn negative(self) -> (r: bool)
        ensures
            r == self.is_negative(),
    {
        match self.place() {
            Some((sign, m)) => sign && m > 0,
            None => false,
        }
    }

    /// Whether the number is below another.
    pub fn less(self, other: Real) -> (r: bool)
        ensures
            r == self.below(other),
    {
        match (self.place(), other.place()) {
            (Some((a, m)), Some((b, n))) => if a {
                if b {
                    m > n
                } else {
                    m > 0 || n > 0
                }
            } else {
                !b && m < n
            },
            _ => false,
        }
    }

    /// Whether the number is at or above another.
    pub fn at_least(self, other: Real) -> (r: bool)
        ensures
            r == self.reaches(other),
    {
        self.place().is_some() && other.place().is_some() && !self.less(other)
    }

    /// Whether the number is finite.
    pub fn finite(self) -> (r: bool)
        ensures
            r == self.is_finite(),
    {
        self.bits % SIGN < INFINITE
    }
}

} // verus!
