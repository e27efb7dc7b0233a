//! The values of single precision numbers and the arithmetic on them.

use vstd::arithmetic::power2::*;
use vstd::prelude::*;

use crate::rounding;

verus! {

/// What a single precision number stands for.
///
/// A finite number is `units * 2^-149`, negated where `negative` holds; the
/// two zeros differ in `negative` only.
pub enum Number {
    Nan,
    Infinite { negative: bool },
    Finite { negative: bool, units: nat },
}

impl Number {
    /// The value that 32 bits in the binary interchange format encode:
    /// one sign bit, eight exponent bits, 23 bits of the significand.
    #[verifier::opaque]
    pub open spec fn of_bits(bits: u32) -> Number {
        let negative = bits >= 0x8000_0000;
        let exponent = (bits as nat / 0x80_0000) % 0x100;
        let fraction = bits as nat % 0x80_0000;
        if exponent == 0xff {
            if fraction == 0 {
                Number::Infinite { negative }
            } else {
                Number::Nan
            }
        } else if exponent == 0 {
            Number::Finite { negative, units: fraction }
        } else {
            Number::Finite {
                negative,
                units: (0x80_0000 + fraction) * pow2((exponent - 1) as nat),
            }
        }
    }

    /// Whether single precision can hold the value.
    pub open spec fn is_single(self) -> bool {
        self matches Number::Finite { units, .. } ==> rounding::representable(units) && units < pow2(277)
    }

    /// The magnitude `n / d` units rounded to single precision: an infinity
    /// from `2^128` on, which is `2^277` units. That this is the nearest
    /// number is `rounding::round_is_nearest`.
    #[verifier::opaque]
    pub open spec fn rounded(negative: bool, n: nat, d: nat) -> Number {
        let units = rounding::round(n, d);
        if units >= pow2(277) {
            Number::Infinite { negative }
        } else {
            Number::Finite { negative, units }
        }
    }

    /// The single precision number nearest to `n / d`.
    #[verifier::opaque]
    pub open spec fn ratio(n: nat, d: nat) -> Number {
        Number::rounded(false, n * pow2(149), d)
    }

    /// The single precision number nearest to a whole number.
    #[verifier::opaque]
    pub open spec fn whole(i: int) -> Number {
        Number::rounded(i < 0, vstd::math::abs(i) * pow2(149), 1)
    }

    /// Positive zero.
    pub open spec fn zero() -> Number {
        Number::Finite { negative: false, units: 0 }
    }

    pub open spec fn is_negative(self) -> bool {
        match self {
            Number::Nan => false,
            Number::Infinite { negative } => negative,
            Number::Finite { negative, .. } => negative,
        }
    }

    /// The place of a number in the order of numbers, in units. Infinities
    /// lie just outside the finite range; `Nan` has no place.
    pub open spec fn place(self) -> int {
        match self {
            Number::Nan => 0,
            Number::Infinite { negative } => if negative { -pow2(277) } else { pow2(277) as int },
            Number::Finite { negative, units } => if negative { -units } else { units as int },
        }
    }

    /// `self < other`; false where either is `Nan`.
    pub open spec fn less(self, other: Number) -> bool {
        self !is Nan && other !is Nan && self.place() < other.place()
    }

    /// `self <= other`; false where either is `Nan`.
    pub open spec fn at_most(self, other: Number) -> bool {
        self !is Nan && other !is Nan && self.place() <= other.place()
    }

    pub open spec fn negated(self) -> Number {
        match self {
            Number::Nan => Number::Nan,
            Number::Infinite { negative } => Number::Infinite { negative: !negative },
            Number::Finite { negative, units } => Number::Finite { negative: !negative, units },
        }
    }

    pub open spec fn magnitude(self) -> Number {
        match self {
            Number::Nan => Number::Nan,
            Number::Infinite { .. } => Number::Infinite { negative: false },
            Number::Finite { units, .. } => Number::Finite { negative: false, units },
        }
    }

    /// `self + other`.
    #[verifier::opaque]
    pub open spec fn plus(self, other: Number) -> Number {
        match (self, other) {
            (Number::Nan, _) => Number::Nan,
            (_, Number::Nan) => Number::Nan,
            (Number::Infinite { negative: a }, Number::Infinite { negative: b }) => if a == b {
                self
            } else {
                Number::Nan
            },
            (Number::Infinite { .. }, Number::Finite { .. }) => self,
            (Number::Finite { .. }, Number::Infinite { .. }) => other,
            (Number::Finite { negative: a, .. }, Number::Finite { negative: b, .. }) => {
                let sum = self.place() + other.place();
                if sum == 0 {
                    Number::Finite { negative: a && b, units: 0 }
                } else {
                    Number::rounded(sum < 0, vstd::math::abs(sum), 1)
                }
            },
        }
    }

    /// `self - other`.
    pub open spec fn minus(self, other: Number) -> Number {
        self.plus(other.negated())
    }

    /// `self * other`.
    #[verifier::opaque]
    pub open spec fn times(self, other: Number) -> Number {
        let negative = self.is_negative() != other.is_negative();
        match (self, other) {
            (Number::Nan, _) => Number::Nan,
            (_, Number::Nan) => Number::Nan,
            (Number::Finite { units: a, .. }, Number::Finite { units: b, .. }) => {
                Number::rounded(negative, a * b, pow2(149))
            },
            (_, _) => if self.place() == 0 || other.place() == 0 {
                Number::Nan
            } else {
                Number::Infinite { negative }
            },
        }
    }

    /// `self / other`.
    #[verifier::opaque]
    pub open spec fn over(self, other: Number) -> Number {
        let negative = self.is_negative() != other.is_negative();
        match (self, other) {
            (Number::Nan, _) => Number::Nan,
            (_, Number::Nan) => Number::Nan,
            (Number::Infinite { .. }, Number::Infinite { .. }) => Number::Nan,
            (Number::Infinite { .. }, Number::Finite { .. }) => Number::Infinite { negative },
            (Number::Finite { .. }, Number::Infinite { .. }) => Number::Finite {
                negative,
                units: 0,
            },
            (Number::Finite { units: a, .. }, Number::Finite { units: b, .. }) => if b == 0 {
                if a == 0 {
                    Number::Nan
                } else {
                    Number::Infinite { negative }
                }
            } else {
                Number::rounded(negative, a * pow2(149), b)
            },
        }
    }

    /// The lesser of the two; the other one where one is `Nan`.
    pub open spec fn lesser(self, other: Number) -> Number {
        if self is Nan || other.less(self) {
            other
        } else {
            self
        }
    }

    /// The greater of the two; the other one where one is `Nan`.
    pub open spec fn greater(self, other: Number) -> Number {
        if self is Nan || self.less(other) {
            other
        } else {
            self
        }
    }

    /// `self` brought into the range from `low` to `high`; `Nan` stays `Nan`.
    pub open spec fn clamped(self, low: Number, high: Number) -> Number {
        if self.less(low) {
            low
        } else if high.less(self) {
            high
        } else {
            self
        }
    }

    /// The whole part, toward zero, brought into the range of `i32`; zero for `Nan`.
    #[verifier::opaque]
    pub open spec fn truncated(self) -> int {
        match self {
            Number::Nan => 0,
            Number::Infinite { negative } => if negative {
                i32::MIN as int
            } else {
                i32::MAX as int
            },
            Number::Finite { negative, units } => {
                let size = units / pow2(149);
                if negative {
                    if size > 0x8000_0000 { i32::MIN as int } else { -size }
                } else {
                    if size > 0x7fff_ffff { i32::MAX as int } else { size as int }
                }
            },
        }
    }

    /// The square root. Counted in units, a root lies at a whole number or
    /// strictly between two of them, and all numbers strictly between two
    /// neighbouring whole numbers above `2^25` round alike. That this is the
    /// nearest number is `rounding::root_is_nearest`.
    #[verifier::opaque]
    pub open spec fn root(self) -> Number {
        match self {
            Number::Nan => Number::Nan,
            Number::Infinite { negative } => if negative {
                Number::Nan
            } else {
                self
            },
            Number::Finite { negative, units } => if units == 0 {
                self
            } else if negative {
                Number::Nan
            } else {
                let square = units * pow2(149);
                let whole = rounding::floor_root(square);
                if whole * whole == square {
                    Number::rounded(false, 2 * whole, 2)
                } else {
                    Number::rounded(false, 2 * whole + 1, 2)
                }
            },
        }
    }
}

} // verus!
