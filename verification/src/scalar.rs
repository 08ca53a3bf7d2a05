//! Double-precision numbers, held as their IEEE 754 bit patterns.
//!
//! On bit patterns the order of two numbers is the order of two integers.

use crate::arithmetic::{
    opposite, product, quotient, remainder, square_root, sum, Number,
};
use crate::rounding::{lemma_steps_increase, lemma_steps_of_zero, Format, DOUBLE_INFINITY};
use vstd::prelude::*;

verus! {

/// The sign bit of a double.
pub const SIGN_BIT: u64 = 0x8000_0000_0000_0000;

/// A double-precision number, by its bit pattern.
#[derive(Debug, Clone, Copy, PartialEq, Eq, Structural)]
pub struct Scalar {
    pub bits: u64,
}

impl Scalar {
    /// The sign and the magnitude of the number.
    #[verifier::allow_in_spec]
    pub fn number(&self) -> (result: Number)
        returns
            (if self.bits >= SIGN_BIT {
                Number { negative: true, magnitude: (self.bits - SIGN_BIT) as u64 }
            } else {
                Number { negative: false, magnitude: self.bits }
            }),
    {
        if self.bits >= SIGN_BIT {
            Number { negative: true, magnitude: self.bits - SIGN_BIT }
        } else {
            Number { negative: false, magnitude: self.bits }
        }
    }

    /// The number with this sign and magnitude.
    pub open spec fn of(n: Number) -> Scalar {
        Scalar {
            bits: (if n.negative {
                n.magnitude + SIGN_BIT
            } else {
                n.magnitude as int
            }) as u64,
        }
    }

    /// The bit pattern without its sign.
    pub open spec fn magnitude(self) -> nat {
        self.number().magnitude as nat
    }

    /// Whether the pattern stands for no number.
    pub open spec fn nan(self) -> bool {
        self.magnitude() > DOUBLE_INFINITY
    }

    /// Whether the number is neither a NaN nor infinite.
    pub open spec fn finite(self) -> bool {
        self.magnitude() < DOUBLE_INFINITY
    }

    /// The value of a finite number, counted in the smallest positive double.
    pub open spec fn value(self) -> int {
        self.number().value(Format::Double)
    }

    /// The integer by which numbers are ordered: both zeros have rank 0.
    pub open spec fn rank(self) -> int {
        if self.number().negative {
            -(self.magnitude() as int)
        } else {
            self.magnitude() as int
        }
    }

    /// Whether `self` is less than `other`: false where either is a NaN.
    pub open spec fn less(self, other: Scalar) -> bool {
        !self.nan() && !other.nan() && self.rank() < other.rank()
    }

    /// Whether `self` is at most `other`: false where either is a NaN.
    pub open spec fn at_most(self, other: Scalar) -> bool {
        !self.nan() && !other.nan() && self.rank() <= other.rank()
    }

    /// The smaller of the two. A NaN gives way to the other; of two that
    /// compare equal the first is kept.
    pub open spec fn smaller(self, other: Scalar) -> Scalar {
        if self.nan() || other.less(self) {
            other
        } else {
            self
        }
    }

    /// The larger of the two. A NaN gives way to the other; of two that
    /// compare equal the first is kept.
    pub open spec fn larger(self, other: Scalar) -> Scalar {
        if self.nan() || self.less(other) {
            other
        } else {
            self
        }
    }

    /// `self`, held between `low` and `high`. A NaN stays as it is.
    pub open spec fn held_between(self, low: Scalar, high: Scalar) -> Scalar {
        if self.less(low) {
            low
        } else if high.less(self) {
            high
        } else {
            self
        }
    }

    /// The sum, rounded.
    pub open spec fn sum(self, other: Scalar) -> Scalar {
        Scalar::of(sum(Format::Double, self.number(), other.number()))
    }

    /// The difference, rounded.
    pub open spec fn difference(self, other: Scalar) -> Scalar {
        Scalar::of(sum(Format::Double, self.number(), opposite(other.number())))
    }

    /// The product, rounded.
    pub open spec fn product(self, other: Scalar) -> Scalar {
        Scalar::of(product(Format::Double, self.number(), other.number()))
    }

    /// The quotient, rounded.
    pub open spec fn quotient(self, other: Scalar) -> Scalar {
        Scalar::of(quotient(Format::Double, self.number(), other.number()))
    }

    /// The remainder of a division whose quotient is cut to an integer.
    pub open spec fn remainder(self, other: Scalar) -> Scalar {
        Scalar::of(remainder(Format::Double, self.number(), other.number()))
    }

    /// The square root, rounded.
    pub open spec fn square_root(self) -> Scalar {
        Scalar::of(square_root(Format::Double, self.number()))
    }

    /// The number with the given bit pattern.
    pub fn from_bits(bits: u64) -> (result: Scalar)
        ensures
            result.bits == bits,
    {
        Scalar { bits }
    }

    /// The number zero.
    #[verifier::allow_in_spec]
    pub fn zero() -> (result: Scalar)
        returns
            (Scalar { bits: 0 }),
    {
        Scalar { bits: 0 }
    }

    /// The bit pattern.
    pub fn to_bits(&self) -> (bits: u64)
        ensures
            bits == self.bits,
    {
        self.bits
    }

    /// The number with this sign and magnitude.
    pub fn from_number(n: &Number) -> (result: Scalar)
        requires
            n.magnitude < SIGN_BIT,
        ensures
            result == Scalar::of(*n),
    {
        if n.negative {
            Scalar { bits: n.magnitude + SIGN_BIT }
        } else {
            Scalar { bits: n.magnitude }
        }
    }

    /// The sum of two numbers.
    pub fn plus(&self, other: &Scalar) -> (result: Scalar)
        ensures
            result == self.sum(*other),
    {
        Scalar::from_number(&self.number().plus(Format::Double, &other.number()))
    }

    /// The difference of two numbers.
    pub fn minus(&self, other: &Scalar) -> (result: Scalar)
        ensures
            result == self.difference(*other),
    {
        Scalar::from_number(&self.number().minus(Format::Double, &other.number()))
    }

    /// The product of two numbers.
    pub fn times(&self, other: &Scalar) -> (result: Scalar)
        ensures
            result == self.product(*other),
    {
        Scalar::from_number(&self.number().times(Format::Double, &other.number()))
    }

    /// The quotient of two numbers.
    pub fn over(&self, other: &Scalar) -> (result: Scalar)
        ensures
            result == self.quotient(*other),
    {
        Scalar::from_number(&self.number().over(Format::Double, &other.number()))
    }

    /// The remainder of a division: it has the sign of the dividend.
    pub fn modulo(&self, other: &Scalar) -> (result: Scalar)
        ensures
            result == self.remainder(*other),
    {
        Scalar::from_number(&self.number().modulo(Format::Double, &other.number()))
    }

    /// The square root of a number.
    pub fn root(&self) -> (result: Scalar)
        ensures
            result == self.square_root(),
    {
        Scalar::from_number(&self.number().root(Format::Double))
    }

    /// Whether the pattern stands for no number.
    pub fn is_nan(&self) -> (result: bool)
        ensures
            result == self.nan(),
    {
        if self.bits >= SIGN_BIT {
            self.bits - SIGN_BIT > DOUBLE_INFINITY
        } else {
            self.bits > DOUBLE_INFINITY
        }
    }

    /// Whether `self` is less than `other`.
    pub fn lt(&self, other: &Scalar) -> (result: bool)
        ensures
            result == self.less(*other),
    {
        if self.is_nan() || other.is_nan() {
            return false;
        }
        let negative = self.bits >= SIGN_BIT;
        let other_negative = other.bits >= SIGN_BIT;
        if negative && other_negative {
            other.bits < self.bits
        } else if negative {
            self.bits != SIGN_BIT || other.bits != 0
        } else if other_negative {
            false
        } else {
            self.bits < other.bits
        }
    }

    /// Whether `self` is at most `other`.
    pub fn le(&self, other: &Scalar) -> (result: bool)
        ensures
            result == self.at_most(*other),
    {
        !self.is_nan() && !other.is_nan() && !other.lt(self)
    }

    /// The smaller of the two numbers.
    pub fn min(&self, other: &Scalar) -> (result: Scalar)
        ensures
            result == self.smaller(*other),
    {
        if self.is_nan() || other.lt(self) {
            *other
        } else {
            *self
        }
    }

    /// The larger of the two numbers.
    pub fn max(&self, other: &Scalar) -> (result: Scalar)
        ensures
            result == self.larger(*other),
    {
        if self.is_nan() || self.lt(other) {
            *other
        } else {
            *self
        }
    }

    /// The number, held between `low` and `high`.
    pub fn clamp(&self, low: &Scalar, high: &Scalar) -> (result: Scalar)
        requires
            low.at_most(*high),
        ensures
            result == self.held_between(*low, *high),
    {
        if self.lt(low) {
            *low
        } else if high.lt(self) {
            *high
        } else {
            *self
        }
    }
}

/// A clamped number lies between its bounds, unless it was a NaN.
pub proof fn law_clamp_bounds(x: Scalar, low: Scalar, high: Scalar)
    requires
        low.at_most(high),
        !x.nan(),
    ensures
        low.at_most(x.held_between(low, high)),
        x.held_between(low, high).at_most(high),
{
}

/// Clamping a second time changes nothing.
pub proof fn law_clamp_idempotent(x: Scalar, low: Scalar, high: Scalar)
    requires
        low.at_most(high),
    ensures
        x.held_between(low, high).held_between(low, high) == x.held_between(low, high),
{
}

/// Raising to at least `low` and then lowering to at most `high` gives a number
/// between the two bounds, whatever came in: a NaN ends at `low`.
pub proof fn law_limit_bounds(x: Scalar, low: Scalar, high: Scalar)
    requires
        low.at_most(high),
    ensures
        low.at_most(x.larger(low).smaller(high)),
        x.larger(low).smaller(high).at_most(high),
        x.nan() ==> x.larger(low).smaller(high) == low,
{
}

/// The order of bit patterns is the order of the values: of two finite
/// numbers one is less than the other exactly where its value is.
pub proof fn law_order_is_numeric(a: Scalar, b: Scalar)
    requires
        a.finite(),
        b.finite(),
    ensures
        a.less(b) <==> a.value() < b.value(),
        a.at_most(b) <==> a.value() <= b.value(),
{
    let f = Format::Double;
    let m = a.magnitude();
    let n = b.magnitude();
    if m < n {
        lemma_steps_increase(f, m, n);
    } else if n < m {
        lemma_steps_increase(f, n, m);
    }
    lemma_steps_of_zero(f);
    if m > 0 {
        lemma_steps_increase(f, 0, m);
    }
    if n > 0 {
        lemma_steps_increase(f, 0, n);
    }
}

} // verus!
