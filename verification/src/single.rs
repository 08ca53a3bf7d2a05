//! Single-precision numbers, held as their IEEE 754 bit patterns, and vectors
//! of them.

use crate::arithmetic::{
    broadened, finer, law_short_number_is_exact, narrowed, opposite, product, quotient,
    square_root, sum, Number,
};
use crate::rounding::{
    law_value_is_kept, lemma_small_is_zero, lemma_steps_by_parts, lemma_steps_of_zero, Format,
    SINGLE_INFINITY,
};
use crate::scalar::Scalar;
use vstd::arithmetic::power2::{lemma2_to64, lemma_pow2_adds, lemma_pow2_pos, pow2};
use vstd::prelude::*;

verus! {

/// The sign bit of a single.
pub const SINGLE_SIGN: u32 = 0x8000_0000;

/// The number one, by its bit pattern.
pub const SINGLE_ONE: u32 = 0x3f80_0000;

/// A single-precision number, by its bit pattern.
#[derive(Debug, Clone, Copy, PartialEq, Eq, Structural)]
pub struct Single {
    pub bits: u32,
}

/// A vector in the plane, in single precision.
#[derive(Debug, Clone, Copy, PartialEq, Eq, Structural)]
pub struct Vec2 {
    pub x: Single,
    pub y: Single,
}

impl Single {
    /// The sign and the magnitude of the number.
    #[verifier::allow_in_spec]
    pub fn number(&self) -> (result: Number)
        returns
            (if self.bits >= SINGLE_SIGN {
                Number { negative: true, magnitude: (self.bits - SINGLE_SIGN) as u64 }
            } else {
                Number { negative: false, magnitude: self.bits as u64 }
            }),
    {
        if self.bits >= SINGLE_SIGN {
            Number { negative: true, magnitude: (self.bits - SINGLE_SIGN) as u64 }
        } else {
            Number { negative: false, magnitude: self.bits as u64 }
        }
    }

    /// The number with this sign and magnitude.
    pub open spec fn of(n: Number) -> Single {
        Single {
            bits: (if n.negative {
                n.magnitude + SINGLE_SIGN
            } else {
                n.magnitude as int
            }) as u32,
        }
    }

    /// The bit pattern without its sign.
    pub open spec fn magnitude(self) -> nat {
        self.number().magnitude as nat
    }

    /// Whether the pattern stands for no number.
    pub open spec fn nan(self) -> bool {
        self.magnitude() > SINGLE_INFINITY
    }

    /// Whether the number is neither a NaN nor infinite.
    pub open spec fn finite(self) -> bool {
        self.magnitude() < SINGLE_INFINITY
    }

    /// The value of a finite number, counted in the smallest positive single.
    pub open spec fn value(self) -> int {
        self.number().value(Format::Single)
    }

    /// The integer by which numbers are ordered: both zeros have rank 0.
    pub open spec fn rank(self) -> int {
        if self.number().negative {
            -(self.magnitude() as int)
        } else {
            self.magnitude() as int
        }
    }

    /// Whether `self` is less than `other`: false where either is a NaN.
    pub open spec fn less(self, other: Single) -> bool {
        !self.nan() && !other.nan() && self.rank() < other.rank()
    }

    /// The smaller of the two. A NaN gives way to the other; of two that
    /// compare equal the first is kept.
    pub open spec fn smaller(self, other: Single) -> Single {
        if self.nan() || other.less(self) {
            other
        } else {
            self
        }
    }

    /// The larger of the two. A NaN gives way to the other; of two that
    /// compare equal the first is kept.
    pub open spec fn larger(self, other: Single) -> Single {
        if self.nan() || self.less(other) {
            other
        } else {
            self
        }
    }

    /// The sum, rounded.
    pub open spec fn sum(self, other: Single) -> Single {
        Single::of(sum(Format::Single, self.number(), other.number()))
    }

    /// The difference, rounded.
    pub open spec fn difference(self, other: Single) -> Single {
        Single::of(sum(Format::Single, self.number(), opposite(other.number())))
    }

    /// The product, rounded.
    pub open spec fn product(self, other: Single) -> Single {
        Single::of(product(Format::Single, self.number(), other.number()))
    }

    /// The quotient, rounded.
    pub open spec fn quotient(self, other: Single) -> Single {
        Single::of(quotient(Format::Single, self.number(), other.number()))
    }

    /// The square root, rounded.
    pub open spec fn square_root(self) -> Single {
        Single::of(square_root(Format::Single, self.number()))
    }

    /// The double with the same value. Any NaN becomes the same one.
    pub open spec fn widened(self) -> Scalar {
        Scalar::of(broadened(self.number()))
    }

    /// The double rounded to single precision. Any NaN becomes the same one.
    pub open spec fn narrowed(wide: Scalar) -> Single {
        Single::of(narrowed(wide.number()))
    }

    /// The number with the given bit pattern.
    pub fn from_bits(bits: u32) -> (result: Single)
        ensures
            result.bits == bits,
    {
        Single { bits }
    }

    /// The bit pattern.
    pub fn to_bits(&self) -> (bits: u32)
        ensures
            bits == self.bits,
    {
        self.bits
    }

    /// The number zero.
    #[verifier::allow_in_spec]
    pub fn zero() -> (result: Single)
        returns
            (Single { bits: 0 }),
    {
        Single { bits: 0 }
    }

    /// The number with this sign and magnitude.
    pub fn from_number(n: &Number) -> (result: Single)
        requires
            n.magnitude < SINGLE_SIGN,
        ensures
            result == Single::of(*n),
    {
        let magnitude: u32 = n.magnitude as u32;
        if n.negative {
            Single { bits: magnitude + SINGLE_SIGN }
        } else {
            Single { bits: magnitude }
        }
    }

    /// The sum of two numbers.
    pub fn plus(&self, other: &Single) -> (result: Single)
        ensures
            result == self.sum(*other),
    {
        Single::from_number(&self.number().plus(Format::Single, &other.number()))
    }

    /// The difference of two numbers.
    pub fn minus(&self, other: &Single) -> (result: Single)
        ensures
            result == self.difference(*other),
    {
        Single::from_number(&self.number().minus(Format::Single, &other.number()))
    }

    /// The product of two numbers.
    pub fn times(&self, other: &Single) -> (result: Single)
        ensures
            result == self.product(*other),
    {
        Single::from_number(&self.number().times(Format::Single, &other.number()))
    }

    /// The quotient of two numbers.
    pub fn over(&self, other: &Single) -> (result: Single)
        ensures
            result == self.quotient(*other),
    {
        Single::from_number(&self.number().over(Format::Single, &other.number()))
    }

    /// The square root of a number.
    pub fn root(&self) -> (result: Single)
        ensures
            result == self.square_root(),
    {
        Single::from_number(&self.number().root(Format::Single))
    }

    /// The double with the same value.
    pub fn widen(&self) -> (result: Scalar)
        ensures
            result == self.widened(),
    {
        Scalar::from_number(&self.number().broaden())
    }

    /// The double rounded to single precision.
    pub fn narrow(wide: &Scalar) -> (result: Single)
        ensures
            result == Single::narrowed(*wide),
    {
        Single::from_number(&wide.number().narrow())
    }

    /// Whether the pattern stands for no number.
    pub fn is_nan(&self) -> (result: bool)
        ensures
            result == self.nan(),
    {
        self.number().magnitude > SINGLE_INFINITY
    }

    /// Whether `self` is less than `other`.
    pub fn lt(&self, other: &Single) -> (result: bool)
        ensures
            result == self.less(*other),
    {
        if self.is_nan() || other.is_nan() {
            return false;
        }
        let a = self.number();
        let b = other.number();
        if a.negative && b.negative {
            b.magnitude < a.magnitude
        } else if a.negative {
            a.magnitude != 0 || b.magnitude != 0
        } else if b.negative {
            false
        } else {
            a.magnitude < b.magnitude
        }
    }

    /// The smaller of the two numbers.
    pub fn min(&self, other: &Single) -> (result: Single)
        ensures
            result == self.smaller(*other),
    {
        if self.is_nan() || other.lt(self) {
            *other
        } else {
            *self
        }
    }

    /// The larger of the two numbers.
    pub fn max(&self, other: &Single) -> (result: Single)
        ensures
            result == self.larger(*other),
    {
        if self.is_nan() || self.lt(other) {
            *other
        } else {
            *self
        }
    }
}

impl Vec2 {
    /// The vector from another point to this one.
    pub open spec fn from_point(self, other: Vec2) -> Vec2 {
        Vec2 { x: self.x.difference(other.x), y: self.y.difference(other.y) }
    }

    /// The length.
    pub open spec fn norm(self) -> Single {
        self.x.product(self.x).sum(self.y.product(self.y)).square_root()
    }

    /// The vector, each part multiplied by the same number.
    pub open spec fn stretched(self, factor: Single) -> Vec2 {
        Vec2 { x: self.x.product(factor), y: self.y.product(factor) }
    }

    /// The vector of length one in the same direction.
    pub open spec fn unit(self) -> Vec2 {
        self.stretched((Single { bits: SINGLE_ONE }).quotient(self.norm()))
    }

    /// The vector, each part divided by the same number.
    pub open spec fn divided(self, divisor: Single) -> Vec2 {
        Vec2 { x: self.x.quotient(divisor), y: self.y.quotient(divisor) }
    }

    /// The origin, or the vector of length zero.
    #[verifier::allow_in_spec]
    pub fn zero() -> (result: Vec2)
        returns
            (Vec2 { x: Single { bits: 0 }, y: Single { bits: 0 } }),
    {
        Vec2 { x: Single { bits: 0 }, y: Single { bits: 0 } }
    }

    /// The vector from another point to this one.
    pub fn minus(&self, other: &Vec2) -> (result: Vec2)
        ensures
            result == self.from_point(*other),
    {
        Vec2 { x: self.x.minus(&other.x), y: self.y.minus(&other.y) }
    }

    /// The length.
    pub fn length(&self) -> (result: Single)
        ensures
            result == self.norm(),
    {
        self.x.times(&self.x).plus(&self.y.times(&self.y)).root()
    }

    /// The vector of length one in the same direction.
    pub fn normalize(&self) -> (result: Vec2)
        ensures
            result == self.unit(),
    {
        let one = Single { bits: SINGLE_ONE };
        let factor = one.over(&self.length());
        Vec2 { x: self.x.times(&factor), y: self.y.times(&factor) }
    }

    /// The vector, each part divided by the same number.
    pub fn over(&self, divisor: &Single) -> (result: Vec2)
        ensures
            result == self.divided(*divisor),
    {
        Vec2 { x: self.x.over(divisor), y: self.y.over(divisor) }
    }
}

/// The value of a finite single is a number of at most 24 bits, times a power
/// of two.
proof fn lemma_single_is_short(magnitude: nat) -> (parts: (nat, nat))
    requires
        0 < magnitude < SINGLE_INFINITY,
    ensures
        Format::Single.steps(magnitude) == parts.0 * pow2(parts.1),
        0 < parts.0 < 2 * Format::Single.range(),
        parts.1 <= 253,
{
    let range = Format::Single.range() as nat;
    assert(range == 0x80_0000);
    lemma_steps_by_parts(Format::Single, magnitude);
    vstd::arithmetic::div_mod::lemma_fundamental_div_mod(magnitude as int, range as int);
    lemma2_to64();
    if magnitude < range {
        assert(magnitude / range == 0 && magnitude % range == magnitude);
        assert(magnitude * pow2(0) == magnitude) by (nonlinear_arith)
            requires
                pow2(0) == 1,
        ;
        (magnitude, 0)
    } else {
        (range + magnitude % range, (magnitude / range - 1) as nat)
    }
}

/// Widening keeps the value of every finite number, and its sign: a double's
/// smallest step goes 2^925 times into a single's.
pub proof fn law_widening_keeps_the_value(s: Single)
    requires
        s.finite(),
    ensures
        s.widened().finite(),
        s.widened().number().negative == s.number().negative,
        s.widened().value() == s.value() * finer(),
{
    let m = s.magnitude();
    let exact = Format::Single.steps(m) * finer();
    let wide = Format::Double.nearest(exact, 1);
    lemma_steps_of_zero(Format::Single);
    lemma_steps_of_zero(Format::Double);
    if m == 0 {
        assert(0 * finer() == 0) by (nonlinear_arith);
        lemma_small_is_zero(Format::Double, 0, 1);
    } else {
        let (x, e) = lemma_single_is_short(m);
        lemma_pow2_adds(e, 925);
        assert(exact == x * pow2(e + 925)) by (nonlinear_arith)
            requires
                exact == (x * pow2(e)) * finer(),
                pow2(e + 925) == pow2(e) * finer(),
        ;
        law_short_number_is_exact(Format::Double, x, e + 925);
    }
    assert(Format::Double.steps(wide) == exact);
    assert(s.widened().magnitude() == wide);
    let v = Format::Single.steps(m) as int;
    assert((-v) * finer() == -(v * finer())) by (nonlinear_arith);
}

/// A single that was widened is narrowed to itself.
pub proof fn law_narrowing_undoes_widening(s: Single)
    requires
        !s.nan(),
    ensures
        Single::narrowed(s.widened()) == s,
{
    if s.finite() {
        law_widening_keeps_the_value(s);
        lemma_pow2_pos(925);
        law_value_is_kept(Format::Single, s.magnitude(), finer());
        let v = Format::Single.steps(s.magnitude()) as int;
        assert((-v) * finer() == -(v * finer())) by (nonlinear_arith);
    }
}

} // verus!
