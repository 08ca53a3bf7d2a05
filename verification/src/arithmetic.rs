//! Arithmetic on floating-point numbers, in integers.
//!
//! What each operation gives is stated by the exact result, rounded. Of NaNs
//! there is only one: which one an operation gives is left open by the
//! standard.

use crate::rounding::{
    law_root_is_unique, law_rounding_is_unique, law_value_is_kept, lemma_fraction_is_rounded,
    lemma_range_is_a_power, lemma_root_is_rounded, lemma_rounding_scales, lemma_small_is_zero,
    lemma_steps_by_parts, lemma_steps_increase, lemma_steps_of, lemma_steps_of_zero, round, widened,
    Format,
};
use vstd::arithmetic::power2::{
    lemma2_to64, lemma2_to64_rest, lemma_pow2_adds, lemma_pow2_pos, lemma_pow2_strictly_increases,
    lemma_pow2_unfold, pow2,
};
use vstd::prelude::*;

verus! {

/// A floating-point number: its sign and its magnitude.
#[derive(Debug, Clone, Copy, PartialEq, Eq, Structural)]
pub struct Number {
    pub negative: bool,
    pub magnitude: u64,
}

impl Number {
    /// Whether this is no number.
    pub open spec fn nan(self, f: Format) -> bool {
        self.magnitude > f.infinity()
    }

    /// Whether this is an infinity.
    pub open spec fn infinite(self, f: Format) -> bool {
        self.magnitude == f.infinity()
    }

    /// The value of the magnitude, counted in the smallest positive number.
    pub open spec fn steps(self, f: Format) -> nat {
        f.steps(self.magnitude as nat)
    }

    /// The value, counted in the smallest positive number.
    pub open spec fn value(self, f: Format) -> int {
        if self.negative {
            -(self.steps(f) as int)
        } else {
            self.steps(f) as int
        }
    }
}

/// What stands for no number.
#[verifier::allow_in_spec]
pub fn no_number(f: Format) -> (result: Number)
    returns
        (Number { negative: false, magnitude: f.nan() }),
{
    Number { negative: false, magnitude: f.nan() }
}

/// The sum of two numbers. Opposite numbers have the sum zero, without a sign.
pub open spec fn sum(f: Format, a: Number, b: Number) -> Number {
    if a.nan(f) || b.nan(f) {
        no_number(f)
    } else if a.infinite(f) {
        if b.infinite(f) && a.negative != b.negative {
            no_number(f)
        } else {
            a
        }
    } else if b.infinite(f) {
        b
    } else {
        let value = a.value(f) + b.value(f);
        if value == 0 {
            Number { negative: a.negative && b.negative, magnitude: 0 }
        } else if value < 0 {
            Number { negative: true, magnitude: f.nearest((-value) as nat, 1) as u64 }
        } else {
            Number { negative: false, magnitude: f.nearest(value as nat, 1) as u64 }
        }
    }
}

/// The number with the other sign.
pub open spec fn opposite(a: Number) -> Number {
    Number { negative: !a.negative, ..a }
}

/// The product of two numbers.
pub open spec fn product(f: Format, a: Number, b: Number) -> Number {
    let negative = a.negative != b.negative;
    if a.nan(f) || b.nan(f) {
        no_number(f)
    } else if a.infinite(f) || b.infinite(f) {
        if a.magnitude == 0 || b.magnitude == 0 {
            no_number(f)
        } else {
            Number { negative, magnitude: f.infinity() }
        }
    } else {
        Number { negative, magnitude: f.nearest(a.steps(f) * b.steps(f), f.one()) as u64 }
    }
}

/// The quotient of two numbers.
pub open spec fn quotient(f: Format, a: Number, b: Number) -> Number {
    let negative = a.negative != b.negative;
    if a.nan(f) || b.nan(f) {
        no_number(f)
    } else if a.infinite(f) {
        if b.infinite(f) {
            no_number(f)
        } else {
            Number { negative, magnitude: f.infinity() }
        }
    } else if b.infinite(f) {
        Number { negative, magnitude: 0 }
    } else if b.magnitude == 0 {
        if a.magnitude == 0 {
            no_number(f)
        } else {
            Number { negative, magnitude: f.infinity() }
        }
    } else {
        Number { negative, magnitude: f.nearest(a.steps(f) * f.one(), b.steps(f)) as u64 }
    }
}

/// The remainder of a division whose quotient is cut to an integer: it has the
/// sign of the dividend.
pub open spec fn remainder(f: Format, a: Number, b: Number) -> Number {
    if a.nan(f) || b.nan(f) || a.infinite(f) || b.magnitude == 0 {
        no_number(f)
    } else if b.infinite(f) {
        a
    } else {
        Number { negative: a.negative, magnitude: f.nearest(a.steps(f) % b.steps(f), 1) as u64 }
    }
}

/// The square root of a number. That of a negative zero is itself.
pub open spec fn square_root(f: Format, a: Number) -> Number {
    if a.nan(f) {
        no_number(f)
    } else if a.magnitude == 0 {
        a
    } else if a.negative {
        no_number(f)
    } else if a.infinite(f) {
        a
    } else {
        Number { negative: false, magnitude: f.nearest_root(a.steps(f) * f.one()) as u64 }
    }
}

/// The power of two that a magnitude's mantissa is multiplied by.
pub open spec fn exponent_of(f: Format, magnitude: nat) -> nat {
    let field = magnitude / (f.range() as nat);
    if field == 0 {
        0
    } else {
        (field - 1) as nat
    }
}

/// The mantissa of a magnitude and the power of two that it is multiplied by.
fn unpack(f: Format, magnitude: u64) -> (result: (u64, u32))
    requires
        magnitude < f.infinity(),
    ensures
        f.steps(magnitude as nat) == result.0 as nat * pow2(result.1 as nat),
        result.0 < 2 * f.range(),
        result.1 == exponent_of(f, magnitude as nat),
        result.1 > 0 ==> result.0 >= f.range(),
        result.0 == 0 <==> magnitude == 0,
        result.1 <= 2045,
{
    let range: u64 = f.range();
    let field: u64 = magnitude / range;
    let fraction: u64 = magnitude % range;
    proof {
        lemma2_to64();
        vstd::arithmetic::div_mod::lemma_fundamental_div_mod(magnitude as int, range as int);
        lemma_steps_by_parts(f, magnitude as nat);
        assert(field < 2047) by {
            match f {
                Format::Single => {},
                Format::Double => {},
            }
        }
    }
    if field == 0 {
        assert(fraction as nat * pow2(0) == fraction) by (nonlinear_arith)
            requires
                pow2(0) == 1,
        ;
        (fraction, 0)
    } else {
        (range + fraction, (field - 1) as u32)
    }
}

/// A number given exactly, as `x * 2^e`, is rounded.
fn round_exact(f: Format, x: u128, e: u32) -> (magnitude: u64)
    requires
        0 < x < pow2(120),
        e <= 0x1000,
    ensures
        magnitude <= f.infinity(),
        f.rounded(magnitude as nat, x as nat * pow2(e as nat), 1),
        magnitude == f.nearest(x as nat * pow2(e as nat), 1),
{
    let (q, s): (u128, u32) = widened(x);
    proof {
        lemma_wide_enough(f, q as nat);
    }
    let magnitude: u64 = round(f, q, false, e, s);
    proof {
        let k = pow2(s as nat);
        let l = pow2(e as nat);
        lemma_pow2_pos(s as nat);
        assert(1 * q as nat == q && 1 * (q + 1) as nat == q + 1) by (nonlinear_arith);
        lemma_fraction_is_rounded(
            f,
            magnitude as nat,
            q as nat,
            e as nat,
            s as nat,
            q as nat,
            1,
        );
        assert(q as nat * l == (x as nat * l) * k) by (nonlinear_arith)
            requires
                q as nat == x as nat * k,
        ;
        lemma_rounding_scales(f, magnitude as nat, x as nat * l, 1, k);
        law_rounding_is_unique(f, magnitude as nat, magnitude as nat, x as nat * l, 1);
    }
    magnitude
}

/// A number of 120 bits has more than a format holds.
proof fn lemma_wide_enough(f: Format, q: nat)
    requires
        pow2(119) <= q < pow2(120),
    ensures
        2 * f.range() <= q < pow2(127),
{
    lemma_range_is_a_power(f);
    lemma_pow2_strictly_increases(f.precision() as nat, 119);
    lemma_pow2_strictly_increases(120, 127);
}

/// Mantissas are below two to the power of 53.
proof fn lemma_mantissa_bound(f: Format)
    ensures
        2 * f.range() <= pow2(53),
        pow2(53) == 0x20_0000_0000_0000,
{
    lemma2_to64();
    lemma2_to64_rest();
}

/// The product of two finite magnitudes.
fn multiply(f: Format, a: u64, b: u64) -> (magnitude: u64)
    requires
        a < f.infinity(),
        b < f.infinity(),
    ensures
        magnitude == f.nearest(f.steps(a as nat) * f.steps(b as nat), f.one()),
        magnitude <= f.infinity(),
{
    let (ma, ea): (u64, u32) = unpack(f, a);
    let (mb, eb): (u64, u32) = unpack(f, b);
    let ghost num = f.steps(a as nat) * f.steps(b as nat);
    proof {
        lemma_pow2_pos(f.depth() as nat);
    }
    if ma == 0 || mb == 0 {
        proof {
            assert(num == 0) by (nonlinear_arith)
                requires
                    num == f.steps(a as nat) * f.steps(b as nat),
                    f.steps(a as nat) == ma as nat * pow2(ea as nat),
                    f.steps(b as nat) == mb as nat * pow2(eb as nat),
                    ma == 0 || mb == 0,
            ;
            lemma_small_is_zero(f, 0, f.one());
        }
        return 0;
    }
    proof {
        lemma_mantissa_bound(f);
        lemma_pow2_adds(53, 53);
        lemma_pow2_strictly_increases(106, 120);
        assert(0 < ma * mb < pow2(53) * pow2(53)) by (nonlinear_arith)
            requires
                0 < ma < pow2(53),
                0 < mb < pow2(53),
        ;
        lemma2_to64();
        lemma_pow2_adds(64, 64);
        lemma_pow2_strictly_increases(120, 128);
    }
    let x: u128 = ma as u128 * mb as u128;
    let (q, s): (u128, u32) = widened(x);
    proof {
        lemma_wide_enough(f, q as nat);
    }
    let magnitude: u64 = round(f, q, false, ea + eb, f.depth() + s);
    proof {
        let l = pow2((ea + eb) as nat);
        let k = pow2(s as nat);
        let one = f.one();
        lemma_pow2_pos(s as nat);
        assert(1 * q as nat == q && 1 * (q + 1) as nat == q + 1) by (nonlinear_arith);
        lemma_fraction_is_rounded(
            f,
            magnitude as nat,
            q as nat,
            (ea + eb) as nat,
            (f.depth() + s) as nat,
            q as nat,
            1,
        );
        lemma_pow2_adds(ea as nat, eb as nat);
        lemma_pow2_adds(f.depth() as nat, s as nat);
        assert(q as nat * l == num * k) by (nonlinear_arith)
            requires
                q as nat == x as nat * k,
                x as nat == ma as nat * mb as nat,
                l == pow2(ea as nat) * pow2(eb as nat),
                num == (ma as nat * pow2(ea as nat)) * (mb as nat * pow2(eb as nat)),
        ;
        assert(1 * (one * k) == one * k) by (nonlinear_arith);
        lemma_rounding_scales(f, magnitude as nat, num, one, k);
        law_rounding_is_unique(f, magnitude as nat, magnitude as nat, num, one);
    }
    magnitude
}

/// The quotient of two finite magnitudes.
fn divide(f: Format, a: u64, b: u64) -> (magnitude: u64)
    requires
        a < f.infinity(),
        0 < b < f.infinity(),
    ensures
        magnitude == f.nearest(f.steps(a as nat) * f.one(), f.steps(b as nat)),
        magnitude <= f.infinity(),
{
    let (ma, ea): (u64, u32) = unpack(f, a);
    let (mb, eb): (u64, u32) = unpack(f, b);
    let ghost num = f.steps(a as nat) * f.one();
    let ghost den = f.steps(b as nat);
    proof {
        lemma_pow2_pos(eb as nat);
        assert(den > 0) by (nonlinear_arith)
            requires
                den == mb as nat * pow2(eb as nat),
                mb > 0,
                pow2(eb as nat) > 0,
        ;
    }
    if ma == 0 {
        proof {
            assert(num == 0) by (nonlinear_arith)
                requires
                    num == (ma as nat * pow2(ea as nat)) * f.one(),
                    ma == 0,
            ;
            lemma_small_is_zero(f, 0, den);
        }
        return 0;
    }
    proof {
        lemma_mantissa_bound(f);
        lemma_pow2_strictly_increases(53, 120);
    }
    let (n, s): (u128, u32) = widened(ma as u128);
    let d: u128 = mb as u128;
    let q: u128 = n / d;
    let r: u128 = n % d;
    proof {
        vstd::arithmetic::div_mod::lemma_fundamental_div_mod(n as int, d as int);
        lemma_wide_enough(f, n as nat);
        lemma_pow2_adds(53, 66);
        lemma2_to64();
        lemma_pow2_strictly_increases(53, 64);
        lemma_pow2_strictly_increases(64, 66);
        assert(q >= pow2(66)) by (nonlinear_arith)
            requires
                n == d * q + r,
                r < d,
                d < pow2(53),
                n >= pow2(53) * pow2(66),
        ;
        assert(q <= n) by (nonlinear_arith)
            requires
                n == d * q + r,
                d >= 1,
                r >= 0,
        ;
        assert(d * (q + 1) == d * q + d) by (nonlinear_arith);
    }
    let magnitude: u64 = round(f, q, r > 0, ea + f.depth(), eb + s);
    proof {
        let l = pow2((ea + f.depth()) as nat);
        let k = pow2(s as nat);
        lemma_pow2_pos(s as nat);
        lemma_fraction_is_rounded(
            f,
            magnitude as nat,
            q as nat,
            (ea + f.depth()) as nat,
            (eb + s) as nat,
            n as nat,
            d as nat,
        );
        lemma_pow2_adds(ea as nat, f.depth() as nat);
        lemma_pow2_adds(eb as nat, s as nat);
        assert(n as nat * l == num * k) by (nonlinear_arith)
            requires
                n as nat == ma as nat * k,
                l == pow2(ea as nat) * f.one(),
                num == (ma as nat * pow2(ea as nat)) * f.one(),
        ;
        assert(d as nat * pow2((eb + s) as nat) == den * k) by (nonlinear_arith)
            requires
                pow2((eb + s) as nat) == pow2(eb as nat) * k,
                den == d as nat * pow2(eb as nat),
        ;
        lemma_rounding_scales(f, magnitude as nat, num, den, k);
        law_rounding_is_unique(f, magnitude as nat, magnitude as nat, num, den);
    }
    magnitude
}

/// The values of two magnitudes, added or subtracted.
pub open spec fn combined(f: Format, big: nat, small: nat, subtract: bool) -> nat {
    if subtract {
        (f.steps(big) - f.steps(small)) as nat
    } else {
        f.steps(big) + f.steps(small)
    }
}

/// The sum of two finite magnitudes, or their difference.
fn combine(f: Format, big: u64, small: u64, subtract: bool) -> (magnitude: u64)
    requires
        small <= big < f.infinity(),
        subtract ==> small < big,
    ensures
        magnitude == f.nearest(combined(f, big as nat, small as nat, subtract), 1),
        magnitude <= f.infinity(),
{
    if small == 0 {
        proof {
            law_value_is_kept(f, big as nat, 1);
            lemma_steps_of_zero(f);
            assert(f.steps(big as nat) * 1 == f.steps(big as nat));
        }
        return big;
    }
    let (ma, ea): (u64, u32) = unpack(f, big);
    let (mb, eb): (u64, u32) = unpack(f, small);
    let ghost exact = combined(f, big as nat, small as nat, subtract);
    proof {
        assert(eb <= ea) by {
            vstd::arithmetic::div_mod::lemma_div_is_ordered(
                small as int,
                big as int,
                f.range() as int,
            );
        }
        lemma_mantissa_bound(f);
        if small < big {
            lemma_steps_increase(f, small as nat, big as nat);
        }
    }
    let diff: u32 = ea - eb;
    proof {
        lemma_pow2_adds(eb as nat, diff as nat);
        lemma_pow2_pos(eb as nat);
    }
    if diff <= 66 {
        let factor: u128 = crate::rounding::power_of_two(diff);
        proof {
            lemma_pow2_adds(53, 66);
            if diff < 66 {
                lemma_pow2_strictly_increases(diff as nat, 66);
            }
            assert(ma as nat * factor as nat <= (pow2(53) - 1) * pow2(66)) by (nonlinear_arith)
                requires
                    ma < pow2(53),
                    factor <= pow2(66),
            ;
            lemma2_to64();
            lemma_pow2_strictly_increases(53, 66);
            assert((pow2(53) - 1) * pow2(66) + pow2(66) == pow2(119)) by (nonlinear_arith)
                requires
                    pow2(119) == pow2(53) * pow2(66),
            ;
            lemma_pow2_strictly_increases(119, 120);
            lemma_pow2_adds(64, 64);
            lemma_pow2_strictly_increases(120, 128);
        }
        let a: u128 = ma as u128 * factor;
        proof {
            let l = pow2(eb as nat);
            assert(f.steps(big as nat) == a as nat * l) by (nonlinear_arith)
                requires
                    f.steps(big as nat) == ma as nat * pow2(ea as nat),
                    pow2(ea as nat) == l * factor as nat,
                    a as nat == ma as nat * factor as nat,
            ;
            if subtract {
                assert(mb < a) by (nonlinear_arith)
                    requires
                        mb as nat * l < a as nat * l,
                ;
                assert((a - mb) as nat * l == a as nat * l - mb as nat * l) by (nonlinear_arith)
                    requires
                        mb < a,
                ;
            } else {
                assert((a + mb) as nat * l == a as nat * l + mb as nat * l) by (nonlinear_arith);
            }
        }
        let x: u128 = if subtract {
            a - mb as u128
        } else {
            a + mb as u128
        };
        assert(x as nat * pow2(eb as nat) == exact);
        round_exact(f, x, eb)
    } else {
        let q: u128 = if subtract {
            8 * ma as u128 - 1
        } else {
            8 * ma as u128
        };
        proof {
            lemma2_to64();
            lemma_pow2_strictly_increases(64, 127);
        }
        let magnitude: u64 = round(f, q, true, ea - 3, 0);
        proof {
            let gap = (diff - 3) as nat;
            let d = pow2(gap);
            let l = pow2(eb as nat);
            lemma_pow2_pos(gap);
            lemma_pow2_adds(3, gap);
            lemma_pow2_adds(eb as nat, gap);
            lemma2_to64();
            if gap > 64 {
                lemma_pow2_strictly_increases(64, gap);
            }
            assert(0 < mb < d);
            let whole = ma as nat * pow2(diff as nat);
            let n = if subtract {
                (whole - mb) as nat
            } else {
                whole + mb as nat
            };
            assert(whole == d * (8 * ma as nat)) by (nonlinear_arith)
                requires
                    whole == ma as nat * pow2(diff as nat),
                    pow2(diff as nat) == 8 * d,
            ;
            assert(d * (8 * ma as nat) == d * ((8 * ma - 1) as nat) + d) by (nonlinear_arith)
                requires
                    ma >= 1,
            ;
            assert(d * (8 * ma as nat + 1) == d * (8 * ma as nat) + d) by (nonlinear_arith);
            assert(d * q as nat <= n < d * (q + 1) as nat);
            lemma_fraction_is_rounded(
                f,
                magnitude as nat,
                q as nat,
                (ea - 3) as nat,
                0,
                n,
                d,
            );
            assert(f.steps(big as nat) == whole * l) by (nonlinear_arith)
                requires
                    f.steps(big as nat) == ma as nat * pow2(ea as nat),
                    pow2(ea as nat) == l * pow2(diff as nat),
                    whole == ma as nat * pow2(diff as nat),
            ;
            if subtract {
                assert(n * l == whole * l - mb as nat * l) by (nonlinear_arith)
                    requires
                        n == whole - mb as nat,
                ;
            } else {
                assert(n * l == whole * l + mb as nat * l) by (nonlinear_arith)
                    requires
                        n == whole + mb as nat,
                ;
            }
            assert(n * l == exact);
            assert(n * pow2((ea - 3) as nat) == exact * d) by (nonlinear_arith)
                requires
                    pow2((ea - 3) as nat) == l * d,
                    n * l == exact,
            ;
            assert(d * pow2(0) == 1 * d);
            lemma_rounding_scales(f, magnitude as nat, exact, 1, d);
            law_rounding_is_unique(f, magnitude as nat, magnitude as nat, exact, 1);
        }
        magnitude
    }
}

/// The remainder of a division of finite magnitudes.
fn divide_remainder(f: Format, a: u64, b: u64) -> (magnitude: u64)
    requires
        a < f.infinity(),
        0 < b < f.infinity(),
    ensures
        magnitude == f.nearest(f.steps(a as nat) % f.steps(b as nat), 1),
        magnitude <= f.infinity(),
{
    if a < b {
        proof {
            lemma_steps_increase(f, a as nat, b as nat);
            vstd::arithmetic::div_mod::lemma_small_mod(f.steps(a as nat), f.steps(b as nat));
            law_value_is_kept(f, a as nat, 1);
            assert(f.steps(a as nat) * 1 == f.steps(a as nat));
        }
        return a;
    }
    let (ma, ea): (u64, u32) = unpack(f, a);
    let (mb, eb): (u64, u32) = unpack(f, b);
    proof {
        assert(eb <= ea) by {
            vstd::arithmetic::div_mod::lemma_div_is_ordered(b as int, a as int, f.range() as int);
        }
        lemma_mantissa_bound(f);
        lemma2_to64();
    }
    let diff: u32 = ea - eb;
    let mut r: u64 = ma % mb;
    let mut i: u32 = 0;
    assert(ma as nat * pow2(0) == ma) by (nonlinear_arith)
        requires
            pow2(0) == 1,
    ;
    while i < diff
        invariant
            i <= diff,
            0 < mb < 0x20_0000_0000_0000,
            r < mb,
            r as nat == (ma as nat * pow2(i as nat)) % (mb as nat),
        decreases diff - i,
    {
        proof {
            let x = ma as nat * pow2(i as nat);
            lemma_pow2_unfold((i + 1) as nat);
            assert(ma as nat * pow2((i + 1) as nat) == 2 * x) by (nonlinear_arith)
                requires
                    x == ma as nat * pow2(i as nat),
                    pow2((i + 1) as nat) == 2 * pow2(i as nat),
            ;
            vstd::arithmetic::div_mod::lemma_mul_mod_noop_right(2, x as int, mb as int);
        }
        r = (2 * r) % mb;
        i = i + 1;
    }
    proof {
        let l = pow2(eb as nat);
        lemma_pow2_pos(eb as nat);
        lemma_pow2_adds(eb as nat, diff as nat);
        let x = ma as nat * pow2(diff as nat);
        assert(f.steps(a as nat) == l * x) by (nonlinear_arith)
            requires
                f.steps(a as nat) == ma as nat * pow2(ea as nat),
                pow2(ea as nat) == l * pow2(diff as nat),
                x == ma as nat * pow2(diff as nat),
        ;
        assert(f.steps(b as nat) == l * mb as nat) by (nonlinear_arith)
            requires
                f.steps(b as nat) == mb as nat * l,
        ;
        assert(l * mb as nat > 0) by (nonlinear_arith)
            requires
                l > 0,
                mb > 0,
        ;
        vstd::arithmetic::div_mod::lemma_truncate_middle(x as int, l as int, mb as int);
        assert(f.steps(a as nat) % f.steps(b as nat) == l * r as nat);
        assert(l * r as nat == r as nat * l) by (nonlinear_arith);
    }
    if r == 0 {
        proof {
            assert(0 * pow2(eb as nat) == 0) by (nonlinear_arith);
            lemma_small_is_zero(f, 0, 1);
        }
        return 0;
    }
    proof {
        lemma_pow2_strictly_increases(53, 120);
    }
    round_exact(f, r as u128, eb)
}

/// The square root of an integer, cut to an integer.
fn integer_root(n: u128) -> (q: u128)
    requires
        n < pow2(120),
    ensures
        q * q <= n,
        n < (q + 1) * (q + 1),
        q < pow2(60),
{
    let mut low: u128 = 0;
    let mut high: u128 = 0x1000_0000_0000_0000;
    proof {
        lemma2_to64();
        lemma2_to64_rest();
        lemma_pow2_adds(60, 60);
        assert(high * high == pow2(120)) by (nonlinear_arith)
            requires
                high as nat == pow2(60),
                pow2(120) == pow2(60) * pow2(60),
        ;
    }
    while high - low > 1
        invariant
            low < high <= 0x1000_0000_0000_0000,
            low * low <= n,
            n < high * high,
        decreases high - low,
    {
        let middle: u128 = low + (high - low) / 2;
        assert(middle * middle <= 0x1000_0000_0000_0000 * 0x1000_0000_0000_0000)
            by (nonlinear_arith)
            requires
                middle <= 0x1000_0000_0000_0000,
        ;
        if middle * middle <= n {
            low = middle;
        } else {
            high = middle;
        }
    }
    proof {
        lemma2_to64_rest();
        assert(high == low + 1);
    }
    low
}

/// The square root of a finite magnitude.
fn extract_root(f: Format, a: u64) -> (magnitude: u64)
    requires
        0 < a < f.infinity(),
    ensures
        magnitude == f.nearest_root(f.steps(a as nat) * f.one()),
        magnitude <= f.infinity(),
{
    let (ma, ea): (u64, u32) = unpack(f, a);
    proof {
        lemma_mantissa_bound(f);
        lemma_pow2_strictly_increases(53, 120);
    }
    let (wide, shift): (u128, u32) = widened(ma as u128);
    let total: u32 = ea + f.depth();
    let odd: bool = (total - shift) % 2 == 1;
    proof {
        // the mantissa takes at most 53 bits, so that it was shifted
        if shift == 0 {
            lemma2_to64();
            assert(ma as nat * pow2(0) == ma) by (nonlinear_arith)
                requires
                    pow2(0) == 1,
            ;
            lemma_pow2_strictly_increases(53, 119);
        }
        lemma_pow2_unfold(shift as nat);
        let k = pow2((shift - 1) as nat);
        assert(wide as nat == 2 * (ma as nat * k)) by (nonlinear_arith)
            requires
                wide as nat == ma as nat * (2 * k),
        ;
        lemma_pow2_unfold(119);
    }
    let n: u128 = if odd {
        wide / 2
    } else {
        wide
    };
    let s: u32 = if odd {
        shift - 1
    } else {
        shift
    };
    let h: u32 = (total - s) / 2;
    assert(n as nat == ma as nat * pow2(s as nat));
    assert(2 * h == total - s);
    let q: u128 = integer_root(n);
    proof {
        lemma2_to64();
        lemma2_to64_rest();
        lemma_pow2_adds(59, 59);
        lemma_pow2_strictly_increases(60, 127);
        if q < pow2(59) {
            assert((q + 1) * (q + 1) <= pow2(59) * pow2(59)) by (nonlinear_arith)
                requires
                    q + 1 <= pow2(59),
                    q >= 0,
            ;
        }
        assert(q * q < 0x1000_0000_0000_0000 * 0x1000_0000_0000_0000) by (nonlinear_arith)
            requires
                q < 0x1000_0000_0000_0000,
                q >= 0,
        ;
    }
    let magnitude: u64 = round(f, q, q * q < n, h, 0);
    proof {
        let l = pow2(h as nat);
        let square = f.steps(a as nat) * f.one();
        lemma_root_is_rounded(f, magnitude as nat, q as nat, h as nat, n as nat);
        lemma_pow2_adds(h as nat, h as nat);
        lemma_pow2_adds(s as nat, (2 * h) as nat);
        lemma_pow2_adds(ea as nat, f.depth() as nat);
        assert(s + 2 * h == ea + f.depth());
        assert(n as nat * (l * l) == square) by (nonlinear_arith)
            requires
                n as nat == ma as nat * pow2(s as nat),
                pow2(s as nat) * (l * l) == pow2(ea as nat) * f.one(),
                square == (ma as nat * pow2(ea as nat)) * f.one(),
        ;
        law_root_is_unique(f, magnitude as nat, magnitude as nat, square);
    }
    magnitude
}

/// How many times the smallest positive double goes into the smallest positive
/// single.
pub open spec fn finer() -> nat {
    pow2(925)
}

/// A number in double precision, rounded to single precision.
pub open spec fn narrowed(a: Number) -> Number {
    if a.nan(Format::Double) {
        no_number(Format::Single)
    } else if a.infinite(Format::Double) {
        Number { negative: a.negative, magnitude: Format::Single.infinity() }
    } else {
        Number {
            negative: a.negative,
            magnitude: Format::Single.nearest(a.steps(Format::Double), finer()) as u64,
        }
    }
}

/// A number in single precision, in double precision.
pub open spec fn broadened(a: Number) -> Number {
    if a.nan(Format::Single) {
        no_number(Format::Double)
    } else if a.infinite(Format::Single) {
        Number { negative: a.negative, magnitude: Format::Double.infinity() }
    } else {
        Number {
            negative: a.negative,
            magnitude: Format::Double.nearest(a.steps(Format::Single) * finer(), 1) as u64,
        }
    }
}

/// A finite magnitude in double precision, rounded to single precision.
fn narrow_magnitude(a: u64) -> (magnitude: u64)
    requires
        a < Format::Double.infinity(),
    ensures
        magnitude == Format::Single.nearest(Format::Double.steps(a as nat), finer()),
        magnitude <= Format::Single.infinity(),
{
    let f = Format::Single;
    let (ma, ea): (u64, u32) = unpack(Format::Double, a);
    let ghost num = Format::Double.steps(a as nat);
    proof {
        lemma_pow2_pos(925);
        lemma_mantissa_bound(Format::Double);
        lemma_pow2_strictly_increases(53, 120);
    }
    if ma == 0 {
        proof {
            assert(0 * pow2(ea as nat) == 0) by (nonlinear_arith);
            lemma_small_is_zero(f, 0, finer());
        }
        return 0;
    }
    let (q, s): (u128, u32) = widened(ma as u128);
    proof {
        lemma_wide_enough(f, q as nat);
    }
    let magnitude: u64 = round(f, q, false, ea, 925 + s);
    proof {
        let k = pow2(s as nat);
        let l = pow2(ea as nat);
        lemma_pow2_pos(s as nat);
        lemma_pow2_adds(925, s as nat);
        assert(1 * q as nat == q && 1 * (q + 1) as nat == q + 1) by (nonlinear_arith);
        lemma_fraction_is_rounded(
            f,
            magnitude as nat,
            q as nat,
            ea as nat,
            (925 + s) as nat,
            q as nat,
            1,
        );
        assert(q as nat * l == num * k) by (nonlinear_arith)
            requires
                q as nat == ma as nat * k,
                num == ma as nat * l,
        ;
        assert(1 * (finer() * k) == finer() * k) by (nonlinear_arith);
        lemma_rounding_scales(f, magnitude as nat, num, finer(), k);
        law_rounding_is_unique(f, magnitude as nat, magnitude as nat, num, finer());
    }
    magnitude
}

/// A finite magnitude in single precision, in double precision.
fn broaden_magnitude(a: u64) -> (magnitude: u64)
    requires
        a < Format::Single.infinity(),
    ensures
        magnitude == Format::Double.nearest(Format::Single.steps(a as nat) * finer(), 1),
        magnitude <= Format::Double.infinity(),
{
    let (ma, ea): (u64, u32) = unpack(Format::Single, a);
    let ghost num = Format::Single.steps(a as nat) * finer();
    if ma == 0 {
        proof {
            assert((0 * pow2(ea as nat)) * finer() == 0) by (nonlinear_arith);
            lemma_small_is_zero(Format::Double, 0, 1);
        }
        return 0;
    }
    proof {
        lemma_mantissa_bound(Format::Single);
        lemma_pow2_strictly_increases(53, 120);
        lemma_pow2_adds(ea as nat, 925);
        assert(ma as nat * pow2((ea + 925) as nat) == num) by (nonlinear_arith)
            requires
                num == (ma as nat * pow2(ea as nat)) * finer(),
                pow2((ea + 925) as nat) == pow2(ea as nat) * finer(),
        ;
    }
    round_exact(Format::Double, ma as u128, ea + 925)
}

/// Shows that a positive number of at most full width can be shifted up to full
/// width.
proof fn lemma_full_width(f: Format, x: nat) -> (j: nat)
    requires
        0 < x < 2 * f.range(),
    ensures
        f.range() <= x * pow2(j) < 2 * f.range(),
        j <= 53,
    decreases 2 * f.range() - x,
{
    lemma2_to64();
    if x >= f.range() {
        assert(x * pow2(0) == x) by (nonlinear_arith)
            requires
                pow2(0) == 1,
        ;
        0
    } else {
        let i = lemma_full_width(f, 2 * x);
        lemma_pow2_unfold(i + 1);
        let j = i + 1;
        assert(x * pow2(j) == (2 * x) * pow2(i)) by (nonlinear_arith)
            requires
                pow2(j) == 2 * pow2(i),
        ;
        if j > 53 {
            lemma_mantissa_bound(f);
            lemma_pow2_strictly_increases(53, j);
            assert(x * pow2(j) >= pow2(j)) by (nonlinear_arith)
                requires
                    x >= 1,
            ;
        }
        j
    }
}

/// A number of at most full width, times a power of two, is a value of the
/// format if that power is not too large: it is rounded to itself.
pub proof fn law_short_number_is_exact(f: Format, x: nat, e: nat)
    requires
        0 < x < 2 * f.range(),
        e <= match f {
            Format::Single => 200nat,
            Format::Double => 1990nat,
        },
    ensures
        f.nearest(x * pow2(e), 1) < f.infinity(),
        f.steps(f.nearest(x * pow2(e), 1)) == x * pow2(e),
{
    let j = lemma_full_width(f, x);
    let value = x * pow2(e);
    let range = f.range() as nat;
    if j <= e {
        let p = (e - j) as nat;
        let mantissa = x * pow2(j);
        lemma_steps_of(f, p, mantissa);
        lemma_pow2_adds(j, p);
        assert(mantissa * pow2(p) == value) by (nonlinear_arith)
            requires
                mantissa == x * pow2(j),
                value == x * pow2(e),
                pow2(e) == pow2(j) * pow2(p),
        ;
        assert(p * range + mantissa < f.infinity()) by (nonlinear_arith)
            requires
                mantissa < 2 * range,
                p <= 1990,
                f == Format::Single ==> p <= 200,
                range == f.range(),
                f == Format::Single ==> f.infinity() == 255 * range,
                f == Format::Double ==> f.infinity() == 2047 * range,
        ;
        lemma_exact(f, p * range + mantissa);
    } else {
        lemma_pow2_strictly_increases(e, j);
        assert(value < 2 * range) by (nonlinear_arith)
            requires
                value == x * pow2(e),
                pow2(e) < pow2(j),
                x * pow2(j) < 2 * range,
        ;
        lemma2_to64();
        lemma_steps_of(f, 0, value);
        assert(0 * range + value == value && value * pow2(0) == value);
        lemma_exact(f, value);
    }
}

proof fn lemma_exact(f: Format, magnitude: nat)
    requires
        magnitude < f.infinity(),
    ensures
        f.nearest(f.steps(magnitude), 1) == magnitude,
{
    law_value_is_kept(f, magnitude, 1);
    assert(f.steps(magnitude) * 1 == f.steps(magnitude));
}

impl Number {
    /// The sum of two numbers.
    pub fn plus(&self, f: Format, b: &Number) -> (result: Number)
        ensures
            result == sum(f, *self, *b),
            result.magnitude <= f.nan(),
    {
        let a = *self;
        let b = *b;
        let infinity: u64 = f.infinity();
        if a.magnitude > infinity || b.magnitude > infinity {
            return no_number(f);
        }
        if a.magnitude == infinity {
            return if b.magnitude == infinity && a.negative != b.negative {
                no_number(f)
            } else {
                a
            };
        }
        if b.magnitude == infinity {
            return b;
        }
        proof {
            lemma_value_of_zero(f, a);
            lemma_value_of_zero(f, b);
            if a.magnitude < b.magnitude {
                lemma_steps_increase(f, a.magnitude as nat, b.magnitude as nat);
            } else if b.magnitude < a.magnitude {
                lemma_steps_increase(f, b.magnitude as nat, a.magnitude as nat);
            }
        }
        if a.negative == b.negative {
            if a.magnitude == 0 && b.magnitude == 0 {
                return Number { negative: a.negative, magnitude: 0 };
            }
            let magnitude: u64 = if a.magnitude >= b.magnitude {
                combine(f, a.magnitude, b.magnitude, false)
            } else {
                combine(f, b.magnitude, a.magnitude, false)
            };
            Number { negative: a.negative, magnitude }
        } else if a.magnitude == b.magnitude {
            Number { negative: false, magnitude: 0 }
        } else if a.magnitude > b.magnitude {
            Number {
                negative: a.negative,
                magnitude: combine(f, a.magnitude, b.magnitude, true),
            }
        } else {
            Number {
                negative: b.negative,
                magnitude: combine(f, b.magnitude, a.magnitude, true),
            }
        }
    }

    /// The difference of two numbers.
    pub fn minus(&self, f: Format, b: &Number) -> (result: Number)
        ensures
            result == sum(f, *self, opposite(*b)),
            result.magnitude <= f.nan(),
    {
        let other = Number { negative: !b.negative, magnitude: b.magnitude };
        self.plus(f, &other)
    }

    /// The product of two numbers.
    pub fn times(&self, f: Format, b: &Number) -> (result: Number)
        ensures
            result == product(f, *self, *b),
            result.magnitude <= f.nan(),
    {
        let infinity: u64 = f.infinity();
        let negative = self.negative != b.negative;
        if self.magnitude > infinity || b.magnitude > infinity {
            no_number(f)
        } else if self.magnitude == infinity || b.magnitude == infinity {
            if self.magnitude == 0 || b.magnitude == 0 {
                no_number(f)
            } else {
                Number { negative, magnitude: infinity }
            }
        } else {
            Number { negative, magnitude: multiply(f, self.magnitude, b.magnitude) }
        }
    }

    /// The quotient of two numbers.
    pub fn over(&self, f: Format, b: &Number) -> (result: Number)
        ensures
            result == quotient(f, *self, *b),
            result.magnitude <= f.nan(),
    {
        let infinity: u64 = f.infinity();
        let negative = self.negative != b.negative;
        if self.magnitude > infinity || b.magnitude > infinity {
            no_number(f)
        } else if self.magnitude == infinity {
            if b.magnitude == infinity {
                no_number(f)
            } else {
                Number { negative, magnitude: infinity }
            }
        } else if b.magnitude == infinity {
            Number { negative, magnitude: 0 }
        } else if b.magnitude == 0 {
            if self.magnitude == 0 {
                no_number(f)
            } else {
                Number { negative, magnitude: infinity }
            }
        } else {
            Number { negative, magnitude: divide(f, self.magnitude, b.magnitude) }
        }
    }

    /// The remainder of a division.
    pub fn modulo(&self, f: Format, b: &Number) -> (result: Number)
        ensures
            result == remainder(f, *self, *b),
            result.magnitude <= f.nan(),
    {
        let infinity: u64 = f.infinity();
        if self.magnitude >= infinity || b.magnitude > infinity || b.magnitude == 0 {
            no_number(f)
        } else if b.magnitude == infinity {
            *self
        } else {
            Number {
                negative: self.negative,
                magnitude: divide_remainder(f, self.magnitude, b.magnitude),
            }
        }
    }

    /// The square root of a number.
    pub fn root(&self, f: Format) -> (result: Number)
        ensures
            result == square_root(f, *self),
            result.magnitude <= f.nan(),
    {
        let infinity: u64 = f.infinity();
        if self.magnitude > infinity {
            no_number(f)
        } else if self.magnitude == 0 {
            *self
        } else if self.negative {
            no_number(f)
        } else if self.magnitude == infinity {
            *self
        } else {
            Number { negative: false, magnitude: extract_root(f, self.magnitude) }
        }
    }
}

impl Number {
    /// The number rounded from double to single precision.
    pub fn narrow(&self) -> (result: Number)
        ensures
            result == narrowed(*self),
            result.magnitude <= Format::Single.nan(),
    {
        let infinity: u64 = Format::Double.infinity();
        if self.magnitude > infinity {
            no_number(Format::Single)
        } else if self.magnitude == infinity {
            Number { negative: self.negative, magnitude: Format::Single.infinity() }
        } else {
            Number { negative: self.negative, magnitude: narrow_magnitude(self.magnitude) }
        }
    }

    /// The number in single precision, in double precision.
    pub fn broaden(&self) -> (result: Number)
        ensures
            result == broadened(*self),
            result.magnitude <= Format::Double.nan(),
    {
        let infinity: u64 = Format::Single.infinity();
        if self.magnitude > infinity {
            no_number(Format::Double)
        } else if self.magnitude == infinity {
            Number { negative: self.negative, magnitude: Format::Double.infinity() }
        } else {
            Number { negative: self.negative, magnitude: broaden_magnitude(self.magnitude) }
        }
    }
}

/// Only zeros have the value zero.
proof fn lemma_value_of_zero(f: Format, a: Number)
    ensures
        a.steps(f) == 0 <==> a.magnitude == 0,
{
    lemma_steps_of_zero(f);
    if a.magnitude > 0 {
        lemma_steps_increase(f, 0, a.magnitude as nat);
    }
}

} // verus!
