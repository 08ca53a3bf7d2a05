//! What becomes of an angle that is normalized.

use crate::arithmetic::law_short_number_is_exact;
use crate::motion::{Motion, BACKWARD_HALF_TURN, FULL_TURN, HALF_TURN};
use crate::rounding::{
    law_value_is_kept, lemma_small_is_zero, lemma_steps_by_parts, lemma_steps_increase,
    lemma_steps_of_zero, Format, DOUBLE_RANGE,
};
use crate::scalar::{law_order_is_numeric, Scalar};
use vstd::arithmetic::power2::{lemma_pow2_adds, lemma_pow2_pos, lemma_pow2_unfold, pow2};
use vstd::prelude::*;

verus! {

/// The mantissa of a turn, and of half a turn.
pub const TURN_MANTISSA: u64 = 0x19_21fb_5444_2d18;

/// The value of a whole turn.
pub open spec fn turn_value() -> int {
    (Scalar { bits: FULL_TURN }).value()
}

/// The value of half a turn.
pub open spec fn half_turn_value() -> int {
    (Scalar { bits: HALF_TURN }).value()
}

/// A turn is twice half a turn.
pub(crate) proof fn lemma_turn_values()
    ensures
        turn_value() == (TURN_MANTISSA as nat) * pow2(1024),
        half_turn_value() == (TURN_MANTISSA as nat) * pow2(1023),
        turn_value() == 2 * half_turn_value(),
        half_turn_value() > 0,
        (Scalar { bits: BACKWARD_HALF_TURN }).value() == -half_turn_value(),
{
    let range = DOUBLE_RANGE as nat;
    lemma_steps_by_parts(Format::Double, FULL_TURN as nat);
    lemma_steps_by_parts(Format::Double, HALF_TURN as nat);
    assert((FULL_TURN as nat) / range == 1025 && (FULL_TURN as nat) % range == 0x9_21fb_5444_2d18);
    assert((HALF_TURN as nat) / range == 1024 && (HALF_TURN as nat) % range == 0x9_21fb_5444_2d18);
    lemma_pow2_unfold(1024);
    lemma_pow2_pos(1023);
    let p = pow2(1023);
    assert(TURN_MANTISSA as nat * (2 * p) == 2 * (TURN_MANTISSA as nat * p)) by (nonlinear_arith);
    assert(TURN_MANTISSA as nat * p > 0) by (nonlinear_arith)
        requires
            p > 0,
    ;
}

/// A magnitude from half a turn on is a multiple of a power of two, and so is
/// one from a whole turn on.
proof fn lemma_large_is_a_multiple(magnitude: nat, e: nat) -> (factor: nat)
    requires
        1023 <= e,
        (e + 1) * DOUBLE_RANGE <= magnitude,
    ensures
        Format::Double.steps(magnitude) == factor * pow2(e),
{
    let range = DOUBLE_RANGE as nat;
    let field = magnitude / range;
    let fraction = magnitude % range;
    assert(field >= e + 1) by {
        vstd::arithmetic::div_mod::lemma_fundamental_div_mod(magnitude as int, range as int);
        if field < e + 1 {
            assert(range * field <= range * e) by (nonlinear_arith)
                requires
                    field <= e,
            ;
        }
    }
    lemma_steps_by_parts(Format::Double, magnitude);
    let over = (field - 1 - e) as nat;
    lemma_pow2_adds(over, e);
    let factor = (range + fraction) * pow2(over);
    assert((range + fraction) * (pow2(over) * pow2(e)) == factor * pow2(e)) by (nonlinear_arith)
        requires
            factor == (range + fraction) * pow2(over),
    ;
    factor
}

/// The remainder of an angle, after whole turns, is exact.
proof fn lemma_remainder_is_exact(magnitude: nat) -> (rest: nat)
    requires
        magnitude < Format::Double.infinity(),
    ensures
        rest == Format::Double.steps(magnitude) % (turn_value() as nat),
        Format::Double.nearest(rest, 1) < Format::Double.infinity(),
        Format::Double.steps(Format::Double.nearest(rest, 1)) == rest,
        rest < turn_value(),
        rest >= half_turn_value() ==> exists|w: nat| rest == #[trigger] (w * pow2(1023)),
{
    let f = Format::Double;
    let a = f.steps(magnitude);
    let t = turn_value() as nat;
    let rest = a % t;
    lemma_turn_values();
    lemma_pow2_pos(1024);
    lemma_pow2_unfold(1024);
    vstd::arithmetic::div_mod::lemma_mod_bound(a as int, t as int);
    if a < t {
        vstd::arithmetic::div_mod::lemma_small_mod(a, t);
        law_value_is_kept(f, magnitude, 1);
        assert(a * 1 == a);
        if rest >= half_turn_value() {
            if magnitude < HALF_TURN {
                lemma_steps_increase(f, magnitude, HALF_TURN as nat);
            }
            let w = lemma_large_is_a_multiple(magnitude, 1023);
            assert(rest == w * pow2(1023));
        }
    } else {
        if magnitude < FULL_TURN {
            lemma_steps_increase(f, magnitude, FULL_TURN as nat);
        }
        let y = lemma_large_is_a_multiple(magnitude, 1024);
        let p = pow2(1024);
        let x = y % (TURN_MANTISSA as nat);
        assert(y * p == p * y && x * p == p * x) by (nonlinear_arith);
        assert(TURN_MANTISSA as nat * p == p * TURN_MANTISSA as nat) by (nonlinear_arith);
        vstd::arithmetic::div_mod::lemma_truncate_middle(y as int, p as int, TURN_MANTISSA as int);
        assert(rest == x * p);
        let half = pow2(1023);
        assert(x * (2 * half) == (2 * x) * half) by (nonlinear_arith);
        assert(rest == (2 * x) * pow2(1023));
        if x == 0 {
            assert(rest == 0) by (nonlinear_arith)
                requires
                    rest == x * p,
                    x == 0,
            ;
            lemma_small_is_zero(f, 0, 1);
            lemma_steps_of_zero(f);
        } else {
            law_short_number_is_exact(f, x, 1024);
        }
    }
    rest
}

/// What is left of a whole turn, from half a turn on, is exact.
proof fn lemma_complement_is_exact(rest: nat)
    requires
        half_turn_value() <= rest < turn_value(),
        exists|w: nat| rest == #[trigger] (w * pow2(1023)),
    ensures
        ({
            let left = (turn_value() - rest) as nat;
            &&& Format::Double.nearest(left, 1) < Format::Double.infinity()
            &&& Format::Double.steps(Format::Double.nearest(left, 1)) == left
        }),
{
    lemma_turn_values();
    lemma_pow2_pos(1023);
    let p = pow2(1023);
    let w = choose|w: nat| rest == #[trigger] (w * pow2(1023));
    let left = (turn_value() - rest) as nat;
    let z = 2 * TURN_MANTISSA - w;
    assert(left == z * p) by (nonlinear_arith)
        requires
            left == 2 * (TURN_MANTISSA as nat * p) - w * p,
            z == 2 * TURN_MANTISSA - w,
    ;
    assert(0 < z <= TURN_MANTISSA) by (nonlinear_arith)
        requires
            left == z * p,
            0 < left <= TURN_MANTISSA as nat * p,
            p > 0,
    ;
    law_short_number_is_exact(Format::Double, z as nat, 1023);
}

/// A normalized angle is more than half a turn backward and at most half a turn
/// forward, and differs from the angle by whole turns only.
pub proof fn law_normalized_angle(angle: Scalar)
    requires
        angle.finite(),
    ensures
        Motion::normalized_angle(angle).finite(),
        -half_turn_value() < Motion::normalized_angle(angle).value() <= half_turn_value(),
        (angle.value() - Motion::normalized_angle(angle).value()) % turn_value() == 0,
{
    let f = Format::Double;
    let turn = Scalar { bits: FULL_TURN };
    let half = Scalar { bits: HALF_TURN };
    let backward = Scalar { bits: BACKWARD_HALF_TURN };
    let t = turn_value();
    let a = f.steps(angle.magnitude()) as int;
    lemma_turn_values();
    let rest = lemma_remainder_is_exact(angle.magnitude());
    let r = angle.remainder(turn);
    let negative = angle.number().negative;
    assert(r.magnitude() == f.nearest(rest, 1));
    assert(r.number().negative == negative);
    assert(r.value() == if negative {
        -(rest as int)
    } else {
        rest as int
    });
    law_order_is_numeric(half, r);
    law_order_is_numeric(r, backward);
    let whole = a / t;
    assert(a - rest == t * whole) by {
        vstd::arithmetic::div_mod::lemma_fundamental_div_mod(a, t);
    }
    let result = Motion::normalized_angle(angle);
    let left = (t - rest) as nat;
    if half.less(r) {
        lemma_complement_is_exact(rest);
        assert(result.magnitude() == f.nearest(left, 1));
        assert(result.value() == rest - t);
        assert(a - (rest - t) == t * (whole + 1)) by (nonlinear_arith)
            requires
                a - rest == t * whole,
        ;
        vstd::arithmetic::div_mod::lemma_mod_multiples_basic(whole + 1, t);
        assert((whole + 1) * t == t * (whole + 1)) by (nonlinear_arith);
    } else if r.at_most(backward) {
        lemma_complement_is_exact(rest);
        assert(result.magnitude() == f.nearest(left, 1));
        assert(result.value() == t - rest);
        assert(-a - (t - rest) == t * (-whole - 1)) by (nonlinear_arith)
            requires
                a - rest == t * whole,
        ;
        vstd::arithmetic::div_mod::lemma_mod_multiples_basic(-whole - 1, t);
        assert((-whole - 1) * t == t * (-whole - 1)) by (nonlinear_arith);
    } else if negative {
        assert(-a + rest == t * (-whole)) by (nonlinear_arith)
            requires
                a - rest == t * whole,
        ;
        vstd::arithmetic::div_mod::lemma_mod_multiples_basic(-whole, t);
        assert((-whole) * t == t * (-whole)) by (nonlinear_arith);
    } else {
        vstd::arithmetic::div_mod::lemma_mod_multiples_basic(whole, t);
        assert(whole * t == t * whole) by (nonlinear_arith);
    }
}

} // verus!
