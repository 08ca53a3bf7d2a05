//! What robots are told to turn, by the angles at which they face and at which
//! their targets lie.

use crate::arithmetic::finer;
use crate::motion::acceleration::{lemma_product_error, lemma_sum_error};
use crate::motion::angles::{half_turn_value, law_normalized_angle, lemma_turn_values, turn_value};
use crate::motion::bounds::{
    bounded, lemma_bounded_product, lemma_bounded_single, lemma_bounded_sum, lemma_loosen,
};
use crate::motion::commands::MotionCommand;
use crate::motion::geometry::size;
use crate::motion::{
    limited_omega, Motion, DIRECT_REACHED, DIRECT_TURN_GAIN, MAX_DIRECT_OMEGA, MAX_OMEGA,
    MIN_DIRECT_OMEGA, MIN_OMEGA, PATH_TURN_GAIN,
};
use crate::rounding::{lemma_steps_by_parts, lemma_steps_of_zero, Format, DOUBLE_RANGE};
use crate::scalar::{law_order_is_numeric, Scalar};
use crate::single::{law_widening_keeps_the_value, Single, Vec2};
use crate::world::RobotState;
use vstd::arithmetic::power2::{
    lemma2_to64, lemma2_to64_rest, lemma_pow2_adds, lemma_pow2_pos, lemma_pow2_strictly_increases,
    lemma_pow2_unfold, pow2,
};
use vstd::prelude::*;

verus! {

/// Whether an angle is another one up to whole turns, but for rounding of the
/// other: one part in 2^52 and a few of the smallest positive number.
pub open spec fn same_angle(angle: int, other: int) -> bool {
    exists|turns: int| #[trigger]
        size(other - angle - turns * turn_value()) <= size(other) / 0x10_0000_0000_0000 + 3
}

/// Whether an angle is the shorter way for a difference of angles: it is more
/// than half a turn backward and at most half a turn forward, and the same angle
/// as the difference.
pub open spec fn is_shorter_way(angle: int, difference: int) -> bool {
    -half_turn_value() < angle <= half_turn_value() && same_angle(angle, difference)
}

/// The way that a robot has to turn to face an angle is the shorter one.
pub proof fn law_turn_error_is_the_shorter_way(robot: RobotState, target_angle: Scalar)
    requires
        bounded(robot.orientation, 1200),
        bounded(target_angle, 1203),
    ensures
        Motion::angle_error(robot, target_angle).finite(),
        is_shorter_way(
            Motion::angle_error(robot, target_angle).value(),
            target_angle.value() - robot.orientation.value(),
        ),
        2 * half_turn_value() == turn_value() == (0x19_21fb_5444_2d18nat) * pow2(1024),
{
    let difference = target_angle.difference(robot.orientation);
    let back = opposite_of(robot.orientation);
    lemma_loosen(robot.orientation, 1200, 1203);
    lemma_bounded_sum(target_angle, robot.orientation, 1203);
    lemma_opposite(robot.orientation);
    assert(difference == target_angle.sum(back));
    lemma_sum_error(target_angle, back);
    law_normalized_angle(difference);
    lemma_turn_values();
    let t = turn_value();
    let error = Motion::angle_error(robot, target_angle).value();
    let exact = target_angle.value() - robot.orientation.value();
    let turns = (difference.value() - error) / t;
    vstd::arithmetic::div_mod::lemma_fundamental_div_mod(difference.value() - error, t);
    assert(t * turns == turns * t) by (nonlinear_arith);
    assert(size(exact - error - turns * t) <= size(exact) / 0x10_0000_0000_0000 + 3);
}

/// The number with the other sign.
spec fn opposite_of(a: Scalar) -> Scalar {
    Scalar::of(crate::arithmetic::opposite(a.number()))
}

/// A number with the other sign has the opposite value.
proof fn lemma_opposite(a: Scalar)
    ensures
        opposite_of(a).number() == crate::arithmetic::opposite(a.number()),
        opposite_of(a).value() == -a.value(),
        opposite_of(a).magnitude() == a.magnitude(),
{
}

/// Whether a turning speed is `num / den` times an angle, but for rounding, cut
/// to `cap` either way.
pub open spec fn turns_at(omega: Scalar, angle: int, num: nat, den: nat, cap: nat) -> bool {
    let top = (cap * Format::Double.one()) as int;
    let aim = num * angle;
    &&& omega.finite()
    &&& -top <= omega.value() <= top
    &&& size(omega.value()) < top ==> 0x10_0000_0000_0000 * size(den * omega.value() - aim) <= size(
        aim,
    ) + 0x40_0000_0000_0000 * den
    &&& omega.value() == top ==> 0x10_0000_0000_0000 * (den * top - aim) <= size(aim)
        + 0x40_0000_0000_0000 * den
    &&& omega.value() == -top ==> 0x10_0000_0000_0000 * (den * top + aim) <= size(aim)
        + 0x40_0000_0000_0000 * den
}

/// On a straight move that is not over, a robot turns the shorter way towards
/// the angle at which the target lies, at 1.5 times that angle, cut to 2 rad/s
/// either way.
pub proof fn law_direct_turn(robot: RobotState, target: Vec2, target_angle: Single)
    requires
        !target.from_point(robot.position).norm().less(Single { bits: DIRECT_REACHED }),
        bounded(robot.orientation, 1200),
        target_angle.finite(),
    ensures
        exists|angle: int| #[trigger]
            is_shorter_way(angle, target_angle.value() * finer() - robot.orientation.value())
                && turns_at(
                Motion::direct_command(robot, target, target_angle).omega,
                angle,
                3,
                2,
                2,
            ),
{
    let wide = target_angle.widened();
    law_widening_keeps_the_value(target_angle);
    lemma_bounded_single(target_angle);
    lemma_loosen(wide, 1202, 1203);
    law_turn_error_is_the_shorter_way(robot, wide);
    let error = Motion::angle_error(robot, wide);
    lemma_turn_limits();
    lemma_turns_at(
        error,
        Scalar { bits: DIRECT_TURN_GAIN },
        Scalar { bits: MIN_DIRECT_OMEGA },
        Scalar { bits: MAX_DIRECT_OMEGA },
        3,
        2,
        2,
    );
    assert(is_shorter_way(
        error.value(),
        target_angle.value() * finer() - robot.orientation.value(),
    ));
}

/// On a planned path a robot turns the shorter way towards the angle at which
/// the next point lies, at twice that angle, cut to 3 rad/s either way.
pub proof fn law_path_turn(robot: RobotState, path: Seq<Vec2>, target_angle: Single)
    requires
        path.len() > 1,
        bounded(robot.orientation, 1200),
        target_angle.finite(),
    ensures
        exists|angle: int| #[trigger]
            is_shorter_way(angle, target_angle.value() * finer() - robot.orientation.value())
                && turns_at(
                Motion::path_command(robot, path, target_angle).omega,
                angle,
                2,
                1,
                3,
            ),
{
    let wide = target_angle.widened();
    law_widening_keeps_the_value(target_angle);
    lemma_bounded_single(target_angle);
    lemma_loosen(wide, 1202, 1203);
    law_turn_error_is_the_shorter_way(robot, wide);
    let error = Motion::angle_error(robot, wide);
    lemma_turn_limits();
    lemma_turns_at(
        error,
        Scalar { bits: PATH_TURN_GAIN },
        Scalar { bits: MIN_OMEGA },
        Scalar { bits: MAX_OMEGA },
        2,
        1,
        3,
    );
    assert(is_shorter_way(
        error.value(),
        target_angle.value() * finer() - robot.orientation.value(),
    ));
}

/// A robot that turns on the spot does so at the speed that its controller asks
/// for, cut to 3 rad/s either way, and does not move. What is no number turns it
/// backward.
pub proof fn law_turn_on_the_spot(robot: RobotState, omega: Scalar)
    ensures
        ({
            let command = Motion::turn_command(robot, omega);
            let top = 3 * Format::Double.one();
            &&& command.vx.finite() && command.vx.value() == 0
            &&& command.vy.finite() && command.vy.value() == 0
            &&& command.omega.finite()
            &&& omega.finite() && -top <= omega.value() <= top ==> command.omega.value()
                == omega.value()
            &&& omega.finite() && omega.value() > top ==> command.omega.value() == top
            &&& omega.finite() && omega.value() < -top ==> command.omega.value() == -top
            &&& omega.nan() ==> command.omega.value() == -top
            &&& !omega.finite() && !omega.nan() && omega.number().negative
                ==> command.omega.value() == -top
            &&& !omega.finite() && !omega.nan() && !omega.number().negative
                ==> command.omega.value() == top
        }),
{
    lemma_turn_limits();
    lemma_steps_of_zero(Format::Double);
    let low = Scalar { bits: MIN_OMEGA };
    let high = Scalar { bits: MAX_OMEGA };
    if omega.finite() {
        law_order_is_numeric(omega, low);
        law_order_is_numeric(high, omega);
        law_order_is_numeric(high, low);
    }
}

/// The values of the gains and of the limits of turns.
proof fn lemma_turn_limits()
    ensures
        ({
            let one = Format::Double.one();
            &&& 2 * Format::Double.steps(DIRECT_TURN_GAIN as nat) == 3 * one
            &&& Format::Double.steps(PATH_TURN_GAIN as nat) == 2 * one
            &&& Format::Double.steps(MAX_DIRECT_OMEGA as nat) == 2 * one
            &&& Format::Double.steps(MAX_OMEGA as nat) == 3 * one
            &&& (Scalar { bits: MIN_DIRECT_OMEGA }).value() == -2 * one
            &&& (Scalar { bits: MIN_OMEGA }).value() == -3 * one
        }),
{
    let f = Format::Double;
    let range = DOUBLE_RANGE as nat;
    lemma2_to64();
    lemma2_to64_rest();
    lemma_steps_by_parts(f, 0x3ff8_0000_0000_0000);
    assert(0x3ff8_0000_0000_0000nat / range == 1023 && 0x3ff8_0000_0000_0000nat % range
        == 0x8_0000_0000_0000);
    lemma_steps_by_parts(f, 0x4000_0000_0000_0000);
    assert(0x4000_0000_0000_0000nat / range == 1024 && 0x4000_0000_0000_0000nat % range == 0);
    lemma_steps_by_parts(f, 0x4008_0000_0000_0000);
    assert(0x4008_0000_0000_0000nat / range == 1024 && 0x4008_0000_0000_0000nat % range
        == 0x8_0000_0000_0000);
    let p = pow2(1022);
    lemma_pow2_adds(1022, 1);
    lemma_pow2_adds(1022, 52);
    assert(f.steps(0x3ff8_0000_0000_0000) == 0x18_0000_0000_0000 * p);
    assert(f.steps(0x4000_0000_0000_0000) == 0x10_0000_0000_0000 * pow2(1023));
    assert(f.steps(0x4008_0000_0000_0000) == 0x18_0000_0000_0000 * pow2(1023));
}

/// The turning speed for an angle within half a turn.
proof fn lemma_turns_at(
    error: Scalar,
    gain: Scalar,
    low: Scalar,
    high: Scalar,
    num: nat,
    den: nat,
    cap: nat,
)
    requires
        error.finite(),
        -half_turn_value() < error.value() <= half_turn_value(),
        gain.finite(),
        den * gain.value() == num * Format::Double.one(),
        0 <= gain.value() <= 2 * Format::Double.one(),
        high.finite(),
        low.finite(),
        high.value() == cap * Format::Double.one(),
        low.value() == -(cap * Format::Double.one()),
        0 < den <= 2,
        cap > 0,
    ensures
        turns_at(limited_omega(error.product(gain), low, high), error.value(), num, den, cap),
{
    let f = Format::Double;
    let o = f.one() as int;
    lemma_pow2_pos(1074);
    lemma_steps_of_zero(f);
    lemma_turn_values();
    lemma2_to64();
    lemma2_to64_rest();
    lemma_pow2_adds(53, 1023);
    lemma_pow2_unfold(1075);
    lemma_pow2_strictly_increases(1075, 1076);
    assert(half_turn_value() <= pow2(1076)) by {
        assert(0x19_21fb_5444_2d18nat * pow2(1023) <= 0x20_0000_0000_0000nat * pow2(1023));
    }
    assert(bounded(error, 1076));
    assert(bounded(gain, 1076));
    lemma_bounded_product(error, gain, 1076, 1076);
    lemma_product_error(error, gain);
    let p = error.product(gain);
    let e = error.value();
    let g = gain.value();
    let eg = e * g;
    // den * (o * p - e * g) == o * (den * p - num * e)
    let v = den * p.value() - num * e;
    assert(den * (o * p.value() - eg) == o * v) by (nonlinear_arith)
        requires
            den * g == num * o,
            eg == e * g,
            v == den * p.value() - num * e,
    ;
    assert(den * eg == o * (num * e)) by (nonlinear_arith)
        requires
            den * g == num * o,
            eg == e * g,
    ;
    let (a, b, c) = (size(o * p.value() - eg), size(eg), size(num * e));
    assert(den * a == o * size(v)) by (nonlinear_arith)
        requires
            a == size(o * p.value() - eg),
            den * (o * p.value() - eg) == o * v,
            o > 0,
            den > 0,
    ;
    assert(den * b == o * c) by (nonlinear_arith)
        requires
            b == size(eg),
            c == size(num * e),
            den * eg == o * (num * e),
            o > 0,
            den > 0,
    ;
    let w = size(v);
    assert(0x10_0000_0000_0000 * w <= c + 0x20_0000_0000_0000 * den) by (nonlinear_arith)
        requires
            0x10_0000_0000_0000 * a <= b + 0x20_0000_0000_0000 * o,
            den * a == o * w,
            den * b == o * c,
            o > 0,
            den > 0,
    ;
    law_order_is_numeric(p, low);
    law_order_is_numeric(high, p);
    law_order_is_numeric(high, low);
    let top = cap * o;
    assert(top > 0) by (nonlinear_arith)
        requires
            top == cap * o,
            cap > 0,
            o > 0,
    ;
    let omega = limited_omega(p, low, high);
    assert(omega.value() == p.value() || (omega.value() == top && p.value() > top) || (
    omega.value() == -top && p.value() < -top));
    assert(p.value() >= top ==> den * p.value() >= den * top) by (nonlinear_arith)
        requires
            den > 0,
    ;
    assert(p.value() <= -top ==> den * p.value() <= -(den * top)) by (nonlinear_arith)
        requires
            den > 0,
    ;
}

/// A turn is added to a planned path: the robot moves as the path leads it,
/// whatever its turn, and turns as it would on the spot, wherever the path leads
/// and also where it has no next point.
pub proof fn law_turn_is_added_to_a_path(
    robot: RobotState,
    path: Seq<Vec2>,
    path_angle: Single,
    omega: Scalar,
)
    ensures
        ({
            let command = Motion::turning_path_command(robot, path, path_angle, omega);
            let moved = Motion::path_command(robot, path, path_angle);
            let turned = Motion::turn_command(robot, omega);
            let top = 3 * Format::Double.one();
            &&& command == (MotionCommand { omega: command.omega, ..moved })
            &&& command == (MotionCommand { vx: command.vx, vy: command.vy, ..turned })
            &&& omega.finite() && -top <= omega.value() <= top ==> command.omega.value()
                == omega.value()
            &&& path.len() <= 1 ==> command.vx.value() == 0 && command.vy.value() == 0
        }),
{
    law_turn_on_the_spot(robot, omega);
    lemma_steps_of_zero(Format::Double);
}

} // verus!
