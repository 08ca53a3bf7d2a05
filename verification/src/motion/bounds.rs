//! What holds of the velocities that robots are told to take, with all rounding
//! taken into account.

use crate::arithmetic::{finer, law_short_number_is_exact, Number};
use crate::motion::bang_bang::{BangBangController, Vec2F64, NEAR_GAIN, NO_LENGTH, TWO};
use crate::motion::limits::{
    law_shortened_vector_is_within, lemma_root_is_small, lemma_root_squared,
    lemma_shortened_is_smaller, lemma_step, square_of, within,
};
use crate::motion::{Motion, MAX_CONTROL_SPEED};
use crate::rounding::{
    law_every_number_is_rounded, law_every_root_is_rounded, law_rounding_keeps_order,
    law_value_is_kept, lemma_small_is_zero, lemma_steps_by_parts, lemma_steps_increase,
    lemma_steps_of_zero, Format, DOUBLE_RANGE,
};
use crate::scalar::Scalar;
use crate::single::{law_widening_keeps_the_value, Single, Vec2};
use crate::world::RobotState;
use vstd::arithmetic::power2::{
    lemma2_to64, lemma2_to64_rest, lemma_pow2_adds, lemma_pow2_pos, lemma_pow2_strictly_increases,
    lemma_pow2_unfold, pow2,
};
use vstd::prelude::*;

verus! {

/// Whether a number is finite and at most `2^n` times the smallest positive
/// one.
pub open spec fn bounded(a: Scalar, n: nat) -> bool {
    a.finite() && Format::Double.steps(a.magnitude()) <= pow2(n)
}

/// A larger bound holds too.
pub(crate) proof fn lemma_loosen(a: Scalar, n: nat, m: nat)
    requires
        bounded(a, n),
        n <= m,
    ensures
        bounded(a, m),
{
    if n < m {
        lemma_pow2_strictly_increases(n, m);
    }
}

/// A number up to a power of two is rounded to a number up to it.
pub(crate) proof fn lemma_bounded_rounding(num: nat, den: nat, n: nat)
    requires
        den > 0,
        num <= den * pow2(n),
        n <= 1990,
    ensures
        Format::Double.nearest(num, den) < Format::Double.infinity(),
        Format::Double.steps(Format::Double.nearest(num, den)) <= pow2(n),
{
    let f = Format::Double;
    law_short_number_is_exact(f, 1, n);
    assert(1 * pow2(n) == pow2(n));
    let top = f.nearest(pow2(n), 1);
    law_value_is_kept(f, top, den);
    assert(pow2(n) * den == den * pow2(n)) by (nonlinear_arith);
    law_rounding_keeps_order(f, num, den * pow2(n), den);
    let m = f.nearest(num, den);
    if m < top {
        lemma_steps_increase(f, m, top);
    }
}

/// The bound of a product.
pub(crate) proof fn lemma_bounded_product(a: Scalar, b: Scalar, i: nat, j: nat)
    requires
        bounded(a, i),
        bounded(b, j),
        1074 <= i + j <= 1990 + 1074,
    ensures
        bounded(a.product(b), (i + j - 1074) as nat),
        a.product(b).number().negative == (a.number().negative != b.number().negative),
{
    let f = Format::Double;
    let o = f.one();
    let x = f.steps(a.magnitude());
    let y = f.steps(b.magnitude());
    let n = (i + j - 1074) as nat;
    lemma_pow2_pos(1074);
    lemma_pow2_adds(i, j);
    lemma_pow2_adds(1074, n);
    assert(x * y <= pow2(i) * pow2(j)) by (nonlinear_arith)
        requires
            x <= pow2(i),
            y <= pow2(j),
    ;
    lemma_bounded_rounding(x * y, o, n);
}

/// The bound of a sum and of a difference.
pub(crate) proof fn lemma_bounded_sum(a: Scalar, b: Scalar, n: nat)
    requires
        bounded(a, n),
        bounded(b, n),
        n < 1990,
    ensures
        bounded(a.sum(b), n + 1),
        bounded(a.difference(b), n + 1),
        a.value() + b.value() >= 0 && !a.number().negative ==> !a.sum(b).number().negative,
{
    let f = Format::Double;
    let x = f.steps(a.magnitude());
    let y = f.steps(b.magnitude());
    lemma_pow2_unfold(n + 1);
    lemma_steps_of_zero(f);
    lemma_pow2_pos(n + 1);
    assert forall|v: nat| v <= x + y implies #[trigger] f.nearest(v, 1) < f.infinity() && f.steps(
        f.nearest(v, 1),
    ) <= pow2(n + 1) by {
        assert(1 * pow2(n + 1) == pow2(n + 1));
        lemma_bounded_rounding(v, 1, n + 1);
    }
    let s = a.value() + b.value();
    let d = a.value() - b.value();
    let sn = (if s < 0 {
        -s
    } else {
        s
    }) as nat;
    let dn = (if d < 0 {
        -d
    } else {
        d
    }) as nat;
    assert(f.nearest(sn, 1) < f.infinity());
    assert(f.nearest(dn, 1) < f.infinity());
}

/// The bound of a quotient.
proof fn lemma_bounded_quotient(a: Scalar, b: Scalar, i: nat, j: nat)
    requires
        bounded(a, i),
        b.finite(),
        pow2(j) <= Format::Double.steps(b.magnitude()),
        j <= i + 1074 <= 1990 + j,
    ensures
        bounded(a.quotient(b), (i + 1074 - j) as nat),
{
    let f = Format::Double;
    let o = f.one();
    let x = f.steps(a.magnitude());
    let y = f.steps(b.magnitude());
    let n = (i + 1074 - j) as nat;
    lemma_pow2_pos(j);
    lemma_pow2_adds(i, 1074);
    lemma_pow2_adds(j, n);
    lemma_steps_of_zero(f);
    assert(x * o <= y * pow2(n)) by (nonlinear_arith)
        requires
            x <= pow2(i),
            pow2(j) <= y,
            pow2(i) * o == pow2(j) * pow2(n),
    ;
    lemma_bounded_rounding(x * o, y, n);
}

/// The bound of a length. A length is not negative.
pub(crate) proof fn lemma_bounded_norm(v: Vec2F64, i: nat)
    requires
        bounded(v.x, i),
        bounded(v.y, i),
        1074 <= i <= 1400,
    ensures
        bounded(v.norm(), i + 2),
        !v.norm().number().negative,
{
    let f = Format::Double;
    let o = f.one();
    let n = (i + i - 1074) as nat;
    lemma_bounded_product(v.x, v.x, i, i);
    lemma_bounded_product(v.y, v.y, i, i);
    let px = v.x.product(v.x);
    let py = v.y.product(v.y);
    lemma_bounded_sum(px, py, n);
    let sum = px.sum(py);
    lemma_steps_of_zero(f);
    assert(!sum.number().negative);
    lemma_pow2_pos(i + 2);
    if sum.magnitude() > 0 {
        let z = f.steps(sum.magnitude());
        let m = f.nearest_root(z * o);
        law_every_root_is_rounded(f, z * o);
        lemma_pow2_adds(1024, 1074);
        lemma_pow2_strictly_increases(n + 1, 2098);
        lemma_root_is_small(m, z, z * o);
        lemma_root_squared(m, z * o);
        let s = f.steps(m);
        let bound = pow2(i + 2);
        lemma_pow2_adds(i + 2, i + 2);
        lemma_pow2_adds(n + 1, 1074);
        lemma_pow2_adds(2, n + 1 + 1074);
        lemma2_to64();
        lemma_pow2_strictly_increases(2 + n + 1 + 1074, 2 * i + 4);
        assert(z * o <= pow2(n + 1) * o) by (nonlinear_arith)
            requires
                z <= pow2(n + 1),
        ;
        assert(s <= bound) by (nonlinear_arith)
            requires
                s * s < bound * bound,
        ;
        assert(v.norm().number() == Number { negative: false, magnitude: m as u64 });
    } else {
        assert(v.norm() == sum);
    }
}

/// The bound of a widened number.
pub(crate) proof fn lemma_bounded_single(a: Single)
    requires
        a.finite(),
    ensures
        bounded(a.widened(), 1202),
{
    let f = Format::Single;
    let m = a.magnitude();
    law_widening_keeps_the_value(a);
    let x = f.steps(m);
    assert(Format::Double.steps(a.widened().magnitude()) == x * finer()) by {
        let v = x as int;
        assert((-v) * finer() == -(v * finer())) by (nonlinear_arith);
        assert(x * finer() >= 0) by (nonlinear_arith);
    }
    lemma_steps_increase(f, m, f.infinity() as nat);
    assert(f.steps(f.infinity() as nat) == pow2(277)) by {
        lemma_single_top();
        lemma2_to64();
        lemma_pow2_adds(23, 254);
    }
    lemma_pow2_adds(277, 925);
    assert(x * finer() <= pow2(277) * finer()) by (nonlinear_arith)
        requires
            x <= pow2(277),
    ;
}

/// The bound of a direction.
pub(crate) proof fn lemma_bounded_unit(v: Vec2F64, i: nat)
    requires
        bounded(v.x, i),
        bounded(v.y, i),
        1074 <= i <= 1400,
    ensures
        bounded(v.unit().x, i + 10),
        bounded(v.unit().y, i + 10),
{
    let f = Format::Double;
    let none = Scalar { bits: NO_LENGTH };
    let norm = v.norm();
    lemma_bounded_norm(v, i);
    if none.less(norm) {
        let range = DOUBLE_RANGE as nat;
        lemma_steps_increase(f, NO_LENGTH as nat, norm.magnitude());
        lemma_steps_by_parts(f, NO_LENGTH as nat);
        assert((NO_LENGTH as nat) / range == 1013);
        lemma2_to64();
        lemma2_to64_rest();
        lemma_pow2_adds(52, 1012);
        let fraction = (NO_LENGTH as nat) % range;
        assert((range + fraction) * pow2(1012) >= range * pow2(1012)) by (nonlinear_arith);
        lemma_bounded_quotient(v.x, norm, i, 1064);
        lemma_bounded_quotient(v.y, norm, i, 1064);
    } else {
        lemma_steps_of_zero(f);
        lemma_pow2_pos(i + 10);
    }
}

/// A number that is not negative and not above another has a magnitude that is
/// not above.
proof fn lemma_between(a: Scalar, b: Scalar, n: nat)
    requires
        !a.nan(),
        !a.number().negative || a.magnitude() == 0,
        !b.less(a),
        bounded(b, n),
        !b.number().negative || b.magnitude() == 0,
    ensures
        bounded(a, n),
{
    if a.magnitude() < b.magnitude() {
        lemma_steps_increase(Format::Double, a.magnitude(), b.magnitude());
    }
}

/// A square root is not negative.
proof fn lemma_root_is_not_negative(a: Scalar)
    ensures
        a.square_root().nan() || !a.square_root().number().negative || a.square_root().magnitude()
            == 0,
{
    let f = Format::Double;
    law_every_root_is_rounded(f, f.steps(a.magnitude()) * f.one());
}

/// The bound of the speed to aim for.
proof fn lemma_bounded_speed(
    controller: BangBangController,
    distance: Scalar,
    current_speed: Scalar,
    dt: Scalar,
    n: nat,
)
    requires
        bounded(distance, 1205),
        bounded(current_speed, 1204),
        !current_speed.number().negative,
        Scalar::zero().at_most(controller.velocity_limit()),
        bounded(controller.velocity_limit(), n),
        n >= 1207,
        controller.acceleration_limit().finite(),
        Scalar::zero().at_most(controller.acceleration_limit()),
        dt.finite(),
        Scalar::zero().at_most(dt),
    ensures
        bounded(controller.desired_speed(distance, current_speed, dt), n),
{
    let f = Format::Double;
    let limit = controller.velocity_limit();
    let speed = controller.desired_speed(distance, current_speed, dt);
    lemma_steps_of_zero(f);
    lemma_pow2_pos(n);
    lemma_loosen(current_speed, 1204, n);
    let braking = controller.braking_speed(distance);
    lemma_root_is_not_negative(
        (Scalar { bits: TWO }).product(controller.acceleration_limit()).product(distance),
    );
    if !braking.nan() && !current_speed.less(braking) {
        lemma_between(braking, current_speed, n);
    }
    let gain = Scalar { bits: NEAR_GAIN };
    assert(bounded(gain, 1076)) by {
        let range = DOUBLE_RANGE as nat;
        lemma_steps_by_parts(f, NEAR_GAIN as nat);
        assert((NEAR_GAIN as nat) / range == 1025 && (NEAR_GAIN as nat) % range == 0);
        lemma2_to64();
        lemma2_to64_rest();
        lemma_pow2_adds(52, 1024);
    }
    lemma_bounded_product(distance, gain, 1205, 1076);
    lemma_loosen(distance.product(gain), 1207, n);
    let gained = controller.acceleration_limit().product(dt);
    lemma_product_is_not_negative(controller.acceleration_limit(), dt);
    let faster = current_speed.sum(gained);
    lemma_sum_is_not_negative(current_speed, gained);
    if !faster.nan() && !limit.less(faster) {
        lemma_between(faster, limit, n);
    }
}

/// The product of two numbers that are not negative is not negative.
pub(crate) proof fn lemma_product_is_not_negative(a: Scalar, b: Scalar)
    requires
        a.finite(),
        b.finite(),
        Scalar::zero().at_most(a),
        Scalar::zero().at_most(b),
    ensures
        !a.product(b).nan(),
        !a.product(b).number().negative || a.product(b).magnitude() == 0,
{
    let f = Format::Double;
    let x = f.steps(a.magnitude());
    let y = f.steps(b.magnitude());
    lemma_pow2_pos(1074);
    law_every_number_is_rounded(f, x * y, f.one());
    lemma_steps_of_zero(f);
    if a.magnitude() == 0 || b.magnitude() == 0 {
        assert(x * y == 0) by (nonlinear_arith)
            requires
                x == 0 || y == 0,
        ;
        lemma_small_is_zero(f, 0, f.one());
    }
}

/// The sum of two numbers that are not negative is not negative.
proof fn lemma_sum_is_not_negative(a: Scalar, b: Scalar)
    requires
        a.finite(),
        !a.number().negative,
        !b.nan(),
        !b.number().negative || b.magnitude() == 0,
    ensures
        !a.sum(b).number().negative,
{
    let f = Format::Double;
    lemma_steps_of_zero(f);
    if b.finite() {
        law_every_number_is_rounded(f, (a.value() + b.value()) as nat, 1);
    }
}

/// Whether both parts of a vector are finite.
pub open spec fn is_finite(v: Vec2) -> bool {
    v.x.finite() && v.y.finite()
}

/// The velocity that a controller comes to is bounded, before it is scaled to
/// the largest speed, and so is the change to it.
pub(crate) proof fn lemma_accelerated_is_bounded(
    controller: BangBangController,
    way: Vec2F64,
    current: Vec2F64,
    dt: Scalar,
)
    requires
        bounded(way.x, 1203),
        bounded(way.y, 1203),
        bounded(current.x, 1202),
        bounded(current.y, 1202),
        Scalar::zero().at_most(controller.velocity_limit()),
        bounded(controller.velocity_limit(), 1207),
        controller.acceleration_limit().finite(),
        Scalar::zero().at_most(controller.acceleration_limit()),
        dt.finite(),
        Scalar::zero().at_most(dt),
    ensures
        ({
            let change = controller.desired_velocity(way, current.norm(), dt).difference(current);
            bounded(change.x, 1347) && bounded(change.y, 1347)
        }),
        ({
            let unit = way.unit();
            let desired = controller.desired_velocity(way, current.norm(), dt);
            &&& bounded(unit.x, 1213) && bounded(unit.y, 1213)
            &&& bounded(desired.x, 1346) && bounded(desired.y, 1346)
            &&& bounded(controller.desired_speed(way.norm(), current.norm(), dt), 1207)
        }),
        bounded(controller.accelerated(way, current, dt).x, 1348),
        bounded(controller.accelerated(way, current, dt).y, 1348),
{
    let f = Format::Double;
    lemma_bounded_norm(way, 1203);
    lemma_bounded_norm(current, 1202);
    lemma_bounded_unit(way, 1203);
    let speed = controller.desired_speed(way.norm(), current.norm(), dt);
    lemma_bounded_speed(controller, way.norm(), current.norm(), dt, 1207);
    lemma_bounded_product(way.unit().x, speed, 1213, 1207);
    lemma_bounded_product(way.unit().y, speed, 1213, 1207);
    let desired = controller.desired_velocity(way, current.norm(), dt);
    lemma_loosen(current.x, 1202, 1346);
    lemma_loosen(current.y, 1202, 1346);
    lemma_bounded_sum(desired.x, current.x, 1346);
    lemma_bounded_sum(desired.y, current.y, 1346);
    let change = desired.difference(current);
    let most = controller.acceleration_limit().product(dt);
    lemma_product_is_not_negative(controller.acceleration_limit(), dt);
    lemma_shortened_is_smaller(change, most);
    let limited = controller.limited_change(change, dt);
    if limited.x.magnitude() < change.x.magnitude() {
        lemma_steps_increase(f, limited.x.magnitude(), change.x.magnitude());
    }
    if limited.y.magnitude() < change.y.magnitude() {
        lemma_steps_increase(f, limited.y.magnitude(), change.y.magnitude());
    }
    lemma_loosen(current.x, 1202, 1347);
    lemma_loosen(current.y, 1202, 1347);
    lemma_bounded_sum(current.x, limited.x, 1347);
    lemma_bounded_sum(current.y, limited.y, 1347);
}

/// The largest single, as a double.
pub const LARGEST_SINGLE: u64 = 0x47ef_ffff_e000_0000;

/// The square of a single, in the square of the smallest positive double.
pub open spec fn square_of_single(a: Single) -> nat {
    let wide = Format::Single.steps(a.magnitude()) * finer();
    wide * wide
}

/// How much a length in single precision can be over a limit: one part in 2^20
/// of its square, and 2^25 times the square of the smallest positive single.
pub open spec fn within_single(ww: nat, ll: nat) -> bool {
    0x10_0000 * ww <= 0x10_0001 * ll + 0x2000_0000_0000 * (finer() * finer())
}

/// A controller never takes a velocity above its largest speed, but for
/// rounding, whatever the positions, the velocity so far and the length of the
/// step. The largest speed is one that single precision can hold.
pub proof fn law_velocity_is_limited(
    controller: BangBangController,
    current_pos: Vec2,
    target_pos: Vec2,
    current_vel: Vec2,
    dt: Scalar,
)
    requires
        is_finite(current_pos),
        is_finite(target_pos),
        is_finite(current_vel),
        dt.finite(),
        Scalar::zero().at_most(dt),
        controller.acceleration_limit().finite(),
        Scalar::zero().at_most(controller.acceleration_limit()),
        Scalar::zero().at_most(controller.velocity_limit()),
        controller.velocity_limit().at_most(Scalar { bits: LARGEST_SINGLE }),
    ensures
        is_finite(controller.next_velocity(current_pos, target_pos, current_vel, dt)),
        ({
            let next = controller.next_velocity(current_pos, target_pos, current_vel, dt);
            within_single(
                square_of_single(next.x) + square_of_single(next.y),
                square_of(controller.velocity_limit()),
            )
        }),
{
    let way = Vec2F64::of(target_pos).difference(Vec2F64::of(current_pos));
    let current = Vec2F64::of(current_vel);
    lemma_bounded_single(target_pos.x);
    lemma_bounded_single(target_pos.y);
    lemma_bounded_single(current_pos.x);
    lemma_bounded_single(current_pos.y);
    lemma_bounded_single(current_vel.x);
    lemma_bounded_single(current_vel.y);
    lemma_bounded_sum(target_pos.x.widened(), current_pos.x.widened(), 1202);
    lemma_bounded_sum(target_pos.y.widened(), current_pos.y.widened(), 1202);
    let limit = controller.velocity_limit();
    lemma_largest_single(limit);
    lemma_loosen(limit, 1202, 1207);
    lemma_accelerated_is_bounded(controller, way, current, dt);
    let reached = controller.accelerated(way, current, dt);
    law_shortened_vector_is_within(reached, limit);
    if BangBangController::reached(way.norm()) {
        lemma_steps_of_zero(Format::Single);
        assert(0 * finer() == 0) by (nonlinear_arith);
        assert(finer() * finer() >= 0) by (nonlinear_arith);
        assert(square_of_single(Single { bits: 0 }) == 0) by (nonlinear_arith)
            requires
                square_of_single(Single { bits: 0 }) == (Format::Single.steps(0) * finer()) * (
                Format::Single.steps(0) * finer()),
                Format::Single.steps(0) == 0,
        ;
    } else {
        let w = controller.capped(reached);
        lemma_narrowing_is_within(w.x, w.y, limit);
    }
}

/// A change of velocity that is scaled to what the acceleration allows in a
/// step is no more than that, but for rounding. This speaks of the change alone,
/// before it is added to the velocity so far.
pub proof fn law_change_is_limited(controller: BangBangController, change: Vec2F64, dt: Scalar)
    requires
        change.x.finite(),
        change.y.finite(),
        controller.acceleration_limit().product(dt).finite(),
        Scalar::zero().at_most(controller.acceleration_limit().product(dt)),
    ensures
        ({
            let limited = controller.limited_change(change, dt);
            within(
                square_of(limited.x) + square_of(limited.y),
                square_of(controller.acceleration_limit().product(dt)),
                Format::Double.one(),
            )
        }),
{
    law_shortened_vector_is_within(change, controller.acceleration_limit().product(dt));
}

/// Under control in x and y a robot is never told to move faster than 1.5 m/s,
/// but for rounding.
pub proof fn law_controlled_speed_is_limited(robot: RobotState, vx: Scalar, vy: Scalar)
    requires
        vx.finite(),
        vy.finite(),
    ensures
        ({
            let command = Motion::controlled_command(robot, vx, vy);
            within(
                square_of(command.vx) + square_of(command.vy),
                square_of(Scalar { bits: MAX_CONTROL_SPEED }),
                Format::Double.one(),
            )
        }),
{
    law_shortened_vector_is_within(
        Vec2F64 { x: vx, y: vy },
        Scalar { bits: MAX_CONTROL_SPEED },
    );
}

/// What single precision can hold is below 2^128.
pub(crate) proof fn lemma_largest_single(limit: Scalar)
    requires
        Scalar::zero().at_most(limit),
        limit.at_most(Scalar { bits: LARGEST_SINGLE }),
    ensures
        bounded(limit, 1202),
        Format::Double.steps(limit.magnitude()) <= 0xff_ffff * pow2(1178),
{
    let f = Format::Double;
    let range = DOUBLE_RANGE as nat;
    let top = LARGEST_SINGLE as nat;
    lemma_steps_by_parts(f, top);
    assert(top / range == 1150 && top % range == 0xf_ffff_e000_0000);
    lemma2_to64();
    lemma_pow2_adds(29, 1149);
    let p = pow2(1149);
    assert(0x1f_ffff_e000_0000 * p == 0xff_ffff * (0x2000_0000 * p)) by (nonlinear_arith);
    assert(f.steps(top) == 0xff_ffff * pow2(1178));
    if limit.magnitude() < top {
        lemma_steps_increase(f, limit.magnitude(), top);
    }
    lemma_pow2_adds(24, 1178);
}

/// One part of a vector within a limit, rounded to single precision.
proof fn lemma_narrow_part(x: Scalar, other: nat, limit: Scalar)
    requires
        x.finite(),
        within(square_of(x) + other, square_of(limit), Format::Double.one()),
        Format::Double.steps(limit.magnitude()) <= 0xff_ffff * pow2(1178),
    ensures
        Single::narrowed(x).finite(),
        // e^2 k r^2 <= f^2 ((k + 1) x^2 + k (k + 1) t^2)
        0x4000_0000_0000 * (0x20_0000 * square_of_single(Single::narrowed(x))) <= 0x4000_0100_0001
            * (0x20_0001 * square_of(x) + 0x20_0000 * (0x20_0001 * (finer() * finer()))),
{
    let single = Format::Single;
    let t = finer();
    let a = Format::Double.steps(x.magnitude());
    let m = single.nearest(a, t);
    lemma_pow2_pos(925);
    law_every_number_is_rounded(single, a, t);
    lemma_narrow_is_finite(a, Format::Double.steps(limit.magnitude()), other);
    let s = single.steps(m);
    assert(Single::narrowed(x).magnitude() == m);
    lemma_narrowing_error(m, a);
    let r = s * t;
    let left = 0x80_0000 * r;
    let right = 0x80_0001 * (a + t);
    assert(left * left <= right * right) by (nonlinear_arith)
        requires
            left <= right,
    ;
    assert(left * left == 0x4000_0000_0000 * (r * r)) by (nonlinear_arith)
        requires
            left == 0x80_0000 * r,
    ;
    let sum = (a + t) * (a + t);
    assert(right * right == 0x4000_0100_0001 * sum) by (nonlinear_arith)
        requires
            right == 0x80_0001 * (a + t),
            sum == (a + t) * (a + t),
    ;
    let d = a - 0x20_0000 * t;
    let (aa, tt, at) = (a * a, t * t, a * t);
    assert(d * d >= 0) by (nonlinear_arith);
    assert(d * d == aa - 2 * (0x20_0000 * at) + 0x20_0000 * (0x20_0000 * tt)) by (nonlinear_arith)
        requires
            d == a - 0x20_0000 * t,
            aa == a * a,
            tt == t * t,
            at == a * t,
    ;
    assert(sum == aa + 2 * at + tt) by (nonlinear_arith)
        requires
            sum == (a + t) * (a + t),
            aa == a * a,
            tt == t * t,
            at == a * t,
    ;
}

/// How far a number that is rounded to single precision can be from the exact
/// one.
pub(crate) proof fn lemma_narrowing_error(m: nat, a: nat)
    requires
        m < Format::Single.infinity(),
        Format::Single.rounded(m, a, finer()),
    ensures
        0x80_0000 * (Format::Single.steps(m) * finer()) <= 0x80_0001 * (a + finer()),
{
    let single = Format::Single;
    let t = finer();
    let s = single.steps(m);
    let r = s * t;
    if m > 0 {
        lemma_step(single, (m - 1) as nat);
        let below = single.below(m);
        let step = s - single.steps((m - 1) as nat);
        assert(0x80_0000 * step == step * single.range()) by (nonlinear_arith)
            requires
                single.range() == 0x80_0000,
        ;
        assert(2 * (0x80_0000 * s) <= 0x80_0000 * below + s + 0x80_0000);
        assert(2 * (0x80_0000 * r) <= 0x80_0000 * (t * below) + r + 0x80_0000 * t)
            by (nonlinear_arith)
            requires
                2 * (0x80_0000 * s) <= 0x80_0000 * below + s + 0x80_0000,
                r == s * t,
        ;
    } else {
        lemma_steps_of_zero(single);
        assert(r == 0) by (nonlinear_arith)
            requires
                r == s * t,
                s == 0,
        ;
    }
}

/// How far below the exact number one that is rounded to single precision can
/// be.
pub(crate) proof fn lemma_narrowing_deficit(m: nat, a: nat)
    requires
        m < Format::Single.infinity(),
        Format::Single.rounded(m, a, finer()),
    ensures
        0x80_0000 * (a - Format::Single.steps(m) * finer()) <= a + 0x80_0000 * finer(),
{
    let single = Format::Single;
    let t = finer();
    let s = single.steps(m);
    let r = s * t;
    lemma_step(single, m);
    let above = single.above(m);
    let step = single.steps(m + 1) - s;
    assert(0x80_0000 * step == step * single.range()) by (nonlinear_arith)
        requires
            single.range() == 0x80_0000,
    ;
    assert(0x80_0000 * above <= 2 * (0x80_0000 * s) + s + 0x80_0000);
    assert(0x80_0000 * (t * above) <= 2 * (0x80_0000 * r) + r + 0x80_0000 * t) by (nonlinear_arith)
        requires
            0x80_0000 * above <= 2 * (0x80_0000 * s) + s + 0x80_0000,
            r == s * t,
    ;
}

/// The values of the largest single and of the power of two above all singles.
proof fn lemma_single_top()
    ensures
        Format::Single.steps(0x7f80_0000) == 0x80_0000 * pow2(254),
        Format::Single.steps(0x7f7f_ffff) == 0xff_ffff * pow2(253),
{
    lemma_steps_by_parts(Format::Single, 0x7f80_0000);
    lemma_steps_by_parts(Format::Single, 0x7f7f_ffff);
    assert(0x7f80_0000nat / 0x80_0000nat == 255 && 0x7f80_0000nat % 0x80_0000nat == 0);
    assert(0x7f7f_ffffnat / 0x80_0000nat == 254 && 0x7f7f_ffffnat % 0x80_0000nat == 0x7f_ffff);
}

/// A number within the limit of single precision is less than half a step above
/// the largest single.
proof fn lemma_below_half_a_step(aa: nat, ll: nat, o: nat, pp: nat)
    requires
        pp > 0,
        0x100_0000_0000 * aa <= 0x100_0000_0001 * ll + 0x4_0000_0000_0000_0000_0000_0000_0000 * o,
        ll <= 0xffff_fe00_0001 * pp,
        0x10_0000_0000_0000_0000_0000_0000_0000 * o <= pp,
    ensures
        4 * aa < 0x3_ffff_fc00_0001 * pp,
{
}

/// A number within a limit that single precision can hold is not rounded to
/// infinity.
proof fn lemma_narrow_is_finite(a: nat, l: nat, other: nat)
    requires
        within(a * a + other, l * l, Format::Double.one()),
        l <= 0xff_ffff * pow2(1178),
        Format::Single.rounded(Format::Single.nearest(a, finer()), a, finer()),
    ensures
        Format::Single.nearest(a, finer()) < Format::Single.infinity(),
{
    let single = Format::Single;
    let t = finer();
    let m = single.nearest(a, t);
    let p = pow2(1178);
    if m == single.infinity() {
        lemma2_to64();
        lemma_single_top();
        let q = pow2(253);
        lemma_pow2_unfold(254);
        assert(single.below(m) == 0x1ff_ffff * q);
        lemma_pow2_adds(253, 925);
        assert(t * (0x1ff_ffff * q) == 0x1ff_ffff * p) by (nonlinear_arith)
            requires
                p == q * t,
        ;
        let pp = p * p;
        let left = 2 * a;
        let right = 0x1ff_ffff * p;
        assert(right * right <= left * left) by (nonlinear_arith)
            requires
                right <= left,
        ;
        assert(right * right == 0x3_ffff_fc00_0001 * pp) by (nonlinear_arith)
            requires
                right == 0x1ff_ffff * p,
                pp == p * p,
        ;
        assert(left * left == 4 * (a * a)) by (nonlinear_arith)
            requires
                left == 2 * a,
        ;
        assert(l * l <= 0xffff_fe00_0001 * pp) by (nonlinear_arith)
            requires
                l <= 0xff_ffff * p,
                pp == p * p,
        ;
        lemma_pow2_adds(1178, 1178);
        lemma_pow2_adds(116, 1074);
        lemma_pow2_adds(58, 58);
        lemma2_to64_rest();
        lemma_pow2_strictly_increases(1190, 2356);
        let o = Format::Double.one();
        assert(0x10_0000_0000_0000_0000_0000_0000_0000 * o <= pp);
        let (aa, ll) = (a * a, l * l);
        assert(0x3_ffff_fc00_0001 * pp <= 4 * aa);
        assert(0x100_0000_0000 * aa <= 0x100_0000_0001 * ll
            + 0x4_0000_0000_0000_0000_0000_0000_0000 * o);
        assert(ll <= 0xffff_fe00_0001 * pp);
        assert(pp > 0);
        lemma_below_half_a_step(aa, ll, o, pp);
    }
}

/// A vector within a limit that single precision can hold is within it when it
/// is rounded to single precision.
pub(crate) proof fn lemma_narrowing_is_within(x: Scalar, y: Scalar, limit: Scalar)
    requires
        x.finite(),
        y.finite(),
        within(square_of(x) + square_of(y), square_of(limit), Format::Double.one()),
        Format::Double.steps(limit.magnitude()) <= 0xff_ffff * pow2(1178),
    ensures
        Single::narrowed(x).finite(),
        Single::narrowed(y).finite(),
        within_single(
            square_of_single(Single::narrowed(x)) + square_of_single(Single::narrowed(y)),
            square_of(limit),
        ),
{
    lemma_narrow_part(x, square_of(y), limit);
    lemma_narrow_part(y, square_of(x), limit);
    let t = finer() * finer();
    let o = Format::Double.one();
    lemma_pow2_adds(925, 925);
    lemma_pow2_adds(114, 1074);
    lemma_pow2_adds(57, 57);
    lemma2_to64_rest();
    lemma_pow2_strictly_increases(1188, 1850);
    assert(0x4_0000_0000_0000_0000_0000_0000_0000 * o <= t);
}

} // verus!
