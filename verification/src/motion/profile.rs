//! The speed that a controller aims for, by the distance to the target, the
//! speed so far and its limits.

use crate::arithmetic::{finer, Number};
use crate::motion::acceleration::{lemma_finer_is_large, lemma_product_error, lemma_sum_error};
use crate::motion::bang_bang::{BangBangController, NEAR, NEAR_GAIN, REACHED, TWO};
use crate::motion::bounds::{
    bounded, lemma_bounded_product, lemma_bounded_rounding, lemma_bounded_sum, lemma_loosen,
};
use crate::motion::geometry::size;
use crate::motion::limits::{lemma_distance_of_rounded, lemma_root_is_close, lemma_root_is_small};
use crate::motion::speeds::lemma_power_is_exact;
use crate::rounding::{
    law_every_number_is_rounded, law_every_root_is_rounded, lemma_steps_by_parts,
    lemma_steps_of_zero, Format, DOUBLE_RANGE,
};
use crate::scalar::{law_order_is_numeric, Scalar};
use vstd::arithmetic::power2::{
    lemma2_to64, lemma2_to64_rest, lemma_pow2_adds, lemma_pow2_pos, lemma_pow2_strictly_increases,
    lemma_pow2_unfold, pow2,
};
use vstd::prelude::*;

verus! {

/// Whether a number is not negative and below 2^226.
pub open spec fn moderate(a: Scalar) -> bool {
    bounded(a, 1300) && !a.number().negative
}

/// Whether a controller and what it works on are numbers that are not negative,
/// and none so large or, for the acceleration, so small that it would leave the
/// range of doubles on the way.
pub open spec fn is_moderate(
    controller: BangBangController,
    distance: Scalar,
    current_speed: Scalar,
    dt: Scalar,
) -> bool {
    &&& moderate(controller.acceleration_limit())
    &&& finer() <= controller.acceleration_limit().value()
    &&& moderate(controller.velocity_limit())
    &&& moderate(distance)
    &&& moderate(current_speed)
    &&& moderate(dt)
}

/// Whether a distance is above 0.05 m, by more than rounding.
pub open spec fn is_on_the_way(distance: Scalar) -> bool {
    0x4_0000_0000_0001 * Format::Double.one() <= 0x4_0000_0000_0000 * (20 * distance.value())
}

/// Whether a distance is more than it takes to stop from a speed, by more than
/// rounding: half the square of the speed over the acceleration.
pub open spec fn has_room_to_stop(a: int, speed: int, distance: int) -> bool {
    0x4_0000_0000_0001 * (speed * speed) + 0x20_0000_0000_0000 * (Format::Double.one() + a)
        < 0x4_0000_0000_0000 * (2 * (a * distance))
}

/// Whether a distance is less than it takes to stop from a speed, by more than
/// rounding.
pub open spec fn must_brake(a: int, speed: int, distance: int) -> bool {
    0x4_0000_0000_0001 * (2 * (a * distance)) + 0x20_0000_0000_0000 * (Format::Double.one() + a)
        < 0x4_0000_0000_0000 * (speed * speed)
}

/// Whether a distance is more than it takes to reach a speed from rest and stop
/// again, by more than rounding: the square of the speed over the acceleration.
pub open spec fn has_room_for_all(a: int, speed: int, distance: int) -> bool {
    0x1_0000_0000_0001 * (speed * speed) + 0x40_0000_0000_0000 * (Format::Double.one() + a)
        < 0x1_0000_0000_0000 * (a * distance)
}

/// Whether a distance is less than that, by more than rounding.
pub open spec fn lacks_room_for_all(a: int, speed: int, distance: int) -> bool {
    0x1_0000_0000_0001 * (a * distance) + 0x40_0000_0000_0000 * (Format::Double.one() + a)
        < 0x1_0000_0000_0000 * (speed * speed)
}

/// Within 0.05 m of the target a controller aims for no speed.
pub proof fn law_aims_for_no_speed_at_the_target(
    controller: BangBangController,
    distance: Scalar,
    current_speed: Scalar,
    dt: Scalar,
)
    requires
        distance.finite(),
        20 * distance.value() <= Format::Double.one(),
    ensures
        controller.desired_speed(distance, current_speed, dt).finite(),
        controller.desired_speed(distance, current_speed, dt).value() == 0,
{
    lemma_profile_numbers();
    lemma_steps_of_zero(Format::Double);
    law_order_is_numeric(distance, Scalar { bits: REACHED });
}

/// From 0.05 to 0.5 m, and with room to stop, a controller aims for a speed of
/// four times the distance for each second, exactly, or for the largest speed
/// where that is less.
pub proof fn law_speed_is_proportional_near_the_target(
    controller: BangBangController,
    distance: Scalar,
    current_speed: Scalar,
    dt: Scalar,
)
    requires
        is_moderate(controller, distance, current_speed, dt),
        is_on_the_way(distance),
        2 * distance.value() < Format::Double.one(),
        has_room_to_stop(
            controller.acceleration_limit().value(),
            current_speed.value(),
            distance.value(),
        ),
    ensures
        ({
            let speed = controller.desired_speed(distance, current_speed, dt);
            let limit = controller.velocity_limit().value();
            let aim = 4 * distance.value();
            &&& speed.finite()
            &&& speed.value() == (if aim < limit {
                aim
            } else {
                limit
            })
        }),
{
    let f = Format::Double;
    let limit = controller.velocity_limit();
    lemma_profile_numbers();
    lemma_steps_of_zero(f);
    law_order_is_numeric(distance, Scalar { bits: REACHED });
    law_order_is_numeric(distance, Scalar { bits: NEAR });
    lemma_room_to_stop(controller, distance, current_speed);
    let gain = Scalar { bits: NEAR_GAIN };
    let x = f.steps(distance.magnitude());
    lemma_exponent_of_moderate(distance);
    lemma2_to64();
    lemma_power_is_exact(f, distance.magnitude(), 2);
    lemma_pow2_pos(1074);
    assert(pow2(2) == 4);
    let p = distance.product(gain);
    law_every_number_is_rounded(f, x * (4 * f.one()), f.one());
    assert(p.magnitude() == f.nearest(x * (4 * f.one()), f.one()));
    assert(p.value() == 4 * x);
    law_order_is_numeric(limit, p);
}

/// Without room to stop a controller aims for the speed from which the distance
/// is just enough to stop, but for rounding, and never for more than the speed
/// so far.
pub proof fn law_brakes_in_time(
    controller: BangBangController,
    distance: Scalar,
    current_speed: Scalar,
    dt: Scalar,
)
    requires
        is_moderate(controller, distance, current_speed, dt),
        is_on_the_way(distance),
        must_brake(
            controller.acceleration_limit().value(),
            current_speed.value(),
            distance.value(),
        ),
    ensures
        ({
            let speed = controller.desired_speed(distance, current_speed, dt);
            let room = 2 * (controller.acceleration_limit().value() * distance.value());
            &&& speed.finite()
            &&& 0 <= speed.value() <= current_speed.value()
            &&& 0x8000_0000_0000 * size(speed.value() * speed.value() - room) <= room
        }),
{
    let f = Format::Double;
    let o = f.one();
    lemma_profile_numbers();
    lemma_steps_of_zero(f);
    lemma_finer_is_large();
    law_order_is_numeric(distance, Scalar { bits: REACHED });
    lemma_must_brake(controller, distance, current_speed);
    let a = f.steps(controller.acceleration_limit().magnitude());
    let d = f.steps(distance.magnitude());
    let v = f.steps(current_speed.magnitude());
    lemma_double_acceleration(controller);
    let double_acceleration = (Scalar { bits: TWO }).product(controller.acceleration_limit());
    let num = (2 * a) * d;
    let ad = a * d;
    assert(num == 2 * ad) by (nonlinear_arith)
        requires
            num == (2 * a) * d,
            ad == a * d,
    ;
    lemma_bounded_product(double_acceleration, distance, 1301, 1300);
    let p = double_acceleration.product(distance);
    lemma_pow2_pos(1074);
    law_every_number_is_rounded(f, num, o);
    let pm = f.nearest(num, o);
    assert(p.number() == Number { negative: false, magnitude: pm as u64 });
    lemma_distance_of_rounded(pm, num, o);
    let z = f.steps(pm);
    let zo = z * o;
    assert(o * z == zo) by (nonlinear_arith)
        requires
            zo == z * o,
    ;
    // The product is far above the smallest number.
    assert(0x1_0000_0000_0000_0000_0000 * o <= num) by {
        let t = finer();
        lemma2_to64();
        lemma2_to64_rest();
        lemma_pow2_adds(40, 40);
        assert(o <= 32 * d);
        assert(t * o <= 32 * ad) by (nonlinear_arith)
            requires
                t <= a,
                o <= 32 * d,
                ad == a * d,
        ;
        lemma_pow2_strictly_increases(86, 925);
        lemma_pow2_adds(80, 6);
        assert(0x40_0000_0000_0000_0000_0000 * o <= t * o) by (nonlinear_arith)
            requires
                0x40_0000_0000_0000_0000_0000 <= t,
        ;
    }
    law_every_root_is_rounded(f, zo);
    let m = f.nearest_root(zo);
    let root = p.square_root();
    assert(z > 0) by {
        if z == 0 {
            assert(zo == 0) by (nonlinear_arith)
                requires
                    zo == z * o,
                    z == 0,
            ;
        }
    }
    assert(pm > 0);
    lemma_pow2_adds(1024, 1074);
    lemma_pow2_strictly_increases(1527, 2098);
    lemma_root_is_small(m, z, zo);
    assert(root.number() == Number { negative: false, magnitude: m as u64 });
    let r = f.steps(m);
    lemma_root_is_large(m, zo, num, o);
    lemma_root_is_close(m, zo);
    law_order_is_numeric(current_speed, root);
    let (rr, vv) = (r * r, v * v);
    assert(0x10_0000_0000_0000 * size(zo - num) <= 2 * num);
    if v < r {
        assert(vv <= rr) by (nonlinear_arith)
            requires
                v < r,
                vv == v * v,
                rr == r * r,
        ;
    }
}

/// A square root of a number that is far above the smallest one is not tiny.
proof fn lemma_root_is_large(m: nat, square: nat, num: nat, o: nat)
    requires
        m < Format::Double.infinity(),
        Format::Double.rounded_root(m, square),
        o == Format::Double.one(),
        0x1_0000_0000_0000_0000_0000 * o <= num,
        0x10_0000_0000_0000 * (num - square) <= num + 0x20_0000_0000_0000 * o,
    ensures
        m > 0,
        Format::Double.steps(m) >= 0x10_0000_0000_0000,
{
    let f = Format::Double;
    let s = f.steps(m);
    lemma_steps_of_zero(f);
    crate::motion::limits::lemma_step(f, m);
    let above = f.above(m);
    let step = f.steps(m + 1) - s;
    assert(step * 0x10_0000_0000_0000 <= s + 0x10_0000_0000_0000) by (nonlinear_arith)
        requires
            step * f.range() <= s + f.range(),
            f.range() == 0x10_0000_0000_0000,
    ;
    if s < 0x10_0000_0000_0000 {
        assert(above <= 0x40_0000_0000_0000);
        assert(above * above <= 0x40_0000_0000_0000 * 0x40_0000_0000_0000) by (nonlinear_arith)
            requires
                0 <= above <= 0x40_0000_0000_0000,
        ;
        lemma2_to64_rest();
        lemma_pow2_adds(54, 54);
        lemma_pow2_strictly_increases(108, 1074);
        assert(4 * square <= 0x40_0000_0000_0000 * 0x40_0000_0000_0000);
        assert(0x40_0000_0000_0000nat * 0x40_0000_0000_0000nat == pow2(108));
    }
}

/// From 0.5 m on, with room to stop and for reaching the largest speed from rest
/// and stopping again, a controller aims for the largest speed.
pub proof fn law_goes_at_full_speed_on_a_long_way(
    controller: BangBangController,
    distance: Scalar,
    current_speed: Scalar,
    dt: Scalar,
)
    requires
        is_moderate(controller, distance, current_speed, dt),
        Format::Double.one() <= 2 * distance.value(),
        has_room_to_stop(
            controller.acceleration_limit().value(),
            current_speed.value(),
            distance.value(),
        ),
        has_room_for_all(
            controller.acceleration_limit().value(),
            controller.velocity_limit().value(),
            distance.value(),
        ),
    ensures
        controller.desired_speed(distance, current_speed, dt).value()
            == controller.velocity_limit().value(),
{
    lemma_profile_numbers();
    law_order_is_numeric(distance, Scalar { bits: REACHED });
    law_order_is_numeric(distance, Scalar { bits: NEAR });
    lemma_room_to_stop(controller, distance, current_speed);
    lemma_profile_distance(controller, distance);
}

/// From 0.5 m on, with room to stop but not for the whole profile, a controller
/// aims for what it gains by its acceleration in the step over the speed so far,
/// but for rounding, and for no more than the largest speed: for that where it
/// is reached.
pub proof fn law_gains_speed_on_a_short_way(
    controller: BangBangController,
    distance: Scalar,
    current_speed: Scalar,
    dt: Scalar,
)
    requires
        is_moderate(controller, distance, current_speed, dt),
        Format::Double.one() <= 2 * distance.value(),
        has_room_to_stop(
            controller.acceleration_limit().value(),
            current_speed.value(),
            distance.value(),
        ),
        lacks_room_for_all(
            controller.acceleration_limit().value(),
            controller.velocity_limit().value(),
            distance.value(),
        ),
    ensures
        ({
            let speed = controller.desired_speed(distance, current_speed, dt);
            let limit = controller.velocity_limit().value();
            let o = Format::Double.one() as int;
            let aim = o * current_speed.value() + controller.acceleration_limit().value()
                * dt.value();
            &&& speed.finite()
            &&& speed.value() <= limit
            &&& current_speed.value() >= limit ==> speed.value() == limit
            &&& speed.value() < limit ==> 0x4_0000_0000_0000 * size(o * speed.value() - aim) <= aim
                + 0x20_0000_0000_0000 * o
            &&& speed.value() == limit ==> current_speed.value() >= limit || 0x4_0000_0000_0000 * (o
                * limit - aim) <= aim + 0x20_0000_0000_0000 * o
        }),
{
    let f = Format::Double;
    let o = f.one() as int;
    let limit = controller.velocity_limit();
    let acceleration = controller.acceleration_limit();
    lemma_profile_numbers();
    lemma_steps_of_zero(f);
    law_order_is_numeric(distance, Scalar { bits: REACHED });
    law_order_is_numeric(distance, Scalar { bits: NEAR });
    lemma_room_to_stop(controller, distance, current_speed);
    lemma_profile_distance(controller, distance);
    law_order_is_numeric(current_speed, limit);
    if current_speed.value() < limit.value() {
        lemma_bounded_product(acceleration, dt, 1300, 1300);
        lemma_product_error(acceleration, dt);
        let gained = acceleration.product(dt);
        lemma_loosen(current_speed, 1300, 1526);
        lemma_bounded_sum(current_speed, gained, 1526);
        lemma_sum_error(current_speed, gained);
        let faster = current_speed.sum(gained);
        law_order_is_numeric(limit, faster);
        let (g, v, r) = (gained.value(), current_speed.value(), faster.value());
        let exact = acceleration.value() * dt.value();
        assert(exact >= 0) by (nonlinear_arith)
            requires
                exact == acceleration.value() * dt.value(),
                acceleration.value() >= 0,
                dt.value() >= 0,
        ;
        let (og, ov, or) = (o * g, o * v, o * r);
        assert(ov >= 0) by (nonlinear_arith)
            requires
                ov == o * v,
                v >= 0,
                o >= 0,
        ;
        lemma_pow2_pos(1074);
        assert(g >= 0);
        let w = size(r - (v + g));
        let ow = o * w;
        assert(ow == size(or - (ov + og))) by (nonlinear_arith)
            requires
                w == size(r - (v + g)),
                ow == o * w,
                or == o * r,
                ov == o * v,
                og == o * g,
                o > 0,
        ;
        assert(0x10_0000_0000_0000 * ow <= ov + og + 0x20_0000_0000_0000 * o) by (nonlinear_arith)
            requires
                0x10_0000_0000_0000 * w <= v + g + 0x20_0000_0000_0000,
                ow == o * w,
                ov == o * v,
                og == o * g,
                o > 0,
        ;
        assert(0x4_0000_0000_0000 * size(or - (ov + exact)) <= ov + exact + 0x20_0000_0000_0000
            * o);
        let ol = o * limit.value();
        assert(r >= limit.value() ==> or >= ol) by (nonlinear_arith)
            requires
                or == o * r,
                ol == o * limit.value(),
                o > 0,
        ;
    }
}

/// The numbers of the profile: 0.05 with rounding, 0.5, 4 and 2.
proof fn lemma_profile_numbers()
    ensures
        ({
            let one = Format::Double.one();
            &&& one < 20 * Format::Double.steps(REACHED as nat)
            &&& 0x4_0000_0000_0000 * (20 * Format::Double.steps(REACHED as nat))
                < 0x4_0000_0000_0001 * one
            &&& 2 * Format::Double.steps(NEAR as nat) == one
            &&& Format::Double.steps(NEAR_GAIN as nat) == 4 * one
            &&& Format::Double.steps(TWO as nat) == 2 * one
            &&& one > 0
        }),
{
    let f = Format::Double;
    let range = DOUBLE_RANGE as nat;
    lemma2_to64();
    lemma2_to64_rest();
    lemma_steps_by_parts(f, 0x3fa9_9999_9999_999a);
    assert(0x3fa9_9999_9999_999anat / range == 1018 && 0x3fa9_9999_9999_999anat % range
        == 0x9_9999_9999_999a);
    lemma_steps_by_parts(f, 0x3fe0_0000_0000_0000);
    assert(0x3fe0_0000_0000_0000nat / range == 1022 && 0x3fe0_0000_0000_0000nat % range == 0);
    lemma_steps_by_parts(f, 0x4010_0000_0000_0000);
    assert(0x4010_0000_0000_0000nat / range == 1025 && 0x4010_0000_0000_0000nat % range == 0);
    lemma_steps_by_parts(f, 0x4000_0000_0000_0000);
    assert(0x4000_0000_0000_0000nat / range == 1024 && 0x4000_0000_0000_0000nat % range == 0);
    let p = pow2(1017);
    lemma_pow2_pos(1017);
    lemma_pow2_adds(1017, 4);
    lemma_pow2_adds(1017, 6);
    lemma_pow2_adds(1017, 7);
    lemma_pow2_adds(1017, 57);
    assert(f.steps(0x3fa9_9999_9999_999a) == 0x19_9999_9999_999a * p);
    assert(f.steps(0x3fe0_0000_0000_0000) == 0x10_0000_0000_0000 * pow2(1021));
    assert(f.steps(0x4010_0000_0000_0000) == 0x10_0000_0000_0000 * pow2(1024));
    assert(f.steps(0x4000_0000_0000_0000) == 0x10_0000_0000_0000 * pow2(1023));
}

/// The exponent of a moderate number.
proof fn lemma_exponent_of_moderate(a: Scalar)
    requires
        bounded(a, 1300),
    ensures
        a.magnitude() / (Format::Double.range() as nat) <= 1300,
{
    let f = Format::Double;
    let range = f.range() as nat;
    let field = a.magnitude() / range;
    lemma_steps_by_parts(f, a.magnitude());
    lemma2_to64();
    lemma2_to64_rest();
    if field > 1300 {
        lemma_pow2_adds(52, (field - 1) as nat);
        lemma_pow2_strictly_increases(1300, (52 + field - 1) as nat);
        let fraction = a.magnitude() % range;
        assert((range + fraction) * pow2((field - 1) as nat) >= range * pow2((field - 1) as nat))
            by (nonlinear_arith);
    }
}

/// Twice the acceleration is exact.
proof fn lemma_double_acceleration(controller: BangBangController)
    requires
        moderate(controller.acceleration_limit()),
    ensures
        ({
            let a = controller.acceleration_limit();
            let b = (Scalar { bits: TWO }).product(a);
            &&& b.finite()
            &&& !b.number().negative
            &&& Format::Double.steps(b.magnitude()) == 2 * Format::Double.steps(a.magnitude())
            &&& bounded(b, 1301)
        }),
{
    let f = Format::Double;
    let a = controller.acceleration_limit();
    let x = f.steps(a.magnitude());
    lemma_profile_numbers();
    lemma_exponent_of_moderate(a);
    lemma2_to64();
    lemma_power_is_exact(f, a.magnitude(), 1);
    lemma_pow2_pos(1074);
    lemma_pow2_unfold(1301);
    assert((2 * f.one()) * x == x * (2 * f.one())) by (nonlinear_arith);
    law_every_number_is_rounded(f, x * (2 * f.one()), f.one());
    assert(pow2(1) == 2);
    assert((Scalar { bits: TWO }).product(a).magnitude() == f.nearest(
        x * (2 * f.one()),
        f.one(),
    ));
}

/// The computed distance that it takes to stop from a speed.
proof fn lemma_braking_distance(controller: BangBangController, speed: Scalar)
    requires
        moderate(controller.acceleration_limit()),
        finer() <= controller.acceleration_limit().value(),
        moderate(speed),
    ensures
        ({
            let a = controller.acceleration_limit().value();
            let v = speed.value();
            let distance = controller.braking_distance(speed);
            let aa = 2 * (a * distance.value());
            let o = Format::Double.one();
            &&& bounded(distance, 1675)
            &&& !distance.number().negative
            &&& 0x4_0000_0000_0000 * aa <= 0x4_0000_0000_0001 * (v * v) + 0x20_0000_0000_0000 * (o
                + a)
            &&& 0x4_0000_0000_0000 * (v * v) <= 0x4_0000_0000_0001 * aa + 0x20_0000_0000_0000 * (o
                + a)
        }),
{
    let f = Format::Double;
    let o = f.one();
    let a = f.steps(controller.acceleration_limit().magnitude());
    let v = f.steps(speed.magnitude());
    lemma_pow2_pos(1074);
    lemma_finer_is_large();
    lemma_steps_of_zero(f);
    lemma_double_acceleration(controller);
    let divisor = (Scalar { bits: TWO }).product(controller.acceleration_limit());
    lemma_bounded_product(speed, speed, 1300, 1300);
    let square = speed.product(speed);
    let vv = v * v;
    law_every_number_is_rounded(f, vv, o);
    let pm = f.nearest(vv, o);
    assert(square.number() == Number { negative: false, magnitude: pm as u64 });
    lemma_distance_of_rounded(pm, vv, o);
    let p = f.steps(pm);
    let po = p * o;
    assert(o * p == po) by (nonlinear_arith)
        requires
            po == p * o,
    ;
    let den = 2 * a;
    lemma_pow2_adds(1526, 1074);
    lemma2_to64();
    lemma_pow2_adds(1, 925);
    lemma_pow2_adds(926, 1674);
    assert(po <= pow2(1526) * o) by (nonlinear_arith)
        requires
            po == p * o,
            p <= pow2(1526),
    ;
    assert(pow2(926) * pow2(1674) <= den * pow2(1674)) by (nonlinear_arith)
        requires
            pow2(926) <= den,
    ;
    lemma_bounded_rounding(po, den, 1674);
    law_every_number_is_rounded(f, po, den);
    let sm = f.nearest(po, den);
    let distance = controller.braking_distance(speed);
    assert(divisor.magnitude() != 0);
    assert(distance.number() == Number { negative: false, magnitude: sm as u64 });
    lemma_pow2_strictly_increases(1674, 1675);
    lemma_distance_of_rounded(sm, po, den);
    let s = f.steps(sm);
    let as_ = a * s;
    assert(den * s == 2 * as_) by (nonlinear_arith)
        requires
            den == 2 * a,
            as_ == a * s,
    ;
}

/// With room to stop the distance is above the computed one.
proof fn lemma_room_to_stop(controller: BangBangController, distance: Scalar, speed: Scalar)
    requires
        moderate(controller.acceleration_limit()),
        finer() <= controller.acceleration_limit().value(),
        moderate(speed),
        moderate(distance),
        has_room_to_stop(
            controller.acceleration_limit().value(),
            speed.value(),
            distance.value(),
        ),
    ensures
        !distance.at_most(controller.braking_distance(speed)),
{
    lemma_braking_distance(controller, speed);
    let stop = controller.braking_distance(speed);
    law_order_is_numeric(distance, stop);
    let (a, d, s) = (controller.acceleration_limit().value(), distance.value(), stop.value());
    lemma_finer_is_large();
    assert(d <= s ==> a * d <= a * s) by (nonlinear_arith)
        requires
            a >= 0,
    ;
}

/// Without room to stop the distance is below the computed one.
proof fn lemma_must_brake(controller: BangBangController, distance: Scalar, speed: Scalar)
    requires
        moderate(controller.acceleration_limit()),
        finer() <= controller.acceleration_limit().value(),
        moderate(speed),
        moderate(distance),
        must_brake(controller.acceleration_limit().value(), speed.value(), distance.value()),
    ensures
        distance.at_most(controller.braking_distance(speed)),
{
    lemma_braking_distance(controller, speed);
    let stop = controller.braking_distance(speed);
    law_order_is_numeric(distance, stop);
    let (a, d, s) = (controller.acceleration_limit().value(), distance.value(), stop.value());
    lemma_finer_is_large();
    assert(d >= s ==> a * d >= a * s) by (nonlinear_arith)
        requires
            a >= 0,
    ;
}

/// Whether the computed distance of the whole profile is below the distance.
proof fn lemma_profile_distance(controller: BangBangController, distance: Scalar)
    requires
        moderate(controller.acceleration_limit()),
        finer() <= controller.acceleration_limit().value(),
        moderate(controller.velocity_limit()),
        moderate(distance),
    ensures
        has_room_for_all(
            controller.acceleration_limit().value(),
            controller.velocity_limit().value(),
            distance.value(),
        ) ==> controller.profile_distance().at_most(distance),
        lacks_room_for_all(
            controller.acceleration_limit().value(),
            controller.velocity_limit().value(),
            distance.value(),
        ) ==> !controller.profile_distance().at_most(distance),
{
    let limit = controller.velocity_limit();
    lemma_braking_distance(controller, limit);
    lemma_finer_is_large();
    let half = controller.braking_distance(limit);
    lemma_bounded_sum(half, half, 1675);
    lemma_sum_error(half, half);
    let total = controller.profile_distance();
    law_order_is_numeric(total, distance);
    let (a, d, h, t) = (
        controller.acceleration_limit().value(),
        distance.value(),
        half.value(),
        total.value(),
    );
    let l = limit.value();
    let (ad, ah, at, ll) = (a * d, a * h, a * t, l * l);
    assert(d <= t ==> ad <= at) by (nonlinear_arith)
        requires
            a >= 0,
            ad == a * d,
            at == a * t,
    ;
    assert(d >= t ==> ad >= at) by (nonlinear_arith)
        requires
            a >= 0,
            ad == a * d,
            at == a * t,
    ;
    assert(0x10_0000_0000_0000 * (at - 2 * ah) <= 2 * ah + 0x20_0000_0000_0000 * a)
        by (nonlinear_arith)
        requires
            0x10_0000_0000_0000 * (t - 2 * h) <= 2 * h + 0x20_0000_0000_0000,
            a >= 0,
            ah == a * h,
            at == a * t,
    ;
    assert(0x10_0000_0000_0000 * (2 * ah - at) <= 2 * ah + 0x20_0000_0000_0000 * a)
        by (nonlinear_arith)
        requires
            0x10_0000_0000_0000 * (2 * h - t) <= 2 * h + 0x20_0000_0000_0000,
            a >= 0,
            ah == a * h,
            at == a * t,
    ;
}

} // verus!
