//! The velocity that a controller takes, by the one that it aims for.

use crate::arithmetic::{finer, opposite};
use crate::motion::acceleration::{
    lemma_finer_is_large, lemma_narrow_error, lemma_product_error, lemma_square_of_value,
    lemma_sum_error, lemma_within_is_short, reach,
};
use crate::motion::bang_bang::{BangBangController, Vec2F64, NO_LENGTH, REACHED};
use crate::motion::bounds::{
    bounded, is_finite, lemma_accelerated_is_bounded, lemma_bounded_norm, lemma_bounded_single,
    lemma_bounded_sum, lemma_largest_single, lemma_loosen, lemma_narrowing_is_within,
    lemma_product_is_not_negative, LARGEST_SINGLE,
};
use crate::motion::directions::lemma_multiplied_signed;
use crate::motion::geometry::{
    lemma_divided, lemma_longer, lemma_multiplied, lemma_small_parts, lemma_triangle, short, size,
};
use crate::motion::limits::{
    law_shortened_vector_is_within, lemma_distance_of_rounded, lemma_limit_is_positive,
    lemma_long_norm, lemma_norm_is_not_negative, square_of, within,
};
use crate::motion::speeds::{law_shortened_vector_lies_along, lemma_scaled_lies_along};
use crate::rounding::{
    law_every_number_is_rounded, lemma_steps_by_parts, lemma_steps_increase, lemma_steps_of_zero,
    Format, DOUBLE_RANGE,
};
use crate::scalar::{law_order_is_numeric, Scalar};
use crate::single::{law_widening_keeps_the_value, Vec2};
use vstd::arithmetic::power2::{lemma2_to64_rest, lemma_pow2_strictly_increases, pow2};
use vstd::prelude::*;

verus! {

/// Whether a controller is given finite numbers, a step and limits that are not
/// negative and a largest speed that single precision can hold, and the target is
/// not reached.
pub open spec fn is_regular(
    controller: BangBangController,
    current_pos: Vec2,
    target_pos: Vec2,
    current_vel: Vec2,
    dt: Scalar,
) -> bool {
    &&& is_finite(current_pos) && is_finite(target_pos) && is_finite(current_vel)
    &&& dt.finite() && Scalar::zero().at_most(dt)
    &&& controller.acceleration_limit().finite()
    &&& Scalar::zero().at_most(controller.acceleration_limit())
    &&& controller.acceleration_limit().product(dt).finite()
    &&& Scalar::zero().at_most(controller.velocity_limit())
    &&& controller.velocity_limit().at_most(Scalar { bits: LARGEST_SINGLE })
    &&& !BangBangController::reached(way_to(target_pos, current_pos).norm())
}

/// Whether a controller is given such numbers, and a velocity so far that is
/// within the largest speed.
pub open spec fn is_ordinary(
    controller: BangBangController,
    current_pos: Vec2,
    target_pos: Vec2,
    current_vel: Vec2,
    dt: Scalar,
) -> bool {
    &&& is_regular(controller, current_pos, target_pos, current_vel, dt)
    &&& Vec2F64::of(current_vel).norm().at_most(controller.velocity_limit())
}

/// The way from one point to another, in double precision.
pub open spec fn way_to(target_pos: Vec2, current_pos: Vec2) -> Vec2F64 {
    Vec2F64::of(target_pos).difference(Vec2F64::of(current_pos))
}

/// The parts of a direction that is stretched.
proof fn lemma_parts_of_aim(
    x: int,
    y: int,
    ux: int,
    uy: int,
    dx: int,
    dy: int,
    s: nat,
    l: nat,
    o: nat,
)
    requires
        o >= 0x100_0000_0000_0000,
        s > 0,
        short(x, y, 2 * s),
        0x10_0000_0000_0000 * size(s * ux - x * o) <= size(x * o) + 0x20_0000_0000_0000 * s,
        0x10_0000_0000_0000 * size(s * uy - y * o) <= size(y * o) + 0x20_0000_0000_0000 * s,
        0x10_0000_0000_0000 * size(o * dx - ux * l) <= size(ux * l) + 0x20_0000_0000_0000 * o,
        0x10_0000_0000_0000 * size(o * dy - uy * l) <= size(uy * l) + 0x20_0000_0000_0000 * o,
    ensures
        short(s * dx - l * x, s * dy - l * y, s * (l / 0x2000_0000_0000 + 8)),
{
    let so = s * o;
    assert(so >= 0x100_0000_0000_0000 * s && so >= o) by (nonlinear_arith)
        requires
            so == s * o,
            o >= 0x100_0000_0000_0000,
            s >= 1,
    ;
    // The direction.
    lemma_multiplied(x, y, 2 * s, o);
    assert(o * x == x * o && o * y == y * o) by (nonlinear_arith);
    assert(o * (2 * s) == 2 * so) by (nonlinear_arith)
        requires
            so == s * o,
    ;
    let (ex, ey) = (s * ux - x * o, s * uy - y * o);
    let k = (0x20_0000_0000_0000 * s) as nat;
    lemma_small_parts(ex, ey, x * o, y * o, 2 * so, 0x10_0000_0000_0000nat, k);
    let e = ((2 * so + 2 * k) / 0x10_0000_0000_0000nat + 1) as nat;
    assert(0x4_0000_0000_0000 * e <= so);
    lemma_triangle(x * o, y * o, ex, ey, 2 * so, e);
    assert(s * (3 * o) == 3 * so) by (nonlinear_arith)
        requires
            so == s * o,
    ;
    lemma_longer(s * ux, s * uy, 2 * so + e, s * (3 * o));
    lemma_divided(ux, uy, 3 * o, s);
    // Its length.
    lemma_multiplied(ux, uy, 3 * o, l);
    assert(l * ux == ux * l && l * uy == uy * l) by (nonlinear_arith);
    let ol = o * l;
    assert(l * (3 * o) == 3 * ol) by (nonlinear_arith)
        requires
            ol == o * l,
    ;
    let (gx, gy) = (o * dx - ux * l, o * dy - uy * l);
    let j = (0x20_0000_0000_0000 * o) as nat;
    lemma_small_parts(gx, gy, ux * l, uy * l, 3 * ol, 0x10_0000_0000_0000nat, j);
    let g = ((3 * ol + 2 * j) / 0x10_0000_0000_0000nat + 1) as nat;
    // Both.
    lemma_multiplied(gx, gy, g, s);
    lemma_multiplied(ex, ey, e, l);
    lemma_triangle(s * gx, s * gy, l * ex, l * ey, s * g, l * e);
    let c = l / 0x2000_0000_0000;
    let oc = o * c;
    assert(ol <= 0x2000_0000_0000 * oc + 0x2000_0000_0000 * o) by (nonlinear_arith)
        requires
            l < 0x2000_0000_0000 * c + 0x2000_0000_0000,
            ol == o * l,
            oc == o * c,
    ;
    let b = (c + 8) as nat;
    let ob = o * b;
    assert(ob == oc + 8 * o) by (nonlinear_arith)
        requires
            b == c + 8,
            oc == o * c,
            ob == o * b,
    ;
    assert(g + ol / 0x4_0000_0000_0000 + 1 <= ob);
    let sol = s * ol;
    assert(0x4_0000_0000_0000 * (l * e) <= sol) by (nonlinear_arith)
        requires
            0x4_0000_0000_0000 * e <= so,
            so == s * o,
            ol == o * l,
            sol == s * ol,
    ;
    let q = ol / 0x4_0000_0000_0000 + 1;
    assert(ol <= 0x4_0000_0000_0000 * q);
    assert(sol <= 0x4_0000_0000_0000 * (s * q)) by (nonlinear_arith)
        requires
            ol <= 0x4_0000_0000_0000 * q,
            sol == s * ol,
            s >= 0,
    ;
    let sb = s * b;
    assert(s * g + s * q <= o * sb) by (nonlinear_arith)
        requires
            g + q <= o * b,
            sb == s * b,
            s >= 0,
    ;
    let (vx, vy) = (s * dx - l * x, s * dy - l * y);
    assert(s * gx + l * ex == o * vx && s * gy + l * ey == o * vy) by {
        assert(s * (o * dx - ux * l) + l * (s * ux - x * o) == o * (s * dx - l * x))
            by (nonlinear_arith);
        assert(s * (o * dy - uy * l) + l * (s * uy - y * o) == o * (s * dy - l * y))
            by (nonlinear_arith);
    }
    lemma_longer(o * vx, o * vy, s * g + l * e, o * sb);
    lemma_divided(vx, vy, sb, o);
}

/// A quotient by a length is not far from the exact one.
proof fn lemma_quotient_error(a: Scalar, b: Scalar)
    requires
        a.finite(),
        b.finite(),
        !b.number().negative,
        b.magnitude() > 0,
        a.quotient(b).finite(),
    ensures
        ({
            let s = Format::Double.steps(b.magnitude());
            let exact = a.value() * Format::Double.one();
            0x10_0000_0000_0000 * size(s * a.quotient(b).value() - exact) <= size(exact)
                + 0x20_0000_0000_0000 * s
        }),
{
    let f = Format::Double;
    let o = f.one();
    let s = f.steps(b.magnitude());
    let x = f.steps(a.magnitude()) as int;
    let num = f.steps(a.magnitude()) * o;
    lemma_steps_of_zero(f);
    lemma_steps_increase(f, 0, b.magnitude());
    law_every_number_is_rounded(f, num, s);
    let m = f.nearest(num, s);
    assert(a.quotient(b).magnitude() == m);
    lemma_distance_of_rounded(m, num, s);
    let r = f.steps(m) as int;
    assert((-x) * o == -(x * o)) by (nonlinear_arith);
    assert(s * (-r) == -(s * r)) by (nonlinear_arith);
    assert(x * o >= 0) by (nonlinear_arith)
        requires
            x >= 0,
    ;
}

/// The length of a way that is not reached is no less than 2^-149 and more than
/// what has no direction.
proof fn lemma_way_is_long(way: Vec2F64)
    requires
        way.x.finite(),
        way.y.finite(),
        way.norm().finite(),
        !BangBangController::reached(way.norm()),
    ensures
        finer() <= Format::Double.steps(way.norm().magnitude()),
        (Scalar { bits: NO_LENGTH }).less(way.norm()),
        !way.norm().number().negative,
        way.norm().magnitude() > 0,
{
    let f = Format::Double;
    lemma_norm_is_not_negative(way);
    lemma_steps_by_parts(f, REACHED as nat);
    assert((REACHED as nat) / (DOUBLE_RANGE as nat) == 1018);
    lemma2_to64_rest();
    lemma_pow2_strictly_increases(925, 1017);
    let fraction = (REACHED as nat) % (DOUBLE_RANGE as nat);
    assert((DOUBLE_RANGE as nat + fraction) * pow2(1017) >= pow2(1017)) by (nonlinear_arith)
        requires
            DOUBLE_RANGE >= 1,
    ;
    if way.norm().magnitude() > REACHED {
        lemma_steps_increase(f, REACHED as nat, way.norm().magnitude());
    }
}

/// The velocity that a controller aims for leads straight to the target, at the
/// speed that it aims for at that distance and speed so far, but for rounding.
pub proof fn law_aim_lies_along_the_way(
    controller: BangBangController,
    way: Vec2F64,
    current: Vec2F64,
    dt: Scalar,
)
    requires
        bounded(way.x, 1203),
        bounded(way.y, 1203),
        bounded(current.x, 1202),
        bounded(current.y, 1202),
        !BangBangController::reached(way.norm()),
        Scalar::zero().at_most(controller.velocity_limit()),
        bounded(controller.velocity_limit(), 1207),
        controller.acceleration_limit().finite(),
        Scalar::zero().at_most(controller.acceleration_limit()),
        dt.finite(),
        Scalar::zero().at_most(dt),
        controller.desired_speed(way.norm(), current.norm(), dt).value() >= 0,
    ensures
        ({
            let aim = controller.desired_velocity(way, current.norm(), dt);
            let speed = controller.desired_speed(way.norm(), current.norm(), dt);
            let norm = Format::Double.steps(way.norm().magnitude());
            let length = Format::Double.steps(speed.magnitude());
            short(
                norm * aim.x.value() - length * way.x.value(),
                norm * aim.y.value() - length * way.y.value(),
                norm * (length / 0x2000_0000_0000 + 8),
            )
        }),
{
    let f = Format::Double;
    let o = f.one();
    lemma_accelerated_is_bounded(controller, way, current, dt);
    lemma_bounded_norm(way, 1203);
    lemma_way_is_long(way);
    lemma_finer_is_large();
    let norm = way.norm();
    let s = f.steps(norm.magnitude());
    let speed = controller.desired_speed(norm, current.norm(), dt);
    let l = f.steps(speed.magnitude());
    let unit = way.unit();
    let aim = controller.desired_velocity(way, current.norm(), dt);
    lemma_steps_of_zero(f);
    lemma_long_norm(way);
    lemma_square_of_value(way.x);
    lemma_square_of_value(way.y);
    assert((2 * s) * (2 * s) == 4 * (s * s)) by (nonlinear_arith);
    assert(s * s >= 0) by (nonlinear_arith);
    lemma_quotient_error(way.x, norm);
    lemma_quotient_error(way.y, norm);
    lemma_product_error(unit.x, speed);
    lemma_product_error(unit.y, speed);
    assert(speed.value() == l);
    lemma2_to64_rest();
    lemma_pow2_strictly_increases(56, 1074);
    lemma_parts_of_aim(
        way.x.value(),
        way.y.value(),
        unit.x.value(),
        unit.y.value(),
        aim.x.value(),
        aim.y.value(),
        s,
        l,
        o,
    );
}

/// Rounding to single precision moves a velocity within a limit a little.
proof fn lemma_narrow_vector(w: Vec2F64, limit: Scalar)
    requires
        w.x.finite(),
        w.y.finite(),
        w.narrowed().x.finite(),
        w.narrowed().y.finite(),
        within(square_of(w.x) + square_of(w.y), square_of(limit), Format::Double.one()),
    ensures
        short(
            w.narrowed().x.value() * finer() - w.x.value(),
            w.narrowed().y.value() * finer() - w.y.value(),
            Format::Double.steps(limit.magnitude()) / 0x40_0000 + 4 * finer(),
        ),
{
    let l = Format::Double.steps(limit.magnitude());
    let t = finer();
    let (ex, ey) = (
        w.narrowed().x.value() * t - w.x.value(),
        w.narrowed().y.value() * t - w.y.value(),
    );
    lemma_within_is_short(w, l);
    lemma_narrow_error(w.x);
    lemma_narrow_error(w.y);
    let k = (0x80_0001 * t) as nat;
    lemma_small_parts(ex, ey, w.x.value(), w.y.value(), reach(l), 0x80_0000nat, k);
    let e = ((reach(l) + 2 * k) / 0x80_0000nat + 1) as nat;
    lemma_finer_is_large();
    assert(e <= l / 0x40_0000 + 4 * t);
    lemma_longer(ex, ey, e, (l / 0x40_0000 + 4 * t) as nat);
}

/// The sum of two vectors, rounded, is not far from the exact one.
proof fn lemma_sum_vector(a: Vec2F64, b: Vec2F64, i: nat, j: nat)
    requires
        a.x.finite() && a.y.finite(),
        b.x.finite() && b.y.finite(),
        a.sum(b).x.finite() && a.sum(b).y.finite(),
        short(a.x.value(), a.y.value(), i),
        short(b.x.value(), b.y.value(), j),
    ensures
        short(
            a.sum(b).x.value() - (a.x.value() + b.x.value()),
            a.sum(b).y.value() - (a.y.value() + b.y.value()),
            (i + j) / 0x10_0000_0000_0000 + 6,
        ),
{
    let n = a.sum(b);
    let (ux, uy) = (a.x.value() + b.x.value(), a.y.value() + b.y.value());
    let (ex, ey) = (n.x.value() - ux, n.y.value() - uy);
    lemma_triangle(a.x.value(), a.y.value(), b.x.value(), b.y.value(), i, j);
    lemma_sum_error(a.x, b.x);
    lemma_sum_error(a.y, b.y);
    lemma_small_parts(ex, ey, ux, uy, i + j, 0x10_0000_0000_0000nat, 0x20_0000_0000_0000nat);
    lemma_longer(
        ex,
        ey,
        ((i + j + 2 * 0x20_0000_0000_0000nat) / 0x10_0000_0000_0000nat + 1) as nat,
        ((i + j) / 0x10_0000_0000_0000 + 6) as nat,
    );
}

/// The vector with the signs of both parts changed.
spec fn turned(v: Vec2F64) -> Vec2F64 {
    Vec2F64 {
        x: Scalar::of(opposite(v.x.number())),
        y: Scalar::of(opposite(v.y.number())),
    }
}

/// The difference of two vectors, rounded, is not far from the exact one.
proof fn lemma_difference_vector(a: Vec2F64, b: Vec2F64, i: nat, j: nat)
    requires
        a.x.finite() && a.y.finite(),
        b.x.finite() && b.y.finite(),
        a.difference(b).x.finite() && a.difference(b).y.finite(),
        short(a.x.value(), a.y.value(), i),
        short(b.x.value(), b.y.value(), j),
    ensures
        short(
            a.difference(b).x.value() - (a.x.value() - b.x.value()),
            a.difference(b).y.value() - (a.y.value() - b.y.value()),
            (i + j) / 0x10_0000_0000_0000 + 6,
        ),
        short(
            a.difference(b).x.value(),
            a.difference(b).y.value(),
            i + j + (i + j) / 0x10_0000_0000_0000 + 6,
        ),
{
    let c = turned(b);
    assert(c.x.number() == opposite(b.x.number()));
    assert(c.y.number() == opposite(b.y.number()));
    assert(c.x.value() == -b.x.value() && c.y.value() == -b.y.value());
    assert(a.difference(b) == a.sum(c));
    let (bx, by) = (b.x.value(), b.y.value());
    assert((-bx) * (-bx) == bx * bx && (-by) * (-by) == by * by) by (nonlinear_arith);
    lemma_sum_vector(a, c, i, j);
    lemma_triangle(a.x.value(), a.y.value(), -bx, -by, i, j);
    let d = a.difference(b);
    let (ux, uy) = (a.x.value() - bx, a.y.value() - by);
    lemma_triangle(
        ux,
        uy,
        d.x.value() - ux,
        d.y.value() - uy,
        i + j,
        ((i + j) / 0x10_0000_0000_0000 + 6) as nat,
    );
}

/// What holds of a step.
proof fn lemma_regular_step(
    controller: BangBangController,
    current_pos: Vec2,
    target_pos: Vec2,
    current_vel: Vec2,
    dt: Scalar,
)
    requires
        is_regular(controller, current_pos, target_pos, current_vel, dt),
    ensures
        ({
            let way = way_to(target_pos, current_pos);
            let current = Vec2F64::of(current_vel);
            let limit = controller.velocity_limit();
            let most = controller.acceleration_limit().product(dt);
            let aim = controller.desired_velocity(way, current.norm(), dt);
            let change = aim.difference(current);
            let limited = change.shortened(most);
            let reached = controller.accelerated(way, current, dt);
            let w = reached.shortened(limit);
            &&& bounded(way.x, 1203) && bounded(way.y, 1203)
            &&& bounded(current.x, 1202) && bounded(current.y, 1202)
            &&& bounded(limit, 1207)
            &&& bounded(aim.x, 1346) && bounded(aim.y, 1346)
            &&& bounded(change.x, 1347) && bounded(change.y, 1347)
            &&& bounded(reached.x, 1348) && bounded(reached.y, 1348)
            &&& change.norm().finite() && reached.norm().finite() && way.norm().finite()
            &&& current.norm().finite()
            &&& Scalar::zero().at_most(most)
            &&& limited.x.finite() && limited.y.finite()
            &&& reached == current.sum(limited)
            &&& w.x.finite() && w.y.finite()
            &&& is_finite(w.narrowed())
            &&& controller.next_velocity(current_pos, target_pos, current_vel, dt) == w.narrowed()
            &&& current.x.value() == current_vel.x.value() * finer()
            &&& current.y.value() == current_vel.y.value() * finer()
            &&& within(
                square_of(limited.x) + square_of(limited.y),
                square_of(most),
                Format::Double.one(),
            )
            &&& within(
                square_of(w.x) + square_of(w.y),
                square_of(limit),
                Format::Double.one(),
            )
        }),
{
    let way = way_to(target_pos, current_pos);
    let current = Vec2F64::of(current_vel);
    lemma_bounded_single(target_pos.x);
    lemma_bounded_single(target_pos.y);
    lemma_bounded_single(current_pos.x);
    lemma_bounded_single(current_pos.y);
    lemma_bounded_single(current_vel.x);
    lemma_bounded_single(current_vel.y);
    lemma_bounded_sum(target_pos.x.widened(), current_pos.x.widened(), 1202);
    lemma_bounded_sum(target_pos.y.widened(), current_pos.y.widened(), 1202);
    let limit = controller.velocity_limit();
    let most = controller.acceleration_limit().product(dt);
    lemma_largest_single(limit);
    lemma_loosen(limit, 1202, 1207);
    lemma_accelerated_is_bounded(controller, way, current, dt);
    lemma_product_is_not_negative(controller.acceleration_limit(), dt);
    let change = controller.desired_velocity(way, current.norm(), dt).difference(current);
    lemma_bounded_norm(way, 1203);
    lemma_bounded_norm(current, 1202);
    lemma_bounded_norm(change, 1347);
    law_shortened_vector_is_within(change, most);
    let reached = controller.accelerated(way, current, dt);
    lemma_bounded_norm(reached, 1348);
    law_shortened_vector_is_within(reached, limit);
    let w = reached.shortened(limit);
    lemma_narrowing_is_within(w.x, w.y, limit);
    law_widening_keeps_the_value(current_vel.x);
    law_widening_keeps_the_value(current_vel.y);
}

/// What holds of an ordinary step.
proof fn lemma_ordinary_step(
    controller: BangBangController,
    current_pos: Vec2,
    target_pos: Vec2,
    current_vel: Vec2,
    dt: Scalar,
)
    requires
        is_ordinary(controller, current_pos, target_pos, current_vel, dt),
    ensures
        ({
            let current = Vec2F64::of(current_vel);
            within(
                square_of(current.x) + square_of(current.y),
                square_of(controller.velocity_limit()),
                Format::Double.one(),
            )
        }),
{
    let current = Vec2F64::of(current_vel);
    let limit = controller.velocity_limit();
    lemma_regular_step(controller, current_pos, target_pos, current_vel, dt);
    law_shortened_vector_is_within(current, limit);
    assert(current.shortened(limit) == current);
}

/// A vector is as long as its length says, and a little.
proof fn lemma_length_reaches(v: Vec2F64)
    requires
        v.x.finite(),
        v.y.finite(),
        v.norm().finite(),
    ensures
        short(v.x.value(), v.y.value(), reach(Format::Double.steps(v.norm().magnitude()))),
{
    lemma_norm_is_not_negative(v);
    law_shortened_vector_is_within(v, v.norm());
    assert(v.shortened(v.norm()) == v);
    lemma_within_is_short(v, Format::Double.steps(v.norm().magnitude()));
}

/// Whatever the velocity so far, a step changes it towards the one aimed for: by
/// what the acceleration allows, straight towards it, where that is less than the
/// whole change, and else all the way, but for rounding. This is before the
/// largest speed is looked at. Velocities are counted in the smallest positive
/// double.
pub proof fn law_acceleration_leads_towards_the_aim(
    controller: BangBangController,
    current_pos: Vec2,
    target_pos: Vec2,
    current_vel: Vec2,
    dt: Scalar,
)
    requires
        is_regular(controller, current_pos, target_pos, current_vel, dt),
    ensures
        ({
            let way = way_to(target_pos, current_pos);
            let current = Vec2F64::of(current_vel);
            let aim = controller.desired_velocity(way, current.norm(), dt);
            let change = aim.difference(current);
            let most = controller.acceleration_limit().product(dt);
            let length = Format::Double.steps(most.magnitude());
            let norm = Format::Double.steps(change.norm().magnitude());
            let speed = Format::Double.steps(current.norm().magnitude());
            let aimed = Format::Double.steps(aim.norm().magnitude());
            let taken = controller.accelerated(way, current, dt);
            &&& most.less(change.norm()) && finer() <= length ==> short(
                norm * (taken.x.value() - current.x.value()) - length * change.x.value(),
                norm * (taken.y.value() - current.y.value()) - length * change.y.value(),
                norm * ((length + speed) / 0x80_0000_0000 + 2 * finer()),
            )
            &&& !most.less(change.norm()) ==> short(
                taken.x.value() - aim.x.value(),
                taken.y.value() - aim.y.value(),
                (aimed + speed) / 0x80_0000_0000 + 2 * finer(),
            )
        }),
{
    let f = Format::Double;
    let t = finer();
    let way = way_to(target_pos, current_pos);
    let current = Vec2F64::of(current_vel);
    let most = controller.acceleration_limit().product(dt);
    lemma_regular_step(controller, current_pos, target_pos, current_vel, dt);
    lemma_finer_is_large();
    let aim = controller.desired_velocity(way, current.norm(), dt);
    let change = aim.difference(current);
    let limited = change.shortened(most);
    let taken = controller.accelerated(way, current, dt);
    let (a, c) = (f.steps(most.magnitude()), f.steps(current.norm().magnitude()));
    let n = f.steps(change.norm().magnitude());
    lemma_length_reaches(current);
    let (cx, cy) = (current.x.value(), current.y.value());
    let (nx, ny) = (taken.x.value(), taken.y.value());
    let (hx, hy) = (change.x.value(), change.y.value());
    if most.less(change.norm()) {
        if t <= a {
            lemma_scaled_lies_along(change, most);
            lemma_within_is_short(limited, a);
            lemma_sum_vector(current, limited, reach(c), reach(a));
            let (yx, yy) = (limited.x.value(), limited.y.value());
            let e = ((reach(c) + reach(a)) / 0x10_0000_0000_0000 + 6) as nat;
            let (ex, ey) = (nx - (cx + yx), ny - (cy + yy));
            lemma_multiplied(ex, ey, e, n);
            let (kx, ky) = (n * yx - a * hx, n * yy - a * hy);
            let b = (a / 0x100_0000_0000 + t) as nat;
            lemma_triangle(n * ex, n * ey, kx, ky, n * e, n * b);
            let all = ((a + c) / 0x80_0000_0000 + 2 * t) as nat;
            assert(e + b <= all);
            assert(n * e + n * b <= n * all) by (nonlinear_arith)
                requires
                    e + b <= all,
            ;
            assert(n * ex + kx == n * (nx - cx) - a * hx) by (nonlinear_arith)
                requires
                    ex == nx - (cx + yx),
                    kx == n * yx - a * hx,
            ;
            assert(n * ey + ky == n * (ny - cy) - a * hy) by (nonlinear_arith)
                requires
                    ey == ny - (cy + yy),
                    ky == n * yy - a * hy,
            ;
            lemma_longer(n * (nx - cx) - a * hx, n * (ny - cy) - a * hy, n * e + n * b, n * all);
        }
    } else {
        lemma_bounded_norm(aim, 1346);
        lemma_length_reaches(aim);
        let d = f.steps(aim.norm().magnitude());
        let (dx, dy) = (aim.x.value(), aim.y.value());
        lemma_difference_vector(aim, current, reach(d), reach(c));
        let far = (reach(d) + reach(c) + (reach(d) + reach(c)) / 0x10_0000_0000_0000 + 6) as nat;
        lemma_sum_vector(current, change, reach(c), far);
        let e = ((reach(d) + reach(c)) / 0x10_0000_0000_0000 + 6) as nat;
        let g = ((reach(c) + far) / 0x10_0000_0000_0000 + 6) as nat;
        lemma_triangle(nx - (cx + hx), ny - (cy + hy), hx - (dx - cx), hy - (dy - cy), g, e);
        let all = ((d + c) / 0x80_0000_0000 + 2 * t) as nat;
        assert(e + g <= all);
        lemma_longer(nx - dx, ny - dy, e + g, all);
    }
}

/// The velocity that a controller takes is the accelerated one, but for
/// rounding, where that is within the largest speed, and else the one in the same
/// direction at the largest speed.
pub proof fn law_taken_velocity_is_the_accelerated_one(
    controller: BangBangController,
    current_pos: Vec2,
    target_pos: Vec2,
    current_vel: Vec2,
    dt: Scalar,
)
    requires
        is_regular(controller, current_pos, target_pos, current_vel, dt),
        finer() <= controller.velocity_limit().value(),
    ensures
        ({
            let way = way_to(target_pos, current_pos);
            let reached = controller.accelerated(way, Vec2F64::of(current_vel), dt);
            let limit = Format::Double.steps(controller.velocity_limit().magnitude());
            let norm = Format::Double.steps(reached.norm().magnitude());
            let next = controller.next_velocity(current_pos, target_pos, current_vel, dt);
            &&& norm <= limit ==> short(
                next.x.value() * finer() - reached.x.value(),
                next.y.value() * finer() - reached.y.value(),
                limit / 0x40_0000 + 4 * finer(),
            )
            &&& limit < norm ==> short(
                norm * (next.x.value() * finer()) - limit * reached.x.value(),
                norm * (next.y.value() * finer()) - limit * reached.y.value(),
                norm * (limit / 0x10_0000 + 8 * finer()),
            )
        }),
{
    let f = Format::Double;
    let t = finer();
    let limit = controller.velocity_limit();
    lemma_regular_step(controller, current_pos, target_pos, current_vel, dt);
    lemma_finer_is_large();
    lemma_limit_is_positive(limit);
    let reached = controller.accelerated(
        way_to(target_pos, current_pos),
        Vec2F64::of(current_vel),
        dt,
    );
    let w = reached.shortened(limit);
    let next = w.narrowed();
    let l = f.steps(limit.magnitude());
    let s = f.steps(reached.norm().magnitude());
    lemma_norm_is_not_negative(reached);
    law_order_is_numeric(limit, reached.norm());
    lemma_narrow_vector(w, limit);
    let (nx, ny) = (reached.x.value(), reached.y.value());
    let (wx, wy) = (w.x.value(), w.y.value());
    let (rx, ry) = (next.x.value() * t, next.y.value() * t);
    if l < s {
        lemma_scaled_lies_along(reached, limit);
        let j = (l / 0x40_0000 + 4 * t) as nat;
        let b = (l / 0x100_0000_0000 + t) as nat;
        lemma_multiplied(rx - wx, ry - wy, j, s);
        let (kx, ky) = (s * wx - l * nx, s * wy - l * ny);
        lemma_triangle(s * (rx - wx), s * (ry - wy), kx, ky, s * j, s * b);
        let all = (l / 0x10_0000 + 8 * t) as nat;
        assert(j + b <= all);
        assert(s * j + s * b <= s * all) by (nonlinear_arith)
            requires
                j + b <= all,
        ;
        assert(s * (rx - wx) + kx == s * rx - l * nx) by (nonlinear_arith)
            requires
                kx == s * wx - l * nx,
        ;
        assert(s * (ry - wy) + ky == s * ry - l * ny) by (nonlinear_arith)
            requires
                ky == s * wy - l * ny,
        ;
        lemma_longer(s * rx - l * nx, s * ry - l * ny, s * j + s * b, s * all);
    }
}

/// The way to a target in double precision is the difference of the places, axis
/// by axis, but for rounding: it leads from the robot to the target.
pub proof fn law_fine_way_leads_there(target_pos: Vec2, current_pos: Vec2)
    requires
        is_finite(target_pos),
        is_finite(current_pos),
    ensures
        ({
            let way = way_to(target_pos, current_pos);
            let dx = (target_pos.x.value() - current_pos.x.value()) * finer();
            let dy = (target_pos.y.value() - current_pos.y.value()) * finer();
            &&& way.x.finite() && way.y.finite()
            &&& 0x10_0000_0000_0000 * size(way.x.value() - dx) <= size(dx) + 0x20_0000_0000_0000
            &&& 0x10_0000_0000_0000 * size(way.y.value() - dy) <= size(dy) + 0x20_0000_0000_0000
        }),
{
    let (a, b) = (Vec2F64::of(target_pos), Vec2F64::of(current_pos));
    let c = turned(b);
    lemma_bounded_single(target_pos.x);
    lemma_bounded_single(target_pos.y);
    lemma_bounded_single(current_pos.x);
    lemma_bounded_single(current_pos.y);
    lemma_bounded_sum(a.x, b.x, 1202);
    lemma_bounded_sum(a.y, b.y, 1202);
    law_widening_keeps_the_value(target_pos.x);
    law_widening_keeps_the_value(target_pos.y);
    law_widening_keeps_the_value(current_pos.x);
    law_widening_keeps_the_value(current_pos.y);
    assert(c.x.number() == opposite(b.x.number()));
    assert(c.y.number() == opposite(b.y.number()));
    assert(a.difference(b) == a.sum(c));
    lemma_sum_error(a.x, c.x);
    lemma_sum_error(a.y, c.y);
    lemma_in_steps(target_pos.x.value(), current_pos.x.value(), finer(), b.x.value());
    lemma_in_steps(target_pos.y.value(), current_pos.y.value(), finer(), b.y.value());
}

/// Where the acceleration does not allow the whole change in a step, a
/// controller changes the velocity straight towards the one that it aims for, by
/// what the acceleration allows, but for rounding. The new velocity is within
/// the largest speed, so it is not scaled. Velocities are counted in the smallest
/// positive double and compared times the length of the whole change.
pub proof fn law_step_leads_towards_the_aim(
    controller: BangBangController,
    current_pos: Vec2,
    target_pos: Vec2,
    current_vel: Vec2,
    dt: Scalar,
)
    requires
        is_ordinary(controller, current_pos, target_pos, current_vel, dt),
        ({
            let way = way_to(target_pos, current_pos);
            let current = Vec2F64::of(current_vel);
            let most = controller.acceleration_limit().product(dt);
            let change = controller.desired_velocity(way, current.norm(), dt).difference(current);
            &&& finer() <= Format::Double.steps(most.magnitude())
            &&& most.less(change.norm())
            &&& controller.accelerated(way, current, dt).norm().at_most(controller.velocity_limit())
        }),
    ensures
        ({
            let way = way_to(target_pos, current_pos);
            let current = Vec2F64::of(current_vel);
            let most = Format::Double.steps(
                controller.acceleration_limit().product(dt).magnitude(),
            );
            let limit = Format::Double.steps(controller.velocity_limit().magnitude());
            let change = controller.desired_velocity(way, current.norm(), dt).difference(current);
            let norm = Format::Double.steps(change.norm().magnitude());
            let next = controller.next_velocity(current_pos, target_pos, current_vel, dt);
            short(
                norm * ((next.x.value() - current_vel.x.value()) * finer()) - most
                    * change.x.value(),
                norm * ((next.y.value() - current_vel.y.value()) * finer()) - most
                    * change.y.value(),
                norm * ((most + limit) / 0x10_0000 + 16 * finer()),
            )
        }),
{
    let f = Format::Double;
    let t = finer();
    let way = way_to(target_pos, current_pos);
    let current = Vec2F64::of(current_vel);
    let limit = controller.velocity_limit();
    let most = controller.acceleration_limit().product(dt);
    lemma_regular_step(controller, current_pos, target_pos, current_vel, dt);
    lemma_ordinary_step(controller, current_pos, target_pos, current_vel, dt);
    lemma_finer_is_large();
    let change = controller.desired_velocity(way, current.norm(), dt).difference(current);
    let limited = change.shortened(most);
    let reached = controller.accelerated(way, current, dt);
    let (a, l) = (f.steps(most.magnitude()), f.steps(limit.magnitude()));
    let n = f.steps(change.norm().magnitude());
    lemma_scaled_lies_along(change, most);
    lemma_within_is_short(current, l);
    lemma_within_is_short(limited, a);
    lemma_sum_vector(current, limited, reach(l), reach(a));
    assert(reached.shortened(limit) == reached);
    lemma_narrow_vector(reached, limit);
    let next = reached.narrowed();
    let (cx, cy) = (current.x.value(), current.y.value());
    let (yx, yy) = (limited.x.value(), limited.y.value());
    let (rx, ry) = (next.x.value() * t, next.y.value() * t);
    let (nx, ny) = (reached.x.value(), reached.y.value());
    let e = ((reach(l) + reach(a)) / 0x10_0000_0000_0000 + 6) as nat;
    let g = (l / 0x40_0000 + 4 * t) as nat;
    lemma_triangle(nx - (cx + yx), ny - (cy + yy), rx - nx, ry - ny, e, g);
    // From the change that was taken to the limited one.
    let (hx, hy) = (rx - cx - yx, ry - cy - yy);
    lemma_multiplied(hx, hy, e + g, n);
    let (kx, ky) = (n * yx - a * change.x.value(), n * yy - a * change.y.value());
    let b = (a / 0x100_0000_0000 + t) as nat;
    lemma_triangle(n * hx, n * hy, kx, ky, n * (e + g), n * b);
    let all = ((a + l) / 0x10_0000 + 16 * t) as nat;
    assert(e + g + b <= all);
    assert(n * (e + g) + n * b <= n * all) by (nonlinear_arith)
        requires
            e + g + b <= all,
    ;
    lemma_in_steps(next.x.value(), current_vel.x.value(), t, cx);
    lemma_in_steps(next.y.value(), current_vel.y.value(), t, cy);
    assert(n * hx + kx == n * (rx - cx) - a * change.x.value()) by (nonlinear_arith)
        requires
            hx == rx - cx - yx,
            kx == n * yx - a * change.x.value(),
    ;
    assert(n * hy + ky == n * (ry - cy) - a * change.y.value()) by (nonlinear_arith)
        requires
            hy == ry - cy - yy,
            ky == n * yy - a * change.y.value(),
    ;
    lemma_longer(n * hx + kx, n * hy + ky, n * (e + g) + n * b, n * all);
}

/// A difference in single precision, in steps of double precision.
proof fn lemma_in_steps(a: int, b: int, t: nat, c: int)
    requires
        c == b * t,
    ensures
        (a - b) * t == a * t - c,
{
    assert((a - b) * t == a * t - b * t) by (nonlinear_arith);
}

/// Where a step allows a change of four times the largest speed, a controller
/// takes the velocity that it aims for at once: straight to the target, at the
/// speed that it aims for at that distance and speed so far, but for rounding.
/// That speed is within the largest one. Velocities are counted in the smallest
/// positive double and compared times the distance.
pub proof fn law_strong_step_reaches_the_aim(
    controller: BangBangController,
    current_pos: Vec2,
    target_pos: Vec2,
    current_vel: Vec2,
    dt: Scalar,
)
    requires
        is_ordinary(controller, current_pos, target_pos, current_vel, dt),
        ({
            let speed = controller.desired_speed(
                way_to(target_pos, current_pos).norm(),
                Vec2F64::of(current_vel).norm(),
                dt,
            );
            let limit = controller.velocity_limit();
            &&& 0 <= speed.value() <= limit.value()
            &&& 4 * limit.value() <= controller.acceleration_limit().product(dt).value()
            &&& 0x10_0000 * finer() <= limit.value()
        }),
    ensures
        ({
            let way = way_to(target_pos, current_pos);
            let speed = Format::Double.steps(
                controller.desired_speed(
                    way.norm(),
                    Vec2F64::of(current_vel).norm(),
                    dt,
                ).magnitude(),
            );
            let limit = Format::Double.steps(controller.velocity_limit().magnitude());
            let norm = Format::Double.steps(way.norm().magnitude());
            let next = controller.next_velocity(current_pos, target_pos, current_vel, dt);
            short(
                norm * (next.x.value() * finer()) - speed * way.x.value(),
                norm * (next.y.value() * finer()) - speed * way.y.value(),
                norm * (limit / 0x10_0000 + 16 * finer()),
            )
        }),
{
    let f = Format::Double;
    let t = finer();
    let way = way_to(target_pos, current_pos);
    let current = Vec2F64::of(current_vel);
    let limit = controller.velocity_limit();
    let most = controller.acceleration_limit().product(dt);
    lemma_regular_step(controller, current_pos, target_pos, current_vel, dt);
    lemma_ordinary_step(controller, current_pos, target_pos, current_vel, dt);
    lemma_finer_is_large();
    lemma_limit_is_positive(limit);
    lemma_limit_is_positive(most);
    lemma_steps_of_zero(f);
    let speed = controller.desired_speed(way.norm(), current.norm(), dt);
    let aim = controller.desired_velocity(way, current.norm(), dt);
    let change = aim.difference(current);
    let reached = controller.accelerated(way, current, dt);
    let w = reached.shortened(limit);
    let (a, l) = (f.steps(most.magnitude()), f.steps(limit.magnitude()));
    let u = f.steps(speed.magnitude());
    let s = f.steps(way.norm().magnitude());
    law_aim_lies_along_the_way(controller, way, current, dt);
    lemma_aim_is_short(way, aim, u, s);
    // What the aim's length is at most.
    let b = (u + u / 0x10_0000_0000 + 10) as nat;
    lemma_within_is_short(current, l);
    lemma_difference_vector(aim, current, b, reach(l));
    let c = (b + reach(l) + (b + reach(l)) / 0x10_0000_0000_0000 + 6) as nat;
    assert(c <= 3 * l);
    lemma_longer(change.x.value(), change.y.value(), c, (3 * l) as nat);
    lemma_square_of_value(change.x);
    lemma_square_of_value(change.y);
    let (aa, ll) = (a * a, l * l);
    assert((3 * l) * (3 * l) == 9 * ll) by (nonlinear_arith)
        requires
            ll == l * l,
    ;
    assert(16 * ll <= aa) by (nonlinear_arith)
        requires
            4 * l <= a,
            aa == a * a,
            ll == l * l,
    ;
    law_shortened_vector_lies_along(change, most);
    assert(change.shortened(most) == change);
    lemma_sum_vector(current, change, reach(l), c);
    // From the velocity before it is scaled to the aim.
    let (cx, cy) = (current.x.value(), current.y.value());
    let (dx, dy) = (aim.x.value(), aim.y.value());
    let (hx, hy) = (change.x.value(), change.y.value());
    let (nx, ny) = (reached.x.value(), reached.y.value());
    let e = ((b + reach(l)) / 0x10_0000_0000_0000 + 6) as nat;
    let g = ((reach(l) + c) / 0x10_0000_0000_0000 + 6) as nat;
    lemma_triangle(nx - (cx + hx), ny - (cy + hy), hx - (dx - cx), hy - (dy - cy), g, e);
    assert(short(nx - dx, ny - dy, e + g));
    lemma_triangle(dx, dy, nx - dx, ny - dy, b, e + g);
    let top = (l + l / 0x8_0000_0000) as nat;
    assert(b + e + g <= top);
    lemma_longer(nx, ny, b + e + g, top);
    lemma_cap_moves_little(reached, limit);
    lemma_narrow_vector(w, limit);
    let next = w.narrowed();
    let (wx, wy) = (w.x.value(), w.y.value());
    let (rx, ry) = (next.x.value() * t, next.y.value() * t);
    let i = (l / 0x1000_0000 + 2 * t) as nat;
    let j = (l / 0x40_0000 + 4 * t) as nat;
    lemma_triangle(wx - nx, wy - ny, rx - wx, ry - wy, i, j);
    lemma_triangle(nx - dx, ny - dy, rx - nx, ry - ny, e + g, i + j);
    let k = (e + g + i + j) as nat;
    lemma_multiplied(rx - dx, ry - dy, k, s);
    let m = (u / 0x2000_0000_0000 + 8) as nat;
    let (px, py) = (s * dx - u * way.x.value(), s * dy - u * way.y.value());
    lemma_triangle(s * (rx - dx), s * (ry - dy), px, py, s * k, s * m);
    let all = (l / 0x10_0000 + 16 * t) as nat;
    assert(k + m <= all);
    assert(s * k + s * m <= s * all) by (nonlinear_arith)
        requires
            k + m <= all,
    ;
    assert(s * (rx - dx) + px == s * rx - u * way.x.value()) by (nonlinear_arith)
        requires
            px == s * dx - u * way.x.value(),
    ;
    assert(s * (ry - dy) + py == s * ry - u * way.y.value()) by (nonlinear_arith)
        requires
            py == s * dy - u * way.y.value(),
    ;
    lemma_longer(
        s * rx - u * way.x.value(),
        s * ry - u * way.y.value(),
        s * k + s * m,
        s * all,
    );
}

/// The length of the velocity that a controller aims for.
proof fn lemma_aim_is_short(way: Vec2F64, aim: Vec2F64, u: nat, s: nat)
    requires
        way.x.finite(),
        way.y.finite(),
        way.norm().finite(),
        !BangBangController::reached(way.norm()),
        s == Format::Double.steps(way.norm().magnitude()),
        short(
            s * aim.x.value() - u * way.x.value(),
            s * aim.y.value() - u * way.y.value(),
            s * (u / 0x2000_0000_0000 + 8),
        ),
    ensures
        short(aim.x.value(), aim.y.value(), u + u / 0x10_0000_0000 + 10),
{
    lemma_way_is_long(way);
    lemma_finer_is_large();
    lemma_long_norm(way);
    lemma_square_of_value(way.x);
    lemma_square_of_value(way.y);
    let (x, y) = (way.x.value(), way.y.value());
    let (dx, dy) = (aim.x.value(), aim.y.value());
    let (ww, ss) = (x * x + y * y, s * s);
    assert(ss >= 0) by (nonlinear_arith)
        requires
            ss == s * s,
    ;
    let h = 0x40_0000_0000nat;
    assert((0x40_0000_0000 * x) * (0x40_0000_0000 * x) + (0x40_0000_0000 * y) * (0x40_0000_0000 * y)
        == 0x40_0000_0000 * (0x40_0000_0000 * ww)) by (nonlinear_arith)
        requires
            ww == x * x + y * y,
    ;
    assert((0x40_0000_0001 * s) * (0x40_0000_0001 * s) == 0x40_0000_0001 * (0x40_0000_0001 * ss))
        by (nonlinear_arith)
        requires
            ss == s * s,
    ;
    assert(short(0x40_0000_0000 * x, 0x40_0000_0000 * y, (0x40_0000_0001 * s) as nat));
    lemma_multiplied(0x40_0000_0000 * x, 0x40_0000_0000 * y, (0x40_0000_0001 * s) as nat, u);
    let (px, py) = (s * dx - u * x, s * dy - u * y);
    let m = (u / 0x2000_0000_0000 + 8) as nat;
    lemma_multiplied(px, py, s * m, h);
    let (su, sm) = (s * u, s * m);
    assert(u * (0x40_0000_0001 * s) == 0x40_0000_0001 * su) by (nonlinear_arith)
        requires
            su == s * u,
    ;
    lemma_triangle(
        u * (0x40_0000_0000 * x),
        u * (0x40_0000_0000 * y),
        h * px,
        h * py,
        (0x40_0000_0001 * su) as nat,
        h * sm,
    );
    assert(u * (0x40_0000_0000 * x) + h * px == s * (h * dx)) by (nonlinear_arith)
        requires
            px == s * dx - u * x,
            h == 0x40_0000_0000nat,
    ;
    assert(u * (0x40_0000_0000 * y) + h * py == s * (h * dy)) by (nonlinear_arith)
        requires
            py == s * dy - u * y,
            h == 0x40_0000_0000nat,
    ;
    let b = (u + u / 0x10_0000_0000 + 10) as nat;
    let r = 0x40_0000_0001 * u + 0x40_0000_0000 * m;
    assert(r <= 0x40_0000_0000 * b);
    assert(0x40_0000_0001 * su + h * sm <= s * (h * b)) by (nonlinear_arith)
        requires
            r == 0x40_0000_0001 * u + 0x40_0000_0000 * m,
            r <= 0x40_0000_0000 * b,
            h == 0x40_0000_0000nat,
            su == s * u,
            sm == s * m,
    ;
    lemma_longer(s * (h * dx), s * (h * dy), (0x40_0000_0001 * su + h * sm) as nat, s * (h * b));
    lemma_divided(h * dx, h * dy, h * b, s);
    lemma_divided(dx, dy, b, h);
}

/// Scaling a velocity that is hardly above a limit moves it a little.
proof fn lemma_cap_moves_little(n: Vec2F64, limit: Scalar)
    requires
        n.x.finite(),
        n.y.finite(),
        n.norm().finite(),
        limit.finite(),
        Scalar::zero().at_most(limit),
        finer() <= Format::Double.steps(limit.magnitude()),
        ({
            let l = Format::Double.steps(limit.magnitude());
            short(n.x.value(), n.y.value(), l + l / 0x8_0000_0000)
        }),
    ensures
        ({
            let w = n.shortened(limit);
            short(
                w.x.value() - n.x.value(),
                w.y.value() - n.y.value(),
                Format::Double.steps(limit.magnitude()) / 0x1000_0000 + 2 * finer(),
            )
        }),
{
    let f = Format::Double;
    let t = finer();
    let l = f.steps(limit.magnitude());
    let s = f.steps(n.norm().magnitude());
    let (nx, ny) = (n.x.value(), n.y.value());
    let w = n.shortened(limit);
    let (wx, wy) = (w.x.value(), w.y.value());
    let b = (l / 0x1000_0000 + 2 * t) as nat;
    lemma_finer_is_large();
    lemma_limit_is_positive(limit);
    lemma_norm_is_not_negative(n);
    law_order_is_numeric(limit, n.norm());
    if limit.less(n.norm()) {
        lemma_scaled_lies_along(n, limit);
        lemma_long_norm(n);
        lemma_square_of_value(n.x);
        lemma_square_of_value(n.y);
        let top = (l + l / 0x8_0000_0000) as nat;
        let (ss, ww, tt) = (s * s, nx * nx + ny * ny, top * top);
        assert((2 * s) * (2 * s) == 4 * ss) by (nonlinear_arith)
            requires
                ss == s * s,
        ;
        assert(ss >= 0) by (nonlinear_arith)
            requires
                ss == s * s,
        ;
        assert(short(nx, ny, 2 * s));
        // s is hardly above the limit.
        let more = (top + top / 0x8_0000_0000 + 1) as nat;
        assert(s <= more) by {
            let q = top / 0x8_0000_0000;
            let (mm, tq) = (more * more, top * q);
            assert(mm >= tt + 2 * tq + 2 * top) by (nonlinear_arith)
                requires
                    more == top + q + 1,
                    mm == more * more,
                    tt == top * top,
                    tq == top * q,
                    q >= 0,
            ;
            assert(tt <= 0x8_0000_0000 * tq + 0x8_0000_0000 * top) by (nonlinear_arith)
                requires
                    top < 0x8_0000_0000 * q + 0x8_0000_0000,
                    tt == top * top,
                    tq == top * q,
            ;
            assert(ss <= mm);
            assert(s <= more) by (nonlinear_arith)
                requires
                    ss <= mm,
                    ss == s * s,
                    mm == more * more,
            ;
        }
        let c = (l / 0x100_0000_0000 + t) as nat;
        let d = l - s;
        lemma_multiplied_signed(nx, ny, 2 * s, d);
        let (kx, ky) = (s * wx - l * nx, s * wy - l * ny);
        lemma_triangle(kx, ky, d * nx, d * ny, s * c, size(d) * (2 * s));
        assert(kx + d * nx == s * (wx - nx) && ky + d * ny == s * (wy - ny)) by (nonlinear_arith)
            requires
                kx == s * wx - l * nx,
                ky == s * wy - l * ny,
                d == l - s,
        ;
        assert(c + 2 * size(d) <= b);
        let sz = size(d);
        assert(s * c + sz * (2 * s) <= s * b) by (nonlinear_arith)
            requires
                c + 2 * sz <= b,
        ;
        lemma_longer(s * (wx - nx), s * (wy - ny), s * c + sz * (2 * s), s * b);
        lemma_divided(wx - nx, wy - ny, b, s);
    } else {
        let z = b as int;
        assert(z * z >= 0) by (nonlinear_arith);
    }
}

} // verus!
