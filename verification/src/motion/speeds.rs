//! The speeds and the directions of commands, by where robots and targets are.

use crate::arithmetic::{finer, law_short_number_is_exact, Number};
use crate::motion::acceleration::{
    lemma_finer_is_large, lemma_product_error, lemma_square_of_value,
};
use crate::motion::bang_bang::Vec2F64;
use crate::motion::bounds::is_finite;
use crate::motion::commands::MotionCommand;
use crate::motion::directions::{
    along, lemma_lies_along, lemma_multiplied_signed, lemma_single_distance, lemma_unit_of_way,
    nearly, LEAST_WAY,
};
use crate::motion::geometry::{
    lemma_divided, lemma_longer, lemma_multiplied, lemma_small_parts, lemma_triangle, short, size,
};
use crate::motion::limits::{
    law_shortened_vector_is_within, lemma_distance_of_rounded, lemma_factor_is_close,
    lemma_limit_is_positive, lemma_long_norm, lemma_norm_is_not_negative, lemma_short_norm,
    square_of,
};
use crate::motion::{
    Motion, DIRECT_REACHED, MAX_ACCELERATION, MAX_CONTROL_SPEED, MAX_VELOCITY, MIN_DIRECT_SPEED,
    PATH_SPEED, STEP_SECONDS,
};
use crate::rounding::{
    law_every_number_is_rounded, law_rounding_keeps_order, law_value_is_kept, lemma_small_is_zero,
    lemma_steps_by_parts, lemma_steps_increase, lemma_steps_of_zero, Format, DOUBLE_RANGE,
};
use crate::scalar::{law_order_is_numeric, Scalar};
use crate::single::{law_widening_keeps_the_value, Single, Vec2};
use crate::world::RobotState;
use vstd::arithmetic::power2::{
    lemma2_to64, lemma2_to64_rest, lemma_pow2_adds, lemma_pow2_pos, lemma_pow2_strictly_increases,
    pow2,
};
use vstd::prelude::*;

verus! {

/// How far a difference of singles can be from the exact one.
proof fn lemma_single_difference(a: Single, b: Single)
    requires
        a.finite(),
        b.finite(),
        a.difference(b).finite(),
    ensures
        0x80_0000 * size(a.difference(b).value() - (a.value() - b.value())) <= size(
            a.value() - b.value(),
        ) + 0x100_0000,
{
    let f = Format::Single;
    let v = a.value() - b.value();
    let num = size(v);
    lemma_steps_of_zero(f);
    law_every_number_is_rounded(f, num, 1);
    let m = f.nearest(num, 1);
    let d = a.difference(b);
    if v != 0 {
        assert(d.magnitude() == m);
        lemma_single_distance(m, num, 1);
        assert(1 * f.steps(m) == f.steps(m));
    } else {
        assert(d.magnitude() == 0);
    }
}

/// Whether a number is a difference, but for rounding to single precision.
pub open spec fn is_difference(result: Single, to: Single, from: Single) -> bool {
    0x80_0000 * size(result.value() - (to.value() - from.value())) <= size(
        to.value() - from.value(),
    ) + 0x100_0000
}

/// The way from one point to another is the difference of their places, axis by
/// axis, but for rounding: it leads from the first to the second.
pub proof fn law_way_leads_there(to: Vec2, from: Vec2)
    requires
        is_finite(to),
        is_finite(from),
        is_finite(to.from_point(from)),
    ensures
        is_difference(to.from_point(from).x, to.x, from.x),
        is_difference(to.from_point(from).y, to.y, from.y),
{
    lemma_single_difference(to.x, from.x);
    lemma_single_difference(to.y, from.y);
}

/// The errors that the controllers in x and y work on are the way from the robot
/// to the target, axis by axis.
pub proof fn law_errors_lead_to_the_target(robot: RobotState, target: Vec2)
    requires
        is_finite(target),
        is_finite(robot.position),
        is_finite(target.from_point(robot.position)),
    ensures
        ({
            let (x, y) = Motion::offset(robot, target);
            let dx = (target.x.value() - robot.position.x.value()) * finer();
            let dy = (target.y.value() - robot.position.y.value()) * finer();
            &&& 0x80_0000 * size(x.value() - dx) <= size(dx) + 0x100_0000 * finer()
            &&& 0x80_0000 * size(y.value() - dy) <= size(dy) + 0x100_0000 * finer()
        }),
{
    let way = target.from_point(robot.position);
    law_way_leads_there(target, robot.position);
    law_widening_keeps_the_value(way.x);
    law_widening_keeps_the_value(way.y);
    lemma_times(way.x.value(), target.x.value() - robot.position.x.value(), finer());
    lemma_times(way.y.value(), target.y.value() - robot.position.y.value(), finer());
}

/// A difference that is nearly another one, in finer steps.
proof fn lemma_times(w: int, d: int, t: nat)
    requires
        0x80_0000 * size(w - d) <= size(d) + 0x100_0000,
    ensures
        0x80_0000 * size(w * t - d * t) <= size(d * t) + 0x100_0000 * t,
{
    let e = w - d;
    assert(w * t - d * t == e * t) by (nonlinear_arith)
        requires
            e == w - d,
    ;
    let (a, b) = (size(e), size(d));
    assert(size(e * t) == a * t) by (nonlinear_arith)
        requires
            a == size(e),
    ;
    assert(size(d * t) == b * t) by (nonlinear_arith)
        requires
            b == size(d),
    ;
    assert(0x80_0000 * (a * t) <= b * t + 0x100_0000 * t) by (nonlinear_arith)
        requires
            0x80_0000 * a <= b + 0x100_0000,
    ;
}

/// The direction from a robot to a point has the length one and lies along the
/// way to the point, but for rounding.
pub proof fn law_heading_points_there(robot: RobotState, point: Vec2)
    requires
        is_finite(point.from_point(robot.position)),
        point.from_point(robot.position).norm().finite(),
        !point.from_point(robot.position).norm().less(Single { bits: LEAST_WAY }),
    ensures
        ({
            let way = point.from_point(robot.position);
            let direction = Motion::direction(robot, point);
            let one = Format::Single.one();
            &&& is_finite(direction)
            &&& nearly(direction.x.value(), direction.y.value(), one)
            &&& along(
                direction.x.value(),
                direction.y.value(),
                one,
                way.x.value(),
                way.y.value(),
                Format::Single.steps(way.norm().magnitude()),
            )
        }),
{
    let way = point.from_point(robot.position);
    let u = way.unit();
    let o = Format::Single.one();
    let s = Format::Single.steps(way.norm().magnitude());
    lemma_unit_of_way(way);
    lemma2_to64();
    lemma_pow2_strictly_increases(32, 149);
    let (dx, dy) = (way.x.value(), way.y.value());
    lemma_longer(
        0x20_0000 * (s * u.x.value() - o * dx),
        0x20_0000 * (s * u.y.value() - o * dy),
        2 * (s * o),
        3 * (s * o),
    );
    lemma_lies_along(dx, dy, s, u.x.value(), u.y.value(), o);
}

/// The value of a finite magnitude is a number of full width at most, times a
/// power of two.
pub(crate) proof fn lemma_is_short(f: Format, magnitude: nat) -> (parts: (nat, nat))
    requires
        0 < magnitude < f.infinity(),
    ensures
        f.steps(magnitude) == parts.0 * pow2(parts.1),
        0 < parts.0 < 2 * f.range(),
        parts.1 <= magnitude / (f.range() as nat),
{
    let range = f.range() as nat;
    lemma_steps_by_parts(f, magnitude);
    vstd::arithmetic::div_mod::lemma_fundamental_div_mod(magnitude as int, range as int);
    vstd::arithmetic::div_mod::lemma_mod_bound(magnitude as int, range as int);
    lemma2_to64();
    if magnitude / range == 0 {
        let fraction = magnitude % range;
        assert(magnitude == fraction) by (nonlinear_arith)
            requires
                magnitude == range * (magnitude / range) + fraction,
                magnitude / range == 0,
        ;
        assert(fraction * pow2(0) == fraction) by (nonlinear_arith)
            requires
                pow2(0) == 1,
        ;
        (fraction, 0)
    } else {
        (range + magnitude % range, (magnitude / range - 1) as nat)
    }
}

/// A number times a power of two is exact, if it is not too large.
pub(crate) proof fn lemma_power_is_exact(f: Format, magnitude: nat, n: nat)
    requires
        magnitude < f.infinity(),
        magnitude / (f.range() as nat) + n <= match f {
            Format::Single => 200nat,
            Format::Double => 1990nat,
        },
    ensures
        ({
            let m = f.nearest(f.steps(magnitude) * (pow2(n) * f.one()), f.one());
            m < f.infinity() && f.steps(m) == f.steps(magnitude) * pow2(n)
        }),
{
    let o = f.one();
    let x = f.steps(magnitude);
    lemma_pow2_pos(f.depth() as nat);
    lemma_steps_of_zero(f);
    let exact = x * pow2(n);
    if magnitude == 0 {
        assert(exact == 0) by (nonlinear_arith)
            requires
                exact == x * pow2(n),
                x == 0,
        ;
        assert(x * (pow2(n) * o) == 0) by (nonlinear_arith)
            requires
                x == 0,
        ;
        law_value_is_kept(f, 0, o);
        assert(0 * o == 0);
    } else {
        let (a, e) = lemma_is_short(f, magnitude);
        lemma_pow2_adds(e, n);
        assert(exact == a * pow2(e + n)) by (nonlinear_arith)
            requires
                exact == (a * pow2(e)) * pow2(n),
                pow2(e + n) == pow2(e) * pow2(n),
        ;
        law_short_number_is_exact(f, a, e + n);
        let m = f.nearest(exact, 1);
        law_value_is_kept(f, m, o);
        assert(x * (pow2(n) * o) == f.steps(m) * o) by (nonlinear_arith)
            requires
                f.steps(m) == x * pow2(n),
        ;
    }
}

/// The value of the least speed on a straight line.
proof fn lemma_least_speed()
    ensures
        0x100_0000 * size(10 * (Single { bits: MIN_DIRECT_SPEED }).value() - Format::Single.one())
            <= Format::Single.one(),
        Format::Single.steps(0x4000_0000) == 2 * Format::Single.one(),
        0 < (Single { bits: MIN_DIRECT_SPEED }).value() < Format::Single.one(),
{
    let f = Format::Single;
    lemma2_to64();
    lemma_steps_by_parts(f, 0x3dcc_cccd);
    assert(0x3dcc_cccdnat / 0x80_0000nat == 123 && 0x3dcc_cccdnat % 0x80_0000nat == 0x4c_cccd);
    lemma_steps_by_parts(f, 0x4000_0000);
    assert(0x4000_0000nat / 0x80_0000nat == 128 && 0x4000_0000nat % 0x80_0000nat == 0);
    let p = pow2(122);
    lemma_pow2_pos(122);
    lemma_pow2_adds(122, 27);
    lemma_pow2_adds(122, 5);
    assert(f.steps(0x3dcc_cccd) == 0xcc_cccd * p);
    assert(f.steps(0x4000_0000) == 0x80_0000 * pow2(127));
}

/// The speed on a straight line is twice the distance for each second, exactly,
/// but no less than 0.1 and no more than 2 m/s.
pub proof fn law_direct_speed_is_twice_the_distance(distance: Single)
    requires
        distance.finite(),
        !distance.number().negative,
    ensures
        ({
            let speed = Motion::direct_speed(distance).value();
            let least = (Single { bits: MIN_DIRECT_SPEED }).value();
            let one = Format::Single.one() as int;
            let aim = 2 * distance.value();
            &&& 0x100_0000 * size(10 * least - one) <= one
            &&& aim <= least ==> speed == least
            &&& least <= aim <= 2 * one ==> speed == aim
            &&& 2 * one <= aim ==> speed == 2 * one
        }),
{
    let f = Format::Single;
    let o = f.one();
    let two = Single { bits: 0x4000_0000 };
    let least = Single { bits: MIN_DIRECT_SPEED };
    let x = f.steps(distance.magnitude());
    lemma_least_speed();
    lemma_pow2_pos(149);
    lemma_steps_of_zero(f);
    lemma2_to64();
    let num = x * (2 * o);
    let m = f.nearest(num, o);
    let p = distance.product(two);
    law_every_number_is_rounded(f, num, o);
    assert(p.number() == Number { negative: false, magnitude: m as u64 });
    if 2 * x < 2 * o {
        if distance.magnitude() >= 0x4000_0000 {
            if distance.magnitude() > 0x4000_0000 {
                lemma_steps_increase(f, 0x4000_0000, distance.magnitude());
            }
        }
        assert(distance.magnitude() / 0x80_0000 <= 128) by {
            vstd::arithmetic::div_mod::lemma_fundamental_div_mod(
                distance.magnitude() as int,
                0x80_0000,
            );
        }
        lemma_power_is_exact(f, distance.magnitude(), 1);
        assert(f.steps(m) == 2 * x);
        lemma_order(p, two);
        lemma_order(p, least);
        lemma_order(two, least);
    } else {
        law_value_is_kept(f, 0x4000_0000, o);
        assert((2 * o) * o <= num) by (nonlinear_arith)
            requires
                num == x * (2 * o),
                o <= x,
        ;
        law_rounding_keeps_order(f, (2 * o) * o, num, o);
        assert(m >= 0x4000_0000);
        lemma_order(two, least);
    }
}

/// The order of two finite singles is that of their values.
pub(crate) proof fn lemma_order(a: Single, b: Single)
    requires
        a.finite(),
        b.finite(),
    ensures
        a.less(b) <==> a.value() < b.value(),
        b.less(a) <==> b.value() < a.value(),
{
    let f = Format::Single;
    let (m, n) = (a.magnitude(), b.magnitude());
    if m < n {
        lemma_steps_increase(f, m, n);
    } else if n < m {
        lemma_steps_increase(f, n, m);
    }
    lemma_steps_of_zero(f);
    if m > 0 {
        lemma_steps_increase(f, 0, m);
    }
    if n > 0 {
        lemma_steps_increase(f, 0, n);
    }
}

/// Whether a vector is what another one becomes when its length `norm` is made
/// `length`, but for one part in 2^40 of that and the smallest positive single:
/// both are compared times `norm`.
pub open spec fn finely_along(x: int, y: int, length: nat, dx: int, dy: int, norm: nat) -> bool {
    short(
        norm * x - length * dx,
        norm * y - length * dy,
        norm * (length / 0x100_0000_0000 + finer()),
    )
}

/// A vector that is scaled to a limit keeps its direction and gets the limit's
/// length, but for rounding, where it is longer, and stays as it is where it is
/// not: its exact length is compared with the limit up to one part in 2^37 of
/// the square.
pub proof fn law_shortened_vector_lies_along(v: Vec2F64, limit: Scalar)
    requires
        v.x.finite(),
        v.y.finite(),
        v.norm().finite(),
        limit.finite(),
        Scalar::zero().at_most(limit),
        finer() <= Format::Double.steps(limit.magnitude()),
    ensures
        ({
            let w = v.shortened(limit);
            let ww = square_of(v.x) + square_of(v.y);
            let ll = square_of(limit);
            &&& 0x20_0000_0001 * ww <= 0x20_0000_0000 * ll ==> w == v
            &&& 0x20_0000_0001 * ll <= 0x20_0000_0000 * ww ==> finely_along(
                w.x.value(),
                w.y.value(),
                Format::Double.steps(limit.magnitude()),
                v.x.value(),
                v.y.value(),
                Format::Double.steps(v.norm().magnitude()),
            )
        }),
{
    let f = Format::Double;
    let l = f.steps(limit.magnitude());
    let s = f.steps(v.norm().magnitude());
    let (ww, ss, ll) = (square_of(v.x) + square_of(v.y), s * s, l * l);
    lemma_finer_is_large();
    lemma_limit_is_positive(limit);
    law_order_is_numeric(limit, v.norm());
    lemma_norm_is_not_negative(v);
    if finer() <= s {
        lemma_long_norm(v);
    } else {
        lemma_short_norm(v);
        lemma_finer_is_large();
        assert(finer() * finer() <= ll) by (nonlinear_arith)
            requires
                finer() <= l,
                ll == l * l,
        ;
        assert(ss < finer() * finer()) by (nonlinear_arith)
            requires
                s < finer(),
                ss == s * s,
        ;
    }
    assert(ll > 0) by (nonlinear_arith)
        requires
            ll == l * l,
            l >= finer(),
            finer() > 0,
    ;
    if limit.less(v.norm()) {
        assert(ll <= ss) by (nonlinear_arith)
            requires
                l < s,
                ll == l * l,
                ss == s * s,
        ;
        lemma_scaled_lies_along(v, limit);
    } else {
        assert(ss <= ll) by (nonlinear_arith)
            requires
                s <= l,
                ll == l * l,
                ss == s * s,
        ;
    }
}

/// A vector that is longer than a limit and is scaled to it.
pub(crate) proof fn lemma_scaled_lies_along(v: Vec2F64, limit: Scalar)
    requires
        v.x.finite(),
        v.y.finite(),
        v.norm().finite(),
        limit.finite(),
        Scalar::zero().at_most(limit),
        finer() <= Format::Double.steps(limit.magnitude()),
        limit.less(v.norm()),
    ensures
        finely_along(
            v.shortened(limit).x.value(),
            v.shortened(limit).y.value(),
            Format::Double.steps(limit.magnitude()),
            v.x.value(),
            v.y.value(),
            Format::Double.steps(v.norm().magnitude()),
        ),
{
    let f = Format::Double;
    let o = f.one();
    let t = finer();
    let l = f.steps(limit.magnitude());
    let s = f.steps(v.norm().magnitude());
    let w = v.shortened(limit);
    let (nx, ny) = (v.x.value(), v.y.value());
    let (wx, wy) = (w.x.value(), w.y.value());
    lemma_limit_is_positive(limit);
    lemma_norm_is_not_negative(v);
    lemma_steps_of_zero(f);
    lemma_finer_is_large();
    lemma_pow2_pos(1074);
    law_order_is_numeric(limit, v.norm());
    assert(!limit.number().negative);
    lemma_long_norm(v);
    lemma_square_of_value(v.x);
    lemma_square_of_value(v.y);
    assert((2 * s) * (2 * s) == 4 * (s * s)) by (nonlinear_arith);
    assert(s * s >= 0) by (nonlinear_arith);
    assert(short(nx, ny, 2 * s));
    law_every_number_is_rounded(f, l * o, s);
    lemma_factor_is_close(l, s);
    let factor = limit.quotient(v.norm());
    assert(factor.magnitude() == f.nearest(l * o, s));
    let q = f.steps(factor.magnitude());
    assert(factor.value() == q);
    lemma_distance_of_rounded(factor.magnitude(), l * o, s);
    law_shortened_vector_is_within(v, limit);
    lemma_product_error(v.x, factor);
    lemma_product_error(v.y, factor);
    lemma_scaled_parts(nx, ny, wx, wy, s, l, q, o, t);
}

/// The parts of a scaled vector.
proof fn lemma_scaled_parts(
    nx: int,
    ny: int,
    wx: int,
    wy: int,
    s: nat,
    l: nat,
    q: nat,
    o: nat,
    t: nat,
)
    requires
        o > 0,
        t >= 0x40_0000_0000_0000,
        0x10_0000 * s <= o * t,
        short(nx, ny, 2 * s),
        0x10_0000_0000_0000 * (s * q - l * o) <= l * o + 0x20_0000_0000_0000 * s,
        0x10_0000_0000_0000 * (l * o - s * q) <= l * o + 0x20_0000_0000_0000 * s,
        0x10_0000_0000_0000 * size(o * wx - nx * q) <= size(nx * q) + 0x20_0000_0000_0000 * o,
        0x10_0000_0000_0000 * size(o * wy - ny * q) <= size(ny * q) + 0x20_0000_0000_0000 * o,
    ensures
        short(s * wx - l * nx, s * wy - l * ny, s * (l / 0x100_0000_0000 + t)),
{
    let (sq, lo, ot) = (s * q, l * o, o * t);
    lemma_multiplied(nx, ny, 2 * s, q);
    assert(q * nx == nx * q && q * ny == ny * q) by (nonlinear_arith);
    assert(q * (2 * s) == 2 * sq) by (nonlinear_arith)
        requires
            sq == s * q,
    ;
    let (ex, ey) = (o * wx - nx * q, o * wy - ny * q);
    let k = (0x20_0000_0000_0000 * o) as nat;
    lemma_small_parts(ex, ey, nx * q, ny * q, 2 * sq, 0x10_0000_0000_0000nat, k);
    let e = ((2 * sq + 2 * k) / 0x10_0000_0000_0000nat + 1) as nat;
    lemma_multiplied(ex, ey, e, s);
    let g = sq - lo;
    lemma_multiplied_signed(nx, ny, 2 * s, g);
    lemma_triangle(s * ex, s * ey, g * nx, g * ny, s * e, size(g) * (2 * s));
    let all = e + 2 * size(g);
    let c = l / 0x100_0000_0000;
    let oc = o * c;
    assert(lo <= 0x100_0000_0000 * oc + 0x100_0000_0000 * o) by (nonlinear_arith)
        requires
            l < 0x100_0000_0000 * c + 0x100_0000_0000,
            lo == l * o,
            oc == o * c,
    ;
    assert(0x40_0000_0000_0000 * o <= ot) by (nonlinear_arith)
        requires
            ot == o * t,
            t >= 0x40_0000_0000_0000,
    ;
    assert(all <= oc + ot);
    let b = (c + t) as nat;
    assert(o * b == oc + ot) by (nonlinear_arith)
        requires
            b == c + t,
            oc == o * c,
            ot == o * t,
    ;
    let sb = s * b;
    assert(s * e + size(g) * (2 * s) == s * all) by (nonlinear_arith)
        requires
            all == e + 2 * size(g),
    ;
    assert(s * all <= o * sb) by (nonlinear_arith)
        requires
            all <= o * b,
            sb == s * b,
    ;
    let (vx, vy) = (s * wx - l * nx, s * wy - l * ny);
    assert(s * ex + g * nx == o * vx && s * ey + g * ny == o * vy) by {
        assert(s * (o * wx - nx * q) + (s * q - l * o) * nx == o * (s * wx - l * nx))
            by (nonlinear_arith);
        assert(s * (o * wy - ny * q) + (s * q - l * o) * ny == o * (s * wy - l * ny))
            by (nonlinear_arith);
    }
    lemma_longer(
        o * vx,
        o * vy,
        (s * e + size(g) * (2 * s)) as nat,
        o * sb,
    );
    lemma_divided(vx, vy, sb, o);
}

/// Under control in x and y a robot takes the velocity that its controllers ask
/// for, as it is within 1.5 m/s and else at that speed in the same direction, and
/// does not turn. Lengths are compared up to one part in 2^37 of the square.
pub proof fn law_controlled_velocity_is_the_one_asked_for(
    robot: RobotState,
    vx: Scalar,
    vy: Scalar,
)
    requires
        vx.finite(),
        vy.finite(),
        (Vec2F64 { x: vx, y: vy }).norm().finite(),
    ensures
        ({
            let command = Motion::controlled_command(robot, vx, vy);
            let top = Format::Double.steps(MAX_CONTROL_SPEED as nat);
            let ww = square_of(vx) + square_of(vy);
            &&& 2 * top == 3 * Format::Double.one()
            &&& command.omega.value() == 0
            &&& 0x20_0000_0001 * ww <= 0x20_0000_0000 * (top * top) ==> command.vx == vx
                && command.vy == vy
            &&& 0x20_0000_0001 * (top * top) <= 0x20_0000_0000 * ww ==> finely_along(
                command.vx.value(),
                command.vy.value(),
                top,
                vx.value(),
                vy.value(),
                Format::Double.steps((Vec2F64 { x: vx, y: vy }).norm().magnitude()),
            )
        }),
{
    let f = Format::Double;
    lemma2_to64();
    lemma2_to64_rest();
    lemma_steps_of_zero(f);
    lemma_steps_by_parts(f, 0x3ff8_0000_0000_0000);
    assert(0x3ff8_0000_0000_0000nat / 0x10_0000_0000_0000nat == 1023 && 0x3ff8_0000_0000_0000nat
        % 0x10_0000_0000_0000nat == 0x8_0000_0000_0000);
    assert(f.steps(0x3ff8_0000_0000_0000) == 0x18_0000_0000_0000 * pow2(1022));
    lemma_pow2_adds(1022, 52);
    lemma_pow2_strictly_increases(925, 1022);
    law_shortened_vector_lies_along(
        Vec2F64 { x: vx, y: vy },
        Scalar { bits: MAX_CONTROL_SPEED },
    );
}

/// The values of the limits in double precision.
proof fn lemma_limits_in_double()
    ensures
        ({
            let one = Format::Double.one();
            &&& Format::Double.steps(0x402e_0000_0000_0000) == 15 * one
            &&& 2 * Format::Double.steps(0x4004_0000_0000_0000) == 5 * one
        }),
{
    let f = Format::Double;
    let range = DOUBLE_RANGE as nat;
    lemma2_to64();
    lemma2_to64_rest();
    lemma_steps_by_parts(f, 0x402e_0000_0000_0000);
    assert(0x402e_0000_0000_0000nat / range == 1026 && 0x402e_0000_0000_0000nat % range
        == 0xe_0000_0000_0000);
    lemma_steps_by_parts(f, 0x4004_0000_0000_0000);
    assert(0x4004_0000_0000_0000nat / range == 1024 && 0x4004_0000_0000_0000nat % range
        == 0x4_0000_0000_0000);
    let p = pow2(1023);
    lemma_pow2_adds(1023, 2);
    lemma_pow2_adds(1023, 51);
    assert(f.steps(0x402e_0000_0000_0000) == 0x1e_0000_0000_0000 * pow2(1025));
    assert(f.steps(0x4004_0000_0000_0000) == 0x14_0000_0000_0000 * p);
}

/// The value of a step and of the reach of a straight move.
proof fn lemma_step_and_reach()
    ensures
        0x10_0000_0000_0000 * size(
            1000 * Format::Double.steps(0x3f90_624d_d2f1_a9fc) - 16 * Format::Double.one(),
        ) <= 16 * Format::Double.one(),
        0x100_0000 * size(20 * Format::Single.steps(0x3d4c_cccd) - Format::Single.one())
            <= Format::Single.one(),
        20 * Format::Single.steps(0x3d4c_cccd) > Format::Single.one(),
{
    let f = Format::Double;
    let range = DOUBLE_RANGE as nat;
    lemma2_to64();
    lemma2_to64_rest();
    lemma_steps_by_parts(f, 0x3f90_624d_d2f1_a9fc);
    assert(0x3f90_624d_d2f1_a9fcnat / range == 1017 && 0x3f90_624d_d2f1_a9fcnat % range
        == 0x624d_d2f1_a9fc);
    let p = pow2(1016);
    lemma_pow2_adds(1016, 58);
    assert(f.steps(0x3f90_624d_d2f1_a9fc) == 0x10_624d_d2f1_a9fc * p);
    assert(f.one() == 0x400_0000_0000_0000 * p);
    let g = Format::Single;
    lemma_steps_by_parts(g, 0x3d4c_cccd);
    assert(0x3d4c_cccdnat / 0x80_0000nat == 122 && 0x3d4c_cccdnat % 0x80_0000nat == 0x4c_cccd);
    let q = pow2(121);
    lemma_pow2_pos(121);
    lemma_pow2_adds(121, 28);
    assert(g.steps(0x3d4c_cccd) == 0xcc_cccd * q);
    assert(g.one() == 0x1000_0000 * q);
}

/// The limits by their values: 15 m/s^2 and 2.5 m/s for the controller and along
/// planned paths, 0.016 s for a step and 0.05 m for the end of a straight move,
/// the last two but for rounding.
pub proof fn law_values_of_the_limits()
    ensures
        ({
            let one = Format::Double.one() as int;
            &&& (Scalar { bits: MAX_ACCELERATION }).value() == 15 * one
            &&& 2 * (Scalar { bits: MAX_VELOCITY }).value() == 5 * one
            &&& 2 * (Scalar { bits: PATH_SPEED }).value() == 5 * one
            &&& 0x10_0000_0000_0000 * size(1000 * (Scalar { bits: STEP_SECONDS }).value() - 16
                * one) <= 16 * one
            &&& 0x100_0000 * size(
                20 * (Single { bits: DIRECT_REACHED }).value() - Format::Single.one(),
            ) <= Format::Single.one()
        }),
{
    lemma_limits_in_double();
    lemma_step_and_reach();
}

/// A robot whose path has no next point, or that is within 0.05 m of the target
/// of a straight move, is told to stand still. Beyond that a straight move goes
/// on, but for rounding.
pub proof fn law_arrived_robot_does_not_move(
    robot: RobotState,
    path: Seq<Vec2>,
    target: Vec2,
    angle: Single,
)
    ensures
        path.len() <= 1 ==> stands(Motion::path_command(robot, path, angle)),
        ({
            let distance = target.from_point(robot.position).norm();
            let one = Format::Single.one();
            &&& distance.finite() && 20 * distance.value() <= one ==> stands(
                Motion::direct_command(robot, target, angle),
            )
            &&& distance.finite() && 0x100_0000 * (20 * distance.value()) >= 0x100_0001 * one
                ==> !distance.less(Single { bits: DIRECT_REACHED })
        }),
{
    let distance = target.from_point(robot.position).norm();
    lemma_steps_of_zero(Format::Double);
    lemma_step_and_reach();
    if distance.finite() {
        lemma_order(distance, Single { bits: DIRECT_REACHED });
    }
}

/// Whether a command has a robot neither move nor turn.
pub open spec fn stands(command: MotionCommand) -> bool {
    &&& command.vx.finite() && command.vx.value() == 0
    &&& command.vy.finite() && command.vy.value() == 0
    &&& command.omega.finite() && command.omega.value() == 0
}

/// There is no direction to where a robot stands: its parts are no numbers, and
/// neither is a velocity along a path to that point.
pub proof fn law_no_direction_to_where_it_stands(
    robot: RobotState,
    path: Seq<Vec2>,
    angle: Single,
)
    requires
        path.len() > 1,
        path[1].from_point(robot.position).x.magnitude() == 0,
        path[1].from_point(robot.position).y.magnitude() == 0,
    ensures
        Motion::direction(robot, path[1]).x.nan(),
        Motion::direction(robot, path[1]).y.nan(),
        Motion::path_command(robot, path, angle).vx.nan(),
        Motion::path_command(robot, path, angle).vy.nan(),
{
    let f = Format::Single;
    let way = path[1].from_point(robot.position);
    lemma_steps_of_zero(f);
    lemma_pow2_pos(149);
    lemma_small_is_zero(f, 0, f.one());
    assert(f.steps(0) * f.steps(0) == 0) by (nonlinear_arith)
        requires
            f.steps(0) == 0,
    ;
    assert(way.x.product(way.x).magnitude() == 0);
    assert(way.y.product(way.y).magnitude() == 0);
    assert(way.norm().magnitude() == 0);
}

} // verus!
