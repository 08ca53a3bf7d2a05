//! What holds of the change from one velocity to the next, with all rounding
//! taken into account.

use crate::arithmetic::finer;
use crate::motion::bang_bang::{BangBangController, Vec2F64};
use crate::motion::bounds::{
    is_finite, lemma_accelerated_is_bounded, lemma_bounded_norm, lemma_bounded_single,
    lemma_bounded_sum, lemma_largest_single, lemma_loosen, lemma_narrowing_deficit,
    lemma_narrowing_error, lemma_narrowing_is_within, lemma_product_is_not_negative, LARGEST_SINGLE,
};
use crate::motion::geometry::{
    lemma_divided, lemma_longer, lemma_multiplied, lemma_scaling_comes_nearer, lemma_small_parts,
    lemma_triangle, short, size,
};
use crate::motion::limits::{
    law_shortened_vector_is_within, lemma_distance_of_rounded, lemma_factor_is_close,
    lemma_long_norm, square_of, within,
};
use crate::rounding::{law_every_number_is_rounded, lemma_steps_of_zero, Format};
use crate::scalar::{law_order_is_numeric, Scalar};
use crate::single::{law_widening_keeps_the_value, Single, Vec2};
use vstd::arithmetic::power2::{
    lemma2_to64, lemma2_to64_rest, lemma_pow2_adds, lemma_pow2_pos, lemma_pow2_strictly_increases,
};
use vstd::prelude::*;

verus! {

/// How far the next velocity may be from the last one: as far as the
/// acceleration allows, and for rounding one part in 2^20 of that and of the
/// largest speed, and sixteen times the smallest positive single.
pub open spec fn allowance(most: nat, limit: nat) -> nat {
    most + (most + limit) / 0x10_0000 + 16 * finer()
}

/// From one step to the next the velocity changes by no more than the
/// acceleration allows in the step, but for rounding, unless the target is
/// reached, where the controller stops at once. The velocity so far is within
/// the largest speed. Velocities are counted in the smallest positive double.
pub proof fn law_acceleration_is_limited(
    controller: BangBangController,
    current_pos: Vec2,
    target_pos: Vec2,
    current_vel: Vec2,
    dt: Scalar,
)
    requires
        is_finite(current_pos),
        is_finite(target_pos),
        is_finite(current_vel),
        dt.finite(),
        Scalar::zero().at_most(dt),
        controller.acceleration_limit().finite(),
        Scalar::zero().at_most(controller.acceleration_limit()),
        controller.acceleration_limit().product(dt).finite(),
        Scalar::zero().at_most(controller.velocity_limit()),
        controller.velocity_limit().at_most(Scalar { bits: LARGEST_SINGLE }),
        Vec2F64::of(current_vel).norm().at_most(controller.velocity_limit()),
        !BangBangController::reached(
            Vec2F64::of(target_pos).difference(Vec2F64::of(current_pos)).norm(),
        ),
    ensures
        ({
            let next = controller.next_velocity(current_pos, target_pos, current_vel, dt);
            let most = controller.acceleration_limit().product(dt);
            let limit = controller.velocity_limit();
            short(
                (next.x.value() - current_vel.x.value()) * finer(),
                (next.y.value() - current_vel.y.value()) * finer(),
                allowance(
                    Format::Double.steps(most.magnitude()),
                    Format::Double.steps(limit.magnitude()),
                ),
            )
        }),
{
    let way = Vec2F64::of(target_pos).difference(Vec2F64::of(current_pos));
    let current = Vec2F64::of(current_vel);
    lemma_bounded_single(target_pos.x);
    lemma_bounded_single(target_pos.y);
    lemma_bounded_single(current_pos.x);
    lemma_bounded_single(current_pos.y);
    lemma_bounded_single(current_vel.x);
    lemma_bounded_single(current_vel.y);
    lemma_bounded_sum(target_pos.x.widened(), current_pos.x.widened(), 1202);
    lemma_bounded_sum(target_pos.y.widened(), current_pos.y.widened(), 1202);
    let limit = controller.velocity_limit();
    let most = controller.acceleration_limit().product(dt);
    lemma_largest_single(limit);
    lemma_loosen(limit, 1202, 1207);
    lemma_accelerated_is_bounded(controller, way, current, dt);
    lemma_product_is_not_negative(controller.acceleration_limit(), dt);
    let change = controller.desired_velocity(way, current.norm(), dt).difference(current);
    let limited = controller.limited_change(change, dt);
    law_shortened_vector_is_within(change, most);
    law_shortened_vector_is_within(current, limit);
    assert(current.shortened(limit) == current);
    let reached = controller.accelerated(way, current, dt);
    lemma_bounded_norm(reached, 1348);
    law_shortened_vector_is_within(reached, limit);
    lemma_sum_is_near(current, limited, most, limit);
    let w = reached.shortened(limit);
    lemma_capped_is_near(current, reached, most, limit);
    lemma_narrowing_is_within(w.x, w.y, limit);
    lemma_narrowed_is_near(current, w, most, limit);
    law_widening_keeps_the_value(current_vel.x);
    law_widening_keeps_the_value(current_vel.y);
    let next = w.narrowed();
    let t = finer() as int;
    lemma_factored(next.x.value(), current_vel.x.value(), t);
    lemma_factored(next.y.value(), current_vel.y.value(), t);
}

/// A factor of a difference is one of each part.
proof fn lemma_factored(a: int, b: int, k: int)
    by (nonlinear_arith)
    ensures
        (a - b) * k == a * k - b * k,
{
}

/// The value of the smallest positive single is not small in doubles.
pub(crate) proof fn lemma_finer_is_large()
    ensures
        finer() >= 0x40_0000_0000_0000,
        0x4_0000_0000_0000_0000_0000_0000_0000 * Format::Double.one() <= finer() * finer(),
{
    lemma2_to64();
    lemma2_to64_rest();
    lemma_pow2_strictly_increases(54, 925);
    lemma_pow2_adds(925, 925);
    lemma_pow2_adds(114, 1074);
    lemma_pow2_adds(57, 57);
    lemma_pow2_strictly_increases(1188, 1850);
}

/// A number's square is that of its value.
pub(crate) proof fn lemma_square_of_value(a: Scalar)
    ensures
        square_of(a) == a.value() * a.value(),
{
    let s = Format::Double.steps(a.magnitude()) as int;
    assert((-s) * (-s) == s * s) by (nonlinear_arith);
}

/// The length that a vector within a limit has at most.
pub(crate) open spec fn reach(l: nat) -> nat {
    l + l / 0x4000_0000 + finer()
}

/// What is within a limit is no longer than it, and a little.
pub(crate) proof fn lemma_within_is_short(v: Vec2F64, l: nat)
    requires
        within(square_of(v.x) + square_of(v.y), l * l, Format::Double.one()),
    ensures
        short(v.x.value(), v.y.value(), reach(l)),
{
    lemma_square_of_value(v.x);
    lemma_square_of_value(v.y);
    lemma_finer_is_large();
    let ww = square_of(v.x) + square_of(v.y);
    let t = finer();
    let q = l / 0x4000_0000;
    let b = reach(l);
    let (ll, lq, lt, tt) = (l * l, l * q, l * t, t * t);
    assert(b * b >= ll + 2 * lq + 2 * lt + tt) by (nonlinear_arith)
        requires
            b == l + q + t,
            ll == l * l,
            lq == l * q,
            lt == l * t,
            tt == t * t,
            q >= 0,
            t >= 0,
    ;
    assert(l < 0x4000_0000 * q + 0x4000_0000);
    assert(ll <= 0x4000_0000 * lq + 0x4000_0000 * l) by (nonlinear_arith)
        requires
            l < 0x4000_0000 * q + 0x4000_0000,
            ll == l * l,
            lq == l * q,
    ;
    assert(l <= lt) by (nonlinear_arith)
        requires
            lt == l * t,
            t >= 1,
    ;
    assert(ww <= b * b);
}

/// How far a sum can be from the exact one.
pub(crate) proof fn lemma_sum_error(a: Scalar, b: Scalar)
    requires
        a.finite(),
        b.finite(),
        a.sum(b).finite(),
    ensures
        0x10_0000_0000_0000 * size(a.sum(b).value() - (a.value() + b.value())) <= size(
            a.value() + b.value(),
        ) + 0x20_0000_0000_0000,
{
    let f = Format::Double;
    let v = a.value() + b.value();
    let num = size(v);
    lemma_steps_of_zero(f);
    law_every_number_is_rounded(f, num, 1);
    let m = f.nearest(num, 1);
    if v != 0 {
        assert(a.sum(b).magnitude() == m);
        lemma_distance_of_rounded(m, num, 1);
        assert(1 * f.steps(m) == f.steps(m));
    } else {
        assert(a.sum(b).magnitude() == 0);
    }
}

/// How far a product can be from the exact one.
pub(crate) proof fn lemma_product_error(a: Scalar, b: Scalar)
    requires
        a.finite(),
        b.finite(),
        a.product(b).finite(),
    ensures
        ({
            let o = Format::Double.one();
            0x10_0000_0000_0000 * size(o * a.product(b).value() - a.value() * b.value()) <= size(
                a.value() * b.value(),
            ) + 0x20_0000_0000_0000 * o
        }),
{
    let f = Format::Double;
    let o = f.one();
    let x = f.steps(a.magnitude()) as int;
    let y = f.steps(b.magnitude()) as int;
    let num = f.steps(a.magnitude()) * f.steps(b.magnitude());
    lemma_pow2_pos(1074);
    law_every_number_is_rounded(f, num, o);
    let m = f.nearest(num, o);
    assert(a.product(b).magnitude() == m);
    lemma_distance_of_rounded(m, num, o);
    let s = f.steps(m) as int;
    assert((-x) * y == -(x * y) && x * (-y) == -(x * y) && (-x) * (-y) == x * y)
        by (nonlinear_arith);
    assert(o * (-s) == -(o * s)) by (nonlinear_arith);
    assert(x * y >= 0) by (nonlinear_arith)
        requires
            x >= 0,
            y >= 0,
    ;
}

/// How far a number that is rounded to single precision can be from the exact
/// one.
pub(crate) proof fn lemma_narrow_error(x: Scalar)
    requires
        x.finite(),
        Single::narrowed(x).finite(),
    ensures
        0x80_0000 * size(Single::narrowed(x).value() * finer() - x.value()) <= size(x.value())
            + 0x80_0001 * finer(),
{
    let t = finer();
    let a = Format::Double.steps(x.magnitude());
    lemma_pow2_pos(925);
    law_every_number_is_rounded(Format::Single, a, t);
    let m = Format::Single.nearest(a, t);
    assert(Single::narrowed(x).magnitude() == m);
    lemma_narrowing_error(m, a);
    lemma_narrowing_deficit(m, a);
    let s = Format::Single.steps(m) as int;
    assert((-s) * t == -(s * t)) by (nonlinear_arith);
}

/// How far a velocity can be from the last one, before it is scaled.
spec fn first_allowance(a: nat, l: nat) -> nat {
    a + (a + l) / 0x400_0000 + 3 * finer()
}

/// A velocity and a change within what the acceleration allows have a sum that
/// is not far from the velocity.
proof fn lemma_sum_is_near(current: Vec2F64, limited: Vec2F64, most: Scalar, limit: Scalar)
    requires
        current.x.finite(),
        current.y.finite(),
        limited.x.finite(),
        limited.y.finite(),
        current.sum(limited).x.finite(),
        current.sum(limited).y.finite(),
        within(
            square_of(current.x) + square_of(current.y),
            square_of(limit),
            Format::Double.one(),
        ),
        within(
            square_of(limited.x) + square_of(limited.y),
            square_of(most),
            Format::Double.one(),
        ),
    ensures
        ({
            let n = current.sum(limited);
            short(
                n.x.value() - current.x.value(),
                n.y.value() - current.y.value(),
                first_allowance(
                    Format::Double.steps(most.magnitude()),
                    Format::Double.steps(limit.magnitude()),
                ),
            )
        }),
{
    let a = Format::Double.steps(most.magnitude());
    let l = Format::Double.steps(limit.magnitude());
    let (cx, cy) = (current.x.value(), current.y.value());
    let (dx, dy) = (limited.x.value(), limited.y.value());
    let n = current.sum(limited);
    let (nx, ny) = (n.x.value(), n.y.value());
    lemma_within_is_short(current, l);
    lemma_within_is_short(limited, a);
    lemma_triangle(cx, cy, dx, dy, reach(l), reach(a));
    lemma_sum_error(current.x, limited.x);
    lemma_sum_error(current.y, limited.y);
    let (ex, ey) = (nx - (cx + dx), ny - (cy + dy));
    let b = (reach(l) + reach(a)) as nat;
    lemma_small_parts(
        ex,
        ey,
        cx + dx,
        cy + dy,
        b,
        0x10_0000_0000_0000nat,
        0x20_0000_0000_0000nat,
    );
    let e = ((b + 2 * 0x20_0000_0000_0000nat) / 0x10_0000_0000_0000nat + 1) as nat;
    lemma_triangle(dx, dy, ex, ey, reach(a), e);
    lemma_finer_is_large();
    lemma_first_allowance(a, l, finer());
    lemma_longer(nx - cx, ny - cy, (reach(a) + e) as nat, first_allowance(a, l));
}

/// The parts of the first allowance.
proof fn lemma_first_allowance(a: nat, l: nat, t: nat)
    requires
        t >= 0x40_0000_0000_0000,
    ensures
        ({
            let ra = a + a / 0x4000_0000 + t;
            let rl = l + l / 0x4000_0000 + t;
            ra + (rl + ra + 2 * 0x20_0000_0000_0000nat) / 0x10_0000_0000_0000nat + 1 <= a + (a + l)
                / 0x400_0000 + 3 * t
        }),
{
}

/// How far a velocity can be from the last one, after it is scaled to the
/// largest speed.
spec fn second_allowance(a: nat, l: nat) -> nat {
    a + (a + l) / 0x100_0000 + 6 * finer()
}

/// Scaling to the largest speed brings a velocity no farther from the last one.
proof fn lemma_capped_is_near(current: Vec2F64, reached: Vec2F64, most: Scalar, limit: Scalar)
    requires
        current.x.finite(),
        current.y.finite(),
        reached.x.finite(),
        reached.y.finite(),
        reached.norm().finite(),
        limit.finite(),
        Scalar::zero().at_most(limit),
        within(
            square_of(current.x) + square_of(current.y),
            square_of(limit),
            Format::Double.one(),
        ),
        short(
            reached.x.value() - current.x.value(),
            reached.y.value() - current.y.value(),
            first_allowance(
                Format::Double.steps(most.magnitude()),
                Format::Double.steps(limit.magnitude()),
            ),
        ),
    ensures
        ({
            let w = reached.shortened(limit);
            short(
                w.x.value() - current.x.value(),
                w.y.value() - current.y.value(),
                second_allowance(
                    Format::Double.steps(most.magnitude()),
                    Format::Double.steps(limit.magnitude()),
                ),
            )
        }),
{
    let a = Format::Double.steps(most.magnitude());
    let l = Format::Double.steps(limit.magnitude());
    let t = finer();
    let w = reached.shortened(limit);
    let (cx, cy) = (current.x.value(), current.y.value());
    let (wx, wy) = (w.x.value(), w.y.value());
    lemma_finer_is_large();
    lemma_second_allowance(a, l, t);
    if l < t {
        law_shortened_vector_is_within(reached, limit);
        lemma_within_is_short(w, l);
        lemma_within_is_short(current, l);
        assert((-cx) * (-cx) == cx * cx && (-cy) * (-cy) == cy * cy) by (nonlinear_arith);
        lemma_triangle(wx, wy, -cx, -cy, reach(l), reach(l));
        lemma_longer(wx - cx, wy - cy, (reach(l) + reach(l)) as nat, second_allowance(a, l));
    } else if limit.less(reached.norm()) {
        lemma_scaled_is_near(current, reached, limit, first_allowance(a, l));
        lemma_longer(
            wx - cx,
            wy - cy,
            scaled_allowance(first_allowance(a, l), l),
            second_allowance(a, l),
        );
    } else {
        lemma_longer(wx - cx, wy - cy, first_allowance(a, l), second_allowance(a, l));
    }
}

/// How far a velocity can be from the last one after it is scaled, by how far it
/// was before.
spec fn scaled_allowance(d: nat, l: nat) -> nat {
    d + (l + d) / 0x4_0000_0000 + (reach(l) + d) / 0x10_0000_0000_0000 + 7
}

/// The parts of the second allowance.
proof fn lemma_second_allowance(a: nat, l: nat, t: nat)
    requires
        t >= 0x40_0000_0000_0000,
        t == finer(),
    ensures
        first_allowance(a, l) <= second_allowance(a, l),
        scaled_allowance(first_allowance(a, l), l) <= second_allowance(a, l),
        l < t ==> 2 * reach(l) <= second_allowance(a, l),
{
    let u = (a + l) / 0x400_0000;
    let d = a + u + 3 * t;
    let r = l + l / 0x4000_0000 + t;
    assert((l + d) / 0x4_0000_0000 <= (a + l) / 0x1000_0000 + t);
    assert((r + d) / 0x10_0000_0000_0000 <= (a + l) / 0x1000_0000 + t);
    assert(u + 2 * ((a + l) / 0x1000_0000) <= (a + l) / 0x100_0000);
}

/// A velocity that is longer than the largest speed and is scaled to it comes
/// no farther from one that is not, but for rounding.
proof fn lemma_scaled_is_near(current: Vec2F64, reached: Vec2F64, limit: Scalar, d: nat)
    requires
        current.x.finite(),
        current.y.finite(),
        reached.x.finite(),
        reached.y.finite(),
        reached.norm().finite(),
        limit.finite(),
        Scalar::zero().at_most(limit),
        limit.less(reached.norm()),
        finer() <= Format::Double.steps(limit.magnitude()),
        within(
            square_of(current.x) + square_of(current.y),
            square_of(limit),
            Format::Double.one(),
        ),
        short(
            reached.x.value() - current.x.value(),
            reached.y.value() - current.y.value(),
            d,
        ),
    ensures
        ({
            let w = reached.shortened(limit);
            short(
                w.x.value() - current.x.value(),
                w.y.value() - current.y.value(),
                scaled_allowance(d, Format::Double.steps(limit.magnitude())),
            )
        }),
{
    let f = Format::Double;
    let o = f.one();
    let l = f.steps(limit.magnitude());
    let s = f.steps(reached.norm().magnitude());
    let w = reached.shortened(limit);
    let (cx, cy) = (current.x.value(), current.y.value());
    let (nx, ny) = (reached.x.value(), reached.y.value());
    let (wx, wy) = (w.x.value(), w.y.value());
    lemma_steps_of_zero(f);
    lemma_finer_is_large();
    lemma_pow2_pos(1074);
    law_order_is_numeric(limit, reached.norm());
    assert(!limit.number().negative);
    assert(l < s);
    lemma_long_norm(reached);
    lemma_square_of_value(reached.x);
    lemma_square_of_value(reached.y);
    lemma_square_of_value(current.x);
    lemma_square_of_value(current.y);
    let tt = finer() * finer();
    assert(tt <= l * l) by (nonlinear_arith)
        requires
            tt == finer() * finer(),
            finer() <= l,
    ;
    assert(0x40_0000_0000 * (cx * cx + cy * cy) <= 0x40_0000_0001 * (l * l));
    law_every_number_is_rounded(f, l * o, s);
    lemma_factor_is_close(l, s);
    let factor = limit.quotient(reached.norm());
    assert(factor.magnitude() == f.nearest(l * o, s));
    let q = f.steps(factor.magnitude());
    assert(factor.value() == q);
    lemma_scaling_comes_nearer(nx, ny, cx, cy, d, l, s, q, o);
    law_shortened_vector_is_within(reached, limit);
    lemma_product_error(reached.x, factor);
    lemma_product_error(reached.y, factor);
    lemma_within_is_short(current, l);
    lemma_scaled_allowance(nx, ny, cx, cy, wx, wy, d, l, q, o);
}

/// The parts of the allowance after scaling.
proof fn lemma_scaled_allowance(
    nx: int,
    ny: int,
    cx: int,
    cy: int,
    wx: int,
    wy: int,
    d: nat,
    l: nat,
    q: nat,
    o: nat,
)
    requires
        o > 0,
        q <= o,
        short(cx, cy, reach(l)),
        short(nx - cx, ny - cy, d),
        short(
            0x40_0000_0000 * (q * nx - o * cx),
            0x40_0000_0000 * (q * ny - o * cy),
            o * (0x40_0000_0000 * d + 16 * (l + d)),
        ),
        0x10_0000_0000_0000 * size(o * wx - nx * q) <= size(nx * q) + 0x20_0000_0000_0000 * o,
        0x10_0000_0000_0000 * size(o * wy - ny * q) <= size(ny * q) + 0x20_0000_0000_0000 * o,
    ensures
        short(wx - cx, wy - cy, scaled_allowance(d, l)),
{
    // From the scaled vector to the last one.
    let b = d + (l + d) / 0x4_0000_0000 + 1;
    let c = 0x40_0000_0000 * d + 16 * (l + d);
    assert(c <= 0x40_0000_0000 * b);
    let ob = o * b;
    assert(o * c <= 0x40_0000_0000 * ob) by (nonlinear_arith)
        requires
            c <= 0x40_0000_0000 * b,
            ob == o * b,
            o >= 0,
    ;
    let (gx, gy) = (q * nx - o * cx, q * ny - o * cy);
    lemma_longer(
        0x40_0000_0000 * gx,
        0x40_0000_0000 * gy,
        (o * c) as nat,
        (0x40_0000_0000 * ob) as nat,
    );
    lemma_divided(gx, gy, ob as nat, 0x40_0000_0000nat);
    // From the scaled vector, rounded, to the exact one.
    let r = (reach(l) + d) as nat;
    lemma_triangle(cx, cy, nx - cx, ny - cy, reach(l), d);
    lemma_multiplied(nx, ny, r, q);
    assert(q * r <= o * r) by (nonlinear_arith)
        requires
            q <= o,
            r >= 0,
    ;
    lemma_longer(q * nx, q * ny, (q * r) as nat, (o * r) as nat);
    assert(q * nx == nx * q && q * ny == ny * q) by (nonlinear_arith);
    let (ex, ey) = (o * wx - nx * q, o * wy - ny * q);
    let k = (0x20_0000_0000_0000 * o) as nat;
    lemma_small_parts(ex, ey, nx * q, ny * q, (o * r) as nat, 0x10_0000_0000_0000nat, k);
    let or = o * r;
    let e = ((or + 2 * k) / 0x10_0000_0000_0000 + 1) as nat;
    let p = r / 0x10_0000_0000_0000;
    let op = o * p;
    assert(or <= 0x10_0000_0000_0000 * op + 0x10_0000_0000_0000 * o) by (nonlinear_arith)
        requires
            r < 0x10_0000_0000_0000 * p + 0x10_0000_0000_0000,
            or == o * r,
            op == o * p,
            o > 0,
    ;
    assert(e <= op + 6 * o);
    lemma_triangle(gx, gy, ex, ey, ob as nat, e);
    lemma_longer(gx + ex, gy + ey, (ob + e) as nat, (ob + op + 6 * o) as nat);
    let all = scaled_allowance(d, l);
    assert(o * all == ob + op + 6 * o) by (nonlinear_arith)
        requires
            all == b + p + 6,
            ob == o * b,
            op == o * p,
    ;
    assert(gx + ex == o * (wx - cx) && gy + ey == o * (wy - cy)) by (nonlinear_arith)
        requires
            gx == q * nx - o * cx,
            gy == q * ny - o * cy,
            ex == o * wx - nx * q,
            ey == o * wy - ny * q,
    ;
    lemma_divided(wx - cx, wy - cy, all, o);
}

/// Rounding to single precision brings a velocity no farther from the last one
/// than the allowance.
proof fn lemma_narrowed_is_near(current: Vec2F64, w: Vec2F64, most: Scalar, limit: Scalar)
    requires
        w.x.finite(),
        w.y.finite(),
        w.narrowed().x.finite(),
        w.narrowed().y.finite(),
        within(square_of(w.x) + square_of(w.y), square_of(limit), Format::Double.one()),
        short(
            w.x.value() - current.x.value(),
            w.y.value() - current.y.value(),
            second_allowance(
                Format::Double.steps(most.magnitude()),
                Format::Double.steps(limit.magnitude()),
            ),
        ),
    ensures
        short(
            w.narrowed().x.value() * finer() - current.x.value(),
            w.narrowed().y.value() * finer() - current.y.value(),
            allowance(
                Format::Double.steps(most.magnitude()),
                Format::Double.steps(limit.magnitude()),
            ),
        ),
{
    let a = Format::Double.steps(most.magnitude());
    let l = Format::Double.steps(limit.magnitude());
    let t = finer();
    let (cx, cy) = (current.x.value(), current.y.value());
    let (wx, wy) = (w.x.value(), w.y.value());
    let next = w.narrowed();
    let (ex, ey) = (next.x.value() * t - wx, next.y.value() * t - wy);
    lemma_within_is_short(w, l);
    lemma_narrow_error(w.x);
    lemma_narrow_error(w.y);
    let k = (0x80_0001 * t) as nat;
    lemma_small_parts(ex, ey, wx, wy, reach(l), 0x80_0000nat, k);
    let e = ((reach(l) + 2 * k) / 0x80_0000 + 1) as nat;
    lemma_triangle(wx - cx, wy - cy, ex, ey, second_allowance(a, l), e);
    lemma_finer_is_large();
    lemma_last_allowance(a, l, t);
    lemma_longer(
        wx - cx + ex,
        wy - cy + ey,
        (second_allowance(a, l) + e) as nat,
        allowance(a, l),
    );
}

/// The parts of the allowance.
proof fn lemma_last_allowance(a: nat, l: nat, t: nat)
    requires
        t >= 0x40_0000_0000_0000,
    ensures
        ({
            let r = l + l / 0x4000_0000 + t;
            a + (a + l) / 0x100_0000 + 6 * t + (r + 2 * (0x80_0001 * t)) / 0x80_0000 + 1 <= a + (a
                + l) / 0x10_0000 + 16 * t
        }),
{
    let r = l + l / 0x4000_0000 + t;
    assert((r + 2 * (0x80_0001 * t)) / 0x80_0000 <= (a + l) / 0x40_0000 + 4 * t);
    assert((a + l) / 0x100_0000 + (a + l) / 0x40_0000 <= (a + l) / 0x10_0000);
}

} // verus!
