//! A controller treats all four directions of the plane alike: no sign and no
//! axis is preferred.

use crate::arithmetic::{broadened, finer, narrowed, opposite, product, quotient, sum, Number};
use crate::motion::bang_bang::{BangBangController, Vec2F64};
use crate::rounding::{
    law_every_number_is_rounded, lemma_small_is_zero, lemma_steps_increase, lemma_steps_of_zero,
    Format,
};
use crate::scalar::Scalar;
use crate::single::{Single, Vec2};
use vstd::arithmetic::power2::lemma_pow2_pos;
use vstd::prelude::*;

verus! {

/// Whether two numbers are opposite: the magnitude is the same and the sign is
/// not. Zeros are opposite whatever their signs are, and so are two that are no
/// numbers.
pub open spec fn opposed_numbers(f: Format, a: Number, b: Number) -> bool {
    &&& a.magnitude == b.magnitude
    &&& a.magnitude == 0 || a.nan(f) || a.negative != b.negative
}

/// Whether two vectors are opposite in each part.
pub open spec fn opposed(v: Vec2, w: Vec2) -> bool {
    &&& opposed_numbers(Format::Single, v.x.number(), w.x.number())
    &&& opposed_numbers(Format::Single, v.y.number(), w.y.number())
}

/// Whether two vectors in double precision are opposite in each part.
#[verifier::opaque]
spec fn opposed_wide(v: Vec2F64, w: Vec2F64) -> bool {
    &&& opposed_numbers(Format::Double, v.x.number(), w.x.number())
    &&& opposed_numbers(Format::Double, v.y.number(), w.y.number())
}

/// The vector with the signs of both parts changed.
pub open spec fn reversed(v: Vec2) -> Vec2 {
    Vec2 { x: Single::of(opposite(v.x.number())), y: Single::of(opposite(v.y.number())) }
}

/// The vector with its parts exchanged.
pub open spec fn exchanged(v: Vec2) -> Vec2 {
    Vec2 { x: v.y, y: v.x }
}

/// The vector in double precision with its parts exchanged.
spec fn exchanged_wide(v: Vec2F64) -> Vec2F64 {
    Vec2F64 { x: v.y, y: v.x }
}

/// Where everything points the other way, so does the velocity that a
/// controller takes: turning the positions and the velocity so far around turns
/// its answer around, part by part and to the last bit but for the signs of
/// zeros.
pub proof fn law_signs_are_alike(
    controller: BangBangController,
    current_pos: Vec2,
    target_pos: Vec2,
    current_vel: Vec2,
    dt: Scalar,
)
    ensures
        ({
            let there = controller.next_velocity(current_pos, target_pos, current_vel, dt);
            let back = controller.next_velocity(
                reversed(current_pos),
                reversed(target_pos),
                reversed(current_vel),
                dt,
            );
            &&& opposed(there, back)
            &&& there.x.finite() ==> back.x.finite() && back.x.value() == -there.x.value()
            &&& there.y.finite() ==> back.y.finite() && back.y.value() == -there.y.value()
        }),
{
    let p = Vec2F64::of(current_pos);
    let t = Vec2F64::of(target_pos);
    let v = Vec2F64::of(current_vel);
    let q = Vec2F64::of(reversed(current_pos));
    let u = Vec2F64::of(reversed(target_pos));
    let w = Vec2F64::of(reversed(current_vel));
    lemma_widened(current_pos, reversed(current_pos));
    lemma_widened(target_pos, reversed(target_pos));
    lemma_widened(current_vel, reversed(current_vel));
    let way = t.difference(p);
    let turned = u.difference(q);
    lemma_sums(t, u, p, q);
    lemma_norms(way, turned);
    if !BangBangController::reached(way.norm()) {
        lemma_accelerated(controller, way, turned, v, w, dt);
        let reached = controller.accelerated(way, v, dt);
        let other = controller.accelerated(turned, w, dt);
        lemma_shortened(reached, other, controller.velocity_limit());
        lemma_narrowed(controller.capped(reached), controller.capped(other));
    }
    let there = controller.next_velocity(current_pos, target_pos, current_vel, dt);
    let back = controller.next_velocity(
        reversed(current_pos),
        reversed(target_pos),
        reversed(current_vel),
        dt,
    );
    assert(opposed(there, back));
    if there.x.finite() {
        lemma_opposed_value(there.x, back.x);
    }
    if there.y.finite() {
        lemma_opposed_value(there.y, back.y);
    }
}

/// Opposite numbers have opposite values.
proof fn lemma_opposed_value(a: Single, b: Single)
    requires
        opposed_numbers(Format::Single, a.number(), b.number()),
        a.finite(),
    ensures
        b.finite(),
        b.value() == -a.value(),
{
    lemma_steps_of_zero(Format::Single);
}

/// Where everything points the other way, so does the velocity that the
/// acceleration allows.
proof fn lemma_accelerated(
    controller: BangBangController,
    way: Vec2F64,
    turned: Vec2F64,
    v: Vec2F64,
    w: Vec2F64,
    dt: Scalar,
)
    requires
        opposed_wide(way, turned),
        opposed_wide(v, w),
    ensures
        opposed_wide(controller.accelerated(way, v, dt), controller.accelerated(turned, w, dt)),
{
    lemma_norms(way, turned);
    lemma_norms(v, w);
    lemma_units(way, turned);
    let speed = controller.desired_speed(way.norm(), v.norm(), dt);
    lemma_stretched(way.unit(), turned.unit(), speed);
    let aim = controller.desired_velocity(way, v.norm(), dt);
    let other_aim = controller.desired_velocity(turned, w.norm(), dt);
    lemma_sums(aim, other_aim, v, w);
    let change = aim.difference(v);
    let other_change = other_aim.difference(w);
    lemma_shortened(change, other_change, controller.acceleration_limit().product(dt));
    lemma_sums(
        v,
        w,
        controller.limited_change(change, dt),
        controller.limited_change(other_change, dt),
    );
}

/// Neither axis is preferred: exchanging the axes of the positions and of the
/// velocity so far exchanges those of the velocity that a controller takes, to
/// the last bit.
pub proof fn law_axes_are_alike(
    controller: BangBangController,
    current_pos: Vec2,
    target_pos: Vec2,
    current_vel: Vec2,
    dt: Scalar,
)
    ensures
        controller.next_velocity(
            exchanged(current_pos),
            exchanged(target_pos),
            exchanged(current_vel),
            dt,
        ) == exchanged(controller.next_velocity(current_pos, target_pos, current_vel, dt)),
{
    let v = Vec2F64::of(current_vel);
    let way = Vec2F64::of(target_pos).difference(Vec2F64::of(current_pos));
    lemma_norm_of_exchanged(way);
    lemma_norm_of_exchanged(v);
    let change = controller.desired_velocity(way, v.norm(), dt).difference(v);
    lemma_norm_of_exchanged(change);
    let reached = v.sum(controller.limited_change(change, dt));
    lemma_norm_of_exchanged(reached);
    let turned = Vec2F64::of(exchanged(target_pos)).difference(Vec2F64::of(exchanged(current_pos)));
    assert(turned == exchanged_wide(way));
    let w = Vec2F64::of(exchanged(current_vel));
    assert(w == exchanged_wide(v));
    let other_change = controller.desired_velocity(turned, w.norm(), dt).difference(w);
    assert(other_change == exchanged_wide(change));
    assert(w.sum(controller.limited_change(other_change, dt)) == exchanged_wide(reached));
}

/// A length does not depend on the order of the parts.
proof fn lemma_norm_of_exchanged(v: Vec2F64)
    ensures
        exchanged_wide(v).norm() == v.norm(),
{
    lemma_sum_commutes(
        Format::Double,
        v.x.product(v.x).number(),
        v.y.product(v.y).number(),
    );
}

/// The order of two numbers does not matter for their sum.
proof fn lemma_sum_commutes(f: Format, a: Number, b: Number)
    ensures
        sum(f, a, b) == sum(f, b, a),
{
}

/// Whether a number has a bit pattern in the format.
spec fn fits(f: Format, n: Number) -> bool {
    match f {
        Format::Single => n.magnitude < 0x8000_0000,
        Format::Double => n.magnitude < 0x8000_0000_0000_0000,
    }
}

/// A number that fits is found again in its bit pattern.
proof fn lemma_of(n: Number)
    ensures
        fits(Format::Double, n) ==> Scalar::of(n).number() == n,
        fits(Format::Single, n) ==> Single::of(n).number() == n,
{
}

/// What is rounded fits.
proof fn lemma_nearest_fits(f: Format, num: nat, den: nat)
    requires
        den > 0,
    ensures
        f.nearest(num, den) <= f.infinity(),
{
    law_every_number_is_rounded(f, num, den);
}

/// The sums of opposite numbers are opposite.
proof fn lemma_opposed_sum(f: Format, a: Number, b: Number, c: Number, d: Number)
    requires
        opposed_numbers(f, a, c),
        opposed_numbers(f, b, d),
        fits(f, a),
        fits(f, b),
    ensures
        opposed_numbers(f, sum(f, a, b), sum(f, c, d)),
        fits(f, sum(f, a, b)),
{
    lemma_steps_of_zero(f);
    let value = a.value(f) + b.value(f);
    let size = (if value < 0 {
        -value
    } else {
        value
    }) as nat;
    lemma_nearest_fits(f, size, 1);
    if !a.nan(f) && !b.nan(f) && !a.infinite(f) && !b.infinite(f) {
        assert(c.value(f) == -a.value(f));
        assert(d.value(f) == -b.value(f));
    }
}

/// The products of opposite numbers with the same one are opposite.
proof fn lemma_opposed_product(f: Format, a: Number, c: Number, k: Number)
    requires
        opposed_numbers(f, a, c),
    ensures
        opposed_numbers(f, product(f, a, k), product(f, c, k)),
        fits(f, product(f, a, k)),
{
    lemma_pow2_pos(f.depth() as nat);
    lemma_steps_of_zero(f);
    lemma_nearest_fits(f, a.steps(f) * k.steps(f), f.one());
    if a.magnitude == 0 {
        assert(a.steps(f) * k.steps(f) == 0) by (nonlinear_arith)
            requires
                a.steps(f) == 0,
        ;
        lemma_small_is_zero(f, 0, f.one());
    }
}

/// Opposite numbers have the same square.
proof fn lemma_same_square(f: Format, a: Number, c: Number)
    requires
        opposed_numbers(f, a, c),
    ensures
        product(f, a, a) == product(f, c, c),
{
}

/// The quotients of opposite numbers by the same one are opposite.
proof fn lemma_opposed_quotient(f: Format, a: Number, c: Number, k: Number)
    requires
        opposed_numbers(f, a, c),
    ensures
        opposed_numbers(f, quotient(f, a, k), quotient(f, c, k)),
        fits(f, quotient(f, a, k)),
{
    lemma_steps_of_zero(f);
    if k.magnitude > 0 {
        lemma_steps_increase(f, 0, k.magnitude as nat);
        lemma_nearest_fits(f, a.steps(f) * f.one(), k.steps(f));
        if a.magnitude == 0 {
            assert(a.steps(f) * f.one() == 0) by (nonlinear_arith)
                requires
                    a.steps(f) == 0,
            ;
            lemma_small_is_zero(f, 0, k.steps(f));
        }
    }
}

/// Opposite vectors are opposite in double precision.
proof fn lemma_widened(v: Vec2, w: Vec2)
    requires
        w == reversed(v),
    ensures
        opposed_wide(Vec2F64::of(v), Vec2F64::of(w)),
{
    reveal(opposed_wide);
    lemma_of(opposite(v.x.number()));
    lemma_of(opposite(v.y.number()));
    lemma_broadened(v.x.number(), w.x.number());
    lemma_broadened(v.y.number(), w.y.number());
    lemma_of(broadened(v.x.number()));
    lemma_of(broadened(v.y.number()));
    lemma_of(broadened(w.x.number()));
    lemma_of(broadened(w.y.number()));
}

/// Opposite numbers are opposite in double precision.
proof fn lemma_broadened(a: Number, c: Number)
    requires
        opposed_numbers(Format::Single, a, c),
    ensures
        opposed_numbers(Format::Double, broadened(a), broadened(c)),
        fits(Format::Double, broadened(a)),
{
    lemma_steps_of_zero(Format::Single);
    lemma_nearest_fits(Format::Double, a.steps(Format::Single) * finer(), 1);
    if a.magnitude == 0 {
        assert(a.steps(Format::Single) * finer() == 0) by (nonlinear_arith)
            requires
                a.steps(Format::Single) == 0,
        ;
        lemma_small_is_zero(Format::Double, 0, 1);
    }
}

/// Opposite vectors are opposite in single precision.
proof fn lemma_narrowed(v: Vec2F64, w: Vec2F64)
    requires
        opposed_wide(v, w),
    ensures
        opposed(v.narrowed(), w.narrowed()),
{
    reveal(opposed_wide);
    lemma_narrowed_number(v.x.number(), w.x.number());
    lemma_narrowed_number(v.y.number(), w.y.number());
    lemma_of(narrowed(v.x.number()));
    lemma_of(narrowed(v.y.number()));
    lemma_of(narrowed(w.x.number()));
    lemma_of(narrowed(w.y.number()));
}

/// Opposite numbers are opposite in single precision.
proof fn lemma_narrowed_number(a: Number, c: Number)
    requires
        opposed_numbers(Format::Double, a, c),
    ensures
        opposed_numbers(Format::Single, narrowed(a), narrowed(c)),
        fits(Format::Single, narrowed(a)),
{
    lemma_steps_of_zero(Format::Double);
    lemma_pow2_pos(925);
    lemma_nearest_fits(Format::Single, a.steps(Format::Double), finer());
    if a.magnitude == 0 {
        lemma_small_is_zero(Format::Single, 0, finer());
    }
}

/// The sums and the differences of opposite vectors are opposite.
proof fn lemma_sums(a: Vec2F64, c: Vec2F64, b: Vec2F64, d: Vec2F64)
    requires
        opposed_wide(a, c),
        opposed_wide(b, d),
    ensures
        opposed_wide(a.sum(b), c.sum(d)),
        opposed_wide(a.difference(b), c.difference(d)),
{
    reveal(opposed_wide);
    lemma_sum_of_parts(a.x, c.x, b.x, d.x);
    lemma_sum_of_parts(a.y, c.y, b.y, d.y);
}

/// The sums and the differences of opposite numbers are opposite.
proof fn lemma_sum_of_parts(a: Scalar, c: Scalar, b: Scalar, d: Scalar)
    requires
        opposed_numbers(Format::Double, a.number(), c.number()),
        opposed_numbers(Format::Double, b.number(), d.number()),
    ensures
        opposed_numbers(Format::Double, a.sum(b).number(), c.sum(d).number()),
        opposed_numbers(Format::Double, a.difference(b).number(), c.difference(d).number()),
{
    let f = Format::Double;
    lemma_opposed_sum(f, a.number(), b.number(), c.number(), d.number());
    lemma_opposed_sum(f, a.number(), opposite(b.number()), c.number(), opposite(d.number()));
    lemma_of(sum(f, a.number(), b.number()));
    lemma_of(sum(f, c.number(), d.number()));
    lemma_of(sum(f, a.number(), opposite(b.number())));
    lemma_of(sum(f, c.number(), opposite(d.number())));
}

/// Opposite vectors have the same length.
proof fn lemma_norms(v: Vec2F64, w: Vec2F64)
    requires
        opposed_wide(v, w),
    ensures
        v.norm() == w.norm(),
{
    reveal(opposed_wide);
    lemma_same_square(Format::Double, v.x.number(), w.x.number());
    lemma_same_square(Format::Double, v.y.number(), w.y.number());
}

/// Opposite vectors have opposite directions.
proof fn lemma_units(v: Vec2F64, w: Vec2F64)
    requires
        opposed_wide(v, w),
    ensures
        opposed_wide(v.unit(), w.unit()),
{
    reveal(opposed_wide);
    let f = Format::Double;
    let k = v.norm().number();
    lemma_norms(v, w);
    lemma_opposed_quotient(f, v.x.number(), w.x.number(), k);
    lemma_opposed_quotient(f, v.y.number(), w.y.number(), k);
    lemma_of(quotient(f, v.x.number(), k));
    lemma_of(quotient(f, v.y.number(), k));
    lemma_of(quotient(f, w.x.number(), k));
    lemma_of(quotient(f, w.y.number(), k));
}

/// Opposite vectors stay opposite when they are multiplied by the same number.
proof fn lemma_stretched(v: Vec2F64, w: Vec2F64, factor: Scalar)
    requires
        opposed_wide(v, w),
    ensures
        opposed_wide(v.stretched(factor), w.stretched(factor)),
{
    reveal(opposed_wide);
    let f = Format::Double;
    let k = factor.number();
    lemma_opposed_product(f, v.x.number(), w.x.number(), k);
    lemma_opposed_product(f, v.y.number(), w.y.number(), k);
    lemma_of(product(f, v.x.number(), k));
    lemma_of(product(f, v.y.number(), k));
    lemma_of(product(f, w.x.number(), k));
    lemma_of(product(f, w.y.number(), k));
}

/// Opposite vectors stay opposite when they are scaled to the same limit.
proof fn lemma_shortened(v: Vec2F64, w: Vec2F64, limit: Scalar)
    requires
        opposed_wide(v, w),
    ensures
        opposed_wide(v.shortened(limit), w.shortened(limit)),
{
    lemma_norms(v, w);
    lemma_stretched(v, w, limit.quotient(v.norm()));
}

} // verus!
