//! What holds of the velocities towards a point, with all rounding taken into
//! account.

use crate::arithmetic::{finer, law_short_number_is_exact, Number};
use crate::motion::acceleration::lemma_product_error;
use crate::motion::bounds::{bounded, is_finite, lemma_bounded_product};
use crate::motion::geometry::{
    lemma_divided, lemma_longer, lemma_multiplied, lemma_small_parts, lemma_square, lemma_triangle,
    short, size,
};
use crate::motion::limits::lemma_step;
use crate::motion::bang_bang::TWO;
use crate::motion::{
    law_direct_speed_is_limited, limited_omega, Motion, DIRECT_REACHED, MAX_DIRECT_SPEED, MAX_OMEGA, MIN_DIRECT_SPEED, MIN_OMEGA,
    PATH_SPEED, PATH_TURN_GAIN,
};
use crate::rounding::{
    law_every_number_is_rounded, law_every_root_is_rounded, law_rounding_keeps_order,
    law_value_is_kept, lemma_small_is_zero, lemma_steps_by_parts, lemma_steps_increase,
    lemma_steps_of_zero, Format, DOUBLE_RANGE, SINGLE_INFINITY,
};
use crate::scalar::Scalar;
use crate::single::{law_widening_keeps_the_value, Single, Vec2, SINGLE_ONE};
use crate::world::RobotState;
use vstd::arithmetic::power2::{
    lemma2_to64, lemma_pow2_adds, lemma_pow2_pos, lemma_pow2_strictly_increases, pow2,
};
use vstd::prelude::*;

verus! {

/// How far a single that is rounded can be from the exact number: one part in
/// 2^23 and a few times the smallest positive single.
pub(crate) proof fn lemma_single_distance(m: nat, num: nat, den: nat)
    requires
        den > 0,
        m < Format::Single.infinity(),
        Format::Single.rounded(m, num, den),
    ensures
        0x80_0000 * (den * Format::Single.steps(m) - num) <= num + 0x100_0000 * den,
        0x80_0000 * (num - den * Format::Single.steps(m)) <= num + 0x100_0000 * den,
{
    let f = Format::Single;
    let s = f.steps(m);
    let a = den * s;
    lemma_single_step(m);
    let above = f.above(m);
    assert(0x80_0000 * above <= 0x100_0001 * s + 0x80_0000);
    assert(0x80_0000 * (den * above) <= 0x100_0001 * a + 0x80_0000 * den) by (nonlinear_arith)
        requires
            0x80_0000 * above <= 0x100_0001 * s + 0x80_0000,
            a == den * s,
    ;
    if m > 0 {
        lemma_single_step((m - 1) as nat);
        let below = f.below(m);
        assert(0x100_0000 * s <= 0x80_0000 * below + s + 0x80_0000);
        assert(0x100_0000 * a <= 0x80_0000 * (den * below) + a + 0x80_0000 * den)
            by (nonlinear_arith)
            requires
                0x100_0000 * s <= 0x80_0000 * below + s + 0x80_0000,
                a == den * s,
        ;
    } else {
        lemma_steps_of_zero(f);
        assert(a == 0) by (nonlinear_arith)
            requires
                a == den * s,
                s == 0,
        ;
    }
}

/// The step from a single's magnitude to the next.
proof fn lemma_single_step(m: nat)
    ensures
        0x80_0000 * (Format::Single.steps(m + 1) - Format::Single.steps(m)) <= Format::Single.steps(
            m,
        ) + 0x80_0000,
        Format::Single.steps(m) <= Format::Single.steps(m + 1),
{
    lemma_step(Format::Single, m);
    let step = Format::Single.steps(m + 1) - Format::Single.steps(m);
    let range = Format::Single.range();
    assert(0x80_0000 * step == step * range) by (nonlinear_arith)
        requires
            range == 0x80_0000,
    ;
}

/// How far a square root that is rounded can be from the exact one.
proof fn lemma_single_root(m: nat, square: nat)
    requires
        0 < m < Format::Single.infinity(),
        Format::Single.rounded_root(m, square),
        Format::Single.steps(m) >= 0x80_0000,
    ensures
        ({
            let ss = Format::Single.steps(m) * Format::Single.steps(m);
            // (e - 1)^2 s^2 <= e^2 square <= (e + 2)^2 s^2
            &&& 0x3fff_ff00_0001 * ss <= 0x4000_0000_0000 * square
            &&& 0x4000_0000_0000 * square <= 0x4000_0200_0004 * ss
        }),
        Format::Single.steps(m) * Format::Single.steps(m) <= 4 * square,
{
    let f = Format::Single;
    let s = f.steps(m);
    let ss = s * s;
    lemma_single_step(m);
    lemma_single_step((m - 1) as nat);
    let (below, above) = (f.below(m), f.above(m));
    let (l, r) = (0x80_0000 * below, 0x80_0000 * above);
    let (low, high) = (0x7f_ffff * s, 0x80_0002 * s);
    assert(2 * low <= l && r <= 2 * high && s <= below);
    assert((2 * low) * (2 * low) <= l * l) by (nonlinear_arith)
        requires
            0 <= 2 * low <= l,
    ;
    assert(r * r <= (2 * high) * (2 * high)) by (nonlinear_arith)
        requires
            0 <= r <= 2 * high,
    ;
    assert(l * l == 0x4000_0000_0000 * (below * below)) by (nonlinear_arith)
        requires
            l == 0x80_0000 * below,
    ;
    assert(r * r == 0x4000_0000_0000 * (above * above)) by (nonlinear_arith)
        requires
            r == 0x80_0000 * above,
    ;
    assert((2 * low) * (2 * low) == 4 * (0x3fff_ff00_0001 * ss)) by (nonlinear_arith)
        requires
            low == 0x7f_ffff * s,
            ss == s * s,
    ;
    assert((2 * high) * (2 * high) == 4 * (0x4000_0200_0004 * ss)) by (nonlinear_arith)
        requires
            high == 0x80_0002 * s,
            ss == s * s,
    ;
    assert(ss <= below * below) by (nonlinear_arith)
        requires
            s <= below,
            ss == s * s,
    ;
}

/// What a computed length says of the exact one. `ww` is its square, `p` and `q`
/// are the computed squares of the parts, `z` is their computed sum and `s` its
/// computed root; `o` is the number one.
proof fn lemma_single_length(xx: nat, yy: nat, p: nat, q: nat, z: nat, s: nat, o: nat)
    requires
        0x80_0000 * (o * p - xx) <= xx + 0x100_0000 * o,
        0x80_0000 * (xx - o * p) <= xx + 0x100_0000 * o,
        0x80_0000 * (o * q - yy) <= yy + 0x100_0000 * o,
        0x80_0000 * (yy - o * q) <= yy + 0x100_0000 * o,
        0x80_0000 * (z - (p + q)) <= p + q + 0x100_0000,
        0x80_0000 * (p + q - z) <= p + q + 0x100_0000,
        0x3fff_ff00_0001 * (s * s) <= 0x4000_0000_0000 * (z * o),
        0x4000_0000_0000 * (z * o) <= 0x4000_0200_0004 * (s * s),
        0x2000_0000 * o <= s * s,
    ensures
        0xf_ffff * (s * s) <= 0x10_0000 * (xx + yy),
        0x10_0000 * (xx + yy) <= 0x10_0001 * (s * s),
{
    let (ww, n, ss, zo) = (xx + yy, p + q, s * s, z * o);
    let on = o * n;
    assert(on == o * p + o * q) by (nonlinear_arith)
        requires
            on == o * n,
            n == p + q,
    ;
    assert(0x80_0000 * (zo - on) <= on + 0x100_0000 * o) by (nonlinear_arith)
        requires
            0x80_0000 * (z - n) <= n + 0x100_0000,
            on == o * n,
            zo == z * o,
            o >= 0,
    ;
    assert(0x80_0000 * (on - zo) <= on + 0x100_0000 * o) by (nonlinear_arith)
        requires
            0x80_0000 * (n - z) <= n + 0x100_0000,
            on == o * n,
            zo == z * o,
            o >= 0,
    ;
}

/// The shortest way whose direction is computed well: 2^-50 m, in single
/// precision.
pub const LEAST_WAY: u32 = 0x2680_0000;

/// A number up to a power of two is rounded to a single up to it.
proof fn lemma_single_bounded(num: nat, den: nat, n: nat)
    requires
        den > 0,
        num <= den * pow2(n),
        n <= 200,
    ensures
        Format::Single.nearest(num, den) < Format::Single.infinity(),
        Format::Single.steps(Format::Single.nearest(num, den)) <= pow2(n),
{
    let f = Format::Single;
    law_short_number_is_exact(f, 1, n);
    assert(1 * pow2(n) == pow2(n));
    let top = f.nearest(pow2(n), 1);
    law_value_is_kept(f, top, den);
    assert(pow2(n) * den == den * pow2(n)) by (nonlinear_arith);
    law_rounding_keeps_order(f, num, den * pow2(n), den);
    let m = f.nearest(num, den);
    if m < top {
        lemma_steps_increase(f, m, top);
    }
}

/// How far a product of singles can be from the exact one.
proof fn lemma_single_product(a: Single, b: Single, n: nat)
    requires
        a.finite(),
        b.finite(),
        Format::Single.steps(a.magnitude()) * Format::Single.steps(b.magnitude())
            <= Format::Single.one() * pow2(n),
        n <= 200,
    ensures
        a.product(b).finite(),
        Format::Single.steps(a.product(b).magnitude()) <= pow2(n),
        ({
            let o = Format::Single.one();
            0x80_0000 * size(o * a.product(b).value() - a.value() * b.value()) <= size(
                a.value() * b.value(),
            ) + 0x100_0000 * o
        }),
{
    let f = Format::Single;
    let o = f.one();
    let x = f.steps(a.magnitude()) as int;
    let y = f.steps(b.magnitude()) as int;
    let num = f.steps(a.magnitude()) * f.steps(b.magnitude());
    lemma_pow2_pos(149);
    law_every_number_is_rounded(f, num, o);
    lemma_single_bounded(num, o, n);
    let m = f.nearest(num, o);
    assert(a.product(b).magnitude() == m);
    lemma_single_distance(m, num, o);
    let s = f.steps(m) as int;
    assert((-x) * y == -(x * y) && x * (-y) == -(x * y) && (-x) * (-y) == x * y)
        by (nonlinear_arith);
    assert(o * (-s) == -(o * s)) by (nonlinear_arith);
    assert(x * y >= 0) by (nonlinear_arith)
        requires
            x >= 0,
            y >= 0,
    ;
}

/// The values of the number one and of the shortest way, and that of the power
/// of two above all singles.
proof fn lemma_single_landmarks()
    ensures
        Format::Single.steps(SINGLE_ONE as nat) == Format::Single.one(),
        Format::Single.steps(LEAST_WAY as nat) == pow2(99),
        Format::Single.steps(SINGLE_INFINITY as nat) == pow2(277),
{
    lemma2_to64();
    lemma_steps_by_parts(Format::Single, SINGLE_ONE as nat);
    lemma_steps_by_parts(Format::Single, LEAST_WAY as nat);
    lemma_steps_by_parts(Format::Single, SINGLE_INFINITY as nat);
    assert(0x3f80_0000nat / 0x80_0000nat == 127 && 0x3f80_0000nat % 0x80_0000nat == 0);
    assert(0x2680_0000nat / 0x80_0000nat == 77 && 0x2680_0000nat % 0x80_0000nat == 0);
    assert(0x7f80_0000nat / 0x80_0000nat == 255 && 0x7f80_0000nat % 0x80_0000nat == 0);
    lemma_pow2_adds(23, 126);
    lemma_pow2_adds(23, 76);
    lemma_pow2_adds(23, 254);
}

/// The square of a vector's length, in the square of the smallest positive
/// single.
pub(crate) open spec fn square_of_length(v: Vec2) -> nat {
    let x = Format::Single.steps(v.x.magnitude());
    let y = Format::Single.steps(v.y.magnitude());
    x * x + y * y
}

/// A computed length: either it is infinite, or it is not negative, below 2^65,
/// and the exact one but for one part in 2^20 of its square where it is not
/// tiny.
pub(crate) proof fn lemma_norm_of_way(v: Vec2)
    requires
        is_finite(v),
    ensures
        !v.norm().number().negative,
        v.norm().number().infinite(Format::Single) || v.norm().finite(),
        v.norm().finite() && pow2(99) <= Format::Single.steps(v.norm().magnitude()) ==> ({
            let s = Format::Single.steps(v.norm().magnitude());
            &&& 0xf_ffff * (s * s) <= 0x10_0000 * square_of_length(v)
            &&& 0x10_0000 * square_of_length(v) <= 0x10_0001 * (s * s)
            &&& s < pow2(214)
        }),
{
    let f = Format::Single;
    let o = f.one();
    let x = f.steps(v.x.magnitude());
    let y = f.steps(v.y.magnitude());
    lemma_pow2_pos(149);
    lemma_single_landmarks();
    lemma_steps_of_zero(f);
    law_every_number_is_rounded(f, x * x, o);
    law_every_number_is_rounded(f, y * y, o);
    let px = v.x.product(v.x);
    let py = v.y.product(v.y);
    let pm = f.nearest(x * x, o);
    let qm = f.nearest(y * y, o);
    assert(px.number() == Number { negative: false, magnitude: pm as u64 });
    assert(py.number() == Number { negative: false, magnitude: qm as u64 });
    let sum = px.sum(py);
    if pm < f.infinity() && qm < f.infinity() {
        let p = f.steps(pm);
        let q = f.steps(qm);
        lemma_single_distance(pm, x * x, o);
        lemma_single_distance(qm, y * y, o);
        law_every_number_is_rounded(f, p + q, 1);
        let zm = f.nearest(p + q, 1);
        if p + q == 0 {
            lemma_small_is_zero(f, 0, 1);
        }
        assert(sum.number() == Number { negative: false, magnitude: zm as u64 });
        if 0 < zm < f.infinity() {
            let z = f.steps(zm);
            lemma_single_distance(zm, p + q, 1);
            assert(1 * z == z);
            lemma_steps_increase(f, zm, f.infinity() as nat);
            let square = z * o;
            law_every_root_is_rounded(f, square);
            let m = f.nearest_root(square);
            assert(v.norm().number() == Number { negative: false, magnitude: m as u64 });
            let s = f.steps(m);
            if m < f.infinity() && pow2(99) <= s {
                lemma2_to64();
                lemma_pow2_strictly_increases(23, 99);
                lemma_single_root(m, square);
                lemma_pow2_adds(99, 99);
                lemma_pow2_adds(29, 149);
                lemma_pow2_strictly_increases(178, 198);
                assert(0x2000_0000 * o <= s * s) by {
                    assert(pow2(99) * pow2(99) <= s * s) by (nonlinear_arith)
                        requires
                            pow2(99) <= s,
                    ;
                }
                lemma_single_length(x * x, y * y, p, q, z, s, o);
                lemma_pow2_adds(277, 149);
                lemma_pow2_adds(2, 426);
                lemma_pow2_adds(214, 214);
                assert(square < pow2(426)) by (nonlinear_arith)
                    requires
                        square == z * o,
                        z < pow2(277),
                        o > 0,
                        pow2(426) == pow2(277) * o,
                ;
                assert(s < pow2(214)) by (nonlinear_arith)
                    requires
                        s * s < pow2(214) * pow2(214),
                ;
            }
        } else if zm == 0 {
            assert(v.norm() == sum);
            lemma_pow2_pos(99);
        }
    }
}

/// The factor by which a vector is brought to length one.
proof fn lemma_factor_of_way(s: nat)
    requires
        pow2(99) <= s < pow2(214),
    ensures
        ({
            let o = Format::Single.one();
            let m = Format::Single.nearest(o * o, s);
            let q = Format::Single.steps(m);
            &&& m < Format::Single.infinity()
            &&& 0x40_0000 * (s * q - o * o) <= o * o
            &&& 0x40_0000 * (o * o - s * q) <= o * o
        }),
{
    let f = Format::Single;
    let o = f.one();
    lemma_pow2_pos(99);
    lemma_pow2_adds(149, 149);
    lemma_pow2_adds(99, 199);
    assert(o * o <= s * pow2(199)) by (nonlinear_arith)
        requires
            o * o == pow2(99) * pow2(199),
            pow2(99) <= s,
    ;
    lemma_single_bounded(o * o, s, 199);
    law_every_number_is_rounded(f, o * o, s);
    lemma_single_distance(f.nearest(o * o, s), o * o, s);
    lemma2_to64();
    lemma_pow2_adds(24, 214);
    lemma_pow2_strictly_increases(238, 298);
}

/// A vector and its length, both multiplied by the same number with a sign.
pub(crate) proof fn lemma_multiplied_signed(x: int, y: int, a: nat, k: int)
    requires
        short(x, y, a),
    ensures
        short(k * x, k * y, size(k) * a),
{
    lemma_multiplied(x, y, a, size(k));
    assert(((-k) * x) * ((-k) * x) == (k * x) * (k * x)) by (nonlinear_arith);
    assert(((-k) * y) * ((-k) * y) == (k * y) * (k * y)) by (nonlinear_arith);
}

/// Whether a vector's computed length is the exact one, nearly.
pub(crate) open spec fn measured(dx: int, dy: int, s: nat) -> bool {
    &&& s > 0
    &&& 0xf_ffff * (s * s) <= 0x10_0000 * (dx * dx + dy * dy)
    &&& 0x10_0000 * (dx * dx + dy * dy) <= 0x10_0001 * (s * s)
}

/// The length of a vector that is measured.
proof fn lemma_measured(dx: int, dy: int, s: nat)
    requires
        measured(dx, dy, s),
    ensures
        short(0x10_0000 * dx, 0x10_0000 * dy, 0x10_0001 * s),
        short(dx, dy, 2 * s),
        !short(0x10_0000 * dx, 0x10_0000 * dy, 0xf_ffff * s),
{
    let (ww, ss) = (dx * dx + dy * dy, s * s);
    assert((0x10_0000 * dx) * (0x10_0000 * dx) + (0x10_0000 * dy) * (0x10_0000 * dy)
        == 0x10_0000 * (0x10_0000 * ww)) by (nonlinear_arith)
        requires
            ww == dx * dx + dy * dy,
    ;
    assert((0x10_0001 * s) * (0x10_0001 * s) == 0x10_0001 * (0x10_0001 * ss)) by (nonlinear_arith)
        requires
            ss == s * s,
    ;
    assert((0xf_ffff * s) * (0xf_ffff * s) == 0xf_ffff * (0xf_ffff * ss)) by (nonlinear_arith)
        requires
            ss == s * s,
    ;
    assert((2 * s) * (2 * s) == 4 * ss) by (nonlinear_arith)
        requires
            ss == s * s,
    ;
    assert(ss > 0) by (nonlinear_arith)
        requires
            ss == s * s,
            s > 0,
    ;
}

/// A vector that was brought to length one lies along the original. `q / o` is
/// the factor, which is one over the length `s`, nearly.
proof fn lemma_unit_lies_along(
    dx: int,
    dy: int,
    s: nat,
    ux: int,
    uy: int,
    q: nat,
    o: nat,
)
    requires
        measured(dx, dy, s),
        0x40_0000 * (s * q - o * o) <= o * o,
        0x40_0000 * (o * o - s * q) <= o * o,
        0x80_0000 * size(o * ux - dx * q) <= size(dx * q) + 0x100_0000 * o,
        0x80_0000 * size(o * uy - dy * q) <= size(dy * q) + 0x100_0000 * o,
        o >= 0x1_0000_0000,
    ensures
        short(0x20_0000 * (s * ux - o * dx), 0x20_0000 * (s * uy - o * dy), 2 * (s * o)),
{
    let (oo, sq) = (o * o, s * q);
    lemma_measured(dx, dy, s);
    assert(oo >= 0x1_0000_0000 * o) by (nonlinear_arith)
        requires
            oo == o * o,
            o >= 0x1_0000_0000,
    ;
    // What rounding the products adds.
    lemma_multiplied(dx, dy, 2 * s, q);
    assert(q * (2 * s) == 2 * sq) by (nonlinear_arith)
        requires
            sq == s * q,
    ;
    lemma_longer(q * dx, q * dy, q * (2 * s), (3 * oo) as nat);
    assert(q * dx == dx * q && q * dy == dy * q) by (nonlinear_arith);
    let (ex, ey) = (o * ux - dx * q, o * uy - dy * q);
    let k = (0x100_0000 * o) as nat;
    lemma_small_parts(ex, ey, dx * q, dy * q, (3 * oo) as nat, 0x80_0000nat, k);
    let e = ((3 * oo + 2 * k) / 0x80_0000 + 1) as nat;
    assert(0x20_0000 * e <= oo);
    lemma_multiplied(ex, ey, e, s);
    // What rounding the factor adds.
    let g = sq - oo;
    lemma_multiplied_signed(dx, dy, 2 * s, g);
    lemma_triangle(s * ex, s * ey, g * dx, g * dy, s * e, size(g) * (2 * s));
    let all = (s * e + size(g) * (2 * s)) as nat;
    let soo = s * oo;
    assert(0x20_0000 * (s * e) <= soo) by (nonlinear_arith)
        requires
            0x20_0000 * e <= oo,
            soo == s * oo,
    ;
    assert(0x20_0000 * (size(g) * (2 * s)) <= soo) by (nonlinear_arith)
        requires
            0x40_0000 * size(g) <= oo,
            soo == s * oo,
    ;
    let so = s * o;
    let (vx, vy) = (s * ux - o * dx, s * uy - o * dy);
    assert(s * ex + g * dx == o * vx && s * ey + g * dy == o * vy) by {
        assert(s * (o * ux - dx * q) + (s * q - o * o) * dx == o * (s * ux - o * dx))
            by (nonlinear_arith);
        assert(s * (o * uy - dy * q) + (s * q - o * o) * dy == o * (s * uy - o * dy))
            by (nonlinear_arith);
    }
    lemma_multiplied(o * vx, o * vy, all, 0x20_0000nat);
    assert(o * (2 * so) == 2 * soo) by (nonlinear_arith)
        requires
            so == s * o,
            soo == s * oo,
            oo == o * o,
    ;
    lemma_longer(
        0x20_0000 * (o * vx),
        0x20_0000 * (o * vy),
        (0x20_0000 * all) as nat,
        (o * (2 * so)) as nat,
    );
    assert(0x20_0000 * (o * vx) == o * (0x20_0000 * vx) && 0x20_0000 * (o * vy) == o * (0x20_0000
        * vy)) by (nonlinear_arith);
    lemma_divided(0x20_0000 * vx, 0x20_0000 * vy, (2 * so) as nat, o);
}

/// A vector that lies along another has the length that it was made to have.
proof fn lemma_length_along(dx: int, dy: int, s: nat, vx: int, vy: int, l: nat)
    requires
        measured(dx, dy, s),
        short(0x20_0000 * (s * vx - l * dx), 0x20_0000 * (s * vy - l * dy), 3 * (s * l)),
        l > 0,
    ensures
        short(0x20_0000 * vx, 0x20_0000 * vy, 0x20_0005 * l),
        !short(0x20_0000 * vx, 0x20_0000 * vy, 0x1f_fffb * l),
{
    lemma_measured(dx, dy, s);
    let sl = s * l;
    let (ex, ey) = (0x20_0000 * (s * vx - l * dx), 0x20_0000 * (s * vy - l * dy));
    let (fx, fy) = (0x20_0000 * (l * dx), 0x20_0000 * (l * dy));
    // From above.
    let ll = 2 * l;
    lemma_multiplied(0x10_0000 * dx, 0x10_0000 * dy, (0x10_0001 * s) as nat, ll as nat);
    assert(ll * (0x10_0000 * dx) == fx && ll * (0x10_0000 * dy) == fy) by (nonlinear_arith)
        requires
            ll == 2 * l,
            fx == 0x20_0000 * (l * dx),
            fy == 0x20_0000 * (l * dy),
    ;
    assert(ll * (0x10_0001 * s) == 0x20_0002 * sl) by (nonlinear_arith)
        requires
            ll == 2 * l,
            sl == s * l,
    ;
    lemma_triangle(fx, fy, ex, ey, (0x20_0002 * sl) as nat, (3 * sl) as nat);
    let (wx, wy) = (0x20_0000 * vx, 0x20_0000 * vy);
    assert(fx + ex == s * wx && fy + ey == s * wy) by {
        assert(s * (0x20_0000 * vx) == 0x20_0000 * (s * vx)) by (nonlinear_arith);
        assert(s * (0x20_0000 * vy) == 0x20_0000 * (s * vy)) by (nonlinear_arith);
    }
    assert(s * (0x20_0005 * l) == 0x20_0005 * sl) by (nonlinear_arith)
        requires
            sl == s * l,
    ;
    lemma_divided(wx, wy, (0x20_0005 * l) as nat, s);
    // From below.
    if short(wx, wy, (0x1f_fffb * l) as nat) {
        lemma_multiplied(wx, wy, (0x1f_fffb * l) as nat, s);
        assert(s * (0x1f_fffb * l) == 0x1f_fffb * sl) by (nonlinear_arith)
            requires
                sl == s * l,
        ;
        assert((-ex) * (-ex) == ex * ex && (-ey) * (-ey) == ey * ey) by (nonlinear_arith);
        lemma_triangle(s * wx, s * wy, -ex, -ey, (0x1f_fffb * sl) as nat, (3 * sl) as nat);
        assert(0x1f_fffe * sl == ll * (0xf_ffff * s)) by (nonlinear_arith)
            requires
                ll == 2 * l,
                sl == s * l,
        ;
        lemma_divided(0x10_0000 * dx, 0x10_0000 * dy, (0xf_ffff * s) as nat, ll as nat);
    }
}

/// A vector of length one that lies along a way and is stretched to a length
/// lies along it. `t` is how many steps of the result go into one of the vector
/// of length one, and `o` is the number one in the latter's.
proof fn lemma_stretched_lies_along(
    dx: int,
    dy: int,
    s: nat,
    ux: int,
    uy: int,
    vx: int,
    vy: int,
    l: nat,
    o: nat,
    t: nat,
)
    requires
        measured(dx, dy, s),
        short(0x20_0000 * (s * ux - o * dx), 0x20_0000 * (s * uy - o * dy), 2 * (s * o)),
        o > 0,
        t > 0,
        l >= 0x1_0000_0000,
        0x80_0000 * size((o * t) * vx - (ux * t) * l) <= size((ux * t) * l) + 0x100_0000 * (o * t),
        0x80_0000 * size((o * t) * vy - (uy * t) * l) <= size((uy * t) * l) + 0x100_0000 * (o * t),
    ensures
        short(0x20_0000 * (s * vx - l * dx), 0x20_0000 * (s * vy - l * dy), 3 * (s * l)),
{
    let (w, tl, so) = (o * t, t * l, s * o);
    assert(w > 0) by (nonlinear_arith)
        requires
            w == o * t,
            o > 0,
            t > 0,
    ;
    lemma_longer(
        0x20_0000 * (s * ux - o * dx),
        0x20_0000 * (s * uy - o * dy),
        (2 * so) as nat,
        (3 * so) as nat,
    );
    lemma_length_along(dx, dy, s, ux, uy, o);
    lemma_longer(
        0x20_0000 * ux,
        0x20_0000 * uy,
        (0x20_0005 * o) as nat,
        (0x20_0000 * (2 * o)) as nat,
    );
    lemma_divided(ux, uy, 2 * o, 0x20_0000nat);
    // What rounding the products adds.
    lemma_multiplied(ux, uy, 2 * o, tl);
    let wl = w * l;
    assert(tl * (2 * o) == 2 * wl) by (nonlinear_arith)
        requires
            tl == t * l,
            w == o * t,
            wl == w * l,
    ;
    assert(tl * ux == (ux * t) * l && tl * uy == (uy * t) * l) by (nonlinear_arith)
        requires
            tl == t * l,
    ;
    let (ex, ey) = (w * vx - tl * ux, w * vy - tl * uy);
    let k = (0x100_0000 * w) as nat;
    lemma_small_parts(ex, ey, tl * ux, tl * uy, (2 * wl) as nat, 0x80_0000nat, k);
    let e = ((2 * wl + 2 * k) / 0x80_0000 + 1) as nat;
    assert(wl >= 0x1_0000_0000 * w) by (nonlinear_arith)
        requires
            wl == w * l,
            l >= 0x1_0000_0000,
    ;
    assert(0x20_0000 * e <= wl);
    lemma_multiplied(ex, ey, e, s);
    lemma_multiplied(s * ex, s * ey, s * e, 0x20_0000nat);
    let swl = s * wl;
    assert(0x20_0000 * (s * e) <= swl) by (nonlinear_arith)
        requires
            0x20_0000 * e <= wl,
            swl == s * wl,
    ;
    lemma_longer(
        0x20_0000 * (s * ex),
        0x20_0000 * (s * ey),
        (0x20_0000 * (s * e)) as nat,
        swl as nat,
    );
    // What the vector of length one has already.
    let (gx, gy) = (s * ux - o * dx, s * uy - o * dy);
    lemma_multiplied(0x20_0000 * gx, 0x20_0000 * gy, (2 * so) as nat, tl);
    assert(tl * (2 * so) == 2 * swl) by (nonlinear_arith)
        requires
            tl == t * l,
            so == s * o,
            swl == s * wl,
            wl == w * l,
            w == o * t,
    ;
    lemma_triangle(
        0x20_0000 * (s * ex),
        0x20_0000 * (s * ey),
        tl * (0x20_0000 * gx),
        tl * (0x20_0000 * gy),
        swl as nat,
        (2 * swl) as nat,
    );
    let (hx, hy) = (0x20_0000 * (s * vx - l * dx), 0x20_0000 * (s * vy - l * dy));
    lemma_parts_of_stretched(dx, s, ux, vx, l, o, t);
    lemma_parts_of_stretched(dy, s, uy, vy, l, o, t);
    let sl = s * l;
    assert(w * (3 * sl) == 3 * swl) by (nonlinear_arith)
        requires
            sl == s * l,
            swl == s * wl,
            wl == w * l,
    ;
    lemma_divided(hx, hy, (3 * sl) as nat, w);
}

/// The way from a stretched vector to the exact one, by its two parts.
proof fn lemma_parts_of_stretched(d: int, s: nat, u: int, v: int, l: nat, o: nat, t: nat)
    ensures
        0x20_0000 * (s * ((o * t) * v - (t * l) * u)) + (t * l) * (0x20_0000 * (s * u - o * d)) == (
        o * t) * (0x20_0000 * (s * v - l * d)),
{
    let (w, tl) = (o * t, t * l);
    assert(s * (w * v - tl * u) == w * (s * v) - tl * (s * u)) by (nonlinear_arith);
    assert(tl * (0x20_0000 * (s * u - o * d)) == 0x20_0000 * (tl * (s * u)) - 0x20_0000 * (tl * (o
        * d))) by (nonlinear_arith);
    assert((t * l) * (o * d) == (o * t) * (l * d)) by (nonlinear_arith);
    assert(w * (0x20_0000 * (s * v - l * d)) == 0x20_0000 * (w * (s * v)) - 0x20_0000 * (w * (l
        * d))) by (nonlinear_arith);
}

/// A vector of length one that was computed from a way lies along it.
pub(crate) proof fn lemma_unit_of_way(way: Vec2)
    requires
        is_finite(way),
        way.norm().finite(),
        !way.norm().less(Single { bits: LEAST_WAY }),
    ensures
        ({
            let s = Format::Single.steps(way.norm().magnitude());
            let o = Format::Single.one();
            let u = way.unit();
            let (dx, dy) = (way.x.value(), way.y.value());
            &&& is_finite(u)
            &&& Format::Single.steps(u.x.magnitude()) <= pow2(151)
            &&& Format::Single.steps(u.y.magnitude()) <= pow2(151)
            &&& measured(dx, dy, s)
            &&& short(
                0x20_0000 * (s * u.x.value() - o * dx),
                0x20_0000 * (s * u.y.value() - o * dy),
                2 * (s * o),
            )
        }),
{
    let f = Format::Single;
    let o = f.one();
    let norm = way.norm();
    let s = f.steps(norm.magnitude());
    let (dx, dy) = (way.x.value(), way.y.value());
    lemma_pow2_pos(99);
    lemma_pow2_pos(149);
    lemma_norm_of_way(way);
    lemma_single_landmarks();
    lemma_steps_of_zero(f);
    if norm.magnitude() > LEAST_WAY {
        lemma_steps_increase(f, LEAST_WAY as nat, norm.magnitude());
    }
    let (x, y) = (f.steps(way.x.magnitude()), f.steps(way.y.magnitude()));
    let (xi, yi) = (x as int, y as int);
    assert((-xi) * (-xi) == xi * xi && (-yi) * (-yi) == yi * yi) by (nonlinear_arith);
    assert(dx * dx + dy * dy == square_of_length(way));
    assert(measured(dx, dy, s));
    lemma_measured(dx, dy, s);
    lemma_factor_of_way(s);
    let factor = (Single { bits: SINGLE_ONE }).quotient(norm);
    let qm = f.nearest(o * o, s);
    let q = f.steps(qm);
    assert(factor.number() == Number { negative: false, magnitude: qm as u64 });
    lemma_square(xi);
    lemma_square(yi);
    assert(x <= 2 * s && y <= 2 * s) by (nonlinear_arith)
        requires
            x * x <= (2 * s) * (2 * s),
            y * y <= (2 * s) * (2 * s),
    ;
    lemma2_to64();
    lemma_pow2_adds(2, 149);
    let oo = o * o;
    assert(o * pow2(151) == 4 * oo) by (nonlinear_arith)
        requires
            pow2(151) == 4 * o,
            oo == o * o,
    ;
    let sq = s * q;
    assert(x * q <= 2 * sq && y * q <= 2 * sq) by (nonlinear_arith)
        requires
            x <= 2 * s,
            y <= 2 * s,
            sq == s * q,
    ;
    assert(oo >= 0) by (nonlinear_arith)
        requires
            oo == o * o,
    ;
    lemma_single_product(way.x, factor, 151);
    lemma_single_product(way.y, factor, 151);
    lemma_pow2_strictly_increases(32, 149);
    lemma_unit_lies_along(dx, dy, s, way.unit().x.value(), way.unit().y.value(), q, o);
}

/// Whether a vector has a length, but for one part in 2^18.
pub open spec fn nearly(x: int, y: int, length: nat) -> bool {
    let slack = length / 0x4_0000;
    &&& short(x, y, length + slack)
    &&& (length - slack) * (length - slack) <= x * x + y * y
}

/// Whether a vector is what another one becomes when its length `norm` is made
/// `length`, but for one part in 2^18 of that: both are compared times `norm`.
pub open spec fn along(x: int, y: int, length: nat, dx: int, dy: int, norm: nat) -> bool {
    short(norm * x - length * dx, norm * y - length * dy, norm * (length / 0x4_0000))
}

/// A vector that lies along a way, and has the length that it was made to have.
pub(crate) proof fn lemma_lies_along(dx: int, dy: int, s: nat, vx: int, vy: int, l: nat)
    requires
        measured(dx, dy, s),
        short(0x20_0000 * (s * vx - l * dx), 0x20_0000 * (s * vy - l * dy), 3 * (s * l)),
        l >= 0x1_0000_0000,
    ensures
        nearly(vx, vy, l),
        along(vx, vy, l, dx, dy, s),
{
    let slack = l / 0x4_0000;
    lemma_length_along(dx, dy, s, vx, vy, l);
    let (wx, wy) = (0x20_0000 * vx, 0x20_0000 * vy);
    lemma_longer(wx, wy, (0x20_0005 * l) as nat, (0x20_0000 * (l + slack)) as nat);
    lemma_divided(vx, vy, (l + slack) as nat, 0x20_0000nat);
    let less = (l - slack) as nat;
    if short(vx, vy, less) {
        lemma_multiplied(vx, vy, less, 0x20_0000nat);
        lemma_longer(wx, wy, (0x20_0000 * less) as nat, (0x1f_fffb * l) as nat);
    }
    let sl = s * l;
    let ss = s * slack;
    assert(3 * sl <= 0x20_0000 * ss) by (nonlinear_arith)
        requires
            3 * l <= 0x20_0000 * slack,
            sl == s * l,
            ss == s * slack,
    ;
    let (gx, gy) = (s * vx - l * dx, s * vy - l * dy);
    lemma_longer(0x20_0000 * gx, 0x20_0000 * gy, (3 * sl) as nat, (0x20_0000 * ss) as nat);
    lemma_divided(gx, gy, ss, 0x20_0000nat);
}

/// On a planned path a robot moves at 2.5 m/s straight towards the next point,
/// but for rounding, and turns towards the angle at which that point lies, at
/// twice the error and no more than 3 rad/s either way. The way to the point is
/// no shorter than 2^-50 m, and not so long that the squares of its parts
/// overflow in single precision.
pub proof fn law_path_velocity(robot: RobotState, path: Seq<Vec2>, target_angle: Single)
    requires
        path.len() > 1,
        is_finite(path[1].from_point(robot.position)),
        path[1].from_point(robot.position).norm().finite(),
        !path[1].from_point(robot.position).norm().less(Single { bits: LEAST_WAY }),
    ensures
        ({
            let command = Motion::path_command(robot, path, target_angle);
            let way = path[1].from_point(robot.position);
            let speed = Format::Double.steps(PATH_SPEED as nat);
            &&& command.vx.finite() && command.vy.finite()
            &&& nearly(command.vx.value(), command.vy.value(), speed)
            &&& along(
                command.vx.value(),
                command.vy.value(),
                speed,
                way.x.value(),
                way.y.value(),
                Format::Single.steps(way.norm().magnitude()),
            )
            &&& command.omega == limited_omega(
                Motion::normalized_angle(
                    target_angle.widened().difference(robot.orientation),
                ).product(Scalar { bits: PATH_TURN_GAIN }),
                Scalar { bits: MIN_OMEGA },
                Scalar { bits: MAX_OMEGA },
            )
        }),
{
    let f = Format::Single;
    let way = path[1].from_point(robot.position);
    let u = way.unit();
    let s = f.steps(way.norm().magnitude());
    let o = f.one();
    let t = finer();
    let speed = Scalar { bits: PATH_SPEED };
    let l = Format::Double.steps(PATH_SPEED as nat);
    lemma_unit_of_way(way);
    lemma_path_speed();
    lemma_velocity_part(u.x, speed);
    lemma_velocity_part(u.y, speed);
    let v = Motion::path_command(robot, path, target_angle);
    lemma_pow2_pos(149);
    lemma_pow2_pos(925);
    lemma_stretched_lies_along(
        way.x.value(),
        way.y.value(),
        s,
        u.x.value(),
        u.y.value(),
        v.vx.value(),
        v.vy.value(),
        l,
        o,
        t,
    );
    lemma_lies_along(way.x.value(), way.y.value(), s, v.vx.value(), v.vy.value(), l);
}

/// The value of the speed along a planned path.
proof fn lemma_path_speed()
    ensures
        bounded(Scalar { bits: PATH_SPEED }, 1076),
        (Scalar { bits: PATH_SPEED }).value() == Format::Double.steps(PATH_SPEED as nat),
        Format::Double.steps(PATH_SPEED as nat) >= 0x1_0000_0000,
{
    let f = Format::Double;
    let range = DOUBLE_RANGE as nat;
    lemma_steps_by_parts(f, PATH_SPEED as nat);
    assert((PATH_SPEED as nat) / range == 1024 && (PATH_SPEED as nat) % range
        == 0x4_0000_0000_0000);
    assert(f.steps(PATH_SPEED as nat) == 0x14_0000_0000_0000 * pow2(1023));
    lemma2_to64();
    lemma_pow2_strictly_increases(32, 1023);
    lemma_pow2_adds(53, 1023);
    vstd::arithmetic::power2::lemma2_to64_rest();
}

/// A part of a direction, in double precision and multiplied by a speed.
proof fn lemma_velocity_part(u: Single, speed: Scalar)
    requires
        u.finite(),
        Format::Single.steps(u.magnitude()) <= pow2(151),
        bounded(speed, 1076),
        !speed.number().negative,
    ensures
        ({
            let v = u.widened().product(speed);
            let l = Format::Double.steps(speed.magnitude());
            let w = Format::Single.one() * finer();
            let exact = (u.value() * finer()) * l;
            &&& v.finite()
            &&& 0x80_0000 * size(w * v.value() - exact) <= size(exact) + 0x100_0000 * w
        }),
{
    let x = Format::Single.steps(u.magnitude());
    law_widening_keeps_the_value(u);
    assert(Format::Double.steps(u.widened().magnitude()) == x * finer()) by {
        let v = x as int;
        assert((-v) * finer() == -(v * finer())) by (nonlinear_arith);
        assert(x * finer() >= 0) by (nonlinear_arith);
    }
    lemma_pow2_adds(151, 925);
    assert(x * finer() <= pow2(151) * finer()) by (nonlinear_arith)
        requires
            x <= pow2(151),
    ;
    lemma_bounded_product(u.widened(), speed, 1076, 1076);
    lemma_product_error(u.widened(), speed);
    lemma_pow2_adds(149, 925);
}

/// On a straight line a robot never moves faster than 2 m/s, but for rounding,
/// and where it is not there yet it moves straight towards the target at the
/// speed that goes with the distance. The difference of the positions is finite,
/// and for the direction the squares of its parts do not overflow in single
/// precision: where they do the robot does not move.
pub proof fn law_direct_velocity(robot: RobotState, target: Vec2, target_angle: Single)
    requires
        is_finite(target.from_point(robot.position)),
    ensures
        ({
            let command = Motion::direct_command(robot, target, target_angle);
            let way = target.from_point(robot.position);
            let norm = way.norm();
            let top = Format::Double.steps(TWO as nat);
            let speed = Format::Single.steps(Motion::direct_speed(norm).magnitude()) * finer();
            &&& command.vx.finite() && command.vy.finite()
            &&& short(command.vx.value(), command.vy.value(), top + top / 0x4_0000)
            &&& norm.finite() && !norm.less(Single { bits: DIRECT_REACHED }) ==> nearly(
                command.vx.value(),
                command.vy.value(),
                speed,
            ) && along(
                command.vx.value(),
                command.vy.value(),
                speed,
                way.x.value(),
                way.y.value(),
                Format::Single.steps(norm.magnitude()),
            )
            &&& !norm.finite() ==> command.vx.value() == 0 && command.vy.value() == 0
        }),
{
    let f = Format::Single;
    let way = target.from_point(robot.position);
    let norm = way.norm();
    let o = f.one();
    let t = finer();
    let speed = Motion::direct_speed(norm);
    let l = f.steps(speed.magnitude());
    let u = way.unit();
    let v = Motion::direct_command(robot, target, target_angle);
    let top = Format::Double.steps(TWO as nat);
    lemma_norm_of_way(way);
    lemma_direct_speeds(norm);
    lemma_steps_of_zero(f);
    lemma_steps_of_zero(Format::Double);
    lemma_pow2_pos(149);
    lemma_pow2_pos(925);
    assert(l * t <= top) by (nonlinear_arith)
        requires
            l <= 2 * o,
            top == 2 * (o * t),
    ;
    assert(short(0, 0, (top + top / 0x4_0000) as nat)) by {
        let b = (top + top / 0x4_0000) as nat;
        lemma_square(b as int);
    }
    if norm.less(Single { bits: DIRECT_REACHED }) {
    } else if norm.finite() {
        let s = f.steps(norm.magnitude());
        lemma_unit_of_way(way);
        lemma2_to64();
        lemma_pow2_adds(1, 149);
        lemma_pow2_adds(151, 150);
        lemma_pow2_adds(149, 152);
        let (x, y) = (f.steps(u.x.magnitude()), f.steps(u.y.magnitude()));
        assert(x * l <= pow2(151) * pow2(150) && y * l <= pow2(151) * pow2(150))
            by (nonlinear_arith)
            requires
                x <= pow2(151),
                y <= pow2(151),
                l <= pow2(150),
        ;
        lemma_single_product(u.x, speed, 152);
        lemma_single_product(u.y, speed, 152);
        let (vx, vy) = (u.x.product(speed), u.y.product(speed));
        let (dx, dy) = (way.x.value(), way.y.value());
        let (ux, uy) = (u.x.value(), u.y.value());
        assert(ux * 1 == ux && uy * 1 == uy && o * 1 == o);
        lemma_stretched_lies_along(dx, dy, s, ux, uy, vx.value(), vy.value(), l, o, 1);
        law_widening_keeps_the_value(vx);
        law_widening_keeps_the_value(vy);
        lemma_finer_along(dx, dy, s, vx.value(), vy.value(), l, t);
        lemma_lies_along(dx, dy, s, v.vx.value(), v.vy.value(), l * t);
        let slow = (l * t + (l * t) / 0x4_0000) as nat;
        lemma_longer(
            v.vx.value(),
            v.vy.value(),
            slow,
            (top + top / 0x4_0000) as nat,
        );
    } else {
        let factor = (Single { bits: SINGLE_ONE }).quotient(norm);
        assert(factor.magnitude() == 0);
        lemma_single_zero(way.x, factor);
        lemma_single_zero(way.y, factor);
        lemma_single_zero(speed, u.x);
        lemma_single_zero(speed, u.y);
        lemma_single_zero(u.x, speed);
        lemma_single_zero(u.y, speed);
        law_widening_keeps_the_value(u.x.product(speed));
        law_widening_keeps_the_value(u.y.product(speed));
        assert(0 * t == 0);
    }
}

/// A product with zero is zero.
proof fn lemma_single_zero(a: Single, b: Single)
    requires
        a.finite(),
        b.finite(),
        a.magnitude() == 0 || b.magnitude() == 0,
    ensures
        a.product(b).magnitude() == 0,
        a.product(b).value() == 0,
{
    let f = Format::Single;
    let (x, y) = (f.steps(a.magnitude()), f.steps(b.magnitude()));
    lemma_steps_of_zero(f);
    lemma_pow2_pos(149);
    assert(x * y == 0) by (nonlinear_arith)
        requires
            x == 0 || y == 0,
    ;
    lemma_small_is_zero(f, 0, f.one());
}

/// The least and the largest speed on a straight line.
proof fn lemma_direct_speeds(distance: Single)
    ensures
        ({
            let speed = Motion::direct_speed(distance);
            let l = Format::Single.steps(speed.magnitude());
            &&& speed.finite()
            &&& !speed.number().negative
            &&& speed.value() == l
            &&& 0x1_0000_0000 <= l <= 2 * Format::Single.one()
            &&& l <= pow2(150)
        }),
        Format::Double.steps(TWO as nat) == 2 * (Format::Single.one() * finer()),
{
    let f = Format::Single;
    let speed = Motion::direct_speed(distance);
    let (low, high) = (MIN_DIRECT_SPEED as nat, MAX_DIRECT_SPEED as nat);
    law_direct_speed_is_limited(distance);
    lemma2_to64();
    vstd::arithmetic::power2::lemma2_to64_rest();
    lemma_steps_by_parts(f, low);
    lemma_steps_by_parts(f, high);
    assert(low / 0x80_0000 == 123 && low % 0x80_0000 == 0x4c_cccd) by {
        assert(0x3dcc_cccdnat / 0x80_0000nat == 123 && 0x3dcc_cccdnat % 0x80_0000nat == 0x4c_cccd);
    }
    assert(high / 0x80_0000 == 128 && high % 0x80_0000 == 0) by {
        assert(0x4000_0000nat / 0x80_0000nat == 128 && 0x4000_0000nat % 0x80_0000nat == 0);
    }
    assert(f.steps(low) == 0xcc_cccd * pow2(122));
    assert(f.steps(high) == 0x80_0000 * pow2(127));
    lemma_pow2_strictly_increases(32, 122);
    lemma_pow2_adds(23, 127);
    lemma_pow2_adds(1, 149);
    if low < speed.magnitude() {
        lemma_steps_increase(f, low, speed.magnitude());
    }
    if speed.magnitude() < high {
        lemma_steps_increase(f, speed.magnitude(), high);
    }
    let range = DOUBLE_RANGE as nat;
    lemma_steps_by_parts(Format::Double, TWO as nat);
    assert((TWO as nat) / range == 1024 && (TWO as nat) % range == 0);
    lemma_pow2_adds(52, 1023);
    lemma_pow2_adds(149, 925);
    lemma_pow2_adds(1, 1074);
}

/// What lies along a way does so in finer steps.
proof fn lemma_finer_along(dx: int, dy: int, s: nat, vx: int, vy: int, l: nat, t: nat)
    requires
        short(0x20_0000 * (s * vx - l * dx), 0x20_0000 * (s * vy - l * dy), 3 * (s * l)),
        t > 0,
        l >= 0x1_0000_0000,
    ensures
        short(
            0x20_0000 * (s * (vx * t) - (l * t) * dx),
            0x20_0000 * (s * (vy * t) - (l * t) * dy),
            3 * (s * (l * t)),
        ),
        l * t >= 0x1_0000_0000,
{
    let (gx, gy) = (s * vx - l * dx, s * vy - l * dy);
    lemma_multiplied(0x20_0000 * gx, 0x20_0000 * gy, 3 * (s * l), t);
    assert(t * (0x20_0000 * (s * vx - l * dx)) == 0x20_0000 * (s * (vx * t) - (l * t) * dx))
        by (nonlinear_arith);
    assert(t * (0x20_0000 * (s * vy - l * dy)) == 0x20_0000 * (s * (vy * t) - (l * t) * dy))
        by (nonlinear_arith);
    assert(t * (3 * (s * l)) == 3 * (s * (l * t))) by (nonlinear_arith);
    assert(l * t >= 0x1_0000_0000) by (nonlinear_arith)
        requires
            t > 0,
            l >= 0x1_0000_0000,
    ;
}

} // verus!
