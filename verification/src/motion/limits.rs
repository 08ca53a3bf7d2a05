//! How far a computed length can be from the exact one, and what that means for
//! vectors that are scaled to a limit.

use crate::arithmetic::Number;
use crate::motion::bang_bang::Vec2F64;
use crate::rounding::{
    law_every_number_is_rounded, law_every_root_is_rounded, law_rounding_keeps_order,
    law_value_is_kept, lemma_small_is_zero, lemma_steps_by_parts, lemma_steps_increase,
    lemma_steps_of, lemma_steps_of_zero, Format, DOUBLE_INFINITY, DOUBLE_RANGE,
};
use crate::scalar::{law_order_is_numeric, Scalar};
use vstd::arithmetic::power2::{
    lemma2_to64, lemma2_to64_rest, lemma_pow2_adds, lemma_pow2_pos, lemma_pow2_strictly_increases,
    pow2,
};
use vstd::prelude::*;

verus! {

/// Two to the power of 52.
#[verifier::inline]
spec fn e() -> nat {
    0x10_0000_0000_0000nat
}

/// One more than two to the power of 52.
#[verifier::inline]
spec fn f() -> nat {
    0x10_0000_0000_0001nat
}

/// The square of `e`.
#[verifier::inline]
spec fn e2() -> nat {
    0x100_0000_0000_0000_0000_0000_0000nat
}

/// The square of `f`.
#[verifier::inline]
spec fn f2() -> nat {
    0x100_0000_0000_0020_0000_0000_0001nat
}

/// The fourth power of `e`.
#[verifier::inline]
spec fn e4() -> nat {
    0x1_0000_0000_0000_0000_0000_0000_0000_0000_0000_0000_0000_0000_0000nat
}

/// The fourth power of `f`.
#[verifier::inline]
spec fn f4() -> nat {
    0x1_0000_0000_0000_4000_0000_0000_0600_0000_0000_0040_0000_0000_0001nat
}

/// The sixth power of `e`.
#[verifier::inline]
spec fn e6() -> nat {
    0x100_0000_0000_0000_0000_0000_0000_0000_0000_0000_0000_0000_0000_0000_0000_0000_0000_0000_0000_0000nat
}

/// The sixth power of `f`.
#[verifier::inline]
spec fn f6() -> nat {
    0x100_0000_0000_0060_0000_0000_000f_0000_0000_0001_4000_0000_0000_0f00_0000_0000_0060_0000_0000_0001nat
}

/// Two to the power of 42.
#[verifier::inline]
spec fn k() -> nat {
    0x400_0000_0000nat
}

/// One more than two to the power of 42.
#[verifier::inline]
spec fn k1() -> nat {
    0x400_0000_0001nat
}

/// The step from a magnitude to the next is no more than its value over the
/// range of the format, or one.
pub(crate) proof fn lemma_step(format: Format, m: nat)
    ensures
        (format.steps(m + 1) - format.steps(m)) * format.range() <= format.steps(m)
            + format.range(),
        format.steps(m) <= format.steps(m + 1),
{
    let range = format.range() as nat;
    let field = m / range;
    let fraction = m % range;
    vstd::arithmetic::div_mod::lemma_fundamental_div_mod(m as int, range as int);
    lemma2_to64();
    let (p, mantissa) = if field == 0 {
        (0nat, fraction)
    } else {
        ((field - 1) as nat, range + fraction)
    };
    assert(m == p * range + mantissa) by (nonlinear_arith)
        requires
            m == range * field + fraction,
            field == 0 ==> p == 0 && mantissa == fraction,
            field > 0 ==> p == field - 1 && mantissa == range + fraction,
    ;
    lemma_steps_of(format, p, mantissa);
    lemma_steps_of(format, p, mantissa + 1);
    assert(m + 1 == p * range + (mantissa + 1));
    let step = pow2(p);
    lemma_pow2_pos(p);
    assert((mantissa + 1) * step - mantissa * step == step) by (nonlinear_arith);
    if p > 0 {
        assert(step * range <= mantissa * step) by (nonlinear_arith)
            requires
                range <= mantissa,
        ;
    } else {
        assert(step == 1);
    }
}

/// The step from a double's magnitude to the next.
proof fn lemma_double_step(m: nat)
    ensures
        e() * (Format::Double.steps(m + 1) - Format::Double.steps(m)) <= Format::Double.steps(m)
            + e(),
        Format::Double.steps(m) <= Format::Double.steps(m + 1),
{
    lemma_step(Format::Double, m);
    let step = Format::Double.steps(m + 1) - Format::Double.steps(m);
    let range = Format::Double.range();
    assert(e() * step == step * range) by (nonlinear_arith)
        requires
            range == e(),
    ;
}

/// How far a rounded number can be from the exact one.
proof fn lemma_rounding_error(m: nat, num: nat, den: nat)
    requires
        den > 0,
        m < Format::Double.infinity(),
        Format::Double.rounded(m, num, den),
    ensures
        e() * num <= den * (f() * Format::Double.steps(m) + e()),
        e() * (den * Format::Double.steps(m)) <= f() * (num + den),
{
    let s = Format::Double.steps(m);
    lemma_double_step(m);
    let above = Format::Double.above(m);
    let bound = f() * s + e();
    assert(e() * above <= 2 * bound);
    assert(e() * (den * above) == den * (e() * above)) by (nonlinear_arith);
    assert(den * (e() * above) <= den * (2 * bound)) by (nonlinear_arith)
        requires
            e() * above <= 2 * bound,
    ;
    assert(den * (2 * bound) == 2 * (den * bound)) by (nonlinear_arith);
    let a = den * s;
    if m > 0 {
        lemma_double_step((m - 1) as nat);
        let below = Format::Double.below(m);
        assert(2 * (e() * s) <= e() * below + s + e());
        assert(2 * (e() * a) <= e() * (den * below) + a + e() * den) by (nonlinear_arith)
            requires
                2 * (e() * s) <= e() * below + s + e(),
                a == den * s,
        ;
    } else {
        lemma_steps_of_zero(Format::Double);
        assert(a == 0) by (nonlinear_arith)
            requires
                a == den * s,
                s == 0,
        ;
    }
}

/// How far a rounded square root can be from the exact one.
proof fn lemma_root_error(m: nat, square: nat)
    requires
        m < Format::Double.infinity(),
        Format::Double.rounded_root(m, square),
    ensures
        ({
            let s = Format::Double.steps(m);
            let bound = f() * s + e();
            e2() * square <= bound * bound
        }),
{
    let s = Format::Double.steps(m);
    lemma_double_step(m);
    let above = Format::Double.above(m);
    let bound = f() * s + e();
    let left = e() * above;
    assert(left <= 2 * bound);
    assert(left * left <= (2 * bound) * (2 * bound)) by (nonlinear_arith)
        requires
            left <= 2 * bound,
    ;
    assert(left * left == e2() * (above * above)) by (nonlinear_arith)
        requires
            left == e() * above,
    ;
    assert((2 * bound) * (2 * bound) == 4 * (bound * bound)) by (nonlinear_arith);
}

/// The square of a rounded square root is at most four times the exact square.
pub(crate) proof fn lemma_root_squared(m: nat, square: nat)
    requires
        Format::Double.rounded_root(m, square),
    ensures
        Format::Double.steps(m) * Format::Double.steps(m) <= 4 * square,
{
    let s = Format::Double.steps(m);
    if m > 0 {
        let below = Format::Double.below(m);
        assert(s * s <= below * below) by (nonlinear_arith)
            requires
                s <= below,
        ;
    } else {
        lemma_steps_of_zero(Format::Double);
        assert(s * s == 0) by (nonlinear_arith)
            requires
                s == 0,
        ;
    }
}

/// The square of a sum, by the squares of its parts: a little more of the first
/// and a lot of the second.
proof fn lemma_square_of_sum(a: nat, b: nat)
    ensures
        k() * ((a + b) * (a + b)) <= k1() * (a * a) + k() * (k1() * (b * b)),
{
    let d = a - k() * b;
    let (aa, bb, ab) = (a * a, b * b, a * b);
    assert(d * d >= 0) by (nonlinear_arith);
    assert(d * d == aa - 2 * (k() * ab) + k() * (k() * bb)) by (nonlinear_arith)
        requires
            d == a - k() * b,
            aa == a * a,
            bb == b * b,
            ab == a * b,
    ;
    assert((a + b) * (a + b) == aa + 2 * ab + bb) by (nonlinear_arith)
        requires
            aa == a * a,
            bb == b * b,
            ab == a * b,
    ;
}

/// What a computed length says of the exact one. `xx` and `yy` are the squares
/// of the parts, `p` and `q` the computed ones, `z` their computed sum and `s`
/// its computed root; `o` is the number one.
proof fn lemma_length_bound(xx: nat, yy: nat, p: nat, q: nat, z: nat, s: nat, o: nat)
    requires
        e() * xx <= o * (f() * p + e()),
        e() * yy <= o * (f() * q + e()),
        e() * (p + q) <= f() * z + e(),
        e2() * (z * o) <= (f() * s + e()) * (f() * s + e()),
    ensures
        ({
            let length = f() * (f() * s + e());
            e4() * (xx + yy) <= length * length + 4 * (e4() * o)
        }),
{
    let b = f() * s + e();
    let length = f() * b;
    let c = f() * (p + q) + 2 * e();
    assert(e() * (xx + yy) <= o * c) by (nonlinear_arith)
        requires
            e() * xx <= o * (f() * p + e()),
            e() * yy <= o * (f() * q + e()),
            c == f() * (p + q) + 2 * e(),
    ;
    let d = f2() * z + 4 * e2();
    assert(e() * c <= d);
    assert(e() * (o * c) <= o * d) by (nonlinear_arith)
        requires
            e() * c <= d,
    ;
    assert(o * d == f2() * (z * o) + 4 * (e2() * o)) by (nonlinear_arith)
        requires
            d == f2() * z + 4 * e2(),
    ;
    assert(length * length == f2() * (b * b)) by (nonlinear_arith)
        requires
            length == f() * b,
    ;
}

/// How much a length can be over a limit: one part in 2^40 of its square, and
/// the square of 2^-500. `ww` is the square of the length, `ll` of the limit.
pub open spec fn within(ww: nat, ll: nat, o: nat) -> bool {
    0x100_0000_0000 * ww <= 0x100_0000_0001 * ll + 0x4_0000_0000_0000_0000_0000_0000_0000 * o
}

/// A vector whose computed length is at most the limit is within it.
proof fn lemma_kept_is_within(ww: nat, s: nat, l: nat, o: nat)
    requires
        o >= 1,
        s <= l,
        ({
            let length = f() * (f() * s + e());
            e4() * ww <= length * length + 4 * (e4() * o)
        }),
    ensures
        within(ww, l * l, o),
{
    let length = f() * (f() * s + e());
    let a = f2() * l;
    let b = f() * e();
    let ll = l * l;
    assert(length <= a + b);
    let sum = (a + b) * (a + b);
    assert(length * length <= sum) by (nonlinear_arith)
        requires
            length <= a + b,
            sum == (a + b) * (a + b),
    ;
    lemma_square_of_sum(a, b);
    assert(a * a == f4() * ll) by (nonlinear_arith)
        requires
            a == f2() * l,
            ll == l * l,
    ;
    assert(b * b <= 2 * e4()) by (nonlinear_arith)
        requires
            b == f() * e(),
    ;
    assert(k() * sum <= k1() * (f4() * ll) + k() * (k1() * (2 * e4())));
    assert(0x100_0000_0000 * (e4() * ww) <= 0x100_0000_0001 * (e4() * ll)
        + 0x4_0000_0000_0000_0000_0000_0000_0000 * (e4() * o));
}

/// A part of a scaled vector, by what it was scaled from.
proof fn lemma_scaled_part(x: nat, fx: nat, o: nat, c: nat)
    requires
        e() * (o * fx) <= f() * (x * c + o),
    ensures
        k() * (e2() * ((o * o) * (fx * fx))) <= k1() * (f2() * ((c * c) * (x * x))) + k() * (k1() * (
        f2() * (o * o))),
{
    let left = e() * (o * fx);
    let xc = x * c;
    let right = f() * (xc + o);
    assert(left * left <= right * right) by (nonlinear_arith)
        requires
            left <= right,
    ;
    assert(left * left == e2() * ((o * o) * (fx * fx))) by (nonlinear_arith)
        requires
            left == e() * (o * fx),
    ;
    let sum = (xc + o) * (xc + o);
    assert(right * right == f2() * sum) by (nonlinear_arith)
        requires
            right == f() * (xc + o),
            sum == (xc + o) * (xc + o),
    ;
    lemma_square_of_sum(xc, o);
    assert(k() * sum <= k1() * (xc * xc) + k() * (k1() * (o * o)));
    assert(xc * xc == (c * c) * (x * x)) by (nonlinear_arith)
        requires
            xc == x * c,
    ;
}

/// The factor of a scaled vector, times the computed length.
proof fn lemma_factor_bound(length: nat, s: nat, l: nat, o: nat, c: nat, r: nat)
    requires
        length == f() * (f() * s + e()),
        e() * (s * c) <= f() * (l * o + s),
        c <= o,
        o >= 1,
        r >= 2,
        8 * s <= r * o,
        k() * (r * r) <= o,
    ensures
        k() * (e2() * ((length * length) * (c * c))) <= k1() * (f6() * ((l * l) * (o * o))) + k1() * (
        f2() * (e4() * (o * (o * o)))),
{
    let lo = l * o;
    let ro = r * o;
    let inner = f() * s + e();
    let h = f2() * s + e2() * c;
    let t = c * inner;
    assert(t == f() * (s * c) + e() * c) by (nonlinear_arith)
        requires
            t == c * inner,
            inner == f() * s + e(),
    ;
    let a = f2() * lo;
    assert(e() * t <= a + h);
    let u = e() * (length * c);
    assert(length * c == f() * t) by (nonlinear_arith)
        requires
            length == f() * inner,
            t == c * inner,
    ;
    assert(u <= f() * (a + h));
    let bound = f() * (a + h);
    assert(u * u <= bound * bound) by (nonlinear_arith)
        requires
            u <= bound,
    ;
    assert(u * u == e2() * ((length * length) * (c * c))) by (nonlinear_arith)
        requires
            u == e() * (length * c),
    ;
    let sum = (a + h) * (a + h);
    assert(bound * bound == f2() * sum) by (nonlinear_arith)
        requires
            bound == f() * (a + h),
            sum == (a + h) * (a + h),
    ;
    lemma_square_of_sum(a, h);
    assert(k() * sum <= k1() * (a * a) + k() * (k1() * (h * h)));
    assert(a * a == f4() * ((l * l) * (o * o))) by (nonlinear_arith)
        requires
            a == f2() * lo,
            lo == l * o,
    ;
    assert(2 * o <= ro) by (nonlinear_arith)
        requires
            ro == r * o,
            r >= 2,
    ;
    let most = e2() * ro;
    assert(h <= most);
    assert(h * h <= most * most) by (nonlinear_arith)
        requires
            h <= most,
    ;
    assert(most * most == e4() * ((r * r) * (o * o))) by (nonlinear_arith)
        requires
            most == e2() * ro,
            ro == r * o,
    ;
    let oo = o * o;
    assert(k() * ((r * r) * oo) <= o * oo) by (nonlinear_arith)
        requires
            k() * (r * r) <= o,
    ;
}

/// A vector that was scaled to a limit is within it.
proof fn lemma_scaled_is_within(
    x: nat,
    y: nat,
    fx: nat,
    fy: nat,
    s: nat,
    l: nat,
    o: nat,
    c: nat,
    r: nat,
)
    requires
        ({
            let length = f() * (f() * s + e());
            e4() * (x * x + y * y) <= length * length + 4 * (e4() * o)
        }),
        e() * (s * c) <= f() * (l * o + s),
        e() * (o * fx) <= f() * (x * c + o),
        e() * (o * fy) <= f() * (y * c + o),
        c <= o,
        o >= 1,
        r >= 2,
        8 * s <= r * o,
        k() * (r * r) <= o,
    ensures
        within(fx * fx + fy * fy, l * l, o),
{
    let length = f() * (f() * s + e());
    let oo = o * o;
    let ooo = o * oo;
    let ll = l * l;
    let cc = c * c;
    let ww = fx * fx + fy * fy;
    let v = cc * (x * x + y * y);
    lemma_scaled_part(x, fx, o, c);
    lemma_scaled_part(y, fy, o, c);
    assert(oo * (fx * fx) + oo * (fy * fy) == ww * oo) by (nonlinear_arith)
        requires
            ww == fx * fx + fy * fy,
    ;
    assert(cc * (x * x) + cc * (y * y) == v) by (nonlinear_arith)
        requires
            v == cc * (x * x + y * y),
    ;
    lemma_factor_bound(length, s, l, o, c, r);
    assert(e4() * v <= (length * length) * cc + 4 * (e4() * (o * cc))) by (nonlinear_arith)
        requires
            e4() * (x * x + y * y) <= length * length + 4 * (e4() * o),
            v == cc * (x * x + y * y),
    ;
    assert(cc <= oo) by (nonlinear_arith)
        requires
            cc == c * c,
            oo == o * o,
            c <= o,
    ;
    assert(o * cc <= ooo) by (nonlinear_arith)
        requires
            cc <= oo,
            ooo == o * oo,
    ;
    assert(oo <= ooo) by (nonlinear_arith)
        requires
            ooo == o * oo,
            o >= 1,
    ;
    assert(oo > 0) by (nonlinear_arith)
        requires
            oo == o * o,
            o >= 1,
    ;
    let lloo = ll * oo;
    assert(k() * (e2() * (ww * oo)) <= k1() * (f2() * v) + 2 * (k() * (k1() * (f2() * oo))));
    assert(k() * (e6() * v) <= k1() * (f6() * lloo) + k1() * (f2() * (e4() * ooo)) + 4 * (k() * (
    e6() * ooo)));
    assert(0x100_0000_0000 * (ww * oo) <= 0x100_0000_0001 * lloo
        + 0x4_0000_0000_0000_0000_0000_0000_0000 * ooo);
    lemma_cancel(ww, ll, o, oo);
}

/// A common factor can be left out.
proof fn lemma_cancel(ww: nat, ll: nat, o: nat, k: nat)
    requires
        k > 0,
        0x100_0000_0000 * (ww * k) <= 0x100_0000_0001 * (ll * k)
            + 0x4_0000_0000_0000_0000_0000_0000_0000 * (o * k),
    ensures
        within(ww, ll, o),
{
    let right = 0x100_0000_0001 * ll + 0x4_0000_0000_0000_0000_0000_0000_0000 * o;
    let left = 0x100_0000_0000 * ww;
    assert(left * k == 0x100_0000_0000 * (ww * k)) by (nonlinear_arith)
        requires
            left == 0x100_0000_0000 * ww,
    ;
    assert(right * k == 0x100_0000_0001 * (ll * k) + 0x4_0000_0000_0000_0000_0000_0000_0000 * (o
        * k)) by (nonlinear_arith)
        requires
            right == 0x100_0000_0001 * ll + 0x4_0000_0000_0000_0000_0000_0000_0000 * o,
    ;
    assert(left <= right) by (nonlinear_arith)
        requires
            left * k <= right * k,
            k > 0,
    ;
}

/// The magnitude of the number one.
pub const ONE: u64 = 0x3ff0_0000_0000_0000;

/// The values of the number one and of the power of two above all numbers.
proof fn lemma_landmarks()
    ensures
        Format::Double.steps(ONE as nat) == Format::Double.one(),
        Format::Double.steps(DOUBLE_INFINITY as nat) == pow2(1024) * Format::Double.one(),
        k() * (pow2(516) * pow2(516)) == Format::Double.one(),
        pow2(516) >= 2,
{
    let range = DOUBLE_RANGE as nat;
    lemma2_to64();
    lemma2_to64_rest();
    lemma_steps_by_parts(Format::Double, ONE as nat);
    lemma_steps_by_parts(Format::Double, DOUBLE_INFINITY as nat);
    assert((ONE as nat) / range == 1023 && (ONE as nat) % range == 0);
    lemma_pow2_adds(52, 1022);
    assert((DOUBLE_INFINITY as nat) / range == 2047 && (DOUBLE_INFINITY as nat) % range == 0);
    lemma_pow2_adds(52, 2046);
    lemma_pow2_adds(1024, 1074);
    lemma_pow2_adds(516, 516);
    lemma_pow2_adds(42, 1032);
    lemma_pow2_strictly_increases(1, 516);
}

/// A computed length, by what it was computed from: either it is infinite, or
/// it bounds the parts, and it is below 2^513.
proof fn lemma_norm(v: Vec2F64)
    requires
        v.x.finite(),
        v.y.finite(),
    ensures
        !v.norm().number().negative,
        v.norm().number().infinite(Format::Double) || v.norm().finite(),
        v.norm().finite() ==> ({
            let x = Format::Double.steps(v.x.magnitude());
            let y = Format::Double.steps(v.y.magnitude());
            let s = Format::Double.steps(v.norm().magnitude());
            let o = Format::Double.one();
            let length = f() * (f() * s + e());
            &&& e4() * (x * x + y * y) <= length * length + 4 * (e4() * o)
            &&& s < pow2(513) * o
        }),
{
    let double = Format::Double;
    let o = double.one();
    let x = double.steps(v.x.magnitude());
    let y = double.steps(v.y.magnitude());
    lemma_pow2_pos(1074);
    lemma_landmarks();
    law_every_number_is_rounded(double, x * x, o);
    law_every_number_is_rounded(double, y * y, o);
    let px = v.x.product(v.x);
    let py = v.y.product(v.y);
    let pm = double.nearest(x * x, o);
    let qm = double.nearest(y * y, o);
    assert(px.number() == Number { negative: false, magnitude: pm as u64 });
    assert(py.number() == Number { negative: false, magnitude: qm as u64 });
    let sum = px.sum(py);
    if pm < double.infinity() && qm < double.infinity() {
        let p = double.steps(pm);
        let q = double.steps(qm);
        lemma_rounding_error(pm, x * x, o);
        lemma_rounding_error(qm, y * y, o);
        law_every_number_is_rounded(double, p + q, 1);
        let zm = double.nearest(p + q, 1);
        if p + q == 0 {
            lemma_small_is_zero(double, 0, 1);
        }
        lemma_steps_of_zero(double);
        assert(sum.number() == Number { negative: false, magnitude: zm as u64 });
        if zm < double.infinity() {
            let z = double.steps(zm);
            lemma_rounding_error(zm, p + q, 1);
            assert(1 * (f() * z + e()) == f() * z + e());
            lemma_steps_increase(double, zm, double.infinity() as nat);
            let square = z * o;
            law_every_root_is_rounded(double, square);
            if zm == 0 {
                assert(v.norm() == sum);
                assert(square == 0) by (nonlinear_arith)
                    requires
                        square == z * o,
                        z == 0,
                ;
                lemma_length_bound(x * x, y * y, p, q, z, 0, o);
                lemma_pow2_pos(513);
                assert(pow2(513) * o > 0) by (nonlinear_arith)
                    requires
                        pow2(513) > 0,
                        o > 0,
                ;
            } else {
                let m = double.nearest_root(square);
                lemma_root_is_small(m, z, square);
                let s = double.steps(m);
                assert(v.norm().number() == Number { negative: false, magnitude: m as u64 });
                lemma_root_error(m, square);
                lemma_length_bound(x * x, y * y, p, q, z, s, o);
            }
        }
    }
}

/// The root of a finite number is finite, and below 2^513.
pub(crate) proof fn lemma_root_is_small(m: nat, z: nat, square: nat)
    requires
        z < pow2(1024) * Format::Double.one(),
        square == z * Format::Double.one(),
        Format::Double.rounded_root(m, square),
    ensures
        m < Format::Double.infinity(),
        Format::Double.steps(m) < pow2(513) * Format::Double.one(),
{
    let double = Format::Double;
    let o = double.one();
    let top = pow2(1024);
    lemma_landmarks();
    lemma_pow2_pos(1074);
    assert(square < top * (o * o)) by (nonlinear_arith)
        requires
            square == z * o,
            z < top * o,
            o > 0,
    ;
    lemma2_to64();
    lemma_pow2_strictly_increases(2, 1024);
    if m == double.infinity() {
        let below = double.below(m);
        let s = double.steps(m);
        assert(below * below >= s * s) by (nonlinear_arith)
            requires
                below >= s,
        ;
        assert(s * s == (top * top) * (o * o)) by (nonlinear_arith)
            requires
                s == top * o,
        ;
        assert((top * top) * (o * o) >= 4 * (top * (o * o))) by (nonlinear_arith)
            requires
                top >= 4,
        ;
    }
    lemma_root_squared(m, square);
    let s = double.steps(m);
    let bound = pow2(513) * o;
    lemma_pow2_adds(513, 513);
    lemma_pow2_adds(2, 1024);
    assert(bound * bound == (pow2(513) * pow2(513)) * (o * o)) by (nonlinear_arith)
        requires
            bound == pow2(513) * o,
    ;
    assert((4 * top) * (o * o) == 4 * (top * (o * o))) by (nonlinear_arith);
    assert(s < bound) by (nonlinear_arith)
        requires
            s * s < bound * bound,
    ;
}

/// The square of a number, in the square of the smallest positive one.
pub open spec fn square_of(a: Scalar) -> nat {
    Format::Double.steps(a.magnitude()) * Format::Double.steps(a.magnitude())
}

/// A vector that is scaled to a limit where it is longer is no longer than the
/// limit, but for rounding: its exact square exceeds that of the limit by no
/// more than one part in 2^40 and the square of 2^-500. That holds of every
/// finite vector, however long or short.
pub proof fn law_shortened_vector_is_within(v: Vec2F64, limit: Scalar)
    requires
        v.x.finite(),
        v.y.finite(),
        limit.finite(),
        Scalar::zero().at_most(limit),
    ensures
        v.shortened(limit).x.finite(),
        v.shortened(limit).y.finite(),
        within(
            square_of(v.shortened(limit).x) + square_of(v.shortened(limit).y),
            square_of(limit),
            Format::Double.one(),
        ),
{
    let double = Format::Double;
    let o = double.one();
    let x = double.steps(v.x.magnitude());
    let y = double.steps(v.y.magnitude());
    let l = double.steps(limit.magnitude());
    let norm = v.norm();
    let w = v.shortened(limit);
    lemma_pow2_pos(1074);
    lemma_landmarks();
    lemma_norm(v);
    lemma_steps_of_zero(double);
    if norm.finite() {
        let s = double.steps(norm.magnitude());
        law_order_is_numeric(limit, norm);
        lemma_limit_is_positive(limit);
        if limit.less(norm) {
            let factor = limit.quotient(norm);
            law_every_number_is_rounded(double, l * o, s);
            let cm = double.nearest(l * o, s);
            let c = double.steps(cm);
            lemma_factor_is_small(l, s);
            assert(factor.magnitude() == cm);
            lemma_rounding_error(cm, l * o, s);
            assert(e() * (s * c) <= f() * (l * o + s));
            lemma_scaled_magnitude(v.x.magnitude(), c);
            lemma_scaled_magnitude(v.y.magnitude(), c);
            let fx = double.steps(double.nearest(x * c, o));
            let fy = double.steps(double.nearest(y * c, o));
            assert(w.x.magnitude() == double.nearest(x * c, o));
            assert(w.y.magnitude() == double.nearest(y * c, o));
            lemma_pow2_adds(3, 513);
            lemma2_to64();
            assert(8 * s <= pow2(516) * o) by (nonlinear_arith)
                requires
                    s < pow2(513) * o,
                    pow2(516) == 8 * pow2(513),
            ;
            lemma_scaled_is_within(x, y, fx, fy, s, l, o, c, pow2(516));
        } else {
            lemma_kept_is_within(x * x + y * y, s, l, o);
        }
    } else {
        assert(limit.less(norm));
        assert(limit.quotient(norm).magnitude() == 0);
        assert(x * 0 == 0 && y * 0 == 0);
        lemma_small_is_zero(double, 0, o);
        assert(w.x.magnitude() == 0 && w.y.magnitude() == 0);
        assert(square_of(w.x) == 0 && square_of(w.y) == 0) by (nonlinear_arith)
            requires
                square_of(w.x) == double.steps(w.x.magnitude()) * double.steps(w.x.magnitude()),
                square_of(w.y) == double.steps(w.y.magnitude()) * double.steps(w.y.magnitude()),
                double.steps(w.x.magnitude()) == 0,
                double.steps(w.y.magnitude()) == 0,
        ;
    }
}

/// A vector that is scaled to a limit where it is longer has no larger parts
/// than before.
pub(crate) proof fn lemma_shortened_is_smaller(v: Vec2F64, limit: Scalar)
    requires
        v.x.finite(),
        v.y.finite(),
        Scalar::zero().at_most(limit) || limit.nan(),
    ensures
        v.shortened(limit).x.magnitude() <= v.x.magnitude(),
        v.shortened(limit).y.magnitude() <= v.y.magnitude(),
{
    let double = Format::Double;
    let o = double.one();
    let x = double.steps(v.x.magnitude());
    let y = double.steps(v.y.magnitude());
    let l = double.steps(limit.magnitude());
    let norm = v.norm();
    lemma_pow2_pos(1074);
    lemma_norm(v);
    lemma_steps_of_zero(double);
    if limit.less(norm) {
        assert(limit.finite());
        if norm.finite() {
            let s = double.steps(norm.magnitude());
            law_order_is_numeric(limit, norm);
            lemma_limit_is_positive(limit);
            lemma_factor_is_small(l, s);
            let c = double.steps(double.nearest(l * o, s));
            lemma_scaled_magnitude(v.x.magnitude(), c);
            lemma_scaled_magnitude(v.y.magnitude(), c);
        } else {
            assert(limit.quotient(norm).magnitude() == 0);
            assert(x * 0 == 0 && y * 0 == 0);
            lemma_small_is_zero(double, 0, o);
        }
    }
}

/// A limit that is not negative has no sign, or is zero.
pub(crate) proof fn lemma_limit_is_positive(limit: Scalar)
    requires
        limit.finite(),
        Scalar::zero().at_most(limit),
    ensures
        limit.value() == Format::Double.steps(limit.magnitude()),
{
    lemma_steps_of_zero(Format::Double);
}

/// The factor that scales to a smaller number is at most one.
proof fn lemma_factor_is_small(l: nat, s: nat)
    requires
        l < s,
    ensures
        ({
            let o = Format::Double.one();
            let cm = Format::Double.nearest(l * o, s);
            &&& cm < Format::Double.infinity()
            &&& Format::Double.steps(cm) <= o
        }),
{
    let double = Format::Double;
    let o = double.one();
    lemma_landmarks();
    law_value_is_kept(double, ONE as nat, s);
    assert(l * o <= o * s) by (nonlinear_arith)
        requires
            l < s,
    ;
    law_rounding_keeps_order(double, l * o, o * s, s);
    let cm = double.nearest(l * o, s);
    if cm < ONE {
        lemma_steps_increase(double, cm, ONE as nat);
    }
}

/// A magnitude that is scaled by a factor of at most one stays finite.
proof fn lemma_scaled_magnitude(m: nat, c: nat)
    requires
        m < Format::Double.infinity(),
        c <= Format::Double.one(),
    ensures
        ({
            let o = Format::Double.one();
            let x = Format::Double.steps(m);
            let scaled = Format::Double.nearest(x * c, o);
            &&& scaled <= m
            &&& e() * (o * Format::Double.steps(scaled)) <= f() * (x * c + o)
        }),
{
    let double = Format::Double;
    let o = double.one();
    let x = double.steps(m);
    lemma_pow2_pos(1074);
    law_value_is_kept(double, m, o);
    assert(x * c <= x * o) by (nonlinear_arith)
        requires
            c <= o,
    ;
    law_rounding_keeps_order(double, x * c, x * o, o);
    law_every_number_is_rounded(double, x * c, o);
    lemma_rounding_error(double.nearest(x * c, o), x * c, o);
}

/// How far a rounded number can be from the exact one: one part in 2^52 and a
/// few times the smallest positive number.
pub(crate) proof fn lemma_distance_of_rounded(m: nat, num: nat, den: nat)
    requires
        den > 0,
        m < Format::Double.infinity(),
        Format::Double.rounded(m, num, den),
    ensures
        0x10_0000_0000_0000 * (den * Format::Double.steps(m) - num) <= num
            + 0x20_0000_0000_0000 * den,
        0x10_0000_0000_0000 * (num - den * Format::Double.steps(m)) <= num
            + 0x20_0000_0000_0000 * den,
{
    let s = Format::Double.steps(m);
    lemma_rounding_error(m, num, den);
    let a = den * s;
    assert(den * (f() * s + e()) == f() * a + e() * den) by (nonlinear_arith)
        requires
            a == den * s,
    ;
}

/// A rounded square root is not far above the exact one.
proof fn lemma_root_excess(m: nat, square: nat)
    requires
        0 < m < Format::Double.infinity(),
        Format::Double.rounded_root(m, square),
        Format::Double.steps(m) >= e(),
    ensures
        ({
            let less = (e() - 1) * Format::Double.steps(m);
            less * less <= e2() * square
        }),
{
    let s = Format::Double.steps(m);
    lemma_double_step((m - 1) as nat);
    let below = Format::Double.below(m);
    let less = (e() - 1) * s;
    let left = e() * below;
    assert(2 * less <= left);
    assert((2 * less) * (2 * less) <= left * left) by (nonlinear_arith)
        requires
            0 <= 2 * less <= left,
    ;
    assert((2 * less) * (2 * less) == 4 * (less * less)) by (nonlinear_arith);
    assert(left * left == e2() * (below * below)) by (nonlinear_arith)
        requires
            left == e() * below,
    ;
}

/// What a computed length says of the exact one that is not shorter. The names
/// are those of the bound from above.
proof fn lemma_length_is_reached(xx: nat, yy: nat, p: nat, q: nat, z: nat, s: nat, o: nat)
    requires
        e() * (o * p) <= f() * (xx + o),
        e() * (o * q) <= f() * (yy + o),
        e() * z <= f() * (p + q + 1),
        ({
            let less = (e() - 1) * s;
            less * less <= e2() * (z * o)
        }),
        4 * (f2() * o) <= s * s,
    ensures
        0x3f_ffff_ffff * (s * s) <= 0x40_0000_0000 * (xx + yy),
{
    let less = (e() - 1) * s;
    let (ww, ss, n) = (xx + yy, s * s, p + q);
    let on = o * n;
    assert(on == o * p + o * q) by (nonlinear_arith)
        requires
            on == o * n,
            n == p + q,
    ;
    assert(e() * on <= f() * (ww + 2 * o));
    let oz = z * o;
    assert(e() * oz <= f() * (on + o)) by (nonlinear_arith)
        requires
            e() * z <= f() * (n + 1),
            on == o * n,
            oz == z * o,
    ;
    assert(e2() * oz <= f2() * (ww + 3 * o));
    assert(less * less == 0xff_ffff_ffff_ffe0_0000_0000_0001nat * ss) by (nonlinear_arith)
        requires
            less == 0xf_ffff_ffff_ffff * s,
            ss == s * s,
    ;
}

/// A computed length that is not tiny is the exact one, but for one part in
/// 2^38 of its square.
pub(crate) proof fn lemma_long_norm(v: Vec2F64)
    requires
        v.x.finite(),
        v.y.finite(),
        v.norm().finite(),
        pow2(925) <= Format::Double.steps(v.norm().magnitude()),
    ensures
        ({
            let ww = square_of(v.x) + square_of(v.y);
            let ss = square_of(v.norm());
            &&& 0x3f_ffff_ffff * ss <= 0x40_0000_0000 * ww
            &&& 0x40_0000_0000 * ww <= 0x40_0000_0001 * ss
        }),
{
    let double = Format::Double;
    let o = double.one();
    let x = double.steps(v.x.magnitude());
    let y = double.steps(v.y.magnitude());
    let s = double.steps(v.norm().magnitude());
    lemma_norm(v);
    lemma_pow2_pos(1074);
    lemma_kept_is_within(x * x + y * y, s, s, o);
    lemma_long_square(s);
    lemma_landmarks();
    lemma_steps_of_zero(double);
    law_every_number_is_rounded(double, x * x, o);
    law_every_number_is_rounded(double, y * y, o);
    let px = v.x.product(v.x);
    let py = v.y.product(v.y);
    let pm = double.nearest(x * x, o);
    let qm = double.nearest(y * y, o);
    assert(px.number() == Number { negative: false, magnitude: pm as u64 });
    assert(py.number() == Number { negative: false, magnitude: qm as u64 });
    let sum = px.sum(py);
    assert(pm < double.infinity() && qm < double.infinity());
    let p = double.steps(pm);
    let q = double.steps(qm);
    lemma_rounding_error(pm, x * x, o);
    lemma_rounding_error(qm, y * y, o);
    law_every_number_is_rounded(double, p + q, 1);
    let zm = double.nearest(p + q, 1);
    if p + q == 0 {
        lemma_small_is_zero(double, 0, 1);
    }
    assert(sum.number() == Number { negative: false, magnitude: zm as u64 });
    assert(0 < zm < double.infinity());
    let z = double.steps(zm);
    lemma_rounding_error(zm, p + q, 1);
    assert(1 * z == z);
    let square = z * o;
    law_every_root_is_rounded(double, square);
    let m = double.nearest_root(square);
    assert(v.norm().number() == Number { negative: false, magnitude: m as u64 });
    lemma_root_excess(m, square);
    lemma_length_is_reached(x * x, y * y, p, q, z, s, o);
}

/// The square of what is not tiny is far above the smallest number.
proof fn lemma_long_square(s: nat)
    requires
        pow2(925) <= s,
    ensures
        s >= e(),
        4 * (f2() * Format::Double.one()) <= s * s,
        0x4_0000_0000_0000_0000_0000_0000_0000 * Format::Double.one() <= s * s,
{
    let t = pow2(925);
    let o = Format::Double.one();
    lemma2_to64();
    lemma2_to64_rest();
    lemma_pow2_strictly_increases(52, 925);
    assert(t * t <= s * s) by (nonlinear_arith)
        requires
            t <= s,
    ;
    lemma_pow2_adds(925, 925);
    lemma_pow2_adds(114, 1074);
    lemma_pow2_adds(57, 57);
    lemma_pow2_strictly_increases(1188, 1850);
}

/// The factor that scales a length to a limit, times that length, is not far
/// below the limit.
pub(crate) proof fn lemma_factor_is_close(l: nat, s: nat)
    requires
        l < s,
    ensures
        ({
            let o = Format::Double.one();
            let c = Format::Double.steps(Format::Double.nearest(l * o, s));
            &&& Format::Double.nearest(l * o, s) < Format::Double.infinity()
            &&& c <= o
            &&& 0x40_0000_0000 * (o * l - c * s) <= o * s
        }),
{
    let double = Format::Double;
    let o = double.one();
    lemma_factor_is_small(l, s);
    law_every_number_is_rounded(double, l * o, s);
    let cm = double.nearest(l * o, s);
    let c = double.steps(cm);
    lemma_rounding_error(cm, l * o, s);
    lemma2_to64_rest();
    lemma_pow2_strictly_increases(52, 1074);
    let (ol, os, cs) = (o * l, o * s, c * s);
    assert(e() * ol <= f() * cs + e() * s) by (nonlinear_arith)
        requires
            e() * (l * o) <= s * (f() * c + e()),
            ol == o * l,
            cs == c * s,
    ;
    assert(ol <= os) by (nonlinear_arith)
        requires
            l < s,
            ol == o * l,
            os == o * s,
    ;
    assert(e() * s <= os) by (nonlinear_arith)
        requires
            e() <= o,
            os == o * s,
    ;
}

/// A computed length is not negative, and far below what a factor can make of
/// it.
pub(crate) proof fn lemma_norm_is_not_negative(v: Vec2F64)
    requires
        v.x.finite(),
        v.y.finite(),
        v.norm().finite(),
    ensures
        !v.norm().number().negative,
        0x10_0000 * Format::Double.steps(v.norm().magnitude()) <= Format::Double.one() * pow2(925),
{
    lemma_norm(v);
    let s = Format::Double.steps(v.norm().magnitude());
    let o = Format::Double.one();
    lemma2_to64();
    lemma_pow2_adds(20, 513);
    lemma_pow2_strictly_increases(533, 925);
    assert(0x10_0000 * s <= o * pow2(925)) by (nonlinear_arith)
        requires
            s < pow2(513) * o,
            0x10_0000 * pow2(513) < pow2(925),
    ;
}

/// A vector is within its computed length.
pub(crate) proof fn lemma_short_norm(v: Vec2F64)
    requires
        v.x.finite(),
        v.y.finite(),
        v.norm().finite(),
    ensures
        within(square_of(v.x) + square_of(v.y), square_of(v.norm()), Format::Double.one()),
{
    let s = Format::Double.steps(v.norm().magnitude());
    lemma_norm(v);
    lemma_pow2_pos(1074);
    lemma_kept_is_within(square_of(v.x) + square_of(v.y), s, s, Format::Double.one());
}

/// The square of a rounded square root that is not tiny is the exact square, but
/// for one part in 2^49.
pub(crate) proof fn lemma_root_is_close(m: nat, square: nat)
    requires
        0 < m < Format::Double.infinity(),
        Format::Double.rounded_root(m, square),
        Format::Double.steps(m) >= 0x10_0000_0000_0000,
    ensures
        ({
            let ss = Format::Double.steps(m) * Format::Double.steps(m);
            &&& 0x1_ffff_ffff_ffff * ss <= 0x2_0000_0000_0000 * square
            &&& 0x2_0000_0000_0000 * square <= 0x2_0000_0000_0001 * ss
        }),
{
    let s = Format::Double.steps(m);
    let ss = s * s;
    lemma_root_excess(m, square);
    lemma_root_error(m, square);
    let less = (e() - 1) * s;
    assert(less * less == 0xff_ffff_ffff_ffe0_0000_0000_0001nat * ss) by (nonlinear_arith)
        requires
            less == 0xf_ffff_ffff_ffff * s,
            ss == s * s,
    ;
    let bound = f() * s + e();
    let more = 0x10_0000_0000_0002 * s;
    assert(bound <= more);
    assert(bound * bound <= more * more) by (nonlinear_arith)
        requires
            0 <= bound <= more,
    ;
    assert(more * more == 0x100_0000_0000_0040_0000_0000_0004nat * ss) by (nonlinear_arith)
        requires
            more == 0x10_0000_0000_0002 * s,
            ss == s * s,
    ;
}

} // verus!
