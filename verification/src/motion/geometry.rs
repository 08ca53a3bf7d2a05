//! Lengths of vectors of integers, by their squares.

use vstd::prelude::*;

verus! {

/// Whether a vector is no longer than this.
pub open spec fn short(x: int, y: int, length: nat) -> bool {
    x * x + y * y <= length * length
}

/// The magnitude of an integer.
pub open spec fn size(x: int) -> nat {
    if x < 0 {
        (-x) as nat
    } else {
        x as nat
    }
}

/// Two to the power of 38.
#[verifier::inline]
spec fn h() -> nat {
    0x40_0000_0000nat
}

/// A square is not negative.
pub proof fn lemma_square(x: int)
    by (nonlinear_arith)
    ensures
        x * x >= 0,
{
}

/// Factors can be exchanged.
proof fn lemma_regroup(a: int, b: int, c: int, d: int)
    by (nonlinear_arith)
    ensures
        (a * b) * (c * d) == (a * c) * (b * d),
{
}

/// The square of a sum and of a difference.
proof fn lemma_square_of_both(p: int, q: int)
    by (nonlinear_arith)
    ensures
        (p + q) * (p + q) == p * p + 2 * (p * q) + q * q,
        (p - q) * (p - q) == p * p - 2 * (p * q) + q * q,
{
}

/// The square of the scalar product and that of the cross product make up the
/// squares of both lengths.
proof fn lemma_dot_and_cross(ax: int, ay: int, bx: int, by: int)
    ensures
        (ax * bx + ay * by) * (ax * bx + ay * by) + (ax * by - ay * bx) * (ax * by - ay * bx) == (ax
            * ax + ay * ay) * (bx * bx + by * by),
{
    lemma_square_of_both(ax * bx, ay * by);
    lemma_square_of_both(ax * by, ay * bx);
    lemma_regroup(ax, bx, ax, bx);
    lemma_regroup(ay, by, ay, by);
    lemma_regroup(ax, by, ax, by);
    lemma_regroup(ay, bx, ay, bx);
    lemma_regroup(ax, bx, ay, by);
    lemma_regroup(ax, by, ay, bx);
    assert(bx * by == by * bx) by (nonlinear_arith);
    let (a2, c2, b2, d2) = (ax * ax, ay * ay, bx * bx, by * by);
    assert((a2 + c2) * (b2 + d2) == a2 * b2 + a2 * d2 + c2 * b2 + c2 * d2) by (nonlinear_arith);
}

/// The square of a difference of multiples.
proof fn lemma_square_of_difference(l: int, n: int, s: int, c: int)
    ensures
        (l * n - s * c) * (l * n - s * c) == (l * l) * (n * n) - 2 * ((l * s) * (n * c)) + (s * s)
            * (c * c),
{
    lemma_square_of_both(l * n, s * c);
    lemma_regroup(l, n, l, n);
    lemma_regroup(l, n, s, c);
    lemma_regroup(s, c, s, c);
}

/// A factor of a sum is one of each part.
proof fn lemma_distributes(k: int, a: int, b: int)
    by (nonlinear_arith)
    ensures
        k * (a + b) == k * a + k * b,
{
}

/// The square of the length of a difference of multiples.
proof fn lemma_length_of_difference(l: int, nx: int, ny: int, s: int, cx: int, cy: int)
    ensures
        (l * nx - s * cx) * (l * nx - s * cx) + (l * ny - s * cy) * (l * ny - s * cy) == (l * l) * (
        nx * nx + ny * ny) - 2 * ((l * s) * (nx * cx + ny * cy)) + (s * s) * (cx * cx + cy * cy),
{
    lemma_square_of_difference(l, nx, s, cx);
    lemma_square_of_difference(l, ny, s, cy);
    lemma_distributes(l * l, nx * nx, ny * ny);
    lemma_distributes(l * s, nx * cx, ny * cy);
    lemma_distributes(s * s, cx * cx, cy * cy);
}

/// The sum of two vectors is no longer than both together.
pub proof fn lemma_triangle(ax: int, ay: int, bx: int, by: int, a: nat, b: nat)
    requires
        short(ax, ay, a),
        short(bx, by, b),
    ensures
        short(ax + bx, ay + by, a + b),
{
    let (aa, bb, dot, cross) = (
        ax * ax + ay * ay,
        bx * bx + by * by,
        ax * bx + ay * by,
        ax * by - ay * bx,
    );
    lemma_dot_and_cross(ax, ay, bx, by);
    lemma_square(ax);
    lemma_square(ay);
    lemma_square(bx);
    lemma_square(by);
    let ab = a * b;
    let (a2, b2) = (a * a, b * b);
    assert(aa * bb <= a2 * b2) by (nonlinear_arith)
        requires
            0 <= aa <= a2,
            0 <= bb <= b2,
    ;
    assert(a2 * b2 == ab * ab) by (nonlinear_arith)
        requires
            a2 == a * a,
            b2 == b * b,
            ab == a * b,
    ;
    assert(cross * cross >= 0) by (nonlinear_arith);
    assert(dot <= ab) by (nonlinear_arith)
        requires
            dot * dot <= ab * ab,
            ab >= 0,
    ;
    assert((ax + bx) * (ax + bx) + (ay + by) * (ay + by) == aa + 2 * dot + bb) by (nonlinear_arith)
        requires
            aa == ax * ax + ay * ay,
            bb == bx * bx + by * by,
            dot == ax * bx + ay * by,
    ;
    assert((a + b) * (a + b) == a * a + 2 * ab + b * b) by (nonlinear_arith)
        requires
            ab == a * b,
    ;
}

/// A vector is no longer than a larger length either.
pub proof fn lemma_longer(x: int, y: int, a: nat, b: nat)
    requires
        short(x, y, a),
        a <= b,
    ensures
        short(x, y, b),
{
    assert(a * a <= b * b) by (nonlinear_arith)
        requires
            a <= b,
    ;
}

/// A vector and its length, both multiplied by the same number.
pub proof fn lemma_multiplied(x: int, y: int, a: nat, k: nat)
    requires
        short(x, y, a),
    ensures
        short(k * x, k * y, k * a),
{
    let (l, r) = (x * x + y * y, a * a);
    assert((k * x) * (k * x) + (k * y) * (k * y) == (k * k) * l) by (nonlinear_arith)
        requires
            l == x * x + y * y,
    ;
    assert((k * a) * (k * a) == (k * k) * r) by (nonlinear_arith)
        requires
            r == a * a,
    ;
    assert((k * k) * l <= (k * k) * r) by (nonlinear_arith)
        requires
            l <= r,
    ;
}

/// A vector and its length, both divided by the same number.
pub proof fn lemma_divided(x: int, y: int, a: nat, k: nat)
    requires
        short(k * x, k * y, k * a),
        k > 0,
    ensures
        short(x, y, a),
{
    let (l, r) = (x * x + y * y, a * a);
    assert((k * x) * (k * x) + (k * y) * (k * y) == (k * k) * l) by (nonlinear_arith)
        requires
            l == x * x + y * y,
    ;
    assert((k * a) * (k * a) == (k * k) * r) by (nonlinear_arith)
        requires
            r == a * a,
    ;
    assert(k * k > 0) by (nonlinear_arith)
        requires
            k > 0,
    ;
    let kk = k * k;
    assert(l <= r) by (nonlinear_arith)
        requires
            kk * l <= kk * r,
            kk > 0,
    ;
}

/// A vector whose parts are one part in `h` of those of another, and a little
/// more.
pub proof fn lemma_small_parts(x: int, y: int, ux: int, uy: int, b: nat, h: nat, k: nat)
    requires
        short(ux, uy, b),
        h * size(x) <= size(ux) + k,
        h * size(y) <= size(uy) + k,
        h > 0,
    ensures
        short(x, y, ((b + 2 * k) / h + 1) as nat),
{
    let (p, q) = (size(ux), size(uy));
    assert(p * p == ux * ux && q * q == uy * uy) by (nonlinear_arith)
        requires
            p == ux || p == -ux,
            q == uy || q == -uy,
    ;
    assert(p <= b && q <= b) by (nonlinear_arith)
        requires
            p * p + q * q <= b * b,
            p >= 0,
            q >= 0,
    ;
    let (v, w) = (size(x), size(y));
    assert(v * v == x * x && w * w == y * y) by (nonlinear_arith)
        requires
            v == x || v == -x,
            w == y || w == -y,
    ;
    let (hv, hw) = (h * v, h * w);
    assert(hv * hv <= (p + k) * (p + k) && hw * hw <= (q + k) * (q + k)) by (nonlinear_arith)
        requires
            0 <= hv <= p + k,
            0 <= hw <= q + k,
    ;
    let c = (b + 2 * k) as nat;
    let (pk, qk, bk, kk) = (p * k, q * k, b * k, k * k);
    assert((p + k) * (p + k) == p * p + 2 * pk + kk) by (nonlinear_arith)
        requires
            pk == p * k,
            kk == k * k,
    ;
    assert((q + k) * (q + k) == q * q + 2 * qk + kk) by (nonlinear_arith)
        requires
            qk == q * k,
            kk == k * k,
    ;
    assert(c * c == b * b + 4 * bk + 4 * kk) by (nonlinear_arith)
        requires
            c == b + 2 * k,
            bk == b * k,
            kk == k * k,
    ;
    assert(pk <= bk) by (nonlinear_arith)
        requires
            p <= b,
            pk == p * k,
            bk == b * k,
    ;
    assert(qk <= bk) by (nonlinear_arith)
        requires
            q <= b,
            qk == q * k,
            bk == b * k,
    ;
    lemma_square(k as int);
    let d = (c / h + 1) as nat;
    vstd::arithmetic::div_mod::lemma_fundamental_div_mod(c as int, h as int);
    vstd::arithmetic::div_mod::lemma_mod_bound(c as int, h as int);
    lemma_distributes(h as int, c as int / h as int, 1);
    assert(c <= h * d);
    let hd = h * d;
    assert(c * c <= hd * hd) by (nonlinear_arith)
        requires
            c <= hd,
    ;
    assert((h * (v as int)) * (h * (v as int)) + (h * (w as int)) * (h * (w as int)) <= (h * d) * (h
        * d));
    lemma_divided(v as int, w as int, d, h);
}

/// Scaling a vector that is longer than a limit brings it no farther from one
/// that is not, but for rounding. `n` is scaled by `q / o`, which is the limit
/// `l` over the length `s` of `n`, nearly, and `c` is within the limit, nearly.
pub proof fn lemma_scaling_comes_nearer(
    nx: int,
    ny: int,
    cx: int,
    cy: int,
    d: nat,
    l: nat,
    s: nat,
    q: nat,
    o: nat,
)
    requires
        short(nx - cx, ny - cy, d),
        0 < l < s,
        q <= o,
        0x40_0000_0000 * (cx * cx + cy * cy) <= 0x40_0000_0001 * (l * l),
        0x3f_ffff_ffff * (s * s) <= 0x40_0000_0000 * (nx * nx + ny * ny),
        0x40_0000_0000 * (o * l - q * s) <= o * s,
    ensures
        short(
            0x40_0000_0000 * (q * nx - o * cx),
            0x40_0000_0000 * (q * ny - o * cy),
            o * (0x40_0000_0000 * d + 16 * (l + d)),
        ),
{
    let (nn, cc, nc) = (nx * nx + ny * ny, cx * cx + cy * cy, nx * cx + ny * cy);
    let dd = (nx - cx) * (nx - cx) + (ny - cy) * (ny - cy);
    let x = (o + q) * nn - 2 * (o * nc);
    let p = (o - q) * x;
    let (gx, gy) = (q * nx - o * cx, q * ny - o * cy);
    let g = gx * gx + gy * gy;
    lemma_length_of_difference(1, nx, ny, 1, cx, cy);
    assert(dd == nn - 2 * nc + cc);
    lemma_length_of_difference(q as int, nx, ny, o as int, cx, cy);
    assert((o * o) * dd - g == p) by {
        let (oo, qq, qo) = (o * o, q * q, q * o);
        let (oonn, oonc, qqnn, qonc) = (oo * nn, oo * nc, qq * nn, qo * nc);
        assert(oo * dd == oonn - 2 * oonc + oo * cc) by (nonlinear_arith)
            requires
                dd == nn - 2 * nc + cc,
                oonn == oo * nn,
                oonc == oo * nc,
        ;
        let y = o * nc;
        assert(p == (o - q) * ((o + q) * nn) - 2 * ((o - q) * y)) by (nonlinear_arith)
            requires
                p == (o - q) * x,
                x == (o + q) * nn - 2 * y,
        ;
        assert((o - q) * ((o + q) * nn) == (o * o) * nn - (q * q) * nn) by (nonlinear_arith);
        assert((o - q) * (o * nc) == (o * o) * nc - (q * o) * nc) by (nonlinear_arith);
    }
    lemma_gain_is_not_negative(nx, ny, cx, cy, l, s, q, o);
    lemma_length_is_near(nx, ny, cx, cy, d, l, s);
    let t = (l + d) as nat;
    let (os, qs, ol, oo) = (o * s, q * s, o * l, o * o);
    // (o - q) s <= o (s - l) + o s / h()
    let u = h() * (os - qs);
    assert(u <= h() * (os - ol) + os);
    assert(qs <= os) by (nonlinear_arith)
        requires
            q <= o,
            qs == q * s,
            os == o * s,
    ;
    let ss = s * s;
    let hx = h() * x;
    let oss = o * ss;
    assert(hx >= -3 * oss);
    assert(u * hx >= -3 * (u * oss)) by (nonlinear_arith)
        requires
            hx >= -3 * oss,
            u >= 0,
    ;
    let ps = p * s;
    assert(u * hx == h() * (h() * ps)) by (nonlinear_arith)
        requires
            u == h() * (os - qs),
            hx == h() * x,
            os == o * s,
            qs == q * s,
            p == (o - q) * x,
            ps == p * s,
    ;
    let us = u * s;
    let ous = o * us;
    assert(u * oss == ous * s) by (nonlinear_arith)
        requires
            oss == o * ss,
            ss == s * s,
            us == u * s,
            ous == o * us,
    ;
    let hhp = h() * (h() * p);
    assert(h() * (h() * ps) == hhp * s) by (nonlinear_arith)
        requires
            ps == p * s,
            hhp == h() * (h() * p),
    ;
    assert(hhp >= -3 * ous) by (nonlinear_arith)
        requires
            hhp * s >= -3 * (ous * s),
            s > 0,
    ;
    // u <= o (h() d + 4 t)
    let v = h() * d + 4 * t;
    let ov = o * v;
    assert(h() * (s - l) + s <= v);
    assert(h() * (os - ol) + os <= ov) by (nonlinear_arith)
        requires
            h() * (s - l) + s <= v,
            os == o * s,
            ol == o * l,
            ov == o * v,
            o >= 0,
    ;
    assert(us <= ov * (2 * t)) by (nonlinear_arith)
        requires
            0 <= u <= ov,
            0 <= s <= 2 * t,
            us == u * s,
    ;
    let tv = t * v;
    assert(o * (ov * (2 * t)) == 2 * (oo * tv)) by (nonlinear_arith)
        requires
            ov == o * v,
            oo == o * o,
            tv == t * v,
    ;
    assert(ous <= 2 * (oo * tv)) by (nonlinear_arith)
        requires
            us <= ov * (2 * t),
            ous == o * us,
            o >= 0,
            o * (ov * (2 * t)) == 2 * (oo * tv),
    ;
    let b = h() * d + 16 * t;
    let bb = b * b;
    let ddd = d * d;
    assert(h() * (h() * ddd) + 6 * tv <= bb) by (nonlinear_arith)
        requires
            b == h() * d + 16 * t,
            v == h() * d + 4 * t,
            tv == t * v,
            bb == b * b,
            ddd == d * d,
            d >= 0,
            t >= 0,
    ;
    let hhg = h() * (h() * g);
    assert(h() * (h() * (oo * dd)) - hhg == hhp) by (nonlinear_arith)
        requires
            oo * dd - g == p,
            hhg == h() * (h() * g),
            hhp == h() * (h() * p),
    ;
    assert(h() * (h() * (oo * dd)) + 6 * (oo * tv) <= oo * bb) by (nonlinear_arith)
        requires
            dd <= ddd,
            h() * (h() * ddd) + 6 * tv <= bb,
            oo >= 0,
    ;
    assert(hhg <= oo * bb);
    assert((h() * gx) * (h() * gx) + (h() * gy) * (h() * gy) == hhg) by (nonlinear_arith)
        requires
            g == gx * gx + gy * gy,
            hhg == h() * (h() * g),
    ;
    assert((o * b) * (o * b) == oo * bb) by (nonlinear_arith)
        requires
            oo == o * o,
            bb == b * b,
    ;
}

/// What scaling brings nearer, or the little that it takes away.
proof fn lemma_gain_is_not_negative(
    nx: int,
    ny: int,
    cx: int,
    cy: int,
    l: nat,
    s: nat,
    q: nat,
    o: nat,
)
    requires
        0 < l < s,
        q <= o,
        0x40_0000_0000 * (cx * cx + cy * cy) <= 0x40_0000_0001 * (l * l),
        0x3f_ffff_ffff * (s * s) <= 0x40_0000_0000 * (nx * nx + ny * ny),
        0x40_0000_0000 * (o * l - q * s) <= o * s,
    ensures
        0x40_0000_0000 * ((o + q) * (nx * nx + ny * ny) - 2 * (o * (nx * cx + ny * cy))) >= -3 * (o
            * (s * s)),
{
    let (nn, cc, nc) = (nx * nx + ny * ny, cx * cx + cy * cy, nx * cx + ny * cy);
    let (ll, ss, ls) = (l * l, s * s, l * s);
    let (os, qs, ol) = (o * s, q * s, o * l);
    let x = (o + q) * nn - 2 * (o * nc);
    let (ax, ay) = (l * nx - s * cx, l * ny - s * cy);
    lemma_square(ax);
    lemma_square(ay);
    lemma_length_of_difference(l as int, nx, ny, s as int, cx, cy);
    let z = os + qs - ol;
    let lnn = l * nn;
    let (a, b) = (lnn * z, o * (ss * cc));
    // l s x >= l n^2 (o s + q s - o l) - o s^2 c^2
    let lsx = ls * x;
    let (lsnn, llnn, lsnc) = (ls * nn, ll * nn, ls * nc);
    let w = llnn + ss * cc;
    assert(o * (2 * lsnc) <= o * w) by (nonlinear_arith)
        requires
            2 * lsnc <= w,
            o >= 0,
    ;
    lemma_distributes(o as int, llnn, ss * cc);
    assert(lsx == (o + q) * lsnn - o * (2 * lsnc)) by {
        let y = o * nc;
        assert(lsx == ls * ((o + q) * nn) - 2 * (ls * y)) by (nonlinear_arith)
            requires
                lsx == ls * x,
                x == (o + q) * nn - 2 * y,
        ;
        assert(ls * ((o + q) * nn) == (o + q) * (ls * nn)) by (nonlinear_arith);
        assert(2 * (ls * (o * nc)) == o * (2 * (ls * nc))) by (nonlinear_arith);
    }
    assert(a == (o + q) * lsnn - o * llnn) by {
        assert(lnn * (o * s + q * s - o * l) == lnn * (o * s) + lnn * (q * s) - lnn * (o * l))
            by (nonlinear_arith);
        assert((l * nn) * (o * s) == o * ((l * s) * nn)) by (nonlinear_arith);
        assert((l * nn) * (q * s) == q * ((l * s) * nn)) by (nonlinear_arith);
        assert((l * nn) * (o * l) == o * ((l * l) * nn)) by (nonlinear_arith);
        assert((o + q) * lsnn == o * lsnn + q * lsnn) by (nonlinear_arith);
    }
    assert(lsx >= a - b);
    let osss = o * (ls * ss);
    assert(lnn >= 0) by (nonlinear_arith)
        requires
            lnn == l * nn,
            nn == nx * nx + ny * ny,
    ;
    assert(h() * z >= (h() - 1) * os);
    assert(h() * a >= (h() - 1) * (lnn * os)) by (nonlinear_arith)
        requires
            a == lnn * z,
            h() * z >= (h() - 1) * os,
            lnn >= 0,
    ;
    let los = l * os;
    assert(los >= 0) by (nonlinear_arith)
        requires
            los == l * os,
            os == o * s,
    ;
    assert(h() * (lnn * os) >= (h() - 1) * (los * ss)) by (nonlinear_arith)
        requires
            lnn == l * nn,
            los == l * os,
            los >= 0,
            h() * nn >= (h() - 1) * ss,
    ;
    assert(los * ss == osss) by (nonlinear_arith)
        requires
            los == l * os,
            os == o * s,
            osss == o * (ls * ss),
            ls == l * s,
    ;
    let oss = o * ss;
    assert(oss >= 0) by (nonlinear_arith)
        requires
            oss == o * ss,
            ss == s * s,
    ;
    assert(h() * b <= 0x40_0000_0001 * (oss * ll)) by (nonlinear_arith)
        requires
            b == o * (ss * cc),
            oss == o * ss,
            oss >= 0,
            h() * cc <= 0x40_0000_0001 * ll,
    ;
    assert(oss * ll <= osss) by (nonlinear_arith)
        requires
            oss == o * ss,
            oss >= 0,
            osss == o * (ls * ss),
            ll == l * l,
            ls == l * s,
            l < s,
    ;
    assert(osss >= 0) by (nonlinear_arith)
        requires
            osss == o * (ls * ss),
            ls == l * s,
            ss == s * s,
    ;
    assert(0x40_0000_0000 * a >= 0x3f_ffff_ffff * (lnn * os));
    assert(0x40_0000_0000 * (lnn * os) >= 0x3f_ffff_ffff * osss);
    assert(0x40_0000_0000 * b <= 0x40_0000_0001 * osss);
    assert(0x40_0000_0000 * lsx >= -3 * osss);
    let hx = h() * x;
    assert(h() * lsx == ls * hx && osss == ls * oss) by (nonlinear_arith)
        requires
            lsx == ls * x,
            hx == h() * x,
            osss == o * (ls * ss),
            oss == o * ss,
    ;
    assert(ls > 0) by (nonlinear_arith)
        requires
            ls == l * s,
            l > 0,
            s > 0,
    ;
    assert(hx >= -3 * oss) by (nonlinear_arith)
        requires
            ls * hx >= -3 * (ls * oss),
            ls > 0,
    ;
}

/// A length is not far above that of a vector near by.
proof fn lemma_length_is_near(nx: int, ny: int, cx: int, cy: int, d: nat, l: nat, s: nat)
    requires
        short(nx - cx, ny - cy, d),
        0 < l,
        0x40_0000_0000 * (cx * cx + cy * cy) <= 0x40_0000_0001 * (l * l),
        0x3f_ffff_ffff * (s * s) <= 0x40_0000_0000 * (nx * nx + ny * ny),
    ensures
        0x40_0000_0000 * s <= 0x40_0000_0002 * (l + d),
{
    let (nn, cc, ll, ss) = (nx * nx + ny * ny, cx * cx + cy * cy, l * l, s * s);
    let t = (l + d) as nat;
    let tt = t * t;
    let hl = 0x40_0000_0001 * l;
    assert((h() * cx) * (h() * cx) + (h() * cy) * (h() * cy) == h() * (h() * cc)) by (nonlinear_arith)
        requires
            cc == cx * cx + cy * cy,
    ;
    assert(hl * hl == 0x40_0000_0001 * (0x40_0000_0001 * ll)) by (nonlinear_arith)
        requires
            hl == 0x40_0000_0001 * l,
            ll == l * l,
    ;
    assert(ll >= 0) by (nonlinear_arith)
        requires
            ll == l * l,
    ;
    assert(short(h() * cx, h() * cy, hl as nat));
    lemma_multiplied(nx - cx, ny - cy, d, h());
    lemma_triangle(h() * cx, h() * cy, h() * (nx - cx), h() * (ny - cy), hl as nat, h() * d);
    assert(h() * cx + h() * (nx - cx) == h() * nx && h() * cy + h() * (ny - cy) == h() * ny);
    let top = 0x40_0000_0001 * t;
    lemma_longer(h() * nx, h() * ny, (hl + h() * d) as nat, top as nat);
    assert((h() * nx) * (h() * nx) + (h() * ny) * (h() * ny) == h() * (h() * nn)) by (nonlinear_arith)
        requires
            nn == nx * nx + ny * ny,
    ;
    assert(top * top == 0x40_0000_0001 * (0x40_0000_0001 * tt)) by (nonlinear_arith)
        requires
            top == 0x40_0000_0001 * t,
            tt == t * t,
    ;
    assert(tt > 0) by (nonlinear_arith)
        requires
            tt == t * t,
            t > 0,
    ;
    let (a, b) = (h() * s, 0x40_0000_0002 * t);
    assert(a * a == h() * (h() * ss)) by (nonlinear_arith)
        requires
            a == h() * s,
            ss == s * s,
    ;
    assert(b * b == 0x40_0000_0002 * (0x40_0000_0002 * tt)) by (nonlinear_arith)
        requires
            b == 0x40_0000_0002 * t,
            tt == t * t,
    ;
    assert(a * a <= b * b);
    assert(a <= b) by (nonlinear_arith)
        requires
            a * a <= b * b,
            b >= 0,
    ;
}

} // verus!
