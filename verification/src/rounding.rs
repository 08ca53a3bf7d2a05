//! How exact numbers are rounded to the numbers of a floating-point format.
//!
//! A magnitude is a bit pattern without its sign. Its value is counted in the
//! smallest positive number of the format, so that every value is an integer.

use vstd::arithmetic::power2::{
    lemma2_to64, lemma2_to64_rest, lemma_pow2_adds, lemma_pow2_pos, lemma_pow2_strictly_increases,
    lemma_pow2_unfold, pow2,
};
use vstd::prelude::*;

verus! {

/// The bit pattern of positive infinity in single precision.
pub const SINGLE_INFINITY: u64 = 0x7f80_0000;

/// The bit pattern of positive infinity in double precision.
pub const DOUBLE_INFINITY: u64 = 0x7ff0_0000_0000_0000;

/// The bit pattern of a NaN in single precision.
pub const SINGLE_NAN: u64 = 0x7fc0_0000;

/// The bit pattern of a NaN in double precision.
pub const DOUBLE_NAN: u64 = 0x7ff8_0000_0000_0000;

/// One more than the largest fraction in single precision.
pub const SINGLE_RANGE: u64 = 0x80_0000;

/// One more than the largest fraction in double precision.
pub const DOUBLE_RANGE: u64 = 0x10_0000_0000_0000;

/// The floating-point formats of IEEE 754 that are used.
#[derive(Debug, Clone, Copy, PartialEq, Eq, Structural)]
pub enum Format {
    Single,
    Double,
}

impl Format {
    /// How many bits a number can hold.
    #[verifier::allow_in_spec]
    pub fn precision(&self) -> (result: u32)
        returns
            (match *self {
                Format::Single => 24u32,
                Format::Double => 53u32,
            }),
    {
        match *self {
            Format::Single => 24,
            Format::Double => 53,
        }
    }

    /// One more than the largest fraction.
    #[verifier::allow_in_spec]
    pub fn range(&self) -> (result: u64)
        returns
            (match *self {
                Format::Single => SINGLE_RANGE,
                Format::Double => DOUBLE_RANGE,
            }),
    {
        match *self {
            Format::Single => SINGLE_RANGE,
            Format::Double => DOUBLE_RANGE,
        }
    }

    /// The magnitude of infinity. One above it is a NaN.
    #[verifier::allow_in_spec]
    pub fn infinity(&self) -> (result: u64)
        returns
            (match *self {
                Format::Single => SINGLE_INFINITY,
                Format::Double => DOUBLE_INFINITY,
            }),
    {
        match *self {
            Format::Single => SINGLE_INFINITY,
            Format::Double => DOUBLE_INFINITY,
        }
    }

    /// The magnitude of a NaN.
    #[verifier::allow_in_spec]
    pub fn nan(&self) -> (result: u64)
        returns
            (match *self {
                Format::Single => SINGLE_NAN,
                Format::Double => DOUBLE_NAN,
            }),
    {
        match *self {
            Format::Single => SINGLE_NAN,
            Format::Double => DOUBLE_NAN,
        }
    }

    /// The smallest positive number goes two to this power times into one.
    #[verifier::allow_in_spec]
    pub fn depth(&self) -> (result: u32)
        returns
            (match *self {
                Format::Single => 149u32,
                Format::Double => 1074u32,
            }),
    {
        match *self {
            Format::Single => 149,
            Format::Double => 1074,
        }
    }

    /// How many smallest positive numbers go into one.
    pub open spec fn one(self) -> nat {
        pow2(self.depth() as nat)
    }

    /// The value of a magnitude, counted in the smallest positive number. For
    /// infinity it is the power of two above all finite ones.
    #[verifier::opaque]
    pub open spec fn steps(self, magnitude: nat) -> nat {
        let range = self.range() as nat;
        let exponent = magnitude / range;
        let fraction = magnitude % range;
        if exponent == 0 {
            fraction
        } else {
            (range + fraction) * pow2((exponent - 1) as nat)
        }
    }

    /// Whether `num / den` is rounded to `magnitude`: it lies between the middles
    /// to the next smaller and to the next larger magnitude. In the middle
    /// between two, the even one is taken.
    pub open spec fn rounded(self, magnitude: nat, num: nat, den: nat) -> bool {
        let below = den * self.below(magnitude);
        let above = den * self.above(magnitude);
        &&& magnitude <= self.infinity()
        &&& magnitude > 0 ==> below <= 2 * num && (below == 2 * num ==> magnitude % 2 == 0)
        &&& magnitude < self.infinity() ==> 2 * num <= above && (2 * num == above ==> magnitude % 2
            == 0)
    }

    /// The magnitude that `num / den` is rounded to.
    pub open spec fn nearest(self, num: nat, den: nat) -> nat {
        choose|magnitude: nat| self.rounded(magnitude, num, den)
    }

    /// Whether the square root of `square` is rounded to `magnitude`: the middles
    /// around it are compared by their squares.
    pub open spec fn rounded_root(self, magnitude: nat, square: nat) -> bool {
        let below = self.below(magnitude) * self.below(magnitude);
        let above = self.above(magnitude) * self.above(magnitude);
        &&& magnitude <= self.infinity()
        &&& magnitude > 0 ==> below <= 4 * square && (below == 4 * square ==> magnitude % 2 == 0)
        &&& magnitude < self.infinity() ==> 4 * square <= above && (4 * square == above
            ==> magnitude % 2 == 0)
    }

    /// The magnitude that the square root of `square` is rounded to.
    pub open spec fn nearest_root(self, square: nat) -> nat {
        choose|magnitude: nat| self.rounded_root(magnitude, square)
    }

    /// Twice the middle between a magnitude and the next smaller one.
    pub open spec fn below(self, magnitude: nat) -> nat {
        self.steps((magnitude - 1) as nat) + self.steps(magnitude)
    }

    /// Twice the middle between a magnitude and the next larger one.
    pub open spec fn above(self, magnitude: nat) -> nat {
        self.steps(magnitude) + self.steps(magnitude + 1)
    }
}

/// The values of zero and of the smallest positive number.
pub proof fn lemma_steps_of_zero(f: Format)
    ensures
        f.steps(0) == 0,
        f.steps(1) == 1,
{
    reveal(Format::steps);
    assert(1nat / (f.range() as nat) == 0 && 1nat % (f.range() as nat) == 1) by {
        vstd::arithmetic::div_mod::lemma_small_mod(1, f.range() as nat);
        vstd::arithmetic::div_mod::lemma_basic_div(1, f.range() as int);
    }
}

/// The value of a magnitude, by its exponent and its fraction.
pub proof fn lemma_steps_by_parts(f: Format, magnitude: nat)
    ensures
        ({
            let exponent = magnitude / (f.range() as nat);
            let fraction = magnitude % (f.range() as nat);
            f.steps(magnitude) == if exponent == 0 {
                fraction
            } else {
                (f.range() as nat + fraction) * pow2((exponent - 1) as nat)
            }
        }),
{
    reveal(Format::steps);
}

/// Larger magnitudes stand for larger values.
pub proof fn lemma_steps_increase(f: Format, a: nat, b: nat)
    requires
        a < b,
    ensures
        f.steps(a) < f.steps(b),
{
    reveal(Format::steps);
    let range = f.range() as nat;
    let ea = a / range;
    let eb = b / range;
    let fa = a % range;
    let fb = b % range;
    assert(a == ea * range + fa && b == eb * range + fb) by {
        vstd::arithmetic::div_mod::lemma_fundamental_div_mod(a as int, range as int);
        vstd::arithmetic::div_mod::lemma_fundamental_div_mod(b as int, range as int);
    }
    if ea == eb {
        assert(fa < fb);
        if ea > 0 {
            let p = pow2((ea - 1) as nat);
            lemma_pow2_pos((ea - 1) as nat);
            assert((range + fa) * p < (range + fb) * p) by (nonlinear_arith)
                requires
                    fa < fb,
                    p > 0,
            ;
        }
    } else {
        assert(ea < eb) by {
            vstd::arithmetic::div_mod::lemma_div_is_ordered(a as int, b as int, range as int);
        }
        let q = pow2((eb - 1) as nat);
        lemma_pow2_pos((eb - 1) as nat);
        assert(range * q <= (range + fb) * q) by (nonlinear_arith)
            requires
                fb >= 0,
                q > 0,
        ;
        if ea == 0 {
            assert(fa < range * q) by (nonlinear_arith)
                requires
                    fa < range,
                    q > 0,
            ;
        } else {
            let p = pow2((ea - 1) as nat);
            lemma_pow2_pos((ea - 1) as nat);
            lemma_pow2_unfold(ea);
            if ea < eb - 1 {
                lemma_pow2_strictly_increases(ea, (eb - 1) as nat);
            }
            assert(2 * p <= q);
            assert((range + fa) * p < range * q) by (nonlinear_arith)
                requires
                    fa < range,
                    2 * p <= q,
                    p > 0,
            ;
        }
    }
}

/// A number is rounded to one magnitude only.
pub proof fn law_rounding_is_unique(f: Format, a: nat, b: nat, num: nat, den: nat)
    requires
        den > 0,
        f.rounded(a, num, den),
        f.rounded(b, num, den),
    ensures
        a == b,
        f.nearest(num, den) == a,
{
    let n = f.nearest(num, den);
    assert(f.rounded(n, num, den));
    lemma_rounding_is_ordered(f, a, b, num, den);
    lemma_rounding_is_ordered(f, b, a, num, den);
    lemma_rounding_is_ordered(f, a, n, num, den);
    lemma_rounding_is_ordered(f, n, a, num, den);
}

/// Every number is rounded to a magnitude.
pub proof fn law_every_number_is_rounded(f: Format, num: nat, den: nat)
    requires
        den > 0,
    ensures
        f.rounded(f.nearest(num, den), num, den),
{
    let m = lemma_find_rounded(f, num, den, 0);
    assert(f.rounded(m, num, den));
}

/// Shows what a number is rounded to that lies above the middle below `m`.
proof fn lemma_find_rounded(f: Format, num: nat, den: nat, m: nat) -> (found: nat)
    requires
        den > 0,
        m <= f.infinity(),
        m > 0 ==> den * f.below(m) < 2 * num,
    ensures
        f.rounded(found, num, den),
    decreases f.infinity() - m,
{
    let above = den * f.above(m);
    assert(f.below(m + 1) == f.above(m)) by {
        assert(((m + 1) - 1) as nat == m);
    }
    if m == f.infinity() || 2 * num < above || (2 * num == above && m % 2 == 0) {
        m
    } else if 2 * num == above {
        lemma_steps_increase(f, m, m + 1);
        lemma_steps_increase(f, m + 1, m + 2);
        let (low, high) = (f.above(m), f.above(m + 1));
        assert(den * low < den * high) by (nonlinear_arith)
            requires
                low < high,
                den > 0,
        ;
        assert(f.rounded(m + 1, num, den));
        m + 1
    } else {
        lemma_find_rounded(f, num, den, m + 1)
    }
}

/// Every square root is rounded to a magnitude.
pub proof fn law_every_root_is_rounded(f: Format, square: nat)
    ensures
        f.rounded_root(f.nearest_root(square), square),
{
    let m = lemma_find_root(f, square, 0);
    assert(f.rounded_root(m, square));
}

/// Shows what a square root is rounded to that lies above the middle below
/// `m`.
proof fn lemma_find_root(f: Format, square: nat, m: nat) -> (found: nat)
    requires
        m <= f.infinity(),
        m > 0 ==> f.below(m) * f.below(m) < 4 * square,
    ensures
        f.rounded_root(found, square),
    decreases f.infinity() - m,
{
    let above = f.above(m) * f.above(m);
    assert(f.below(m + 1) == f.above(m)) by {
        assert(((m + 1) - 1) as nat == m);
    }
    if m == f.infinity() || 4 * square < above || (4 * square == above && m % 2 == 0) {
        m
    } else if 4 * square == above {
        lemma_steps_increase(f, m, m + 1);
        lemma_steps_increase(f, m + 1, m + 2);
        lemma_squares(f.above(m), f.above(m + 1));
        m + 1
    } else {
        lemma_find_root(f, square, m + 1)
    }
}

/// Rounding keeps the order: a larger number is not rounded to a smaller
/// magnitude.
pub proof fn law_rounding_keeps_order(f: Format, a: nat, b: nat, den: nat)
    requires
        den > 0,
        a <= b,
    ensures
        f.nearest(a, den) <= f.nearest(b, den),
{
    law_every_number_is_rounded(f, a, den);
    law_every_number_is_rounded(f, b, den);
    let m = f.nearest(a, den);
    let n = f.nearest(b, den);
    if n < m {
        lemma_middles_are_ordered(f, n, m);
        let (low, high) = (f.above(n), f.below(m));
        assert(den * low <= den * high) by (nonlinear_arith)
            requires
                low <= high,
        ;
        assert(a == b);
    }
}

/// The middle above a magnitude is at most the middle below a larger one.
proof fn lemma_middles_are_ordered(f: Format, a: nat, b: nat)
    requires
        a < b,
    ensures
        f.above(a) <= f.below(b),
        a + 1 < b ==> f.above(a) < f.below(b),
{
    if a + 1 < b {
        lemma_steps_increase(f, a, (b - 1) as nat);
        lemma_steps_increase(f, a + 1, b);
    }
}

proof fn lemma_rounding_is_ordered(f: Format, a: nat, b: nat, num: nat, den: nat)
    requires
        den > 0,
        f.rounded(a, num, den),
        f.rounded(b, num, den),
    ensures
        b <= a,
{
    if a < b {
        lemma_middles_are_ordered(f, a, b);
        let above = f.above(a);
        let below = f.below(b);
        if a + 1 < b {
            assert(den * above < den * below) by (nonlinear_arith)
                requires
                    den > 0,
                    above < below,
            ;
        }
    }
}

/// A square root is rounded to one magnitude only.
pub proof fn law_root_is_unique(f: Format, a: nat, b: nat, square: nat)
    requires
        f.rounded_root(a, square),
        f.rounded_root(b, square),
    ensures
        a == b,
        f.nearest_root(square) == a,
{
    let n = f.nearest_root(square);
    assert(f.rounded_root(n, square));
    lemma_root_is_ordered(f, a, b, square);
    lemma_root_is_ordered(f, b, a, square);
    lemma_root_is_ordered(f, a, n, square);
    lemma_root_is_ordered(f, n, a, square);
}

proof fn lemma_root_is_ordered(f: Format, a: nat, b: nat, square: nat)
    requires
        f.rounded_root(a, square),
        f.rounded_root(b, square),
    ensures
        b <= a,
{
    if a < b {
        lemma_middles_are_ordered(f, a, b);
        let above = f.above(a);
        let below = f.below(b);
        if a + 1 < b {
            assert(above * above < below * below) by (nonlinear_arith)
                requires
                    above < below,
            ;
        }
    }
}

/// Scaling both parts of a fraction does not change what it is rounded to.
pub proof fn lemma_rounding_scales(f: Format, magnitude: nat, num: nat, den: nat, k: nat)
    requires
        k > 0,
        f.rounded(magnitude, num * k, den * k),
    ensures
        f.rounded(magnitude, num, den),
{
    let below = f.below(magnitude);
    let above = f.above(magnitude);
    assert((den * k) * below == (den * below) * k) by (nonlinear_arith);
    assert((den * k) * above == (den * above) * k) by (nonlinear_arith);
    assert(2 * (num * k) == (2 * num) * k) by (nonlinear_arith);
    assert(forall|a: nat, b: nat| #![trigger a * k, b * k] a * k <= b * k ==> a <= b)
        by (nonlinear_arith)
        requires
            k > 0,
    ;
}

/// A number of at most half the smallest positive one is rounded to zero.
pub proof fn lemma_small_is_zero(f: Format, num: nat, den: nat)
    requires
        2 * num <= den,
        den > 0,
    ensures
        f.rounded(0, num, den),
        f.nearest(num, den) == 0,
{
    lemma_steps_of_zero(f);
    assert(den * (0 + 1) == den) by (nonlinear_arith);
    law_rounding_is_unique(f, 0, 0, num, den);
}

/// A value of the format is rounded to itself.
pub proof fn law_value_is_kept(f: Format, magnitude: nat, den: nat)
    requires
        magnitude < f.infinity(),
        den > 0,
    ensures
        f.rounded(magnitude, f.steps(magnitude) * den, den),
        f.nearest(f.steps(magnitude) * den, den) == magnitude,
{
    let value = f.steps(magnitude);
    let num = value * den;
    let next = f.steps(magnitude + 1);
    lemma_steps_increase(f, magnitude, magnitude + 1);
    assert(2 * num < den * (value + next)) by (nonlinear_arith)
        requires
            num == value * den,
            value < next,
            den > 0,
    ;
    if magnitude > 0 {
        let before = f.steps((magnitude - 1) as nat);
        lemma_steps_increase(f, (magnitude - 1) as nat, magnitude);
        assert(den * (before + value) < 2 * num) by (nonlinear_arith)
            requires
                num == value * den,
                before < value,
                den > 0,
        ;
    }
    law_rounding_is_unique(f, magnitude, magnitude, num, den);
}

/// A fraction of full width, at an exponent, is a magnitude.
pub proof fn lemma_steps_of(f: Format, p: nat, mantissa: nat)
    requires
        mantissa <= 2 * f.range(),
        p == 0 || mantissa >= f.range(),
    ensures
        f.steps(p * f.range() as nat + mantissa) == mantissa * pow2(p),
{
    reveal(Format::steps);
    let range = f.range() as nat;
    let m = p * range + mantissa;
    lemma2_to64();
    if mantissa < range {
        assert(m / range == 0 && m % range == mantissa) by {
            vstd::arithmetic::div_mod::lemma_fundamental_div_mod_converse(
                m as int,
                range as int,
                0,
                mantissa as int,
            );
        }
        assert(mantissa * pow2(p) == mantissa) by {
            assert(pow2(p) == 1);
        }
    } else if mantissa < 2 * range {
        assert(m == (p + 1) * range + (mantissa - range)) by (nonlinear_arith)
            requires
                m == p * range + mantissa,
        ;
        vstd::arithmetic::div_mod::lemma_fundamental_div_mod_converse(
            m as int,
            range as int,
            (p + 1) as int,
            (mantissa - range) as int,
        );
    } else {
        assert(m == (p + 2) * range + 0) by (nonlinear_arith)
            requires
                m == p * range + 2 * range,
        ;
        vstd::arithmetic::div_mod::lemma_fundamental_div_mod_converse(
            m as int,
            range as int,
            (p + 2) as int,
            0,
        );
        lemma_pow2_unfold(p + 1);
        assert(range * (2 * pow2(p)) == (2 * range) * pow2(p)) by (nonlinear_arith);
    }
}

/// Whether a number is rounded to `magnitude`, of which it is known that it is
/// `q * 2^lift / 2^fall` or, where `more` is set, more than that and less than
/// `(q + 1) * 2^lift / 2^fall`.
pub open spec fn bracketed(
    f: Format,
    magnitude: nat,
    q: nat,
    more: bool,
    lift: nat,
    fall: nat,
) -> bool {
    let below = f.below(magnitude) * pow2(fall);
    let above = f.above(magnitude) * pow2(fall);
    let low = 2 * (q * pow2(lift));
    let high = 2 * ((q + 1) * pow2(lift));
    &&& magnitude <= f.infinity()
    &&& magnitude > 0 ==> below <= low && (below == low && !more ==> magnitude % 2 == 0)
    &&& magnitude < f.infinity() ==> if more {
        high <= above
    } else {
        low <= above && (low == above ==> magnitude % 2 == 0)
    }
}

/// The magnitude that is found by cutting `q` to the bits that the format
/// holds, and raising it by one where the rest calls for it.
#[verifier::spinoff_prover]
proof fn lemma_cut_is_bracketed(
    f: Format,
    lift: nat,
    fall: nat,
    p: nat,
    w: nat,
    q: nat,
    more: bool,
    mantissa: nat,
    rest: nat,
    up: bool,
)
    requires
        w >= 1,
        p + fall == w + lift,
        q == mantissa * pow2(w) + rest,
        rest < pow2(w),
        mantissa < 2 * f.range(),
        p == 0 || mantissa >= f.range(),
        up == (2 * rest > pow2(w) || (2 * rest == pow2(w) && (more || mantissa % 2 == 1))),
    ensures
        ({
            let low = p * f.range() as nat + mantissa;
            let m = if up {
                low + 1
            } else {
                low
            };
            bracketed(
                f,
                if m >= f.infinity() {
                    f.infinity() as nat
                } else {
                    m
                },
                q,
                more,
                lift,
                fall,
            )
        }),
{
    let range = f.range() as nat;
    let top = f.infinity() as nat;
    let low = p * range + mantissa;
    let s0 = f.steps(low);
    let s1 = f.steps(low + 1);
    let half = pow2((w - 1) as nat);
    let l = pow2(lift);
    let d = pow2(fall);
    lemma_pow2_unfold(w);
    lemma_pow2_pos(lift);
    lemma_pow2_pos(fall);
    lemma_steps_of(f, p, mantissa);
    lemma_steps_of(f, p, mantissa + 1);
    assert(p * range + (mantissa + 1) == low + 1);
    assert(pow2(p) * d == pow2(w) * l) by {
        lemma_pow2_adds(p, fall);
        lemma_pow2_adds(w, lift);
    }
    let a = mantissa * pow2(w);
    assert(s0 * d == a * l) by (nonlinear_arith)
        requires
            s0 == mantissa * pow2(p),
            pow2(p) * d == pow2(w) * l,
            a == mantissa * pow2(w),
    ;
    assert(s1 * d == (a + pow2(w)) * l) by (nonlinear_arith)
        requires
            s1 == (mantissa + 1) * pow2(p),
            pow2(p) * d == pow2(w) * l,
            a == mantissa * pow2(w),
    ;
    assert((s0 + s1) * d == 2 * ((a + half) * l)) by (nonlinear_arith)
        requires
            s0 * d == a * l,
            s1 * d == (a + 2 * half) * l,
    ;
    assert(low % 2 == mantissa % 2) by {
        lemma_range_is_even(f, p);
    }
    assert(a * l <= q * l) by (nonlinear_arith)
        requires
            a <= q,
            l > 0,
    ;
    assert((q + 1) * l <= (a + 2 * half) * l) by (nonlinear_arith)
        requires
            q + 1 <= a + 2 * half,
            l > 0,
    ;
    assert(q * l < (q + 1) * l) by (nonlinear_arith)
        requires
            l > 0,
    ;
    if rest < half {
        assert((q + 1) * l <= (a + half) * l) by (nonlinear_arith)
            requires
                q + 1 <= a + half,
                l > 0,
        ;
    } else if rest > half {
        assert((a + half) * l < q * l) by (nonlinear_arith)
            requires
                a + half < q,
                l > 0,
        ;
    }
    if low >= top {
        lemma_steps_increase(f, (top - 1) as nat, top);
        if low > top {
            lemma_steps_increase(f, top, low);
        }
        let below = f.below(top);
        assert(below * d < 2 * (s0 * d)) by (nonlinear_arith)
            requires
                below < 2 * s0,
                d > 0,
        ;
    } else if up {
        let next = f.steps(low + 2);
        lemma_steps_increase(f, low + 1, low + 2);
        assert(2 * (s1 * d) < (s1 + next) * d) by (nonlinear_arith)
            requires
                s1 < next,
                d > 0,
        ;
        assert(((low + 1) - 1) as nat == low);
    } else if low > 0 {
        let before = f.steps((low - 1) as nat);
        lemma_steps_increase(f, (low - 1) as nat, low);
        assert((before + s0) * d < 2 * (s0 * d)) by (nonlinear_arith)
            requires
                before < s0,
                d > 0,
        ;
    }
}

proof fn lemma_range_is_even(f: Format, p: nat)
    ensures
        (p * f.range() as nat) % 2 == 0,
{
    let half = (f.range() / 2) as nat;
    assert(p * f.range() as nat == 2 * (p * half)) by (nonlinear_arith)
        requires
            f.range() as nat == 2 * half,
    ;
}

/// A bracketed fraction is rounded.
pub proof fn lemma_fraction_is_rounded(
    f: Format,
    magnitude: nat,
    q: nat,
    lift: nat,
    fall: nat,
    n: nat,
    d: nat,
)
    requires
        d > 0,
        d * q <= n < d * (q + 1),
        bracketed(f, magnitude, q, d * q < n, lift, fall),
    ensures
        f.rounded(magnitude, n * pow2(lift), d * pow2(fall)),
{
    let l = pow2(lift);
    let den = d * pow2(fall);
    let num = n * l;
    let below = f.below(magnitude) * pow2(fall);
    let above = f.above(magnitude) * pow2(fall);
    lemma_pow2_pos(lift);
    assert(den * f.below(magnitude) == d * below) by (nonlinear_arith)
        requires
            den == d * pow2(fall),
            below == f.below(magnitude) * pow2(fall),
    ;
    assert(den * f.above(magnitude) == d * above) by (nonlinear_arith)
        requires
            den == d * pow2(fall),
            above == f.above(magnitude) * pow2(fall),
    ;
    let low = 2 * (q * l);
    let high = 2 * ((q + 1) * l);
    assert(d * low == 2 * ((d * q) * l)) by (nonlinear_arith)
        requires
            low == 2 * (q * l),
    ;
    assert(d * high == 2 * ((d * (q + 1)) * l)) by (nonlinear_arith)
        requires
            high == 2 * ((q + 1) * l),
    ;
    assert((d * q) * l <= n * l) by (nonlinear_arith)
        requires
            d * q <= n,
    ;
    assert(n * l < (d * (q + 1)) * l) by (nonlinear_arith)
        requires
            n < d * (q + 1),
            l > 0,
    ;
    if d * q < n {
        assert((d * q) * l < n * l) by (nonlinear_arith)
            requires
                d * q < n,
                l > 0,
        ;
    }
    if magnitude > 0 {
        assert(d * below <= d * low) by (nonlinear_arith)
            requires
                below <= low,
        ;
        if below < low {
            assert(d * below < d * low) by (nonlinear_arith)
                requires
                    below < low,
                    d > 0,
            ;
        }
    }
    if magnitude < f.infinity() {
        if d * q < n {
            assert(d * high <= d * above) by (nonlinear_arith)
                requires
                    high <= above,
            ;
        } else {
            assert(d * low <= d * above) by (nonlinear_arith)
                requires
                    low <= above,
            ;
            if low < above {
                assert(d * low < d * above) by (nonlinear_arith)
                    requires
                        low < above,
                        d > 0,
                ;
            }
        }
    }
}

/// A bracketed square root is rounded.
pub proof fn lemma_root_is_rounded(f: Format, magnitude: nat, q: nat, lift: nat, n: nat)
    requires
        q * q <= n < (q + 1) * (q + 1),
        bracketed(f, magnitude, q, q * q < n, lift, 0),
    ensures
        f.rounded_root(magnitude, n * (pow2(lift) * pow2(lift))),
{
    let l = pow2(lift);
    lemma_pow2_pos(lift);
    lemma2_to64();
    let square = n * (l * l);
    let low = 2 * (q * l);
    let high = 2 * ((q + 1) * l);
    let below = f.below(magnitude);
    let above = f.above(magnitude);
    assert(below * pow2(0) == below && above * pow2(0) == above);
    assert(low * low == 4 * ((q * q) * (l * l))) by (nonlinear_arith)
        requires
            low == 2 * (q * l),
    ;
    assert(high * high == 4 * (((q + 1) * (q + 1)) * (l * l))) by (nonlinear_arith)
        requires
            high == 2 * ((q + 1) * l),
    ;
    assert(l * l > 0) by (nonlinear_arith)
        requires
            l > 0,
    ;
    let k = l * l;
    assert((q * q) * k <= n * k) by (nonlinear_arith)
        requires
            q * q <= n,
    ;
    assert(n * k < ((q + 1) * (q + 1)) * k) by (nonlinear_arith)
        requires
            n < (q + 1) * (q + 1),
            k > 0,
    ;
    if q * q < n {
        assert((q * q) * k < n * k) by (nonlinear_arith)
            requires
                q * q < n,
                k > 0,
        ;
    }
    if magnitude > 0 {
        lemma_squares(below, low);
    }
    if magnitude < f.infinity() {
        if q * q < n {
            lemma_squares(high, above);
        } else {
            lemma_squares(low, above);
        }
    }
}

/// Squares are ordered as the numbers are.
proof fn lemma_squares(a: nat, b: nat)
    requires
        a <= b,
    ensures
        a * a <= b * b,
        a < b ==> a * a < b * b,
{
    assert(a * a <= b * b) by (nonlinear_arith)
        requires
            a <= b,
    ;
    if a < b {
        assert(a * a < b * b) by (nonlinear_arith)
            requires
                a < b,
        ;
    }
}

/// How many bits a number takes.
pub fn bit_length(q: u128) -> (length: u32)
    requires
        q > 0,
    ensures
        1 <= length <= 128,
        pow2((length - 1) as nat) <= q < pow2(length as nat),
{
    let mut left: u128 = q;
    let mut length: u32 = 0;
    proof {
        lemma2_to64();
    }
    while left > 0
        invariant
            length <= 128,
            left > 0 ==> pow2(length as nat) <= q,
            left == 0 ==> length >= 1 && pow2((length - 1) as nat) <= q,
            pow2(length as nat) * left <= q,
            q < pow2(length as nat) * (left + 1),
        decreases left,
    {
        let ghost before = left;
        let half: u128 = left / 2;
        proof {
            lemma2_to64();
            lemma_pow2_adds(64, 64);
            assert(pow2(128) == 0x1_0000_0000_0000_0000 * 0x1_0000_0000_0000_0000);
            if length >= 128 {
                assert(pow2(length as nat) * before >= pow2(length as nat)) by (nonlinear_arith)
                    requires
                        before >= 1,
                ;
            }
            lemma_pow2_unfold((length + 1) as nat);
            lemma_pow2_pos(length as nat);
            let p = pow2(length as nat);
            assert((2 * p) * half <= p * before) by (nonlinear_arith)
                requires
                    2 * half <= before,
                    p > 0,
            ;
            assert(p * (before + 1) <= (2 * p) * (half + 1)) by (nonlinear_arith)
                requires
                    before + 1 <= 2 * (half + 1),
                    p > 0,
            ;
            if half > 0 {
                assert(2 * p <= (2 * p) * half) by (nonlinear_arith)
                    requires
                        half >= 1,
                        p > 0,
                ;
            }
        }
        left = half;
        length = length + 1;
    }
    assert(pow2(length as nat) * (left + 1) == pow2(length as nat)) by (nonlinear_arith)
        requires
            left == 0,
    ;
    length
}

/// Two to the power of `e`.
pub fn power_of_two(e: u32) -> (result: u128)
    requires
        e <= 127,
    ensures
        result == pow2(e as nat),
        result > 0,
{
    let mut result: u128 = 1;
    let mut i: u32 = 0;
    proof {
        lemma2_to64();
    }
    while i < e
        invariant
            i <= e <= 127,
            result == pow2(i as nat),
        decreases e - i,
    {
        proof {
            lemma_pow2_unfold((i + 1) as nat);
            lemma2_to64();
            lemma_pow2_adds(64, 64);
            assert(pow2(128) == 0x1_0000_0000_0000_0000 * 0x1_0000_0000_0000_0000);
            if i + 1 < 128 {
                lemma_pow2_strictly_increases((i + 1) as nat, 128);
            }
        }
        result = 2 * result;
        i = i + 1;
    }
    proof {
        lemma_pow2_pos(e as nat);
    }
    result
}

/// The range of a format is a power of two.
pub proof fn lemma_range_is_a_power(f: Format)
    ensures
        f.range() == pow2((f.precision() - 1) as nat),
        2 * f.range() == pow2(f.precision() as nat),
{
    lemma2_to64();
    lemma2_to64_rest();
}

/// The magnitude that a number is rounded to which is `q * 2^lift / 2^fall`,
/// or a little more than that.
pub fn round(f: Format, q: u128, more: bool, lift: u32, fall: u32) -> (magnitude: u64)
    requires
        2 * f.range() <= q,
        q < pow2(127),
        lift <= 0x2000,
        fall <= 0x2000,
    ensures
        bracketed(f, magnitude as nat, q as nat, more, lift as nat, fall as nat),
        magnitude <= f.infinity(),
{
    let length: u32 = bit_length(q);
    let precision: u32 = f.precision();
    proof {
        lemma_range_is_a_power(f);
        if length <= precision {
            if length < precision {
                lemma_pow2_strictly_increases(length as nat, precision as nat);
            }
        }
        if length > 127 {
            if length > 128 {
                lemma_pow2_strictly_increases(127, (length - 1) as nat);
            }
        }
    }
    let p: u32 = if length + lift > fall + precision {
        length + lift - fall - precision
    } else {
        0
    };
    let w: u32 = p + fall - lift;
    let ghost unit = pow2(w as nat);
    if w >= 128 {
        proof {
            lemma_pow2_strictly_increases(127, w as nat);
            lemma_pow2_unfold(w as nat);
            if w > 128 {
                lemma_pow2_strictly_increases(127, (w - 1) as nat);
            }
            lemma_cut_is_bracketed(
                f,
                lift as nat,
                fall as nat,
                0,
                w as nat,
                q as nat,
                more,
                0,
                q as nat,
                false,
            );
        }
        return 0;
    }
    let cut: u128 = power_of_two(w);
    let mantissa: u128 = q / cut;
    let rest: u128 = q % cut;
    proof {
        vstd::arithmetic::div_mod::lemma_fundamental_div_mod(q as int, cut as int);
        assert(q == mantissa * unit + rest) by {
            vstd::arithmetic::mul::lemma_mul_is_commutative(mantissa as int, cut as int);
        }
        let keep = (w + precision) as nat;
        let range = f.range() as nat;
        lemma_pow2_adds(w as nat, precision as nat);
        if length < keep {
            lemma_pow2_strictly_increases(length as nat, keep);
        }
        assert(mantissa < 2 * range) by (nonlinear_arith)
            requires
                q == mantissa * unit + rest,
                rest >= 0,
                q < unit * (2 * range),
                unit > 0,
        ;
        if p > 0 {
            lemma_pow2_adds(w as nat, (precision - 1) as nat);
            assert(mantissa >= range) by (nonlinear_arith)
                requires
                    q == mantissa * unit + rest,
                    rest < unit,
                    q >= unit * range,
                    unit > 0,
            ;
        }
        lemma_pow2_unfold(w as nat);
    }
    let half: u128 = cut / 2;
    let up: bool = rest > half || (rest == half && (more || mantissa % 2 == 1));
    proof {
        lemma_cut_is_bracketed(
            f,
            lift as nat,
            fall as nat,
            p as nat,
            w as nat,
            q as nat,
            more,
            mantissa as nat,
            rest as nat,
            up,
        );
    }
    let low: u128 = p as u128 * f.range() as u128 + mantissa;
    let found: u128 = if up {
        low + 1
    } else {
        low
    };
    if found >= f.infinity() as u128 {
        f.infinity()
    } else {
        found as u64
    }
}

/// The number shifted up until it takes 120 bits, and by how many places.
pub fn widened(q: u128) -> (result: (u128, u32))
    requires
        0 < q < pow2(120),
    ensures
        result.0 == q as nat * pow2(result.1 as nat),
        pow2(119) <= result.0 < pow2(120),
        result.1 <= 119,
{
    let length: u32 = bit_length(q);
    proof {
        if length > 120 {
            if length > 121 {
                lemma_pow2_strictly_increases(120, (length - 1) as nat);
            }
        }
    }
    let shift: u32 = 120 - length;
    let factor: u128 = power_of_two(shift);
    proof {
        lemma_pow2_adds((length - 1) as nat, shift as nat);
        lemma_pow2_adds(length as nat, shift as nat);
        let a = pow2((length - 1) as nat);
        let b = pow2(length as nat);
        assert(a * factor <= q * factor < b * factor) by (nonlinear_arith)
            requires
                a <= q < b,
                factor > 0,
        ;
        lemma2_to64();
        lemma_pow2_adds(64, 64);
        assert(pow2(128) == 0x1_0000_0000_0000_0000 * 0x1_0000_0000_0000_0000);
        lemma_pow2_strictly_increases(120, 128);
    }
    (q * factor, shift)
}

} // verus!
