//! Numbers by their bit patterns agree with the machine's arithmetic.

use rustengine::scalar::Scalar;
use rustengine::single::Single;

fn number(x: f64) -> Scalar {
    Scalar::from_bits(x.to_bits())
}

fn value(x: Scalar) -> f64 {
    f64::from_bits(x.to_bits())
}

fn single(x: f32) -> Single {
    Single::from_bits(x.to_bits())
}

fn single_value(x: Single) -> f32 {
    f32::from_bits(x.to_bits())
}

fn doubles() -> Vec<f64> {
    let mut list = vec![
        0.0,
        -0.0,
        5e-324,
        -5e-324,
        f64::MIN_POSITIVE,
        1e-46,
        7e-46,
        7.1e-46,
        1.4e-45,
        2.1e-45,
        1.17549435e-38,
        1.1754942e-38,
        0.1,
        -0.1,
        1.0,
        1.0 + f64::EPSILON,
        16777217.0,
        16777219.0,
        3.14159,
        -2.5,
        1e10,
        3.4028234663852886e38,
        3.4028235677973366e38,
        3.4028235677973362e38,
        -1e39,
        f64::MAX,
        f64::INFINITY,
        f64::NEG_INFINITY,
        f64::NAN,
    ];
    let mut seed: u64 = 0x9e37_79b9_7f4a_7c15;
    for _ in 0..2000 {
        seed = seed.wrapping_mul(6364136223846793005).wrapping_add(1442695040888963407);
        list.push(f64::from_bits(seed));
        // Half of the numbers near the range of single precision.
        let exponent = 850 + (seed >> 8) % 320;
        list.push(f64::from_bits((exponent << 52) | (seed >> 12)));
    }
    list
}

fn singles() -> Vec<f32> {
    let mut list = vec![
        0.0,
        -0.0,
        1e-45,
        -1e-45,
        f32::MIN_POSITIVE,
        1.1754942e-38,
        0.05,
        0.1,
        1.0,
        999.99994,
        1000.0,
        -1234.5,
        f32::MAX,
        f32::MIN,
        f32::INFINITY,
        f32::NEG_INFINITY,
        f32::NAN,
    ];
    let mut seed: u32 = 0x1234_5678;
    for _ in 0..4000 {
        seed = seed.wrapping_mul(1664525).wrapping_add(1013904223);
        list.push(f32::from_bits(seed));
    }
    for exponent in 0..255u32 {
        list.push(f32::from_bits(exponent << 23));
        list.push(f32::from_bits((exponent << 23) | 0x7f_ffff));
    }
    list
}

#[test]
fn doubles_are_ordered_by_value() {
    let list: Vec<f64> = doubles().into_iter().take(60).collect();
    for &a in &list {
        assert_eq!(number(a).is_nan(), a.is_nan());
        for &b in &list {
            assert_eq!(number(a).lt(&number(b)), a < b);
            assert_eq!(number(a).le(&number(b)), a <= b);
            if a != b {
                let smaller = value(number(a).min(&number(b)));
                let larger = value(number(a).max(&number(b)));
                assert!(smaller == a.min(b) || smaller.is_nan() && a.min(b).is_nan());
                assert!(larger == a.max(b) || larger.is_nan() && a.max(b).is_nan());
            }
        }
    }
}

#[test]
fn singles_are_ordered_by_value() {
    let list: Vec<f32> = singles().into_iter().take(60).collect();
    for &a in &list {
        assert_eq!(single(a).is_nan(), a.is_nan());
        for &b in &list {
            assert_eq!(single(a).lt(&single(b)), a < b);
            if a != b {
                let smaller = single_value(single(a).min(&single(b)));
                let larger = single_value(single(a).max(&single(b)));
                assert!(smaller == a.min(b) || smaller.is_nan() && a.min(b).is_nan());
                assert!(larger == a.max(b) || larger.is_nan() && a.max(b).is_nan());
            }
        }
    }
}

#[test]
fn clamping_holds_within_bounds() {
    for x in doubles() {
        let held = value(number(x).clamp(&number(-3.0), &number(3.0)));
        if x.is_nan() {
            assert!(held.is_nan());
        } else {
            assert_eq!(held.to_bits(), x.clamp(-3.0, 3.0).to_bits());
            assert_eq!(value(number(held).clamp(&number(-3.0), &number(3.0))), held);
        }
    }
}

#[test]
fn narrowing_rounds_to_the_nearest() {
    for x in doubles() {
        let narrow = single_value(Single::narrow(&number(x)));
        if x.is_nan() {
            assert!(narrow.is_nan());
        } else {
            assert_eq!(narrow.to_bits(), (x as f32).to_bits());
        }
    }
}

#[test]
fn widening_keeps_the_value() {
    for x in singles() {
        let wide = value(single(x).widen());
        if x.is_nan() {
            assert!(wide.is_nan());
        } else {
            assert_eq!(wide.to_bits(), (x as f64).to_bits());
            assert_eq!(Single::narrow(&number(wide)), single(x));
        }
    }
}

fn same(a: f64, b: f64) -> bool {
    a.to_bits() == b.to_bits() || a.is_nan() && b.is_nan()
}

fn same_single(a: f32, b: f32) -> bool {
    a.to_bits() == b.to_bits() || a.is_nan() && b.is_nan()
}

fn check_doubles(a: f64, b: f64) {
    let (x, y) = (number(a), number(b));
    assert!(same(value(x.plus(&y)), a + b));
    assert!(same(value(x.minus(&y)), a - b));
    assert!(same(value(x.times(&y)), a * b));
    assert!(same(value(x.over(&y)), a / b));
    assert!(same(value(x.modulo(&y)), a % b));
    assert!(same(value(x.root()), a.sqrt()));
}

fn check_singles(a: f32, b: f32) {
    let (x, y) = (single(a), single(b));
    assert!(same_single(single_value(x.plus(&y)), a + b));
    assert!(same_single(single_value(x.minus(&y)), a - b));
    assert!(same_single(single_value(x.times(&y)), a * b));
    assert!(same_single(single_value(x.over(&y)), a / b));
    assert!(same_single(single_value(x.root()), a.sqrt()));
}

#[test]
fn double_arithmetic_rounds_to_the_nearest() {
    let list = doubles();
    for &a in &list[..40] {
        for &b in &list[..40] {
            check_doubles(a, b);
        }
    }
    for pair in list.windows(3) {
        check_doubles(pair[0], pair[1]);
        check_doubles(pair[0], pair[2]);
    }
    // Numbers of like size, whose sums cancel.
    let mut seed: u64 = 99;
    for i in 0..2000u64 {
        seed = seed.wrapping_mul(6364136223846793005).wrapping_add(1442695040888963407);
        let a = 1.0 + (seed >> 12) as f64 / (1u64 << 52) as f64;
        let b = f64::from_bits(a.to_bits() ^ (seed & 0xff)) * (2.0f64).powi((i % 140) as i32 - 70);
        check_doubles(a, b);
        check_doubles(a, -b);
    }
}

#[test]
fn single_arithmetic_rounds_to_the_nearest() {
    let list = singles();
    for &a in &list[..40] {
        for &b in &list[..40] {
            check_singles(a, b);
        }
    }
    for pair in list.windows(3) {
        check_singles(pair[0], pair[1]);
        check_singles(pair[0], pair[2]);
    }
    for &x in &list {
        let divisor = single(1000.0);
        assert!(same_single(single_value(single(x).over(&divisor)), x / 1000.0));
    }
}

#[test]
fn zeros_are_zero() {
    assert_eq!(Scalar::zero().to_bits(), 0.0f64.to_bits());
    assert_eq!(Single::zero().to_bits(), 0.0f32.to_bits());
}
