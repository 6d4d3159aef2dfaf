use vtracer::ir::Point;
use vtracer::path::approx;
use vtracer::scalar::{ten_to, Scalar};

fn num(v: f64) -> Scalar {
    Scalar { bits: v.to_bits() }
}

fn back(s: Scalar) -> f64 {
    f64::from_bits(s.bits)
}

fn agree(a: f64, b: f64) -> bool {
    (a.is_nan() && b.is_nan()) || a == b
}

/// A spread of numbers: extremes, neighbours of powers, and pseudo-random patterns.
fn samples() -> Vec<f64> {
    let mut all = vec![
        0.0,
        -0.0,
        0.5,
        1.0,
        1.5,
        2.5,
        -2.5,
        1e-6,
        0.1,
        0.2,
        0.3,
        1e15,
        9.0e15,
        8.999999999999999e15,
        4503599627370496.5,
        9007199254740993.0,
        1e22,
        1e300,
        f64::MAX,
        f64::MIN,
        f64::MIN_POSITIVE,
        5e-324,
        f64::INFINITY,
        f64::NEG_INFINITY,
        f64::NAN,
    ];
    let mut x: u64 = 0x9e37_79b9_7f4a_7c15;
    for i in 0..400u64 {
        x ^= x << 13;
        x ^= x >> 7;
        x ^= x << 17;
        all.push(f64::from_bits(x));
        // Exponents near those of one, where coordinates lie.
        let near = (x & 0x800f_ffff_ffff_ffff) | ((1013 + i % 24) << 52);
        all.push(f64::from_bits(near));
    }
    all
}

#[test]
fn subtraction_is_that_of_binary64() {
    let all = samples();
    for &a in &all {
        for &b in &all {
            assert!(agree(back(num(a).sub(num(b))), a - b), "{a} - {b}");
        }
    }
}

#[test]
fn subtraction_rounds_ties_to_even() {
    let big = 9007199254740992.0;
    assert_eq!(back(num(big).sub(num(-1.0))), big);
    assert_eq!(back(num(big + 2.0).sub(num(-1.0))), big + 4.0);
    assert_eq!(back(num(0.3).sub(num(0.1))), 0.19999999999999998);
}

#[test]
fn scaling_is_that_of_binary64() {
    for a in samples() {
        assert!(agree(back(num(a).doubled()), 2.0 * a), "2 * {a}");
        for p in 0..16u32 {
            assert!(agree(back(num(a).times_ten_to(p)), a * 10f64.powi(p as i32)), "{a} e{p}");
        }
    }
    assert_eq!(ten_to(19), 10_000_000_000_000_000_000);
}

#[test]
fn whole_numbers_round_half_away_from_zero() {
    assert_eq!(num(2.5).nearest_whole(), Some(3));
    assert_eq!(num(-2.5).nearest_whole(), Some(-3));
    assert_eq!(num(0.49999999999999994).nearest_whole(), Some(0));
    assert_eq!(num(9.0e15).nearest_whole(), None);
    assert_eq!(num(f64::NAN).nearest_whole(), None);
    for a in samples() {
        let r = a.round();
        let expected = if r.abs() < 9.0e15 { Some(r as i64) } else { None };
        assert_eq!(num(a).nearest_whole(), expected, "{a}");
    }
}

#[test]
fn comparisons_are_those_of_binary64() {
    let all = samples();
    let limit = 1e-6;
    for &a in &all {
        assert_eq!(num(a).nearer_zero_than(num(limit)), a.abs() < limit);
        for &b in &all {
            assert_eq!(num(a).same(num(b)), a == b);
            let p = Point { x: num(a), y: num(b) };
            let q = Point { x: num(b), y: num(b) };
            assert_eq!(approx(p, q), (a - b).abs() < 1e-6 && (b - b).abs() < 1e-6);
        }
    }
}

#[test]
fn near_points_are_within_a_millionth() {
    let p = |x: f64| Point { x: num(x), y: num(0.0) };
    assert!(approx(p(1.0), p(1.0000005)));
    assert!(!approx(p(1.0), p(1.000002)));
    assert!(!approx(p(0.0), p(1e-6)));
    assert!(approx(p(0.0), p(9.99999e-7)));
}

#[test]
fn exact_differences_are_told() {
    assert!(num(1001.0).differs_exactly(num(1000.5)));
    assert!(num(0.75).differs_exactly(num(-0.25)));
    assert!(num(-0.0).differs_exactly(num(0.0)));
    assert!(!num(1.1).differs_exactly(num(0.1)));
    assert!(!num(f64::MAX).differs_exactly(num(-f64::MAX)));
    let all = samples();
    for &a in &all {
        for &b in &all {
            if a.abs() < 1e300 && b.abs() < 1e300 {
                // What the subtraction leaves out.
                let d = a - b;
                let t = d - a;
                let left = (a - (d - t)) - (b + t);
                assert_eq!(num(a).differs_exactly(num(b)), left == 0.0, "{a} - {b}");
            } else if !a.is_finite() || !b.is_finite() {
                assert!(!num(a).differs_exactly(num(b)));
            }
        }
    }
}

#[test]
fn opposites_lie_across_zero() {
    for a in samples() {
        assert!(agree(back(num(a).opposite()), -a));
    }
}
