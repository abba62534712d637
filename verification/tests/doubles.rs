//! Doubles by their bit patterns, against the machine's own.
use hem_service::arithmetic::{infinity, zero};
use hem_service::double::Double;

fn double(x: f64) -> Double {
    Double { bits: x.to_bits() }
}

fn samples() -> Vec<f64> {
    let mut v = vec![
        0.0,
        -0.0,
        1.0,
        -1.0,
        90.0,
        180.0,
        359.9999999999,
        1e-9,
        -1e-9,
        1e-10,
        5e-324,
        -5e-324,
        f64::MIN_POSITIVE,
        f64::MAX,
        f64::MIN,
        f64::EPSILON,
        f64::INFINITY,
        f64::NEG_INFINITY,
        f64::NAN,
        1e300,
        1e17,
        0.1,
        0.3,
    ];
    let around = [1e-9, 90.0, 1e-9 + 1.0, 90.0 + 1e-9, 90.0 - 1e-9, 1e8, 2.0f64.powi(-30), 3e-9];
    for x in around {
        let mut up = x;
        let mut down = x;
        for _ in 0..4 {
            up = up.next_up();
            down = down.next_down();
            v.push(up);
            v.push(down);
        }
        v.push(x);
        v.push(-x);
    }
    v
}

#[test]
fn nearness_is_that_of_the_machine() {
    for &a in &samples() {
        for &b in &samples() {
            assert_eq!(double(a).is_near(double(b)), (a - b).abs() < 1e-9, "{a:e} {b:e}");
        }
    }
}

#[test]
fn nearness_goes_both_ways() {
    for &a in &samples() {
        assert_eq!(double(a).is_near(double(a)), a.is_finite());
        for &b in &samples() {
            assert_eq!(double(a).is_near(double(b)), double(b).is_near(double(a)));
        }
    }
}

#[test]
fn order_is_that_of_the_machine() {
    for &a in &samples() {
        for &b in &samples() {
            let (x, y) = (double(a), double(b));
            assert_eq!(x.is_less(y), a < b, "{a:e} {b:e}");
            assert_eq!(x.is_at_most(y), a <= b, "{a:e} {b:e}");
            assert_eq!(x.is_same(y), a == b, "{a:e} {b:e}");
            let (min, max) = (f64::from_bits(x.min(y).bits), f64::from_bits(x.max(y).bits));
            assert!(min == a.min(b) || (min.is_nan() && a.is_nan() && b.is_nan()));
            assert!(max == a.max(b) || (max.is_nan() && a.is_nan() && b.is_nan()));
        }
    }
}

#[test]
fn neighbours_and_signs_are_those_of_the_machine() {
    for &a in &samples() {
        let x = double(a);
        assert_eq!(x.is_nan(), a.is_nan());
        assert_eq!(x.abs(), double(a.abs()));
        assert_eq!(x.negate(), double(-a));
        assert_eq!(x.next_up(), double(a.next_up()), "{a:e}");
        assert_eq!(x.next_down(), double(a.next_down()), "{a:e}");
        if a < f64::INFINITY {
            assert!(x.is_less(x.next_up()));
            assert!(x.next_up().next_down().is_same(x));
        }
    }
    assert_eq!(zero(), double(0.0));
    assert_eq!(infinity(), double(f64::INFINITY));
}

#[test]
fn operations_keep_order_and_signs() {
    let leans = |v: f64, up: bool| v.is_nan() || if up { v >= 0.0 } else { v <= 0.0 };
    let mut points = samples();
    points.extend([f64::MAX, -f64::MAX, 5e-324, -5e-324, f64::INFINITY, -f64::INFINITY, f64::NAN]);
    for &a in &points {
        for &b in &points {
            if a.is_finite() {
                assert!(!(b >= 0.0) || a <= a + b);
                assert!(!(b <= 0.0) || a + b <= a);
            }
            assert!(!(b < a) || 0.0 < a - b);
            assert!(!(a < b) || a - b < 0.0);
            for (p, q) in [(false, false), (false, true), (true, false), (true, true)] {
                if leans(a, p) && leans(b, q) {
                    assert!(leans(a * b, p == q));
                    assert!(b == 0.0 || leans(a / b, p == q));
                }
            }
            if a.is_finite() && b.is_finite() {
                assert!(!(a + b).is_nan() && !(a - b).is_nan() && !(a * b).is_nan());
            } else {
                assert!(!(a * b).is_finite());
            }
            if !a.is_nan() && !b.is_nan() && a != 0.0 && b != 0.0 {
                assert!(!(a * b).is_nan());
            }
            assert!(b != 0.0 || !(a / b).is_finite());
            assert!(a.is_finite() || !b.is_finite() || !(a / b).is_finite());
            if b.abs() < 1.0 {
                assert!(!leans(a, true) || leans(a.powf(b), true));
                assert!(!(a > 0.0 && (a.is_finite() || b >= 0.0)) || a.powf(b) > 0.0);
                assert!(!(a > 0.0 && a <= 1.0 && b <= 0.0) || a.powf(b) >= 1.0);
                assert!(!(a.is_nan() && b != 0.0) || a.powf(b).is_nan());
                assert!(!(a >= 1.0 && b <= 0.0) || a.powf(b) <= 1.0);
            }
        }
        assert!(leans(a.sqrt(), true));
    }
}
