//! Bisection, Brent's method, and initial value problems.
use hem_service::arithmetic::Arithmetic;
use hem_service::double::Double;
use hem_service::solvers::bisect::{bisect, BisectError, RootResults};
use hem_service::solvers::brent::brentq;
use hem_service::solvers::interp::{Interp1dFillValue, Interp1dMode};
use hem_service::solvers::ivp::{
    active_events, solve_ivp, transpose, IvpError, OdeResult, TerminateDirection,
    TerminatingEvents,
};
use hem_service::solvers::rk45::{
    dense_coefficients, dense_output, rk_step, rms_norm, select_initial_step,
};
use std::cell::RefCell;

struct Machine;

impl Arithmetic for Machine {
    fn sum(a: Double, b: Double) -> Double {
        double(number(a) + number(b))
    }

    fn difference(a: Double, b: Double) -> Double {
        double(number(a) - number(b))
    }

    fn product(a: Double, b: Double) -> Double {
        double(number(a) * number(b))
    }

    fn quotient(a: Double, b: Double) -> Double {
        double(number(a) / number(b))
    }

    fn power(base: Double, exponent: Double) -> Double {
        double(number(base).powf(number(exponent)))
    }

    fn square_root(a: Double) -> Double {
        double(number(a).sqrt())
    }

    fn ratio(numerator: i64, denominator: i64) -> Double {
        double(numerator as f64 / denominator as f64)
    }

    fn count(n: usize) -> Double {
        double(n as f64)
    }
}

fn double(x: f64) -> Double {
    Double { bits: x.to_bits() }
}

fn number(d: Double) -> f64 {
    f64::from_bits(d.bits)
}

fn integrate(
    rhs: impl Fn(f64, f64) -> f64,
    span: (f64, f64),
    y0: f64,
    events: Vec<Box<dyn Fn(f64) -> f64>>,
    direction: Option<TerminateDirection>,
    limit: u64,
) -> Result<OdeResult, IvpError> {
    let func =
        |t: Double, y: &Vec<Double>| -> Vec<Double> { vec![double(rhs(number(t), number(y[0])))] };
    let count = events.len();
    let event =
        |i: usize, _t: Double, y: &Vec<Double>| -> Double { double(events[i](number(y[0]))) };
    let terminating = TerminatingEvents::new(event, count, direction);
    solve_ivp::<Machine, _, _>(
        &func,
        (double(span.0), double(span.1)),
        &vec![double(y0)],
        &terminating,
        None,
        None,
        limit,
    )
}

fn emitter_rhs(p: f64) -> impl Fn(f64, f64) -> f64 {
    let c_n = [(0.08_f64, 1.2_f64), (0.1_f64, 1.3_f64)];
    move |_t, y| {
        let d = 0f64.max(y);
        (p - c_n.iter().map(|&(c, n)| c * d.powf(n)).sum::<f64>()) / 0.14
    }
}

fn last(res: &OdeResult) -> f64 {
    number(*res.y[0].last().unwrap())
}

#[test]
fn trajectory_endpoints_match_scipy() {
    let cases = [
        (1.0, 2.5125725041),
        (5.0, 10.7847608096),
        (8.0, 16.3476129110),
        (20.0, 36.2955583377),
        (50.0, 79.1658290011),
    ];
    for (p, expected) in cases {
        let res = integrate(emitter_rhs(p), (0.0, 0.5), 0.0, vec![], None, u64::MAX).unwrap();
        let y_final = last(&res);
        assert!((y_final - expected).abs() < 1e-9, "P={p}: y_final={y_final}, scipy={expected}");
    }
}

#[test]
fn terminal_event_time_matches_scipy() {
    let cases = [
        (12.0, 0.3579470621341179),
        (20.0, 0.17281934956270112),
        (30.0, 0.10635504525556469),
        (50.0, 0.060318407848382175),
    ];
    for (p, expected) in cases {
        let events: Vec<Box<dyn Fn(f64) -> f64>> = vec![Box::new(|y| y - 20.0)];
        let res = integrate(emitter_rhs(p), (0.0, 0.5), 0.0, events, None, u64::MAX).unwrap();
        let te = number(res.t_event.expect("event should have fired"));
        assert!(
            (te - expected).abs() < 1e-10,
            "P={p}: t_event={te}, scipy={expected} (diff {:.2e})",
            (te - expected).abs()
        );
        let y_final = last(&res);
        assert!((y_final - 20.0).abs() < 1e-9, "P={p}: y_final={y_final}");
    }
}

#[test]
fn linear_event_is_exact() {
    let events: Vec<Box<dyn Fn(f64) -> f64>> = vec![Box::new(|y| y - 3.5)];
    let res = integrate(|_t, _y| 1.0, (0.0, 10.0), 0.0, events, None, u64::MAX).unwrap();
    assert!((number(res.t_event.unwrap()) - 3.5).abs() < 1e-12);
    assert!((last(&res) - 3.5).abs() < 1e-12);
}

#[test]
fn solutions_begin_at_the_initial_condition_and_end_at_the_event() {
    let events: Vec<Box<dyn Fn(f64) -> f64>> =
        vec![Box::new(|y| y - 7.0), Box::new(|y| y - 5.0)];
    let res = integrate(|_t, _y| 1.0, (1.0, 21.0), 2.0, events, None, u64::MAX).unwrap();
    assert_eq!(number(res.t[0]), 1.0);
    assert_eq!(number(res.y[0][0]), 2.0);
    assert_eq!(res.t.len(), res.y[0].len());
    assert_eq!(*res.t.last().unwrap(), res.t_event.unwrap());
    assert!((number(res.t_event.unwrap()) - 4.0).abs() < 1e-12, "the first event ends it");
}

#[test]
fn backward_integration_reaches_the_end_of_the_span() {
    let res = integrate(|_t, y| y, (1.0, 0.0), 1f64.exp(), vec![], None, u64::MAX).unwrap();
    assert_eq!(number(*res.t.last().unwrap()), 0.0);
    assert!((last(&res) - 1.0).abs() < 1e-3);
    assert!(res.t_event.is_none());
}

#[test]
fn backward_integration_ends_at_the_event_met_first() {
    for order in [[7.0, 5.0], [5.0, 7.0]] {
        let events: Vec<Box<dyn Fn(f64) -> f64>> =
            order.iter().map(|&x| Box::new(move |y: f64| y - x) as Box<dyn Fn(f64) -> f64>).collect();
        let res = integrate(|_t, _y| 1.0, (10.0, 0.0), 10.0, events, None, u64::MAX).unwrap();
        assert!((number(res.t_event.unwrap()) - 7.0).abs() < 1e-9);
        assert!((last(&res) - 7.0).abs() < 1e-9);
        assert_eq!(*res.t.last().unwrap(), res.t_event.unwrap());
    }
}

#[test]
fn events_leave_the_steps_alone() {
    let plain = integrate(emitter_rhs(30.0), (0.0, 0.5), 0.0, vec![], None, u64::MAX).unwrap();
    let far: Vec<Box<dyn Fn(f64) -> f64>> = vec![Box::new(|y| y - 1e6)];
    let same = integrate(emitter_rhs(30.0), (0.0, 0.5), 0.0, far, None, u64::MAX).unwrap();
    assert_eq!((&same.t, &same.y, same.t_event), (&plain.t, &plain.y, None));
    let near: Vec<Box<dyn Fn(f64) -> f64>> = vec![Box::new(|y| y - 20.0)];
    let cut = integrate(emitter_rhs(30.0), (0.0, 0.5), 0.0, near, None, u64::MAX).unwrap();
    let n = cut.t.len() - 1;
    assert!(n >= 1 && n < plain.t.len());
    assert_eq!(cut.t[..n], plain.t[..n]);
    assert_eq!(cut.y[0][..n], plain.y[0][..n]);
    assert_eq!(*cut.t.last().unwrap(), cut.t_event.unwrap());
}

#[test]
fn solutions_without_an_event_end_at_the_end() {
    for (from, to) in [(0.0, 0.5), (0.25, 0.1), (-1.0, 1.0 / 3.0)] {
        let res = integrate(emitter_rhs(8.0), (from, to), 1.0, vec![], None, u64::MAX).unwrap();
        assert_eq!(number(*res.t.last().unwrap()), to);
        assert!(res.t_event.is_none());
    }
}

#[test]
fn dense_output_meets_both_ends_of_the_step() {
    let func = |t: Double, y: &Vec<Double>| -> Vec<Double> {
        vec![double(number(t).cos() - number(y[0])), double(number(y[0]) * 2.0)]
    };
    let y = vec![double(1.5), double(-0.25)];
    let f = func(double(0.5), &y);
    let h = 0.125;
    let (y_new, k) = rk_step::<Machine, _>(&func, double(0.5), &y, &f, double(h));
    let q = dense_coefficients::<Machine>(&k, 2);
    let at = |t: f64| dense_output::<Machine>(double(t), double(0.5), double(h), &y, &q);
    assert_eq!(at(0.5), y);
    for (a, b) in at(0.5 + h).iter().zip(&y_new) {
        assert!((number(*a) - number(*b)).abs() < 1e-14);
    }
}

#[test]
fn events_in_the_other_direction_do_not_count() {
    let go = |direction| {
        let events: Vec<Box<dyn Fn(f64) -> f64>> = vec![Box::new(|y| y - 1.0)];
        integrate(|_t, _y| 1.0, (0.0, 4.0), 0.0, events, direction, u64::MAX).unwrap()
    };
    assert!(go(Some(TerminateDirection::Positive)).t_event.is_some());
    assert!(go(Some(TerminateDirection::Both)).t_event.is_some());
    assert!(go(Some(TerminateDirection::Negative)).t_event.is_none());
}

#[test]
fn a_derivative_that_is_no_number_fails() {
    let res = integrate(|_t, _y| f64::NAN, (0.0, 1.0), 0.0, vec![], None, u64::MAX);
    assert_eq!(res.err(), Some(IvpError::StepTooSmall));
    assert_eq!(
        IvpError::StepTooSmall.message(),
        "solve_ivp: required step size is less than spacing between numbers"
    );
}

#[test]
fn attempts_run_out() {
    let res = integrate(emitter_rhs(5.0), (0.0, 0.5), 0.0, vec![], None, 2);
    assert_eq!(res.err(), Some(IvpError::Unfinished));
    assert_eq!(IvpError::Unfinished.message(), "solve_ivp: no more attempts allowed");
}

#[test]
fn active_events_are_those_that_cross_zero() {
    let g: Vec<Double> = [-1.0, 1.0, 0.0, -1.0, f64::NAN].map(double).to_vec();
    let h: Vec<Double> = [1.0, -1.0, 2.0, -2.0, 1.0].map(double).to_vec();
    assert_eq!(active_events(&g, &h, TerminateDirection::Positive), [0, 2]);
    assert_eq!(active_events(&g, &h, TerminateDirection::Negative), [1]);
    assert_eq!(active_events(&g, &h, TerminateDirection::Both), [0, 1, 2]);
    assert_eq!(TerminateDirection::default(), TerminateDirection::Both);
}

#[test]
fn one_step_of_a_constant_derivative_is_exact() {
    let func = |_t: Double, _y: &Vec<Double>| -> Vec<Double> { vec![double(2.0), double(0.0)] };
    let y = vec![double(1.0), double(3.0)];
    let f = vec![double(2.0), double(0.0)];
    let (y_new, k) = rk_step::<Machine, _>(&func, double(0.0), &y, &f, double(0.5));
    assert_eq!(k.len(), 7);
    assert!((number(y_new[0]) - 2.0).abs() < 1e-12);
    assert_eq!(number(y_new[1]), 3.0);
}

#[test]
fn norms_are_root_mean_squares() {
    assert_eq!(number(rms_norm::<Machine>(&vec![])), 0.0);
    assert_eq!(number(rms_norm::<Machine>(&vec![double(3.0)])), 3.0);
    assert_eq!(number(rms_norm::<Machine>(&vec![double(1.0), double(7.0)])), 5.0);
}

#[test]
fn transposition_turns_rows_into_columns() {
    let m: Vec<Vec<u8>> = vec![vec![1, 2, 3], vec![4, 5, 6]];
    let r = transpose(&m);
    assert_eq!(r, [vec![1, 4], vec![2, 5], vec![3, 6]]);
    assert_eq!(transpose(&r), m);
    assert!(transpose(&Vec::<Vec<u8>>::new()).is_empty());
    assert!(transpose(&vec![Vec::<u8>::new()]).is_empty());
}

fn search(
    f: impl Fn(f64) -> f64,
    a: f64,
    b: f64,
) -> Result<(Double, RootResults), BisectError<String>> {
    let func = |x: Double| -> Result<Double, String> { Ok(double(f(number(x)))) };
    bisect::<Machine, String, _>(func, double(a), double(b), double(1e-12))
}

#[test]
fn bisection_finds_the_root() {
    for (a, b) in [(0.0, 2.0), (2.0, 0.0)] {
        let (root, results) = search(|x| x * x - 2.0, a, b).unwrap();
        assert!((number(root) - 2f64.sqrt()).abs() < 1e-11);
        assert_eq!(results.root, root);
        assert_eq!(results.function_calls, results.iterations + 2);
        assert!(results.iterations <= 100 && results.iterations > 30);
        assert!(results.converged);
        assert_eq!(results.flag, "converged");
    }
    let (root, results) = search(|x| x - 1.0, 0.0, 2.0).unwrap();
    assert_eq!((number(root), results.iterations, results.function_calls), (1.0, 1, 3));
}

#[test]
fn the_order_of_the_ends_does_not_matter() {
    let go = |f: fn(f64) -> f64, a: f64, b: f64| match search(f, a, b) {
        Ok((root, r)) => Ok((root, r.iterations, r.function_calls, r.converged, r.flag)),
        Err(e) => Err(e.message("")),
    };
    let functions: [fn(f64) -> f64; 4] =
        [|x| x * x - 2.0, |x| 2.0 - x * x, |x| x.exp() - 3.0, |x| x * x + 1.0];
    for f in functions {
        assert_eq!(go(f, 0.0, 2.0), go(f, 2.0, 0.0));
    }
}

#[test]
fn bisection_takes_an_end_that_is_a_root() {
    let (root, results) = search(|x| x, 0.0, 2.0).unwrap();
    assert_eq!((number(root), results.iterations, results.function_calls), (0.0, 0, 2));
    let (root, results) = search(|x| x - 2.0, 0.0, 2.0).unwrap();
    assert_eq!((number(root), results.iterations, results.function_calls), (2.0, 0, 2));
}

#[test]
fn bisection_stops_after_the_most_iterations() {
    let func = |x: Double| -> Result<Double, String> { Ok(double(number(x) - 1.0 / 3.0)) };
    let (_, results) =
        bisect::<Machine, String, _>(func, double(-1e300), double(1e300), double(-1.0)).unwrap();
    assert_eq!(results.iterations, 100);
    assert_eq!(results.function_calls, 102);
    assert!(results.converged);
}

#[test]
fn bisection_wants_different_signs() {
    let e = search(|x| x * x + 1.0, 0.0, 2.0).unwrap_err();
    assert!(matches!(&e, BisectError::SignError(m) if m == "f(a) and f(b) must have different signs"));
    assert_eq!(e.message(""), "ValueError: f(a) and f(b) must have different signs");
}

#[test]
fn bisection_hands_on_errors_of_the_function() {
    let fails_at = |bad: f64| {
        move |x: Double| -> Result<Double, String> {
            if number(x) == bad {
                Err(format!("no value at {bad}"))
            } else {
                Ok(double(number(x) - 0.7))
            }
        }
    };
    for bad in [0.0, 2.0, 1.0] {
        let e = bisect::<Machine, String, _>(fails_at(bad), double(0.0), double(2.0), double(1e-9))
            .unwrap_err();
        match &e {
            BisectError::FuncError(m) => {
                assert_eq!(m, &format!("no value at {bad}"));
                assert_eq!(e.message(m), format!("Error in passed-in function: {m}"));
            }
            other => panic!("{other:?}"),
        }
    }
    let results = RootResults {
        root: double(0.0),
        iterations: 1,
        function_calls: 3,
        converged: false,
        flag: "stuck".to_string(),
    };
    let e: BisectError<String> = BisectError::ConvergenceError(results);
    assert_eq!(e.message(""), "RuntimeError: stuck");
}

fn brent(f: impl Fn(f64) -> f64, a: f64, b: f64, max_iter: usize) -> f64 {
    let func = |x: Double| -> Double { double(f(number(x))) };
    let tol = double(4.0 * f64::EPSILON);
    number(brentq::<Machine, _>(func, double(a), double(b), tol, tol, max_iter))
}

#[test]
fn brent_finds_roots() {
    assert!((brent(|x| x * x - 2.0, 0.0, 2.0, 100) - 2f64.sqrt()).abs() < 1e-14);
    assert!((brent(|x| x.cos() - x, 0.0, 1.0, 100) - 0.7390851332151607).abs() < 1e-14);
    assert!((brent(|x| x.powi(3) - 1.0, 3.0, -1.0, 100) - 1.0).abs() < 1e-14);
}

#[test]
fn brent_takes_an_end_that_is_a_root_and_stops_when_told() {
    assert_eq!(brent(|x| x - 1.0, 1.0, 5.0, 100), 1.0);
    assert_eq!(brent(|x| x - 5.0, 1.0, 5.0, 100), 5.0);
    assert_eq!(brent(|x| x - 2.0, 1.0, 5.0, 0), 5.0);
}

#[test]
fn fill_values_are_the_first_on_both_sides() {
    let fill = Interp1dFillValue::FillValues((double(1.0), double(2.0)));
    assert_eq!(fill.mode(), Interp1dMode::Constant(double(1.0)));
    assert_eq!(Interp1dFillValue::Extrapolate.mode(), Interp1dMode::Extrapolate);
}

#[test]
fn recorded_times_never_turn_back() {
    let cases: [(f64, f64); 4] = [(0.0, 0.5), (0.5, -0.25), (-3.0, -1.0), (2.0, 2.0)];
    for (from, to) in cases {
        for p in [1.0, 8.0, 50.0] {
            let res = integrate(emitter_rhs(p), (from, to), 1.0, vec![], None, u64::MAX).unwrap();
            let t: Vec<f64> = res.t.iter().map(|&x| number(x)).collect();
            for w in t.windows(2) {
                assert!(if to < from { w[1] <= w[0] } else { w[0] <= w[1] }, "{t:?}");
            }
            for x in &t {
                assert!(from.min(to) <= *x && *x <= from.max(to), "{t:?}");
            }
        }
    }
}

#[test]
fn event_times_lie_in_the_last_step() {
    for (from, to, level) in [(0.0, 0.5, 20.0), (0.0, 0.5, 3.0), (0.0, 0.5, 41.0)] {
        let all = integrate(emitter_rhs(50.0), (from, to), 0.0, vec![], None, u64::MAX).unwrap();
        let events: Vec<Box<dyn Fn(f64) -> f64>> = vec![Box::new(move |y| y - level)];
        let cut =
            integrate(emitter_rhs(50.0), (from, to), 0.0, events, None, u64::MAX).unwrap();
        let n = cut.t.len() - 1;
        let te = number(cut.t_event.unwrap());
        assert!(number(cut.t[n - 1]) <= te && te <= number(all.t[n]));
    }
}

fn first_step(rhs: impl Fn(f64) -> f64, y0: f64, span: (f64, f64)) -> f64 {
    let func = |_t: Double, y: &Vec<Double>| -> Vec<Double> { vec![double(rhs(number(y[0])))] };
    let y = vec![double(y0)];
    let f = func(double(span.0), &y);
    let direction = if span.1 < span.0 { -1.0 } else { 1.0 };
    number(select_initial_step::<Machine, _>(
        &func,
        double(span.0),
        &y,
        double(span.1),
        &f,
        double(direction),
        double(1e-3),
        double(1e-6),
    ))
}

#[test]
fn the_first_step_is_positive_and_fits_the_interval() {
    for span in [(0.0, 0.5), (0.5, 0.0), (0.0, 1e-9), (-1e6, 1e6)] {
        for y0 in [0.0, 1.0, -250.0] {
            for slope in [0.0, 1e-12, -3.0, 1e9] {
                let h = first_step(move |y| slope * (1.0 + y), y0, span);
                let interval = f64::abs(span.1 - span.0);
                assert!(h > 0.0 && h <= interval, "{h} of {interval}");
            }
        }
    }
    assert_eq!(first_step(|_| 1.0, 0.0, (3.0, 3.0)), 0.0);
}

#[test]
fn the_first_step_is_nothing_where_the_derivative_is_infinite() {
    assert_eq!(first_step(|_| f64::INFINITY, 1.0, (0.0, 1.0)), 0.0);
}

#[test]
fn bisection_stays_between_the_ends() {
    let asked = RefCell::new(Vec::new());
    for (a, b) in [(-1.0, 2.5), (2.5, -1.0), (0.0, 5e-324), (-8.9e307, 8.9e307)] {
        asked.borrow_mut().clear();
        let func = |x: Double| -> Result<Double, String> {
            asked.borrow_mut().push(number(x));
            Ok(double(number(x) - 1e-300))
        };
        let (root, _) =
            bisect::<Machine, String, _>(func, double(a), double(b), double(0.0)).unwrap();
        asked.borrow_mut().push(number(root));
        for x in asked.borrow().iter() {
            assert!(f64::min(a, b) <= *x && *x <= f64::max(a, b), "{x}");
        }
    }
}

#[test]
fn bisection_leaves_ends_that_are_out_of_reach_of_each_other() {
    let (root, _) = search(|x| x - 1.0, -1e308, 1e308).unwrap();
    assert!(!number(root).is_finite());
}

#[test]
fn brent_stays_between_the_ends_and_pins_the_root() {
    let functions: [fn(f64) -> f64; 5] = [
        |x| x * x * x - 2.0,
        |x| x.exp() - 1.5,
        |x| (x - 0.1).cbrt(),
        |x| if x < 0.3 { -1.0 } else { 1e6 },
        |x| x.atan() - 0.2 * x.powi(5),
    ];
    let tol = 4.0 * f64::EPSILON;
    for f in functions {
        for (a, b) in [(-0.5, 2.0), (2.0, -0.5), (0.05, 7.0)] {
            if f(a) * f(b) >= 0.0 {
                continue;
            }
            let asked = RefCell::new(Vec::new());
            let root = brent(
                |x| {
                    asked.borrow_mut().push(x);
                    f(x)
                },
                a,
                b,
                100,
            );
            for x in asked.borrow().iter() {
                assert!(f64::min(a, b) <= *x && *x <= f64::max(a, b), "{x}");
            }
            assert!(f64::min(a, b) <= root && root <= f64::max(a, b));
            let near = |x: &&f64| {
                f(**x) * f(root) < 0.0
                    && ((**x - root) / 2.0).abs() < (tol + tol * root.abs()) / 2.0
            };
            assert!(f(root) == 0.0 || asked.borrow().iter().find(near).is_some(), "{root}");
        }
    }
}

#[test]
fn brent_gives_zero_where_the_signs_do_not_differ() {
    assert_eq!(brent(|x| x * x + 1.0, 1.0, 2.0, 100), 0.0);
}
