//! What whole solutions come to where the arithmetic is exact.
use crate::arithmetic::{evaluates, given, Arithmetic};
use crate::double::Double;
use crate::exact::{exact_difference_of, exact_in, exact_sum_of};
use crate::solvers::exact_laws::{
    forced, lemma_along, polynomial, sixty_integrals, steps_integrate_polynomials,
};
use crate::solvers::ivp::{
    active, aimed_at, attempts, lemma_records, open_ended, solved, solved_through, Attempt,
    Integration, IvpError, OdeResult, Progress, Settings,
};
use crate::solvers::ivp_laws::lemma_run;
use crate::solvers::output_laws::dense_output_integrates_cubics;
use crate::solvers::rk45::{along, interpolated, solution_weights};
use vstd::prelude::*;

verus! {

/// The coefficients of a polynomial of degree one.
pub open spec fn straight(a: real, b: real) -> Seq<real> {
    seq![a, b, 0real, 0real, 0real]
}

/// A polynomial of degree one, and its integral.
proof fn lemma_straight(a: real, b: real, u: real)
    ensures
        polynomial(straight(a, b), u) == a + b * u,
        sixty_integrals(straight(a, b), u) == 60real * (a * u) + 30real * (b * (u * u)),
{
    reveal(sixty_integrals);
    let (u2, u3, u4, u5): (real, real, real, real) = (
        u * u,
        u * u * u,
        u * u * u * u,
        u * u * u * u * u,
    );
    assert(0real * u2 == 0real) by (nonlinear_arith);
    assert(0real * u3 == 0real) by (nonlinear_arith);
    assert(0real * u4 == 0real) by (nonlinear_arith);
    assert(0real * u5 == 0real) by (nonlinear_arith);
}

/// Component `c` of the derivative is `a + b * u`, where `u` is the time since `t`; or no number.
pub open spec fn rising<F: Fn(Double, &Vec<Double>) -> Vec<Double>>(
    func: F,
    c: int,
    t: real,
    a: real,
    b: real,
    num: spec_fn(Double) -> real,
) -> bool {
    forall|ts: Double, ys: Vec<Double>, d: Vec<Double>| #[trigger]
        call_ensures(func, (ts, &ys), d) && !d@[c].nan() ==> !ts.nan() && num(d@[c]) == a + b * (
        num(ts) - t)
}

/// What rises from one time rises from any other.
proof fn lemma_rising_on<F: Fn(Double, &Vec<Double>) -> Vec<Double>>(
    func: F,
    c: int,
    t: real,
    a: real,
    b: real,
    on: real,
    num: spec_fn(Double) -> real,
)
    requires
        rising(func, c, t, a, b, num),
    ensures
        forced(func, c, on, straight(a + b * (on - t), b), num),
{
    assert forall|ts: Double, ys: Vec<Double>, d: Vec<Double>| #[trigger]
        call_ensures(func, (ts, &ys), d) && !d@[c].nan() implies !ts.nan() && num(d@[c])
        == polynomial(straight(a + b * (on - t), b), num(ts) - on) by {
        let x = num(ts);
        lemma_straight(a + b * (on - t), b, x - on);
        assert(b * (on - t) + b * (x - on) == b * (x - t)) by (nonlinear_arith);
    }
}

/// The solution of a component whose derivative is `a + b * u`, at `u` after its beginning at `y`,
/// is `y + a * u + b * u * u / 2`.
pub open spec fn on_parabola(y0: real, a: real, b: real, u: real, y: real) -> bool {
    2real * (y - y0) == 2real * (a * u) + b * (u * u)
}

proof fn lemma_parabola_goes_on(
    y0: real,
    a: real,
    b: real,
    u: real,
    v: real,
    y: real,
    z: real,
)
    requires
        on_parabola(y0, a, b, u, y),
        60real * (z - y) == 60real * ((a + b * u) * v) + 30real * (b * (v * v)),
    ensures
        on_parabola(y0, a, b, u + v, z),
{
    assert((a + b * u) * v == a * v + b * (u * v)) by (nonlinear_arith);
    assert(a * (u + v) == a * u + a * v) by (nonlinear_arith);
    assert(b * ((u + v) * (u + v)) == b * (u * u) + 2real * (b * (u * v)) + b * (v * v))
        by (nonlinear_arith);
}

/// An integration is where the solution of component `c` is, and so is its derivative.
spec fn on_course(
    s: Integration,
    c: int,
    t0: real,
    y0: real,
    a: real,
    b: real,
    num: spec_fn(Double) -> real,
) -> bool {
    &&& !s.f@[c].nan() ==> num(s.f@[c]) == a + b * (num(s.t) - t0)
    &&& on_parabola(y0, a, b, num(s.t) - t0, num(s.y@[c]))
}

/// A step that is taken stays on course.
#[verifier::spinoff_prover]
proof fn lemma_step_on_course<
    A: Arithmetic,
    F: Fn(Double, &Vec<Double>) -> Vec<Double>,
    E: Fn(usize, Double, &Vec<Double>) -> Double,
>(
    func: F,
    event: E,
    s: Integration,
    x: Attempt,
    next: Integration,
    progress: Progress,
    c: int,
    t0: real,
    y0: real,
    a: real,
    b: real,
    num: spec_fn(Double) -> real,
)
    requires
        exact_in::<A>(num),
        s.tried::<A, F>(func, x),
        s.taken::<A, E>(event, x, next, progress),
        0 <= c < s.y@.len(),
        rising(func, c, t0, a, b, num),
        on_course(s, c, t0, y0, a, b, num),
        !next.y@[c].nan(),
        !next.t.nan(),
    ensures
        open_ended(progress) ==> on_course(next, c, t0, y0, a, b, num),
        on_parabola(y0, a, b, num(next.t) - t0, num(next.y@[c])),
{
    let (ended, h_next, min_step, e): (bool, Double, Double, Double) = choose|
        ended: bool,
        h_next: Double,
        min_step: Double,
        e: Double,
    | #[trigger]
        s.taken_with::<A, E>(event, x, next, progress, ended, h_next, min_step, e);
    let u = num(s.t) - t0;
    let q = straight(a + b * u, b);
    lemma_rising_on(func, c, t0, a, b, num(s.t), num);
    if ended {
        let which = active(s.g@, next.g@, s.settings.crossing, s.g@.len());
        let coefficients = choose|q: Seq<[Double; 4]>| #[trigger]
            s.met::<A, E>(event, x, which, q, next.t) && interpolated::<A>(
                next.t,
                s.t,
                x.h,
                s.y@,
                q,
                next.y@,
            );
        dense_output_integrates_cubics::<A, F>(
            func,
            s.t,
            s.y@,
            s.f@,
            x.h,
            x.y_new,
            x.k,
            coefficients,
            next.t,
            next.y@,
            c,
            q,
            num,
        );
        let v = num(next.t) - num(s.t);
        lemma_straight(a + b * u, b, v);
        lemma_parabola_goes_on(y0, a, b, u, v, num(s.y@[c]), num(next.y@[c]));
        assert(u + v == num(next.t) - t0);
    } else {
        assert(evaluates::<A>(along(s.y@, x.k, x.h, solution_weights(), c), x.y_new@[c]));
        lemma_along::<A>(s.y@, x.k, x.h, solution_weights(), c, x.y_new@[c], num);
        assert(!x.k[0]@[c].nan());
        steps_integrate_polynomials::<A, F>(
            func,
            s.t,
            s.y@,
            s.f@,
            x.h,
            x.y_new,
            x.k,
            c,
            q,
            num,
        );
        let (reach, past): (Double, Double) = choose|reach: Double, past: Double| #[trigger]
            aimed_at::<A>(s.settings, s.t, s.h_abs, reach, past, x.t_new, x.h);
        let (p0, p1): (Double, Double) = exact_difference_of::<A>(
            given(x.t_new),
            given(s.t),
            x.h,
            num,
        );
        let v = num(x.h);
        lemma_straight(a + b * u, b, v);
        lemma_parabola_goes_on(y0, a, b, u, v, num(s.y@[c]), num(next.y@[c]));
        assert(u + v == num(next.t) - t0);
        assert((a + b * u) + b * v == a + b * (u + v)) by (nonlinear_arith);
    }
}

/// Every state of a run records nothing but points of the solution, as far as what it records are
/// numbers; and is on course, unless the run ends with it.
#[verifier::spinoff_prover]
proof fn lemma_run_on_course<
    A: Arithmetic,
    F: Fn(Double, &Vec<Double>) -> Vec<Double>,
    E: Fn(usize, Double, &Vec<Double>) -> Double,
>(
    func: F,
    event: E,
    count: nat,
    t0: Double,
    y0: Seq<Double>,
    settings: Settings,
    states: Seq<Integration>,
    progress: Seq<Progress>,
    i: int,
    c: int,
    a: real,
    b: real,
    num: spec_fn(Double) -> real,
)
    requires
        exact_in::<A>(num),
        attempts::<A, F, E>(func, event, states, progress),
        states[0].begun::<A, F, E>(func, event, count, t0, y0, settings),
        0 <= i < states.len(),
        0 <= c < y0.len(),
        rising(func, c, num(t0), a, b, num),
        forall|j: int|
            0 <= j < states[i].ys@.len() ==> !(#[trigger] states[i].ys@[j])@[c].nan(),
        forall|j: int| 0 <= j < states[i].ts@.len() ==> !(#[trigger] states[i].ts@[j]).nan(),
    ensures
        forall|j: int|
            0 <= j < states[i].ys@.len() ==> on_parabola(
                num(y0[c]),
                a,
                b,
                num(states[i].ts@[j]) - num(t0),
                num((#[trigger] states[i].ys@[j])@[c]),
            ),
        i < states.len() - 1 ==> on_course(states[i], c, num(t0), num(y0[c]), a, b, num),
    decreases i,
{
    let s = states[i];
    lemma_records::<A, F, E>(func, event, count, t0, y0, settings, states, progress, i);
    if i == 0 {
        lemma_start(num(y0[c]), a, b, num(t0), num(t0));
    } else {
        let r = states[i - 1];
        let p = progress[i - 1];
        lemma_records::<A, F, E>(func, event, count, t0, y0, settings, states, progress, i - 1);
        assert(r.attempted::<A, F, E>(func, event, states[i - 1 + 1], p));
        lemma_recorded_before::<A, F, E>(func, event, r, s, p);
        assert forall|j: int| 0 <= j < r.ys@.len() implies !(#[trigger] r.ys@[j])@[c].nan() by {
            assert(s.ys@[j] == r.ys@[j]);
        }
        assert forall|j: int| 0 <= j < r.ts@.len() implies !(#[trigger] r.ts@[j]).nan() by {
            assert(s.ts@[j] == r.ts@[j]);
        }
        lemma_run_on_course::<A, F, E>(
            func,
            event,
            count,
            t0,
            y0,
            settings,
            states,
            progress,
            i - 1,
            c,
            a,
            b,
            num,
        );
        if r.h_abs.lt(r.min_step) {
            assert(s == r);
        } else {
            let (x, accurate): (Attempt, bool) = choose|x: Attempt, accurate: bool| #[trigger]
                r.attempted_with::<A, F, E>(func, event, x, accurate, s, p);
            if accurate {
                let n = r.ys@.len();
                assert(s.ys@[n as int] == s.ys@.last());
                assert(s.ts@[n as int] == s.t);
                lemma_step_on_course::<A, F, E>(
                    func,
                    event,
                    r,
                    x,
                    s,
                    p,
                    c,
                    num(t0),
                    num(y0[c]),
                    a,
                    b,
                    num,
                );
                assert forall|j: int| 0 <= j < s.ys@.len() implies on_parabola(
                    num(y0[c]),
                    a,
                    b,
                    num(s.ts@[j]) - num(t0),
                    num((#[trigger] s.ys@[j])@[c]),
                ) by {
                    if j < n {
                        assert(s.ys@[j] == r.ys@[j]);
                    }
                }
            }
        }
        if i < states.len() - 1 {
            assert(open_ended(progress[i - 1]));
        }
    }
}

proof fn lemma_start(y0: real, a: real, b: real, t0: real, t: real)
    requires
        t == t0,
    ensures
        on_parabola(y0, a, b, t - t0, y0),
        a + b * (t - t0) == a,
{
    assert(a * 0real == 0real) by (nonlinear_arith);
    assert(b * (0real * 0real) == 0real) by (nonlinear_arith);
    assert(b * 0real == 0real) by (nonlinear_arith);
}

/// An attempt keeps what has been recorded before it.
proof fn lemma_recorded_before<
    A: Arithmetic,
    F: Fn(Double, &Vec<Double>) -> Vec<Double>,
    E: Fn(usize, Double, &Vec<Double>) -> Double,
>(func: F, event: E, r: Integration, s: Integration, p: Progress)
    requires
        r.attempted::<A, F, E>(func, event, s, p),
        r.ts@.len() == r.ys@.len(),
    ensures
        r.ts@.len() <= s.ts@.len(),
        r.ys@.len() <= s.ys@.len(),
        forall|j: int| 0 <= j < r.ts@.len() ==> #[trigger] s.ts@[j] == r.ts@[j],
        forall|j: int| 0 <= j < r.ys@.len() ==> #[trigger] s.ys@[j] == r.ys@[j],
{
    if !r.h_abs.lt(r.min_step) {
        let (x, accurate): (Attempt, bool) = choose|x: Attempt, accurate: bool| #[trigger]
            r.attempted_with::<A, F, E>(func, event, x, accurate, s, p);
        if accurate {
            assert forall|j: int| 0 <= j < r.ys@.len() implies #[trigger] s.ys@[j] == r.ys@[j] by {
                assert(s.ys@.drop_last()[j] == s.ys@[j]);
            }
        }
    }
}

/// Where the derivative of a component is `a + b * u`, with `u` the time since the beginning, every
/// value that a solution records of the component is `y0 + a * u + b * u * u / 2` at the time that
/// it records with it, up to that of an event.
#[verifier::spinoff_prover]
pub proof fn solutions_follow_a_steady_rise<
    A: Arithmetic,
    F: Fn(Double, &Vec<Double>) -> Vec<Double>,
    E: Fn(usize, Double, &Vec<Double>) -> Double,
>(
    func: F,
    event: E,
    count: nat,
    t0: Double,
    y0: Seq<Double>,
    settings: Settings,
    limit: nat,
    r: OdeResult,
    c: int,
    a: real,
    b: real,
    num: spec_fn(Double) -> real,
)
    requires
        exact_in::<A>(num),
        solved::<A, F, E>(func, event, count, t0, y0, settings, limit, Ok(r)),
        0 <= c < y0.len(),
        rising(func, c, num(t0), a, b, num),
        forall|n: int| 0 <= n < r.t@.len() ==> !(#[trigger] r.t@[n]).nan(),
        forall|n: int| 0 <= n < r.y@[c]@.len() ==> !(#[trigger] r.y@[c]@[n]).nan(),
    ensures
        r.y@.len() == y0.len(),
        r.y@[c]@.len() == r.t@.len(),
        r.t@.len() > 1,
        r.t@[0] == t0,
        forall|n: int|
            0 <= n < r.t@.len() ==> {
                let u = num(r.t@[n]) - num(t0);
                2real * (num(#[trigger] r.y@[c]@[n]) - num(y0[c])) == 2real * (a * u) + b * (u * u)
            },
{
    let (states, progress): (Seq<Integration>, Seq<Progress>) = lemma_run::<A, F, E>(
        func,
        event,
        count,
        t0,
        y0,
        settings,
        limit,
        r,
    );
    let i = states.len() - 1;
    let s = states[i];
    lemma_records::<A, F, E>(func, event, count, t0, y0, settings, states, progress, i);
    assert(s.ys@[0]@ == y0);
    assert forall|j: int| 0 <= j < s.ys@.len() implies !(#[trigger] s.ys@[j])@[c].nan() by {
        assert(r.y@[c]@[j] == s.ys@[j]@[c]);
    }
    lemma_run_on_course::<A, F, E>(
        func,
        event,
        count,
        t0,
        y0,
        settings,
        states,
        progress,
        i,
        c,
        a,
        b,
        num,
    );
    assert forall|n: int| 0 <= n < r.t@.len() implies {
        let u = num(r.t@[n]) - num(t0);
        2real * (num(#[trigger] r.y@[c]@[n]) - num(y0[c])) == 2real * (a * u) + b * (u * u)
    } by {
        assert(r.y@[c]@[n] == s.ys@[n]@[c]);
    }
}

/// The derivative that the next step begins with is that at the state which the step before led to,
/// and at its time.
pub proof fn derivatives_are_those_of_the_state_reached<
    A: Arithmetic,
    F: Fn(Double, &Vec<Double>) -> Vec<Double>,
    E: Fn(usize, Double, &Vec<Double>) -> Double,
>(
    func: F,
    event: E,
    s: Integration,
    x: Attempt,
    next: Integration,
    num: spec_fn(Double) -> real,
) -> (at: (Double, Vec<Double>, Vec<Double>))
    requires
        exact_in::<A>(num),
        s.tried::<A, F>(func, x),
        s.taken::<A, E>(event, x, next, Progress::Advanced),
    ensures
        call_ensures(func, (at.0, &at.1), at.2),
        at.1@ == next.y@,
        at.2@ == next.f@,
        !at.0.nan() && !x.h.nan() ==> num(at.0) == num(next.t),
{
    let (ended, h_next, min_step, e): (bool, Double, Double, Double) = choose|
        ended: bool,
        h_next: Double,
        min_step: Double,
        e: Double,
    | #[trigger]
        s.taken_with::<A, E>(event, x, next, Progress::Advanced, ended, h_next, min_step, e);
    let t_new = choose|t_new: Double| #[trigger]
        call_ensures(func, (t_new, &x.y_new), x.k[6]) && evaluates::<A>(
            given(s.t).plus(given(x.h)),
            t_new,
        );
    if !t_new.nan() && !x.h.nan() {
        let (p, q): (Double, Double) = exact_sum_of::<A>(given(s.t), given(x.h), t_new, num);
        let (reach, past): (Double, Double) = choose|reach: Double, past: Double| #[trigger]
            aimed_at::<A>(s.settings, s.t, s.h_abs, reach, past, x.t_new, x.h);
        let (p0, p1): (Double, Double) = exact_difference_of::<A>(
            given(x.t_new),
            given(s.t),
            x.h,
            num,
        );
    }
    (t_new, x.y_new, x.k[6])
}

/// An integration that fails does so for one of two reasons: the step to attempt is shorter than the
/// least that makes sense; or as many attempts as allowed were made, and none of them ended it.
pub proof fn integrations_fail_for_cause<
    A: Arithmetic,
    F: Fn(Double, &Vec<Double>) -> Vec<Double>,
    E: Fn(usize, Double, &Vec<Double>) -> Double,
>(
    func: F,
    event: E,
    count: nat,
    t0: Double,
    y0: Seq<Double>,
    settings: Settings,
    limit: nat,
    error: IvpError,
) -> (run: (Seq<Integration>, Seq<Progress>))
    requires
        solved::<A, F, E>(func, event, count, t0, y0, settings, limit, Err(error)),
    ensures
        attempts::<A, F, E>(func, event, run.0, run.1),
        run.0.len() == run.1.len() + 1,
        run.0[0].t == t0,
        run.0[0].y@ == y0,
        error == IvpError::StepTooSmall ==> run.0.last().h_abs.lt(run.0.last().min_step),
        error == IvpError::Unfinished ==> run.1.len() == limit && forall|i: int|
            0 <= i < run.1.len() ==> #[trigger] run.1[i] != Progress::Finished,
{
    let res: Result<OdeResult, IvpError> = Err(error);
    let (states, progress): (Seq<Integration>, Seq<Progress>) = choose|
        states: Seq<Integration>,
        progress: Seq<Progress>,
    | #[trigger]
        solved_through::<A, F, E>(
            func,
            event,
            count,
            t0,
            y0,
            settings,
            limit,
            states,
            progress,
            res,
        );
    if error == IvpError::StepTooSmall {
        let n = progress.len();
        assert(states[n - 1].attempted::<A, F, E>(func, event, states[n - 1 + 1], progress[n - 1]));
        let r = states[n - 1];
        if !r.h_abs.lt(r.min_step) {
            let (x, accurate): (Attempt, bool) = choose|x: Attempt, accurate: bool| #[trigger]
                r.attempted_with::<A, F, E>(func, event, x, accurate, states[n as int],
                    progress[n - 1]);
        }
    }
    (states, progress)
}

} // verus!
