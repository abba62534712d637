//! Laws of integration: where solutions end, what events do, and what they leave alone.
//!
//! Where two integrations of one problem are compared, the operations and the derivative give the
//! same result for the same operands.
use crate::arithmetic::{
    deterministic, evaluates, finite_doubles_are_below_infinity, formulas_have_one_result, fraction,
    given, one, parts_of_difference, parts_of_product, zero, Arithmetic,
};
use crate::double::Double;
use crate::solvers::ivp::{
    active, aimed, aimed_at, at_least_step, attempts, direction_of, excess, first_met,
    lemma_records, next_after_rejected, next_after_taken, open_ended, reach_of, solved,
    solved_through, spacing, transposed, Attempt, Integration, OdeResult, Progress, Settings,
};
use crate::solvers::rk45::{
    advanced, along, below, column, error_in, errors, estimated, euler, first_guess, first_step,
    first_step_over, guessed, guessed_as, least_guess, mean_norm, probed, reached, refined,
    refined_as, scaled, scaled_norm, second_guess, solution_weights, span_of, stage_node,
    stage_weights, staged, stepped, up_to, FirstStep, Fraction,
};
use vstd::prelude::*;

verus! {

/// The derivative depends on the time and the state alone.
pub open spec fn pure_system<F: Fn(Double, &Vec<Double>) -> Vec<Double>>(func: F) -> bool {
    forall|t: Double, y: Vec<Double>, z: Vec<Double>, d: Vec<Double>, e: Vec<Double>| #[trigger]
        call_ensures(func, (t, &y), d) && #[trigger] call_ensures(func, (t, &z), e) && y@ == z@
            ==> d@ == e@
}

/// Two lists of stages hold the same, as far as the first `n`.
pub open spec fn same_stages(k: Seq<Vec<Double>>, l: Seq<Vec<Double>>, n: int) -> bool {
    forall|j: int| 0 <= j < n ==> (#[trigger] k[j])@ == l[j]@
}

proof fn lemma_below_once<A: Arithmetic>(d: Double, f: Fraction, p: bool, q: bool)
    requires
        deterministic::<A>(),
        below::<A>(d, f, p),
        below::<A>(d, f, q),
    ensures
        p == q,
{
    let x = choose|limit: Double|
        p == #[trigger] d.lt(limit) && evaluates::<A>(fraction(f.0, f.1), limit);
    let y = choose|limit: Double|
        q == #[trigger] d.lt(limit) && evaluates::<A>(fraction(f.0, f.1), limit);
    formulas_have_one_result::<A>(fraction(f.0, f.1), x, y);
}

proof fn lemma_up_to_once<A: Arithmetic>(d: Double, f: Fraction, p: bool, q: bool)
    requires
        deterministic::<A>(),
        up_to::<A>(d, f, p),
        up_to::<A>(d, f, q),
    ensures
        p == q,
{
    let x = choose|limit: Double|
        p == #[trigger] d.le(limit) && evaluates::<A>(fraction(f.0, f.1), limit);
    let y = choose|limit: Double|
        q == #[trigger] d.le(limit) && evaluates::<A>(fraction(f.0, f.1), limit);
    formulas_have_one_result::<A>(fraction(f.0, f.1), x, y);
}

/// A step along the same stages leads to the same state.
proof fn lemma_advanced_once<A: Arithmetic>(
    y: Seq<Double>,
    k: Seq<Vec<Double>>,
    l: Seq<Vec<Double>>,
    h: Double,
    w: Seq<Fraction>,
    m: Seq<Double>,
    n: Seq<Double>,
)
    requires
        deterministic::<A>(),
        same_stages(k, l, w.len() as int),
        advanced::<A>(y, k, h, w, m),
        advanced::<A>(y, l, h, w, n),
    ensures
        m == n,
{
    assert forall|i: int| 0 <= i < y.len() implies m[i] == n[i] by {
        assert(column(k, i, w.len()) =~= column(l, i, w.len()));
        formulas_have_one_result::<A>(along(y, k, h, w, i), m[i], n[i]);
    }
    assert(m =~= n);
}

/// The stages of a step are what they are.
proof fn lemma_stages_once<A: Arithmetic, F: Fn(Double, &Vec<Double>) -> Vec<Double>>(
    func: F,
    t: Double,
    y: Seq<Double>,
    h: Double,
    k: Seq<Vec<Double>>,
    l: Seq<Vec<Double>>,
    n: int,
)
    requires
        deterministic::<A>(),
        pure_system(func),
        1 <= n <= 6,
        k[0]@ == l[0]@,
        forall|s: int| 1 <= s <= 5 ==> #[trigger] staged::<A, F>(func, t, y, h, k, s),
        forall|s: int| 1 <= s <= 5 ==> #[trigger] staged::<A, F>(func, t, y, h, l, s),
    ensures
        same_stages(k, l, n),
    decreases n,
{
    if n > 1 {
        let s = n - 1;
        lemma_stages_once::<A, F>(func, t, y, h, k, l, s);
        assert(staged::<A, F>(func, t, y, h, k, s));
        assert(staged::<A, F>(func, t, y, h, l, s));
        let node = given(t).plus(fraction(stage_node(s).0, stage_node(s).1).times(given(h)));
        let (a, ya): (Double, Vec<Double>) = choose|ts: Double, ys: Vec<Double>| #[trigger]
            call_ensures(func, (ts, &ys), k[s]) && reached::<A>(t, y, h, k, s, ts, ys@);
        let (b, yb): (Double, Vec<Double>) = choose|ts: Double, ys: Vec<Double>| #[trigger]
            call_ensures(func, (ts, &ys), l[s]) && reached::<A>(t, y, h, l, s, ts, ys@);
        formulas_have_one_result::<A>(node, a, b);
        assert(stage_weights(s).len() == s);
        lemma_advanced_once::<A>(y, k, l, h, stage_weights(s), ya@, yb@);
        assert(k[s]@ == l[s]@);
    }
}

/// A step has one end.
proof fn lemma_stepped_once<A: Arithmetic, F: Fn(Double, &Vec<Double>) -> Vec<Double>>(
    func: F,
    t: Double,
    y: Seq<Double>,
    f: Seq<Double>,
    h: Double,
    y1: Vec<Double>,
    k: Seq<Vec<Double>>,
    y2: Vec<Double>,
    l: Seq<Vec<Double>>,
)
    requires
        deterministic::<A>(),
        pure_system(func),
        stepped::<A, F>(func, t, y, f, h, y1, k),
        stepped::<A, F>(func, t, y, f, h, y2, l),
    ensures
        y1@ == y2@,
        same_stages(k, l, 7),
{
    lemma_stages_once::<A, F>(func, t, y, h, k, l, 6);
    lemma_advanced_once::<A>(y, k, l, h, solution_weights(), y1@, y2@);
    let a = choose|t_new: Double| #[trigger]
        call_ensures(func, (t_new, &y1), k[6]) && evaluates::<A>(given(t).plus(given(h)), t_new);
    let b = choose|t_new: Double| #[trigger]
        call_ensures(func, (t_new, &y2), l[6]) && evaluates::<A>(given(t).plus(given(h)), t_new);
    formulas_have_one_result::<A>(given(t).plus(given(h)), a, b);
    assert(k[6]@ == l[6]@);
}

/// A step has one error estimate.
proof fn lemma_estimated_once<A: Arithmetic>(
    y: Seq<Double>,
    y_new: Seq<Double>,
    k: Seq<Vec<Double>>,
    l: Seq<Vec<Double>>,
    h: Double,
    rtol: Double,
    atol: Double,
    p: Double,
    q: Double,
)
    requires
        deterministic::<A>(),
        same_stages(k, l, 7),
        estimated::<A>(y, y_new, k, h, rtol, atol, p),
        estimated::<A>(y, y_new, l, h, rtol, atol, q),
    ensures
        p == q,
{
    let a = choose|err: Seq<Double>| #[trigger]
        errors::<A>(y, y_new, k, h, rtol, atol, err) && evaluates::<A>(mean_norm(err), p);
    let b = choose|err: Seq<Double>| #[trigger]
        errors::<A>(y, y_new, l, h, rtol, atol, err) && evaluates::<A>(mean_norm(err), q);
    assert forall|i: int| 0 <= i < y.len() implies a[i] == b[i] by {
        assert(column(k, i, 7) =~= column(l, i, 7));
        formulas_have_one_result::<A>(error_in(y, y_new, k, h, rtol, atol, i), a[i], b[i]);
    }
    assert(a =~= b);
    formulas_have_one_result::<A>(mean_norm(a), p, q);
}

/// A step leads to one place.
proof fn lemma_aimed_once<A: Arithmetic>(
    s: Settings,
    r: Settings,
    t: Double,
    h_abs: Double,
    t1: Double,
    h1: Double,
    t2: Double,
    h2: Double,
)
    requires
        deterministic::<A>(),
        s.tf == r.tf,
        s.direction == r.direction,
        aimed::<A>(s, t, h_abs, t1, h1),
        aimed::<A>(r, t, h_abs, t2, h2),
    ensures
        t1 == t2,
        h1 == h2,
{
    let (a, e): (Double, Double) = choose|reach: Double, e: Double| #[trigger]
        aimed_at::<A>(s, t, h_abs, reach, e, t1, h1);
    let (b, f): (Double, Double) = choose|reach: Double, e: Double| #[trigger]
        aimed_at::<A>(r, t, h_abs, reach, e, t2, h2);
    formulas_have_one_result::<A>(reach_of(s, t, h_abs), a, b);
    formulas_have_one_result::<A>(excess(s, a), e, f);
    formulas_have_one_result::<A>(given(t1).minus(given(t)), h1, h2);
}

proof fn lemma_norm_once<A: Arithmetic>(
    a: Seq<Double>,
    scales: Seq<Double>,
    p: Double,
    q: Double,
)
    requires
        deterministic::<A>(),
        scaled_norm::<A>(a, scales, p),
        scaled_norm::<A>(a, scales, q),
    ensures
        p == q,
{
    let v = choose|v: Seq<Double>| #[trigger]
        scaled::<A>(a, scales, v) && evaluates::<A>(mean_norm(v), p);
    let w = choose|v: Seq<Double>| #[trigger]
        scaled::<A>(a, scales, v) && evaluates::<A>(mean_norm(v), q);
    assert forall|i: int| 0 <= i < scales.len() implies v[i] == w[i] by {
        formulas_have_one_result::<A>(given(a[i]).over(given(scales[i])), v[i], w[i]);
    }
    assert(v =~= w);
    formulas_have_one_result::<A>(mean_norm(v), p, q);
}

proof fn lemma_guessed_once<A: Arithmetic>(v: FirstStep, w: FirstStep, interval: Double)
    requires
        deterministic::<A>(),
        v.d0 == w.d0,
        v.d1 == w.d1,
        guessed::<A>(v, interval),
        guessed::<A>(w, interval),
    ensures
        v.h0 == w.h0,
{
    let (a0, a1): (bool, bool) = choose|tiny0: bool, tiny1: bool| #[trigger]
        guessed_as::<A>(v, interval, tiny0, tiny1);
    let (b0, b1): (bool, bool) = choose|tiny0: bool, tiny1: bool| #[trigger]
        guessed_as::<A>(w, interval, tiny0, tiny1);
    lemma_below_once::<A>(v.d0, (1, 100_000), a0, b0);
    lemma_below_once::<A>(v.d1, (1, 100_000), a1, b1);
    formulas_have_one_result::<A>(first_guess(v.d0, v.d1, interval, a0 || a1), v.h0, w.h0);
}

proof fn lemma_refined_once<A: Arithmetic>(v: FirstStep, w: FirstStep)
    requires
        deterministic::<A>(),
        v.d1 == w.d1,
        v.d2 == w.d2,
        v.h0 == w.h0,
        refined::<A>(v),
        refined::<A>(w),
    ensures
        v.h1 == w.h1,
{
    let (a1, a2): (bool, bool) = choose|flat1: bool, flat2: bool| #[trigger]
        refined_as::<A>(v, flat1, flat2);
    let (b1, b2): (bool, bool) = choose|flat1: bool, flat2: bool| #[trigger]
        refined_as::<A>(w, flat1, flat2);
    lemma_up_to_once::<A>(v.d1, (1, 1_000_000_000_000_000), a1, b1);
    lemma_up_to_once::<A>(v.d2, (1, 1_000_000_000_000_000), a2, b2);
    formulas_have_one_result::<A>(second_guess(v.d1, v.d2, v.h0, a1 && a2), v.h1, w.h1);
}

/// The choice of the first step goes by one set of figures.
proof fn lemma_probed_once<A: Arithmetic, F: Fn(Double, &Vec<Double>) -> Vec<Double>>(
    func: F,
    t0: Double,
    y0: Seq<Double>,
    f0: Seq<Double>,
    direction: Double,
    rtol: Double,
    atol: Double,
    interval: Double,
    v: FirstStep,
    w: FirstStep,
)
    requires
        deterministic::<A>(),
        pure_system(func),
        probed::<A, F>(func, t0, y0, f0, direction, rtol, atol, interval, v),
        probed::<A, F>(func, t0, y0, f0, direction, rtol, atol, interval, w),
    ensures
        v.h0 == w.h0,
        v.h1 == w.h1,
{
    assert forall|i: int| 0 <= i < y0.len() implies v.scales[i] == w.scales[i] by {
        formulas_have_one_result::<A>(
            given(atol).plus(given(y0[i]).size().times(given(rtol))),
            v.scales[i],
            w.scales[i],
        );
    }
    assert(v.scales =~= w.scales);
    lemma_norm_once::<A>(y0, v.scales, v.d0, w.d0);
    lemma_norm_once::<A>(f0, v.scales, v.d1, w.d1);
    lemma_guessed_once::<A>(v, w, interval);
    assert forall|i: int| 0 <= i < y0.len() implies v.y1@[i] == w.y1@[i] by {
        formulas_have_one_result::<A>(
            euler(y0[i], f0[i], v.h0, direction),
            v.y1@[i],
            w.y1@[i],
        );
    }
    assert(v.y1@ =~= w.y1@);
    formulas_have_one_result::<A>(
        given(t0).plus(given(v.h0).times(given(direction))),
        v.t1,
        w.t1,
    );
    assert(v.f1@ == w.f1@);
    assert forall|i: int| 0 <= i < y0.len() implies v.change[i] == w.change[i] by {
        formulas_have_one_result::<A>(
            given(v.f1@[i]).minus(given(f0[i])),
            v.change[i],
            w.change[i],
        );
    }
    assert(v.change =~= w.change);
    let p = choose|norm: Double| #[trigger]
        scaled_norm::<A>(v.change, v.scales, norm) && evaluates::<A>(
            given(norm).over(given(v.h0)),
            v.d2,
        );
    let q = choose|norm: Double| #[trigger]
        scaled_norm::<A>(w.change, w.scales, norm) && evaluates::<A>(
            given(norm).over(given(w.h0)),
            w.d2,
        );
    lemma_norm_once::<A>(v.change, v.scales, p, q);
    formulas_have_one_result::<A>(given(p).over(given(v.h0)), v.d2, w.d2);
    lemma_refined_once::<A>(v, w);
}

/// There is one first step.
proof fn lemma_first_step_once<A: Arithmetic, F: Fn(Double, &Vec<Double>) -> Vec<Double>>(
    func: F,
    t0: Double,
    y0: Seq<Double>,
    t_bound: Double,
    f0: Seq<Double>,
    direction: Double,
    rtol: Double,
    atol: Double,
    h: Double,
    g: Double,
)
    requires
        deterministic::<A>(),
        pure_system(func),
        first_step::<A, F>(func, t0, y0, t_bound, f0, direction, rtol, atol, h),
        first_step::<A, F>(func, t0, y0, t_bound, f0, direction, rtol, atol, g),
    ensures
        h == g,
{
    if y0.len() > 0 {
        let a = choose|interval: Double| #[trigger]
            evaluates::<A>(span_of(t0, t_bound), interval) && first_step_over::<A, F>(
                func,
                t0,
                y0,
                f0,
                direction,
                rtol,
                atol,
                interval,
                h,
            );
        let b = choose|interval: Double| #[trigger]
            evaluates::<A>(span_of(t0, t_bound), interval) && first_step_over::<A, F>(
                func,
                t0,
                y0,
                f0,
                direction,
                rtol,
                atol,
                interval,
                g,
            );
        formulas_have_one_result::<A>(span_of(t0, t_bound), a, b);
        if !a.same(zero()) {
            let v = choose|w: FirstStep| #[trigger]
                probed::<A, F>(func, t0, y0, f0, direction, rtol, atol, a, w) && evaluates::<A>(
                    least_guess(w, a),
                    h,
                );
            let u = choose|w: FirstStep| #[trigger]
                probed::<A, F>(func, t0, y0, f0, direction, rtol, atol, a, w) && evaluates::<A>(
                    least_guess(w, a),
                    g,
                );
            lemma_probed_once::<A, F>(func, t0, y0, f0, direction, rtol, atol, a, v, u);
            formulas_have_one_result::<A>(least_guess(v, a), h, g);
        }
    }
}

/// Two lists of states hold the same.
pub open spec fn same_rows(a: Seq<Vec<Double>>, b: Seq<Vec<Double>>) -> bool {
    a.len() == b.len() && same_stages(a, b, a.len() as int)
}

/// Two settings that agree on all but the crossings that count.
pub open spec fn same_problem(a: Settings, b: Settings) -> bool {
    &&& a.rtol == b.rtol
    &&& a.atol == b.atol
    &&& a.tf == b.tf
    &&& a.direction == b.direction
}

/// Two integrations that agree on all that does not concern events.
pub open spec fn alike(a: Integration, b: Integration) -> bool {
    &&& same_problem(a.settings, b.settings)
    &&& a.t == b.t
    &&& a.y@ == b.y@
    &&& a.f@ == b.f@
    &&& a.h_abs == b.h_abs
    &&& a.min_step == b.min_step
    &&& a.rejected == b.rejected
    &&& a.ts@ == b.ts@
    &&& same_rows(a.ys@, b.ys@)
}

/// Integrations of one problem begin alike.
proof fn lemma_begun_alike<
    A: Arithmetic,
    F: Fn(Double, &Vec<Double>) -> Vec<Double>,
    D: Fn(usize, Double, &Vec<Double>) -> Double,
    E: Fn(usize, Double, &Vec<Double>) -> Double,
>(
    func: F,
    plain: D,
    event: E,
    m: nat,
    n: nat,
    t0: Double,
    y0: Seq<Double>,
    s: Settings,
    r: Settings,
    a: Integration,
    b: Integration,
)
    requires
        deterministic::<A>(),
        pure_system(func),
        same_problem(s, r),
        a.begun::<A, F, D>(func, plain, m, t0, y0, s),
        b.begun::<A, F, E>(func, event, n, t0, y0, r),
    ensures
        alike(a, b),
{
    assert(a.f@ == b.f@);
    let h = choose|h: Double| #[trigger]
        first_step::<A, F>(func, t0, y0, s.tf, a.f@, s.direction, s.rtol, s.atol, h) && a.h_abs
            == at_least_step(h, a.min_step);
    let g = choose|h: Double| #[trigger]
        first_step::<A, F>(func, t0, y0, r.tf, b.f@, r.direction, r.rtol, r.atol, h) && b.h_abs
            == at_least_step(h, b.min_step);
    lemma_first_step_once::<A, F>(
        func,
        t0,
        y0,
        s.tf,
        a.f@,
        s.direction,
        s.rtol,
        s.atol,
        h,
        g,
    );
    formulas_have_one_result::<A>(spacing(t0, s.direction), a.min_step, b.min_step);
}

/// What a step that is taken records, and how it leaves the integration, where no event ends it.
proof fn lemma_taken_alike<
    A: Arithmetic,
    D: Fn(usize, Double, &Vec<Double>) -> Double,
    E: Fn(usize, Double, &Vec<Double>) -> Double,
>(
    plain: D,
    event: E,
    a: Integration,
    b: Integration,
    x: Attempt,
    z: Attempt,
    a_next: Integration,
    b_next: Integration,
    p: Progress,
    q: Progress,
)
    requires
        deterministic::<A>(),
        alike(a, b),
        a.g@.len() == 0,
        x.t_new == z.t_new,
        x.h == z.h,
        x.y_new@ == z.y_new@,
        x.k[6]@ == z.k[6]@,
        x.norm == z.norm,
        a.taken::<A, D>(plain, x, a_next, p),
        b.taken::<A, E>(event, z, b_next, q),
        b.t_event is None,
    ensures
        a_next.g@.len() == 0,
        p == Progress::Advanced || p == Progress::Finished,
        a_next.ts@.len() == a.ts@.len() + 1,
        b_next.ts@ == b.ts@.push(b_next.t),
        b_next.ys@.len() == b.ys@.len() + 1,
        b_next.ys@.drop_last() == b.ys@,
        b_next.t_event is Some ==> q == Progress::Finished,
        b_next.t_event is None ==> alike(a_next, b_next) && p == q,
{
    let (ea, ha, ma, ca): (bool, Double, Double, Double) = choose|
        ended: bool,
        h_next: Double,
        min_step: Double,
        e: Double,
    | #[trigger]
        a.taken_with::<A, D>(plain, x, a_next, p, ended, h_next, min_step, e);
    let (eb, hb, mb, cb): (bool, Double, Double, Double) = choose|
        ended: bool,
        h_next: Double,
        min_step: Double,
        e: Double,
    | #[trigger]
        b.taken_with::<A, E>(event, z, b_next, q, ended, h_next, min_step, e);
    assert(!ea);
    if b_next.t_event is None {
        assert(!eb);
        formulas_have_one_result::<A>(next_after_taken(x.h, x.norm, a.rejected), ha, hb);
        formulas_have_one_result::<A>(excess(a.settings, x.t_new), ca, cb);
        formulas_have_one_result::<A>(spacing(a_next.t, a.settings.direction), ma, mb);
        assert forall|j: int| 0 <= j < a_next.ys@.len() implies (#[trigger] a_next.ys@[j])@
            == b_next.ys@[j]@ by {
            if j < a.ys@.len() {
                assert(a_next.ys@.drop_last()[j] == a.ys@[j]);
                assert(b_next.ys@.drop_last()[j] == b.ys@[j]);
                assert(a.ys@[j]@ == b.ys@[j]@);
            } else {
                assert(a_next.ys@.last() == a_next.ys@[j]);
                assert(b_next.ys@.last() == b_next.ys@[j]);
            }
        }
    }
}

/// Attempts by integrations that are alike lead to integrations that are alike, unless an event
/// ends the one that looks for events.
proof fn lemma_attempt_alike<
    A: Arithmetic,
    F: Fn(Double, &Vec<Double>) -> Vec<Double>,
    D: Fn(usize, Double, &Vec<Double>) -> Double,
    E: Fn(usize, Double, &Vec<Double>) -> Double,
>(
    func: F,
    plain: D,
    event: E,
    a: Integration,
    b: Integration,
    a_next: Integration,
    b_next: Integration,
    p: Progress,
    q: Progress,
)
    requires
        deterministic::<A>(),
        pure_system(func),
        alike(a, b),
        a.g@.len() == 0,
        b.t_event is None,
        a.attempted::<A, F, D>(func, plain, a_next, p),
        b.attempted::<A, F, E>(func, event, b_next, q),
    ensures
        a_next.g@.len() == 0,
        b_next.t_event is Some ==> {
            &&& q == Progress::Finished
            &&& p == Progress::Advanced || p == Progress::Finished
            &&& a_next.ts@.len() == a.ts@.len() + 1
            &&& b_next.ts@ == b.ts@.push(b_next.t)
            &&& b_next.ys@.len() == b.ys@.len() + 1
            &&& b_next.ys@.drop_last() == b.ys@
        },
        b_next.t_event is None ==> alike(a_next, b_next) && p == q,
{
    if !a.h_abs.lt(a.min_step) {
        let (x, i): (Attempt, bool) = choose|x: Attempt, accurate: bool| #[trigger]
            a.attempted_with::<A, F, D>(func, plain, x, accurate, a_next, p);
        let (z, j): (Attempt, bool) = choose|x: Attempt, accurate: bool| #[trigger]
            b.attempted_with::<A, F, E>(func, event, x, accurate, b_next, q);
        lemma_aimed_once::<A>(a.settings, b.settings, a.t, a.h_abs, x.t_new, x.h, z.t_new, z.h);
        lemma_stepped_once::<A, F>(func, a.t, a.y@, a.f@, x.h, x.y_new, x.k, z.y_new, z.k);
        lemma_estimated_once::<A>(
            a.y@,
            x.y_new@,
            x.k,
            z.k,
            x.h,
            a.settings.rtol,
            a.settings.atol,
            x.norm,
            z.norm,
        );
        lemma_below_once::<A>(x.norm, (1, 1), i, j);
        if i {
            assert(x.k[6]@ == z.k[6]@);
            lemma_taken_alike::<A, D, E>(plain, event, a, b, x, z, a_next, b_next, p, q);
        } else {
            formulas_have_one_result::<A>(
                next_after_rejected(x.h, x.norm),
                a_next.h_abs,
                b_next.h_abs,
            );
        }
    }
}

/// Two integrations of one problem stay alike, until an event ends the one that looks for events.
proof fn lemma_run_alike<
    A: Arithmetic,
    F: Fn(Double, &Vec<Double>) -> Vec<Double>,
    D: Fn(usize, Double, &Vec<Double>) -> Double,
    E: Fn(usize, Double, &Vec<Double>) -> Double,
>(
    func: F,
    plain: D,
    event: E,
    count: nat,
    t0: Double,
    y0: Seq<Double>,
    s: Settings,
    r: Settings,
    xs: Seq<Integration>,
    ps: Seq<Progress>,
    zs: Seq<Integration>,
    qs: Seq<Progress>,
    i: int,
)
    requires
        deterministic::<A>(),
        pure_system(func),
        same_problem(s, r),
        attempts::<A, F, D>(func, plain, xs, ps),
        xs[0].begun::<A, F, D>(func, plain, 0, t0, y0, s),
        attempts::<A, F, E>(func, event, zs, qs),
        zs[0].begun::<A, F, E>(func, event, count, t0, y0, r),
        0 <= i < qs.len(),
        ps.len() > 0,
        ps.last() == Progress::Finished,
    ensures
        i < ps.len(),
        alike(xs[i], zs[i]),
        xs[i].g@.len() == 0,
        zs[i].t_event is None,
    decreases i,
{
    if i == 0 {
        lemma_begun_alike::<A, F, D, E>(
            func,
            plain,
            event,
            0,
            count,
            t0,
            y0,
            s,
            r,
            xs[0],
            zs[0],
        );
    } else {
        let j = i - 1;
        lemma_run_alike::<A, F, D, E>(
            func,
            plain,
            event,
            count,
            t0,
            y0,
            s,
            r,
            xs,
            ps,
            zs,
            qs,
            j,
        );
        lemma_records::<A, F, E>(func, event, count, t0, y0, r, zs, qs, i);
        assert(xs[j].attempted::<A, F, D>(func, plain, xs[j + 1], ps[j]));
        assert(zs[j].attempted::<A, F, E>(func, event, zs[j + 1], qs[j]));
        lemma_attempt_alike::<A, F, D, E>(
            func,
            plain,
            event,
            xs[j],
            zs[j],
            xs[i],
            zs[i],
            ps[j],
            qs[j],
        );
        assert(open_ended(qs[j]));
        if i == ps.len() {
            assert(ps.last() == ps[j]);
        }
    }
}

/// All that `a` has recorded, `b` has recorded too.
pub open spec fn recorded_in(a: Integration, b: Integration) -> bool {
    &&& a.ts@.len() <= b.ts@.len()
    &&& a.ys@.len() <= b.ys@.len()
    &&& forall|n: int| 0 <= n < a.ts@.len() ==> (#[trigger] a.ts@[n]) == b.ts@[n]
    &&& forall|n: int| 0 <= n < a.ys@.len() ==> (#[trigger] a.ys@[n]) == b.ys@[n]
}

/// What an integration has recorded, it keeps.
proof fn lemma_record_kept<
    A: Arithmetic,
    F: Fn(Double, &Vec<Double>) -> Vec<Double>,
    E: Fn(usize, Double, &Vec<Double>) -> Double,
>(func: F, event: E, xs: Seq<Integration>, ps: Seq<Progress>, i: int, j: int)
    requires
        attempts::<A, F, E>(func, event, xs, ps),
        0 <= i <= j < xs.len(),
    ensures
        recorded_in(xs[i], xs[j]),
    decreases j,
{
    if i < j {
        let l = j - 1;
        lemma_record_kept::<A, F, E>(func, event, xs, ps, i, l);
        assert(xs[l].attempted::<A, F, E>(func, event, xs[l + 1], ps[l]));
        let a = xs[l];
        let b = xs[j];
        assert(recorded_in(a, b)) by {
            if b.ys@ != a.ys@ {
                assert forall|n: int| 0 <= n < a.ys@.len() implies (#[trigger] a.ys@[n])
                    == b.ys@[n] by {
                    assert(b.ys@.drop_last()[n] == b.ys@[n]);
                }
            }
        }
        assert forall|n: int| 0 <= n < xs[i].ts@.len() implies (#[trigger] xs[i].ts@[n])
            == b.ts@[n] by {
            assert(a.ts@[n] == b.ts@[n]);
        }
        assert forall|n: int| 0 <= n < xs[i].ys@.len() implies (#[trigger] xs[i].ys@[n])
            == b.ys@[n] by {
            assert(a.ys@[n] == b.ys@[n]);
        }
    }
}

/// Two solutions agree in their first `n` times, and in their values there.
pub open spec fn agree(a: OdeResult, b: OdeResult, n: int) -> bool {
    &&& n <= a.t@.len()
    &&& n <= b.t@.len()
    &&& a.y@.len() == b.y@.len()
    &&& forall|i: int| 0 <= i < n ==> (#[trigger] a.t@[i]) == b.t@[i]
    &&& forall|c: int, i: int|
        0 <= c < a.y@.len() && 0 <= i < n ==> (#[trigger] a.y@[c]@[i]) == b.y@[c]@[i]
}

/// A solution comes of a run.
pub(crate) proof fn lemma_run<
    A: Arithmetic,
    F: Fn(Double, &Vec<Double>) -> Vec<Double>,
    E: Fn(usize, Double, &Vec<Double>) -> Double,
>(
    func: F,
    event: E,
    count: nat,
    t0: Double,
    y0: Seq<Double>,
    s: Settings,
    limit: nat,
    r: OdeResult,
) -> (run: (Seq<Integration>, Seq<Progress>))
    requires
        solved::<A, F, E>(func, event, count, t0, y0, s, limit, Ok(r)),
    ensures
        solved_through::<A, F, E>(
            func,
            event,
            count,
            t0,
            y0,
            s,
            limit,
            run.0,
            run.1,
            Ok(r),
        ),
{
    choose|states: Seq<Integration>, progress: Seq<Progress>| #[trigger]
        solved_through::<A, F, E>(
            func,
            event,
            count,
            t0,
            y0,
            s,
            limit,
            states,
            progress,
            Ok(r),
        )
}

/// Solutions whose records agree in the first `n` times agree there.
proof fn lemma_agree(
    a: OdeResult,
    b: OdeResult,
    ta: Seq<Double>,
    tb: Seq<Double>,
    ya: Seq<Vec<Double>>,
    yb: Seq<Vec<Double>>,
    w: nat,
    n: int,
)
    requires
        a.t@ == ta,
        b.t@ == tb,
        transposed(ya, a.y@),
        transposed(yb, b.y@),
        0 < ya.len() == ta.len(),
        0 < yb.len() == tb.len(),
        forall|i: int| 0 <= i < ya.len() ==> (#[trigger] ya[i])@.len() == w,
        forall|i: int| 0 <= i < yb.len() ==> (#[trigger] yb[i])@.len() == w,
        n <= ta.len(),
        n <= tb.len(),
        forall|i: int| 0 <= i < n ==> (#[trigger] ta[i]) == tb[i],
        forall|i: int| 0 <= i < n ==> (#[trigger] ya[i])@ == yb[i]@,
    ensures
        agree(a, b, n),
{
    assert(ya[0]@.len() == w);
    assert(yb[0]@.len() == w);
    assert forall|c: int, i: int| 0 <= c < a.y@.len() && 0 <= i < n implies (
    #[trigger] a.y@[c]@[i]) == b.y@[c]@[i] by {
        assert(a.y@[c]@[i] == ya[i]@[c]);
        assert(b.y@[c]@[i] == yb[i]@[c]);
        assert(ya[i]@ == yb[i]@);
    }
}

/// Events leave the steps alone. A solution with events that none of them ended is the solution
/// without events. One that an event ended agrees with the solution without events in all but its
/// last time, which is that of the event; and the solution without events goes on at least as far.
pub proof fn events_leave_the_steps_alone<
    A: Arithmetic,
    F: Fn(Double, &Vec<Double>) -> Vec<Double>,
    D: Fn(usize, Double, &Vec<Double>) -> Double,
    E: Fn(usize, Double, &Vec<Double>) -> Double,
>(
    func: F,
    plain: D,
    event: E,
    count: nat,
    t0: Double,
    y0: Seq<Double>,
    s: Settings,
    r: Settings,
    limits: (nat, nat),
    without: OdeResult,
    with: OdeResult,
)
    requires
        deterministic::<A>(),
        pure_system(func),
        same_problem(s, r),
        solved::<A, F, D>(func, plain, 0, t0, y0, s, limits.0, Ok(without)),
        solved::<A, F, E>(func, event, count, t0, y0, r, limits.1, Ok(with)),
    ensures
        with.t@.len() <= without.t@.len(),
        with.t_event is None ==> with.t@.len() == without.t@.len() && agree(
            with,
            without,
            with.t@.len() as int,
        ),
        with.t_event is Some ==> agree(with, without, with.t@.len() - 1),
{
    let (xs, ps): (Seq<Integration>, Seq<Progress>) = lemma_run::<A, F, D>(
        func,
        plain,
        0,
        t0,
        y0,
        s,
        limits.0,
        without,
    );
    let (zs, qs): (Seq<Integration>, Seq<Progress>) = lemma_run::<A, F, E>(
        func,
        event,
        count,
        t0,
        y0,
        r,
        limits.1,
        with,
    );
    let i = qs.len() - 1;
    lemma_run_alike::<A, F, D, E>(
        func,
        plain,
        event,
        count,
        t0,
        y0,
        s,
        r,
        xs,
        ps,
        zs,
        qs,
        i,
    );
    assert(xs[i].attempted::<A, F, D>(func, plain, xs[i + 1], ps[i]));
    assert(zs[i].attempted::<A, F, E>(func, event, zs[i + 1], qs[i]));
    lemma_attempt_alike::<A, F, D, E>(
        func,
        plain,
        event,
        xs[i],
        zs[i],
        xs[i + 1],
        zs[i + 1],
        ps[i],
        qs[i],
    );
    let last = xs.len() - 1;
    lemma_records::<A, F, D>(func, plain, 0, t0, y0, s, xs, ps, last);
    lemma_records::<A, F, E>(func, event, count, t0, y0, r, zs, qs, i + 1);
    lemma_records::<A, F, E>(func, event, count, t0, y0, r, zs, qs, i);
    lemma_record_kept::<A, F, D>(func, plain, xs, ps, i, last);
    lemma_record_kept::<A, F, D>(func, plain, xs, ps, i + 1, last);
    let x = xs[last];
    let z = zs[i + 1];
    if with.t_event is None {
        if i < ps.len() - 1 {
            assert(open_ended(ps[i]));
        }
        assert(last == i + 1);
        lemma_agree(with, without, z.ts@, x.ts@, z.ys@, x.ys@, y0.len(), z.ts@.len() as int);
    } else {
        let n = z.ts@.len() - 1;
        assert forall|j: int| 0 <= j < n implies (#[trigger] z.ts@[j]) == x.ts@[j] by {
            assert(z.ts@[j] == zs[i].ts@[j]);
            assert(xs[i].ts@[j] == x.ts@[j]);
        }
        assert forall|j: int| 0 <= j < n implies (#[trigger] z.ys@[j])@ == x.ys@[j]@ by {
            assert(z.ys@.drop_last()[j] == zs[i].ys@[j]);
            assert(xs[i].ys@[j]@ == zs[i].ys@[j]@);
            assert(xs[i].ys@[j] == x.ys@[j]);
        }
        lemma_agree(with, without, z.ts@, x.ts@, z.ys@, x.ys@, y0.len(), n);
    }
}

/// A step that is taken meets an event, and then ends the run, exactly when one of the events
/// crosses zero in it the way that counts. All events are looked at, in every step.
pub proof fn crossings_end_the_run<
    A: Arithmetic,
    F: Fn(Double, &Vec<Double>) -> Vec<Double>,
    E: Fn(usize, Double, &Vec<Double>) -> Double,
>(
    func: F,
    event: E,
    count: nat,
    t0: Double,
    y0: Seq<Double>,
    s: Settings,
    states: Seq<Integration>,
    progress: Seq<Progress>,
    i: int,
)
    requires
        attempts::<A, F, E>(func, event, states, progress),
        states[0].begun::<A, F, E>(func, event, count, t0, y0, s),
        0 <= i < progress.len(),
    ensures
        states[i].settings == s,
        states[i].g@.len() == count,
        states[i + 1].g@.len() == count,
        progress[i] == Progress::Advanced || progress[i] == Progress::Finished ==> {
            let crossed = active(states[i].g@, states[i + 1].g@, s.crossing, count).len() > 0;
            &&& crossed == states[i + 1].t_event is Some
            &&& crossed ==> progress[i] == Progress::Finished && i == progress.len() - 1
        },
    decreases i,
{
    if i > 0 {
        crossings_end_the_run::<A, F, E>(
            func,
            event,
            count,
            t0,
            y0,
            s,
            states,
            progress,
            i - 1,
        );
        assert(states[i - 1].attempted::<A, F, E>(func, event, states[i], progress[i - 1]));
    }
    assert(states[i].attempted::<A, F, E>(func, event, states[i + 1], progress[i]));
    lemma_records::<A, F, E>(func, event, count, t0, y0, s, states, progress, i);
    if i < progress.len() - 1 {
        assert(open_ended(progress[i]));
    }
}

/// Without events, no solution is ended by one.
pub proof fn no_events_end_nothing<
    A: Arithmetic,
    F: Fn(Double, &Vec<Double>) -> Vec<Double>,
    E: Fn(usize, Double, &Vec<Double>) -> Double,
>(
    func: F,
    event: E,
    t0: Double,
    y0: Seq<Double>,
    s: Settings,
    limit: nat,
    r: OdeResult,
)
    requires
        solved::<A, F, E>(func, event, 0, t0, y0, s, limit, Ok(r)),
    ensures
        r.t_event is None,
{
    let (states, progress): (Seq<Integration>, Seq<Progress>) = lemma_run::<A, F, E>(
        func,
        event,
        0,
        t0,
        y0,
        s,
        limit,
        r,
    );
    let i = progress.len() - 1;
    crossings_end_the_run::<A, F, E>(func, event, 0, t0, y0, s, states, progress, i);
    assert(active(states[i].g@, states[i + 1].g@, s.crossing, 0).len() == 0);
}

/// A difference that comes to nothing is one of equal numbers, and a product with one or minus one
/// comes to nothing only where the other factor does.
pub open spec fn tells_apart<A: Arithmetic>() -> bool {
    &&& forall|a: Double, b: Double, v: Double| #[trigger]
        call_ensures(A::difference, (a, b), v) && v.same(zero()) ==> a.same(b)
    &&& forall|b: Double, v: Double| #[trigger]
        call_ensures(A::product, (one(), b), v) && v.same(zero()) ==> b.same(zero())
    &&& forall|b: Double, v: Double| #[trigger]
        call_ensures(A::product, (one().opposite(), b), v) && v.same(zero()) ==> b.same(zero())
}

/// A solution begins at the initial condition, has a value of every component for every recorded
/// time, and records more than its beginning. Where an event ended it, the last time that it
/// records is that of the event.
pub proof fn solutions_begin_and_end<
    A: Arithmetic,
    F: Fn(Double, &Vec<Double>) -> Vec<Double>,
    E: Fn(usize, Double, &Vec<Double>) -> Double,
>(
    func: F,
    event: E,
    count: nat,
    t0: Double,
    y0: Seq<Double>,
    settings: Settings,
    limit: nat,
    r: OdeResult,
)
    requires
        solved::<A, F, E>(func, event, count, t0, y0, settings, limit, Ok(r)),
    ensures
        r.t@.len() > 1,
        r.t@[0] == t0,
        r.y@.len() == y0.len(),
        forall|c: int|
            0 <= c < y0.len() ==> (#[trigger] r.y@[c])@.len() == r.t@.len() && r.y@[c]@[0]
                == y0[c],
        r.t_event matches Some(te) ==> r.t@.last() == te,
{
    let (states, progress): (Seq<Integration>, Seq<Progress>) = lemma_run::<A, F, E>(
        func,
        event,
        count,
        t0,
        y0,
        settings,
        limit,
        r,
    );
    let n = states.len() - 1;
    lemma_records::<A, F, E>(func, event, count, t0, y0, settings, states, progress, n);
    assert(progress[n - 1] == Progress::Finished);
    let last = states[n];
    assert(last.ys@[0]@.len() == y0.len());
    assert forall|c: int| 0 <= c < y0.len() implies (#[trigger] r.y@[c])@.len() == r.t@.len()
        && r.y@[c]@[0] == y0[c] by {
        assert(r.y@[c]@[0] == last.ys@[0]@[c]);
    }
}

/// A solution that no event ended has reached the end: its last time is not short of it; and it is
/// the end itself, where differences tell numbers apart.
pub proof fn solutions_reach_the_end<
    A: Arithmetic,
    F: Fn(Double, &Vec<Double>) -> Vec<Double>,
    E: Fn(usize, Double, &Vec<Double>) -> Double,
>(
    func: F,
    event: E,
    count: nat,
    t0: Double,
    y0: Seq<Double>,
    s: Settings,
    limit: nat,
    r: OdeResult,
)
    requires
        solved::<A, F, E>(func, event, count, t0, y0, s, limit, Ok(r)),
        s.direction == direction_of(t0, s.tf),
        r.t_event is None,
    ensures
        exists|e: Double| #[trigger]
            evaluates::<A>(excess(s, r.t@.last()), e) && zero().le(e),
        deterministic::<A>() && tells_apart::<A>() && !s.tf.nan() ==> r.t@.last().same(s.tf),
{
    let (states, progress): (Seq<Integration>, Seq<Progress>) = lemma_run::<A, F, E>(
        func,
        event,
        count,
        t0,
        y0,
        s,
        limit,
        r,
    );
    let i = progress.len() - 1;
    crossings_end_the_run::<A, F, E>(func, event, count, t0, y0, s, states, progress, i);
    let a = states[i];
    let b = states[i + 1];
    assert(a.attempted::<A, F, E>(func, event, b, progress[i]));
    let (x, accurate): (Attempt, bool) = choose|x: Attempt, accurate: bool| #[trigger]
        a.attempted_with::<A, F, E>(func, event, x, accurate, b, progress[i]);
    let (ended, h_next, min_step, e): (bool, Double, Double, Double) = choose|
        ended: bool,
        h_next: Double,
        min_step: Double,
        e: Double,
    | #[trigger]
        a.taken_with::<A, E>(event, x, b, progress[i], ended, h_next, min_step, e);
    assert(b.t == x.t_new);
    assert(r.t@.last() == x.t_new);
    assert(evaluates::<A>(excess(s, r.t@.last()), e) && zero().le(e));
    if deterministic::<A>() && tells_apart::<A>() && !s.tf.nan() && x.t_new != s.tf {
        let (reach, f): (Double, Double) = choose|reach: Double, f: Double| #[trigger]
            aimed_at::<A>(s, a.t, a.h_abs, reach, f, x.t_new, x.h);
        formulas_have_one_result::<A>(excess(s, reach), e, f);
        assert(e.same(zero()));
        let way = given(reach).minus(given(s.tf));
        let (c, d): (Double, Double) = parts_of_product::<A>(given(s.direction), way, e);
        let (g, h): (Double, Double) = parts_of_difference::<A>(given(reach), given(s.tf), d);
        assert(d.same(zero()));
        assert(call_ensures(A::difference, (reach, s.tf), d));
    }
}

/// The first of some times on the way is one of them, and none of them comes before it.
pub proof fn first_met_is_first(times: Seq<Double>, backward: bool)
    requires
        times.len() > 0,
        forall|i: int| 0 <= i < times.len() ==> (#[trigger] times[i]).finite(),
    ensures
        times.contains(first_met(times, backward)),
        forall|i: int|
            0 <= i < times.len() ==> if backward {
                (#[trigger] times[i]).le(first_met(times, backward))
            } else {
                first_met(times, backward).le(times[i])
            },
    decreases times.len(),
{
    let before = times.drop_last();
    let last = times.last();
    let first = first_met(times, backward);
    assert(last == times[times.len() - 1]);
    assert(last.finite());
    if before.len() > 0 {
        assert forall|i: int| 0 <= i < before.len() implies (#[trigger] before[i]).finite() by {
            assert(before[i] == times[i]);
        }
        first_met_is_first(before, backward);
        let j = before.index_of(first_met(before, backward));
        assert(before[j] == times[j]);
        assert(before[j] == first_met(before, backward));
        assert forall|i: int| 0 <= i < times.len() implies if backward {
            (#[trigger] times[i]).le(first)
        } else {
            first.le(times[i])
        } by {
            if i < before.len() {
                assert(before[i] == times[i]);
            }
        }
        if first != last {
            assert(times[j] == first);
        }
    } else {
        reveal_with_fuel(first_met, 2);
        finite_doubles_are_below_infinity(last);
        assert(first == last);
        assert(times[0] == last);
    }
}

} // verus!
