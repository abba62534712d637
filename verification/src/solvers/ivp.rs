//! Initial value problems: adaptive steps, terminal events, and the recorded solution.
use crate::arithmetic::{
    evaluates, fraction, given, infinity, one, zero, Arithmetic, Formula,
};
use crate::double::{copy_doubles, Double};
use crate::solvers::brent::{brentq, found, found_by_more_values, values_of};
use crate::solvers::rk45::{
    below, dense, dense_coefficients, dense_output, error_norm, estimated,
    first_step, interpolated, is_below, rk_step, select_initial_step, stepped, system,
};
use vstd::prelude::*;

verus! {

/// The crossings of zero at which an event ends the integration.
#[derive(Clone, Copy, Debug, PartialEq, Eq, Structural)]
pub enum TerminateDirection {
    Both,
    Positive,
    Negative,
}

impl Default for TerminateDirection {
    fn default() -> (res: Self)
        ensures
            res == TerminateDirection::Both,
    {
        TerminateDirection::Both
    }
}

impl TerminateDirection {
    /// An event that goes from `before` to `after` in a step crosses zero the way that counts.
    pub open spec fn crossed(self, before: Double, after: Double) -> bool {
        let up = before.le(zero()) && zero().le(after);
        let down = zero().le(before) && after.le(zero());
        match self {
            TerminateDirection::Positive => up,
            TerminateDirection::Negative => down,
            TerminateDirection::Both => up || down,
        }
    }

    /// Whether an event crosses zero the way that counts.
    pub fn crosses(self, before: Double, after: Double) -> (res: bool)
        ensures
            res == self.crossed(before, after),
    {
        let up: bool = before.is_at_most(zero()) && zero().is_at_most(after);
        let down: bool = zero().is_at_most(before) && after.is_at_most(zero());
        match self {
            TerminateDirection::Positive => up,
            TerminateDirection::Negative => down,
            TerminateDirection::Both => up || down,
        }
    }
}

/// The events that cross zero in a step, by their numbers, among the first `n`.
pub open spec fn active(
    g: Seq<Double>,
    g_new: Seq<Double>,
    crossing: TerminateDirection,
    n: nat,
) -> Seq<usize>
    decreases n,
{
    if n == 0 {
        seq![]
    } else {
        let before = active(g, g_new, crossing, (n - 1) as nat);
        if crossing.crossed(g[n - 1], g_new[n - 1]) {
            before.push((n - 1) as usize)
        } else {
            before
        }
    }
}

/// The events that cross zero in a step, by their numbers.
pub fn active_events(
    g: &Vec<Double>,
    g_new: &Vec<Double>,
    crossing: TerminateDirection,
) -> (res: Vec<usize>)
    requires
        g@.len() == g_new@.len(),
    ensures
        res@ == active(g@, g_new@, crossing, g@.len()),
        forall|i: int| 0 <= i < res@.len() ==> #[trigger] res@[i] < g@.len(),
{
    let mut res: Vec<usize> = Vec::new();
    let mut i: usize = 0;
    while i < g.len()
        invariant
            i <= g.len() == g_new.len(),
            res@ == active(g@, g_new@, crossing, i as nat),
            forall|j: int| 0 <= j < res@.len() ==> #[trigger] res@[j] < i,
        decreases g.len() - i,
    {
        if crossing.crosses(g[i], g_new[i]) {
            res.push(i);
        }
        i = i + 1;
    }
    res
}

/// What an integration is to do.
#[derive(Clone, Copy, Debug, PartialEq, Eq, Structural)]
pub struct Settings {
    pub rtol: Double,
    pub atol: Double,
    /// Where the integration ends.
    pub tf: Double,
    /// One, or minus one where the integration goes backwards in time.
    pub direction: Double,
    pub crossing: TerminateDirection,
}

/// The way from `t0` to `tf`.
pub open spec fn direction_of(t0: Double, tf: Double) -> Double {
    if tf.lt(t0) {
        one().opposite()
    } else {
        one()
    }
}

/// An integration under way.
#[derive(Debug)]
pub struct Integration {
    pub settings: Settings,
    /// The time, the state and its derivative.
    pub t: Double,
    pub y: Vec<Double>,
    pub f: Vec<Double>,
    /// The length of the step to attempt, and the least that makes sense.
    pub h_abs: Double,
    pub min_step: Double,
    /// Whether an attempt at this step has been rejected.
    pub rejected: bool,
    /// What the events are at the time.
    pub g: Vec<Double>,
    /// The recorded times and states.
    pub ts: Vec<Double>,
    pub ys: Vec<Vec<Double>>,
    /// When a terminal event came about.
    pub t_event: Option<Double>,
}

/// What an attempt at a step came to.
#[derive(Clone, Copy, Debug, PartialEq, Eq, Structural)]
pub enum Progress {
    /// The step is too inaccurate: a shorter one is to be attempted.
    Rejected,
    /// The step is taken, and there is more to go.
    Advanced,
    /// The integration has reached its end, or an event.
    Finished,
    /// The step would be too short to make a difference.
    Failed,
}

/// What events may be: event `i`, at a time and a state.
pub open spec fn event_values<E: Fn(usize, Double, &Vec<Double>) -> Double>(
    event: E,
    t: Double,
    y: Vec<Double>,
    g: Seq<Double>,
) -> bool {
    forall|i: int|
        0 <= i < g.len() ==> call_ensures(event, (i as usize, t, &y), #[trigger] g[i])
}

/// There are `n` events to be asked for, at every time and state.
pub open spec fn events<E: Fn(usize, Double, &Vec<Double>) -> Double>(event: E, n: nat) -> bool {
    forall|i: usize, t: Double, y: Vec<Double>|
        i < n ==> #[trigger] call_requires(event, (i, t, &y))
}

fn event_list<E: Fn(usize, Double, &Vec<Double>) -> Double>(
    event: &E,
    n: usize,
    t: Double,
    y: &Vec<Double>,
) -> (res: Vec<Double>)
    requires
        events(*event, n as nat),
    ensures
        res@.len() == n,
        event_values(*event, t, *y, res@),
{
    let mut res: Vec<Double> = Vec::new();
    let mut i: usize = 0;
    while i < n
        invariant
            i <= n,
            events(*event, n as nat),
            res@.len() == i,
            event_values(*event, t, *y, res@),
        decreases n - i,
    {
        let v: Double = event(i, t, y);
        let ghost before = res@;
        res.push(v);
        proof {
            assert forall|j: int| 0 <= j < res@.len() implies call_ensures(
                *event,
                (j as usize, t, y),
                #[trigger] res@[j],
            ) by {
                if j < i {
                    assert(res@[j] == before[j]);
                }
            }
        }
        i = i + 1;
    }
    res
}

/// The least step at a time: ten times the distance to the next double on the way.
pub open spec fn spacing(t: Double, direction: Double) -> Formula {
    let next = if zero().lt(direction) {
        t.successor()
    } else {
        t.predecessor()
    };
    fraction(10, 1).times(given(next).minus(given(t)).size())
}

fn least_step<A: Arithmetic>(t: Double, direction: Double) -> (res: Double)
    ensures
        evaluates::<A>(spacing(t, direction), res),
{
    let next: Double = if zero().is_less(direction) {
        t.next_up()
    } else {
        t.next_down()
    };
    proof {
        reveal_with_fuel(evaluates, 4);
    }
    A::product(A::ratio(10, 1), A::difference(next, t).abs())
}

/// A step that is no shorter than the least.
pub open spec fn at_least_step(h: Double, min_step: Double) -> Double {
    if h.lt(min_step) {
        min_step
    } else {
        h
    }
}

/// How far past the end a time is, on the way.
pub open spec fn excess(s: Settings, t: Double) -> Formula {
    given(s.direction).times(given(t).minus(given(s.tf)))
}

fn excess_at<A: Arithmetic>(s: Settings, t: Double) -> (res: Double)
    ensures
        evaluates::<A>(excess(s, t), res),
{
    proof {
        reveal_with_fuel(evaluates, 3);
    }
    A::product(s.direction, A::difference(t, s.tf))
}

/// Where the length of a step leads.
pub open spec fn reach_of(s: Settings, t: Double, h_abs: Double) -> Formula {
    given(t).plus(given(h_abs).times(given(s.direction)))
}

/// `t_new` is where a step leads that would reach `reach`, which is `e` past the end; and `h` is
/// how long it then is.
pub open spec fn aimed_at<A: Arithmetic>(
    s: Settings,
    t: Double,
    h_abs: Double,
    reach: Double,
    e: Double,
    t_new: Double,
    h: Double,
) -> bool {
    &&& evaluates::<A>(reach_of(s, t, h_abs), reach)
    &&& evaluates::<A>(excess(s, reach), e)
    &&& t_new == if zero().lt(e) {
        s.tf
    } else {
        reach
    }
    &&& evaluates::<A>(given(t_new).minus(given(t)), h)
}

/// `t_new` is where a step leads: to where its length leads, but no further than to the end; and
/// `h` is how long it then is.
pub open spec fn aimed<A: Arithmetic>(
    s: Settings,
    t: Double,
    h_abs: Double,
    t_new: Double,
    h: Double,
) -> bool {
    exists|reach: Double, e: Double| #[trigger] aimed_at::<A>(s, t, h_abs, reach, e, t_new, h)
}

fn aim<A: Arithmetic>(s: Settings, t: Double, h_abs: Double) -> (res: (Double, Double))
    ensures
        aimed::<A>(s, t, h_abs, res.0, res.1),
{
    let reach: Double = A::sum(t, A::product(h_abs, s.direction));
    let e: Double = excess_at::<A>(s, reach);
    let t_new: Double = if zero().is_less(e) {
        s.tf
    } else {
        reach
    };
    let h: Double = A::difference(t_new, t);
    proof {
        reveal_with_fuel(evaluates, 3);
        assert(evaluates::<A>(reach_of(s, t, h_abs), reach));
        assert(aimed_at::<A>(s, t, h_abs, reach, e, t_new, h));
    }
    (t_new, h)
}

/// How much to change the step by for an error estimate, with some safety.
pub open spec fn safe_factor(norm: Double) -> Formula {
    fraction(9, 10).times(given(norm).to_the(fraction(-1i64, 5)))
}

/// The step after one that was taken: longer, but at most tenfold, and not longer at all where an
/// attempt had been rejected.
pub open spec fn next_after_taken(h: Double, norm: Double, rejected: bool) -> Formula {
    let factor = if norm.same(zero()) {
        fraction(10, 1)
    } else {
        fraction(10, 1).at_most(safe_factor(norm))
    };
    given(h).size().times(
        if rejected {
            factor.at_most(fraction(1, 1))
        } else {
            factor
        },
    )
}

/// The step after one that was rejected: shorter, but at most fivefold.
pub open spec fn next_after_rejected(h: Double, norm: Double) -> Formula {
    given(h).size().times(fraction(1, 5).at_least(safe_factor(norm)))
}

fn safe_factor_of<A: Arithmetic>(norm: Double) -> (res: Double)
    ensures
        evaluates::<A>(safe_factor(norm), res),
{
    proof {
        reveal_with_fuel(evaluates, 4);
    }
    A::product(A::ratio(9, 10), A::power(norm, A::ratio(-1, 5)))
}

fn lengthen<A: Arithmetic>(h: Double, norm: Double, rejected: bool) -> (res: Double)
    ensures
        evaluates::<A>(next_after_taken(h, norm, rejected), res),
{
    let ten: Double = A::ratio(10, 1);
    assert(evaluates::<A>(fraction(10, 1), ten));
    let factor: Double = if norm.is_same(zero()) {
        ten
    } else {
        let safe: Double = safe_factor_of::<A>(norm);
        let res: Double = ten.min(safe);
        assert(evaluates::<A>(fraction(10, 1).at_most(safe_factor(norm)), res));
        res
    };
    let ghost grown = if norm.same(zero()) {
        fraction(10, 1)
    } else {
        fraction(10, 1).at_most(safe_factor(norm))
    };
    assert(evaluates::<A>(grown, factor));
    let held: Double = if rejected {
        let limit: Double = A::ratio(1, 1);
        assert(evaluates::<A>(fraction(1, 1), limit));
        let res: Double = factor.min(limit);
        assert(evaluates::<A>(grown.at_most(fraction(1, 1)), res));
        res
    } else {
        factor
    };
    let size: Double = h.abs();
    assert(evaluates::<A>(given(h), h));
    assert(evaluates::<A>(given(h).size(), size));
    A::product(size, held)
}

fn shorten<A: Arithmetic>(h: Double, norm: Double) -> (res: Double)
    ensures
        evaluates::<A>(next_after_rejected(h, norm), res),
{
    let fifth: Double = A::ratio(1, 5);
    assert(evaluates::<A>(fraction(1, 5), fifth));
    let safe: Double = safe_factor_of::<A>(norm);
    let factor: Double = fifth.max(safe);
    assert(evaluates::<A>(fraction(1, 5).at_least(safe_factor(norm)), factor));
    let size: Double = h.abs();
    assert(evaluates::<A>(given(h), h));
    assert(evaluates::<A>(given(h).size(), size));
    A::product(size, factor)
}

/// What an event may be on the dense output of a step.
pub open spec fn on_the_way<A: Arithmetic, E: Fn(usize, Double, &Vec<Double>) -> Double>(
    event: E,
    idx: usize,
    t_old: Double,
    h: Double,
    y_old: Seq<Double>,
    q: Seq<[Double; 4]>,
) -> spec_fn(Double, Double) -> bool {
    |x: Double, v: Double|
        exists|y: Vec<Double>| #[trigger]
            call_ensures(event, (idx, x, &y), v) && interpolated::<A>(x, t_old, h, y_old, q, y@)
}

/// Four times the distance from one to the next double: the tolerance for event times.
pub open spec fn spec_event_tolerance() -> Double {
    Double { bits: 0x3cd0_0000_0000_0000 }
}

/// Four times the distance from one to the next double: the tolerance for event times.
#[verifier::when_used_as_spec(spec_event_tolerance)]
pub fn event_tolerance() -> (res: Double)
    ensures
        res == spec_event_tolerance(),
{
    Double { bits: 0x3cd0_0000_0000_0000 }
}

/// `root` is when event `idx` comes about in a step, on its dense output.
pub open spec fn localized<A: Arithmetic, E: Fn(usize, Double, &Vec<Double>) -> Double>(
    event: E,
    idx: usize,
    t_old: Double,
    t_new: Double,
    h: Double,
    y_old: Seq<Double>,
    q: Seq<[Double; 4]>,
    root: Double,
) -> bool {
    found::<A>(
        t_old,
        t_new,
        event_tolerance(),
        event_tolerance(),
        100,
        on_the_way::<A, E>(event, idx, t_old, h, y_old, q),
        root,
    )
}

/// What an event is on the dense output of a step.
fn event_on_the_way<A: Arithmetic, E: Fn(usize, Double, &Vec<Double>) -> Double>(
    event: &E,
    n_events: usize,
    idx: usize,
    x: Double,
    t_old: Double,
    h: Double,
    y_old: &Vec<Double>,
    q: &Vec<[Double; 4]>,
) -> (res: Double)
    requires
        events(*event, n_events as nat),
        idx < n_events,
        q@.len() == y_old@.len(),
    ensures
        on_the_way::<A, E>(*event, idx, t_old, h, y_old@, q@)(x, res),
{
    let y: Vec<Double> = dense_output::<A>(x, t_old, h, y_old, q);
    let res: Double = event(idx, x, &y);
    assert(call_ensures(*event, (idx, x, &y), res));
    res
}

/// When an event comes about in a step, on its dense output.
fn localize<A: Arithmetic, E: Fn(usize, Double, &Vec<Double>) -> Double>(
    event: &E,
    n_events: usize,
    idx: usize,
    t_old: Double,
    t_new: Double,
    h: Double,
    y_old: &Vec<Double>,
    q: &Vec<[Double; 4]>,
) -> (res: Double)
    requires
        events(*event, n_events as nat),
        idx < n_events,
        q@.len() == y_old@.len(),
    ensures
        localized::<A, E>(*event, idx, t_old, t_new, h, y_old@, q@, res),
{
    let on_step = |x: Double| -> (v: Double)
        ensures
            on_the_way::<A, E>(*event, idx, t_old, h, y_old@, q@)(x, v),
        { event_on_the_way::<A, E>(event, n_events, idx, x, t_old, h, y_old, q) };
    let ghost fewer = values_of(on_step);
    let res: Double = brentq::<A, _>(
        on_step,
        t_old,
        t_new,
        event_tolerance(),
        event_tolerance(),
        100,
    );
    proof {
        found_by_more_values::<A>(
            t_old,
            t_new,
            event_tolerance(),
            event_tolerance(),
            100,
            fewer,
            on_the_way::<A, E>(*event, idx, t_old, h, y_old@, q@),
            res,
        );
    }
    res
}

/// The first of some times on the way: the least; or the greatest, where the way goes back in time.
/// An infinity where there is none.
pub open spec fn first_met(times: Seq<Double>, backward: bool) -> Double
    decreases times.len(),
{
    if times.len() == 0 {
        if backward {
            infinity().opposite()
        } else {
            infinity()
        }
    } else {
        let before = first_met(times.drop_last(), backward);
        let sooner = if backward {
            before.lt(times.last())
        } else {
            times.last().lt(before)
        };
        if sooner {
            times.last()
        } else {
            before
        }
    }
}

/// `roots` are when the active events come about in a step.
pub open spec fn all_localized<A: Arithmetic, E: Fn(usize, Double, &Vec<Double>) -> Double>(
    event: E,
    which: Seq<usize>,
    t_old: Double,
    t_new: Double,
    h: Double,
    y_old: Seq<Double>,
    q: Seq<[Double; 4]>,
    roots: Seq<Double>,
) -> bool {
    &&& roots.len() == which.len()
    &&& forall|i: int|
        0 <= i < which.len() ==> localized::<A, E>(
            event,
            which[i],
            t_old,
            t_new,
            h,
            y_old,
            q,
            #[trigger] roots[i],
        )
}

/// `t` is when the first of the active events on the way comes about in a step.
pub open spec fn first_event<A: Arithmetic, E: Fn(usize, Double, &Vec<Double>) -> Double>(
    event: E,
    which: Seq<usize>,
    t_old: Double,
    t_new: Double,
    h: Double,
    y_old: Seq<Double>,
    q: Seq<[Double; 4]>,
    t: Double,
) -> bool {
    exists|roots: Seq<Double>| #[trigger]
        all_localized::<A, E>(event, which, t_old, t_new, h, y_old, q, roots) && t == first_met(
            roots,
            t_new.lt(t_old),
        )
}

fn find_first_event<A: Arithmetic, E: Fn(usize, Double, &Vec<Double>) -> Double>(
    event: &E,
    n_events: usize,
    which: &Vec<usize>,
    t_old: Double,
    t_new: Double,
    h: Double,
    y_old: &Vec<Double>,
    q: &Vec<[Double; 4]>,
) -> (res: Double)
    requires
        events(*event, n_events as nat),
        forall|i: int| 0 <= i < which@.len() ==> #[trigger] which@[i] < n_events,
        q@.len() == y_old@.len(),
    ensures
        first_event::<A, E>(*event, which@, t_old, t_new, h, y_old@, q@, res),
{
    let backward: bool = t_new.is_less(t_old);
    let mut first: Double = if backward {
        infinity().negate()
    } else {
        infinity()
    };
    let ghost mut roots: Seq<Double> = seq![];
    let mut i: usize = 0;
    while i < which.len()
        invariant
            i <= which.len(),
            events(*event, n_events as nat),
            forall|i: int| 0 <= i < which@.len() ==> #[trigger] which@[i] < n_events,
            q@.len() == y_old@.len(),
            roots.len() == i,
            backward == t_new.lt(t_old),
            first == first_met(roots, backward),
            forall|j: int|
                0 <= j < i ==> localized::<A, E>(
                    *event,
                    which@[j],
                    t_old,
                    t_new,
                    h,
                    y_old@,
                    q@,
                    #[trigger] roots[j],
                ),
        decreases which.len() - i,
    {
        let root: Double = localize::<A, E>(
            event,
            n_events,
            which[i],
            t_old,
            t_new,
            h,
            y_old,
            q,
        );
        proof {
            assert(roots.push(root).drop_last() =~= roots);
            roots = roots.push(root);
        }
        let sooner: bool = if backward {
            first.is_less(root)
        } else {
            root.is_less(first)
        };
        if sooner {
            first = root;
        }
        i = i + 1;
    }
    assert(all_localized::<A, E>(*event, which@, t_old, t_new, h, y_old@, q@, roots));
    first
}

/// An attempt at a step: where it leads, its stages, and its error estimate.
pub struct Attempt {
    pub t_new: Double,
    pub h: Double,
    pub y_new: Vec<Double>,
    pub k: Seq<Vec<Double>>,
    pub norm: Double,
}

impl Integration {
    /// The integration of `n` components with `m` events keeps its records in step.
    pub open spec fn well_formed(self, n: nat, m: nat) -> bool {
        &&& self.y@.len() == n
        &&& self.f@.len() >= n
        &&& self.g@.len() == m
        &&& self.ts@.len() == self.ys@.len()
        &&& self.ts@.len() > 0
        &&& forall|i: int| 0 <= i < self.ys@.len() ==> (#[trigger] self.ys@[i])@.len() == n
    }

    /// An attempt at a step from here, and the error estimate it has.
    pub open spec fn tried<A: Arithmetic, F: Fn(Double, &Vec<Double>) -> Vec<Double>>(
        self,
        func: F,
        a: Attempt,
    ) -> bool {
        &&& aimed::<A>(self.settings, self.t, self.h_abs, a.t_new, a.h)
        &&& stepped::<A, F>(func, self.t, self.y@, self.f@, a.h, a.y_new, a.k)
        &&& estimated::<A>(
            self.y@,
            a.y_new@,
            a.k,
            a.h,
            self.settings.rtol,
            self.settings.atol,
            a.norm,
        )
    }

    /// `t` is when the first of the active events comes about, on the dense output with the
    /// coefficients `q`.
    pub open spec fn met<A: Arithmetic, E: Fn(usize, Double, &Vec<Double>) -> Double>(
        self,
        event: E,
        a: Attempt,
        which: Seq<usize>,
        q: Seq<[Double; 4]>,
        t: Double,
    ) -> bool {
        &&& dense::<A>(a.k, self.y@.len(), q)
        &&& first_event::<A, E>(event, which, self.t, a.t_new, a.h, self.y@, q, t)
    }

    /// `(t, y)` is where a step that is taken ends, and `ended` whether an event ended it: at the
    /// first event that comes about on the way, or else at the end of the attempt.
    pub open spec fn landed<A: Arithmetic, E: Fn(usize, Double, &Vec<Double>) -> Double>(
        self,
        event: E,
        a: Attempt,
        g_new: Seq<Double>,
        t: Double,
        y: Seq<Double>,
        ended: bool,
    ) -> bool {
        let which = active(self.g@, g_new, self.settings.crossing, self.g@.len());
        &&& g_new.len() == self.g@.len()
        &&& event_values(event, a.t_new, a.y_new, g_new)
        &&& ended == (which.len() > 0)
        &&& if ended {
            exists|q: Seq<[Double; 4]>| #[trigger]
                self.met::<A, E>(event, a, which, q, t) && interpolated::<A>(
                    t,
                    self.t,
                    a.h,
                    self.y@,
                    q,
                    y,
                )
        } else {
            t == a.t_new && y == a.y_new@
        }
    }

    /// `next` is the integration after a step that is taken: `ended` says whether an event ended
    /// it, `h_next` and `min_step` are what the next step goes by, and `e` is how far past the end the
    /// attempt led.
    pub open spec fn taken_with<
        A: Arithmetic,
        E: Fn(usize, Double, &Vec<Double>) -> Double,
    >(
        self,
        event: E,
        a: Attempt,
        next: Integration,
        progress: Progress,
        ended: bool,
        h_next: Double,
        min_step: Double,
        e: Double,
    ) -> bool {
        &&& self.landed::<A, E>(event, a, next.g@, next.t, next.y@, ended)
        &&& evaluates::<A>(next_after_taken(a.h, a.norm, self.rejected), h_next)
        &&& evaluates::<A>(excess(self.settings, a.t_new), e)
        &&& evaluates::<A>(spacing(next.t, self.settings.direction), min_step)
        &&& progress == if ended || zero().le(e) {
            Progress::Finished
        } else {
            Progress::Advanced
        }
        &&& next.settings == self.settings
        &&& next.f@ == a.k[6]@
        &&& next.min_step == min_step
        &&& next.h_abs == at_least_step(h_next, min_step)
        &&& !next.rejected
        &&& next.ts@ == self.ts@.push(next.t)
        &&& next.ys@.len() == self.ys@.len() + 1
        &&& next.ys@.drop_last() == self.ys@
        &&& next.ys@.last()@ == next.y@
        &&& next.t_event == if ended {
            Some(next.t)
        } else {
            self.t_event
        }
    }

    /// `next` is the integration after a step that is taken.
    pub open spec fn taken<
        A: Arithmetic,
        E: Fn(usize, Double, &Vec<Double>) -> Double,
    >(self, event: E, a: Attempt, next: Integration, progress: Progress) -> bool {
        exists|ended: bool, h_next: Double, min_step: Double, e: Double| #[trigger]
            self.taken_with::<A, E>(event, a, next, progress, ended, h_next, min_step, e)
    }

    /// `next` is the integration after this attempt at a step, which is taken if it is accurate.
    pub open spec fn attempted_with<
        A: Arithmetic,
        F: Fn(Double, &Vec<Double>) -> Vec<Double>,
        E: Fn(usize, Double, &Vec<Double>) -> Double,
    >(
        self,
        func: F,
        event: E,
        a: Attempt,
        accurate: bool,
        next: Integration,
        progress: Progress,
    ) -> bool {
        &&& self.tried::<A, F>(func, a)
        &&& below::<A>(a.norm, (1, 1), accurate)
        &&& if accurate {
            self.taken::<A, E>(event, a, next, progress)
        } else {
            &&& progress == Progress::Rejected
            &&& evaluates::<A>(next_after_rejected(a.h, a.norm), next.h_abs)
            &&& next == Integration { h_abs: next.h_abs, rejected: true, ..self }
        }
    }

    /// `next` is the integration after an attempt at a step.
    pub open spec fn attempted<
        A: Arithmetic,
        F: Fn(Double, &Vec<Double>) -> Vec<Double>,
        E: Fn(usize, Double, &Vec<Double>) -> Double,
    >(self, func: F, event: E, next: Integration, progress: Progress) -> bool {
        if self.h_abs.lt(self.min_step) {
            next == self && progress == Progress::Failed
        } else {
            exists|a: Attempt, accurate: bool| #[trigger]
                self.attempted_with::<A, F, E>(func, event, a, accurate, next, progress)
        }
    }

    /// An integration with `count` events that is about to begin.
    pub open spec fn begun<
        A: Arithmetic,
        F: Fn(Double, &Vec<Double>) -> Vec<Double>,
        E: Fn(usize, Double, &Vec<Double>) -> Double,
    >(
        self,
        func: F,
        event: E,
        count: nat,
        t0: Double,
        y0: Seq<Double>,
        settings: Settings,
    ) -> bool {
        &&& self.settings == settings
        &&& self.t == t0
        &&& self.y@ == y0
        &&& call_ensures(func, (t0, &self.y), self.f)
        &&& exists|h: Double| #[trigger]
            first_step::<A, F>(
                func,
                t0,
                y0,
                settings.tf,
                self.f@,
                settings.direction,
                settings.rtol,
                settings.atol,
                h,
            ) && self.h_abs == at_least_step(h, self.min_step)
        &&& evaluates::<A>(spacing(t0, settings.direction), self.min_step)
        &&& !self.rejected
        &&& self.g@.len() == count
        &&& event_values(event, t0, self.y, self.g@)
        &&& self.ts@ == seq![t0]
        &&& self.ys@.len() == 1
        &&& self.ys@[0]@ == y0
        &&& self.t_event is None
    }

    /// Begins an integration.
    pub fn start<
        A: Arithmetic,
        F: Fn(Double, &Vec<Double>) -> Vec<Double>,
        E: Fn(usize, Double, &Vec<Double>) -> Double,
    >(
        func: &F,
        event: &E,
        n_events: usize,
        t0: Double,
        y0: &Vec<Double>,
        settings: Settings,
    ) -> (res: Integration)
        requires
            system(*func, y0@.len()),
            events(*event, n_events as nat),
        ensures
            res.begun::<A, F, E>(*func, *event, n_events as nat, t0, y0@, settings),
            res.well_formed(y0@.len(), n_events as nat),
    {
        let y: Vec<Double> = copy_doubles(y0);
        let f: Vec<Double> = func(t0, &y);
        let h: Double = select_initial_step::<A, F>(
            func,
            t0,
            &y,
            settings.tf,
            &f,
            settings.direction,
            settings.rtol,
            settings.atol,
        );
        let min_step: Double = least_step::<A>(t0, settings.direction);
        let g: Vec<Double> = event_list::<E>(event, n_events, t0, &y);
        let mut ts: Vec<Double> = Vec::new();
        ts.push(t0);
        let mut ys: Vec<Vec<Double>> = Vec::new();
        ys.push(copy_doubles(y0));
        assert(ts@ =~= seq![t0]);
        let h_abs: Double = if h.is_less(min_step) {
            min_step
        } else {
            h
        };
        let res: Integration = Integration {
            settings,
            t: t0,
            y,
            f,
            h_abs,
            min_step,
            rejected: false,
            g,
            ts,
            ys,
            t_event: None,
        };
        proof {
            assert(call_ensures(*func, (t0, &res.y), res.f));
            assert(first_step::<A, F>(
                *func,
                t0,
                y0@,
                settings.tf,
                res.f@,
                settings.direction,
                settings.rtol,
                settings.atol,
                h,
            ));
            assert(res.h_abs == at_least_step(h, res.min_step));
            assert(event_values(*event, t0, res.y, res.g@));
            assert(res.ys@[0]@ == y0@);
        }
        res
    }

    /// Attempts a step.
    pub fn attempt<
        A: Arithmetic,
        F: Fn(Double, &Vec<Double>) -> Vec<Double>,
        E: Fn(usize, Double, &Vec<Double>) -> Double,
    >(&mut self, func: &F, event: &E, n_events: usize) -> (res: Progress)
        requires
            system(*func, old(self).y@.len()),
            events(*event, n_events as nat),
            old(self).well_formed(old(self).y@.len(), n_events as nat),
        ensures
            old(self).attempted::<A, F, E>(*func, *event, *final(self), res),
            final(self).well_formed(old(self).y@.len(), n_events as nat),
    {
        if self.h_abs.is_less(self.min_step) {
            return Progress::Failed;
        }
        let ghost start = *self;
        let n: usize = self.y.len();
        let (t_new, h): (Double, Double) = aim::<A>(self.settings, self.t, self.h_abs);
        let (y_new, k): (Vec<Double>, Vec<Vec<Double>>) = rk_step::<A, F>(
            func,
            self.t,
            &self.y,
            &self.f,
            h,
        );
        let norm: Double = error_norm::<A>(
            &self.y,
            &y_new,
            &k,
            h,
            self.settings.rtol,
            self.settings.atol,
        );
        let ghost a = Attempt { t_new, h, y_new, k: k@, norm };
        assert(start.tried::<A, F>(*func, a));
        let accurate: bool = is_below::<A>(norm, (1, 1));
        if !accurate {
            self.h_abs = shorten::<A>(h, norm);
            self.rejected = true;
            assert(start.attempted_with::<A, F, E>(
                *func,
                *event,
                a,
                false,
                *self,
                Progress::Rejected,
            ));
            return Progress::Rejected;
        }
        let h_next: Double = lengthen::<A>(h, norm, self.rejected);
        let e: Double = excess_at::<A>(self.settings, t_new);
        let g_new: Vec<Double> = event_list::<E>(event, n_events, t_new, &y_new);
        let which: Vec<usize> = active_events(&self.g, &g_new, self.settings.crossing);
        let ended: bool = which.len() > 0;
        let f_new: Vec<Double> = copy_doubles(&k[6]);
        let (t, y): (Double, Vec<Double>) = if ended {
            let q: Vec<[Double; 4]> = dense_coefficients::<A>(&k, n);
            let first: Double = find_first_event::<A, E>(
                event,
                n_events,
                &which,
                self.t,
                t_new,
                h,
                &self.y,
                &q,
            );
            let y: Vec<Double> = dense_output::<A>(first, self.t, h, &self.y, &q);
            assert(start.met::<A, E>(*event, a, which@, q@, first));
            (first, y)
        } else {
            (t_new, y_new)
        };
        assert(start.landed::<A, E>(*event, a, g_new@, t, y@, ended));
        if ended {
            self.t_event = Some(t);
        }
        let min_step: Double = least_step::<A>(t, self.settings.direction);
        self.min_step = min_step;
        self.h_abs = if h_next.is_less(min_step) {
            min_step
        } else {
            h_next
        };
        self.rejected = false;
        self.ts.push(t);
        self.ys.push(copy_doubles(&y));
        self.t = t;
        self.y = y;
        self.f = f_new;
        self.g = g_new;
        let res: Progress = if ended || zero().is_at_most(e) {
            Progress::Finished
        } else {
            Progress::Advanced
        };
        proof {
            assert(self.ys@.drop_last() =~= start.ys@);
            assert(start.landed::<A, E>(*event, a, self.g@, self.t, self.y@, ended));
            assert(evaluates::<A>(next_after_taken(a.h, a.norm, start.rejected), h_next));
            assert(evaluates::<A>(excess(start.settings, a.t_new), e));
            assert(evaluates::<A>(spacing(self.t, start.settings.direction), min_step));
            assert(self.f@ == a.k[6]@);
            assert(self.h_abs == at_least_step(h_next, min_step));
            assert(self.ts@ == start.ts@.push(self.t));
            assert(self.ys@.last()@ == self.y@);
            assert(start.taken_with::<A, E>(*event, a, *self, res, ended, h_next, min_step, e));
            assert(start.attempted_with::<A, F, E>(*func, *event, a, true, *self, res));
        }
        res
    }
}

/// The events that end an integration, and the crossings of zero at which they do.
#[derive(Debug)]
pub struct TerminatingEvents<E> {
    /// Event `i` at a time and a state.
    pub event: E,
    /// How many events there are.
    pub count: usize,
    pub direction: Option<TerminateDirection>,
}

impl<E> TerminatingEvents<E> {
    pub fn new(event: E, count: usize, direction: Option<TerminateDirection>) -> (res: Self)
        ensures
            res.event == event,
            res.count == count,
            res.direction == direction,
    {
        TerminatingEvents { event, count, direction }
    }
}

/// A recorded solution.
#[derive(Debug)]
pub struct OdeResult {
    /// The values of each component, over the recorded times.
    pub y: Vec<Vec<Double>>,
    /// When a terminal event came about.
    pub t_event: Option<Double>,
    /// The recorded times.
    pub t: Vec<Double>,
}

/// Why an integration did not come to an end.
#[derive(Clone, Copy, Debug, PartialEq, Eq, Structural)]
pub enum IvpError {
    /// The required step is shorter than the spacing between numbers.
    StepTooSmall,
    /// All attempts allowed were made.
    Unfinished,
}

impl IvpError {
    /// The text for a person.
    pub fn message(self) -> (res: &'static str)
        ensures
            res@ == match self {
                IvpError::StepTooSmall =>
                    "solve_ivp: required step size is less than spacing between numbers"@,
                IvpError::Unfinished => "solve_ivp: no more attempts allowed"@,
            },
    {
        match self {
            IvpError::StepTooSmall => {
                "solve_ivp: required step size is less than spacing between numbers"
            },
            IvpError::Unfinished => "solve_ivp: no more attempts allowed",
        }
    }
}

/// The columns of a matrix are the rows of another.
pub open spec fn transposed<T>(m: Seq<Vec<T>>, r: Seq<Vec<T>>) -> bool {
    if m.len() == 0 || m[0]@.len() == 0 {
        r.len() == 0
    } else {
        &&& r.len() == m[0]@.len()
        &&& forall|c: int| 0 <= c < r.len() ==> (#[trigger] r[c])@.len() == m.len()
        &&& forall|c: int, i: int|
            0 <= c < r.len() && 0 <= i < m.len() ==> #[trigger] r[c]@[i] == m[i]@[c]
    }
}

/// All rows have as many entries as the first.
pub open spec fn rectangular<T>(m: Seq<Vec<T>>) -> bool {
    forall|i: int| 0 <= i < m.len() ==> (#[trigger] m[i])@.len() == m[0]@.len()
}

/// Turns rows into columns.
pub fn transpose<T: Copy>(matrix: &Vec<Vec<T>>) -> (res: Vec<Vec<T>>)
    requires
        forall|i: int|
            0 <= i < matrix@.len() ==> (#[trigger] matrix@[i])@.len() >= matrix@[0]@.len(),
    ensures
        transposed(matrix@, res@),
{
    let mut res: Vec<Vec<T>> = Vec::new();
    if matrix.len() == 0 || matrix[0].len() == 0 {
        return res;
    }
    let columns: usize = matrix[0].len();
    let mut c: usize = 0;
    while c < columns
        invariant
            c <= columns,
            matrix@.len() > 0,
            columns == matrix@[0]@.len(),
            forall|i: int|
                0 <= i < matrix@.len() ==> (#[trigger] matrix@[i])@.len() >= matrix@[0]@.len(),
            res@.len() == c,
            forall|d: int| 0 <= d < c ==> (#[trigger] res@[d])@.len() == matrix@.len(),
            forall|d: int, i: int|
                0 <= d < c && 0 <= i < matrix@.len() ==> #[trigger] res@[d]@[i]
                    == matrix@[i]@[d],
        decreases columns - c,
    {
        let mut column: Vec<T> = Vec::new();
        let mut i: usize = 0;
        while i < matrix.len()
            invariant
                i <= matrix.len(),
                c < columns,
                matrix@.len() > 0,
                columns == matrix@[0]@.len(),
                forall|i: int|
                    0 <= i < matrix@.len() ==> (#[trigger] matrix@[i])@.len()
                        >= matrix@[0]@.len(),
                column@.len() == i,
                forall|j: int| 0 <= j < i ==> #[trigger] column@[j] == matrix@[j]@[c as int],
            decreases matrix.len() - i,
        {
            column.push(matrix[i][c]);
            i = i + 1;
        }
        res.push(column);
        c = c + 1;
    }
    res
}

/// Turning rows into columns twice gives back a matrix that has entries, and the same number in
/// each row.
pub proof fn transposition_undoes_itself<T>(m: Seq<Vec<T>>, r: Seq<Vec<T>>, back: Seq<Vec<T>>)
    requires
        m.len() > 0,
        m[0]@.len() > 0,
        rectangular(m),
        transposed(m, r),
        transposed(r, back),
    ensures
        back.len() == m.len(),
        forall|i: int| 0 <= i < m.len() ==> (#[trigger] back[i])@ == m[i]@,
{
    assert(r[0]@.len() == m.len());
    assert forall|i: int| 0 <= i < m.len() implies (#[trigger] back[i])@ == m[i]@ by {
        assert(m[i]@.len() == m[0]@.len());
        assert forall|c: int| 0 <= c < m[0]@.len() implies back[i]@[c] == m[i]@[c] by {
            assert(r[c]@[i] == m[i]@[c]);
        }
        assert(back[i]@ =~= m[i]@);
    }
}

/// `v` is a setting, or a fraction where there is none.
pub open spec fn defaulted<A: Arithmetic>(
    setting: Option<Double>,
    f: (i64, i64),
    v: Double,
) -> bool {
    match setting {
        Some(x) => v == x,
        None => evaluates::<A>(fraction(f.0, f.1), v),
    }
}

fn or_fraction<A: Arithmetic>(setting: Option<Double>, f: (i64, i64)) -> (res: Double)
    ensures
        defaulted::<A>(setting, f, res),
{
    match setting {
        Some(x) => x,
        None => A::ratio(f.0, f.1),
    }
}

/// What an integration over a span is to do.
pub open spec fn settled<A: Arithmetic>(
    t_span: (Double, Double),
    direction: Option<TerminateDirection>,
    rtol: Option<Double>,
    atol: Option<Double>,
    s: Settings,
) -> bool {
    &&& defaulted::<A>(rtol, (1, 1_000), s.rtol)
    &&& defaulted::<A>(atol, (1, 1_000_000), s.atol)
    &&& s.tf == t_span.1
    &&& s.direction == direction_of(t_span.0, t_span.1)
    &&& s.crossing == match direction {
        Some(d) => d,
        None => TerminateDirection::Both,
    }
}

/// An attempt that leaves more to do.
pub open spec fn open_ended(p: Progress) -> bool {
    p == Progress::Rejected || p == Progress::Advanced
}

/// The states of an integration, each of which comes from the one before by an attempt, of which
/// only the last may be the end.
pub open spec fn attempts<
    A: Arithmetic,
    F: Fn(Double, &Vec<Double>) -> Vec<Double>,
    E: Fn(usize, Double, &Vec<Double>) -> Double,
>(func: F, event: E, states: Seq<Integration>, progress: Seq<Progress>) -> bool {
    &&& states.len() == progress.len() + 1
    &&& forall|i: int|
        0 <= i < progress.len() ==> states[i].attempted::<A, F, E>(
            func,
            event,
            states[i + 1],
            #[trigger] progress[i],
        )
    &&& forall|i: int| 0 <= i < progress.len() - 1 ==> open_ended(#[trigger] progress[i])
}

/// `res` is what an integration with `count` events comes to that goes through these states.
pub open spec fn solved_through<
    A: Arithmetic,
    F: Fn(Double, &Vec<Double>) -> Vec<Double>,
    E: Fn(usize, Double, &Vec<Double>) -> Double,
>(
    func: F,
    event: E,
    count: nat,
    t0: Double,
    y0: Seq<Double>,
    settings: Settings,
    limit: nat,
    states: Seq<Integration>,
    progress: Seq<Progress>,
    res: Result<OdeResult, IvpError>,
) -> bool {
    &&& attempts::<A, F, E>(func, event, states, progress)
    &&& states[0].begun::<A, F, E>(func, event, count, t0, y0, settings)
    &&& progress.len() <= limit
    &&& match res {
        Ok(r) => {
            &&& progress.len() > 0
            &&& progress.last() == Progress::Finished
            &&& r.t@ == states.last().ts@
            &&& r.t_event == states.last().t_event
            &&& transposed(states.last().ys@, r.y@)
        },
        Err(IvpError::StepTooSmall) => {
            &&& progress.len() > 0
            &&& progress.last() == Progress::Failed
        },
        Err(IvpError::Unfinished) => {
            &&& progress.len() == limit
            &&& progress.len() > 0 ==> open_ended(progress.last())
        },
    }
}

/// `res` is what an integration with `count` events comes to.
pub open spec fn solved<
    A: Arithmetic,
    F: Fn(Double, &Vec<Double>) -> Vec<Double>,
    E: Fn(usize, Double, &Vec<Double>) -> Double,
>(
    func: F,
    event: E,
    count: nat,
    t0: Double,
    y0: Seq<Double>,
    settings: Settings,
    limit: nat,
    res: Result<OdeResult, IvpError>,
) -> bool {
    exists|states: Seq<Integration>, progress: Seq<Progress>| #[trigger]
        solved_through::<A, F, E>(
            func,
            event,
            count,
            t0,
            y0,
            settings,
            limit,
            states,
            progress,
            res,
        )
}

/// One attempt more.
proof fn lemma_one_more<
    A: Arithmetic,
    F: Fn(Double, &Vec<Double>) -> Vec<Double>,
    E: Fn(usize, Double, &Vec<Double>) -> Double,
>(
    func: F,
    event: E,
    states: Seq<Integration>,
    progress: Seq<Progress>,
    next: Integration,
    p: Progress,
)
    requires
        attempts::<A, F, E>(func, event, states, progress),
        progress.len() > 0 ==> open_ended(progress.last()),
        states.last().attempted::<A, F, E>(func, event, next, p),
    ensures
        attempts::<A, F, E>(func, event, states.push(next), progress.push(p)),
{
    let s = states.push(next);
    let q = progress.push(p);
    assert forall|i: int| 0 <= i < q.len() implies s[i].attempted::<A, F, E>(
        func,
        event,
        s[i + 1],
        #[trigger] q[i],
    ) by {
        if i < progress.len() {
            assert(q[i] == progress[i]);
            assert(s[i] == states[i] && s[i + 1] == states[i + 1]);
        }
    }
    assert forall|i: int| 0 <= i < q.len() - 1 implies open_ended(#[trigger] q[i]) by {
        assert(q[i] == progress[i]);
    }
}

/// Integrates `func` over `t_span` from `y0`, until the end of the span or a terminal event, in at
/// most `limit` attempts at a step.
pub fn solve_ivp<
    A: Arithmetic,
    F: Fn(Double, &Vec<Double>) -> Vec<Double>,
    E: Fn(usize, Double, &Vec<Double>) -> Double,
>(
    func: &F,
    t_span: (Double, Double),
    y0: &Vec<Double>,
    terminating: &TerminatingEvents<E>,
    rtol: Option<Double>,
    atol: Option<Double>,
    limit: u64,
) -> (res: Result<OdeResult, IvpError>)
    requires
        system(*func, y0@.len()),
        events(terminating.event, terminating.count as nat),
    ensures
        exists|s: Settings| #[trigger]
            settled::<A>(t_span, terminating.direction, rtol, atol, s) && solved::<A, F, E>(
                *func,
                terminating.event,
                terminating.count as nat,
                t_span.0,
                y0@,
                s,
                limit as nat,
                res,
            ),
{
    let (t0, tf): (Double, Double) = t_span;
    let settings: Settings = Settings {
        rtol: or_fraction::<A>(rtol, (1, 1_000)),
        atol: or_fraction::<A>(atol, (1, 1_000_000)),
        tf,
        direction: if tf.is_less(t0) {
            one().negate()
        } else {
            one()
        },
        crossing: match terminating.direction {
            Some(d) => d,
            None => TerminateDirection::default(),
        },
    };
    assert(settled::<A>(t_span, terminating.direction, rtol, atol, settings));
    let event: &E = &terminating.event;
    let count: usize = terminating.count;
    let mut state: Integration = Integration::start::<A, F, E>(
        func,
        event,
        count,
        t0,
        y0,
        settings,
    );
    let ghost mut states: Seq<Integration> = seq![state];
    let ghost mut progress: Seq<Progress> = seq![];
    assert(attempts::<A, F, E>(*func, *event, states, progress));
    let mut i: u64 = 0;
    while i < limit
        invariant
            i <= limit,
            system(*func, y0@.len()),
            *event == terminating.event,
            count == terminating.count,
            events(*event, count as nat),
            state.well_formed(y0@.len(), count as nat),
            progress.len() == i,
            states.last() == state,
            attempts::<A, F, E>(*func, *event, states, progress),
            progress.len() > 0 ==> open_ended(progress.last()),
            states[0].begun::<A, F, E>(*func, *event, count as nat, t0, y0@, settings),
            t0 == t_span.0,
            settled::<A>(t_span, terminating.direction, rtol, atol, settings),
        decreases limit - i,
    {
        let p: Progress = state.attempt::<A, F, E>(func, event, count);
        proof {
            lemma_one_more::<A, F, E>(*func, *event, states, progress, state, p);
            states = states.push(state);
            progress = progress.push(p);
        }
        i = i + 1;
        if p == Progress::Failed {
            assert(solved_through::<A, F, E>(
                *func,
                *event,
                count as nat,
                t0,
                y0@,
                settings,
                limit as nat,
                states,
                progress,
                Err(IvpError::StepTooSmall),
            ));
            return Err(IvpError::StepTooSmall);
        }
        if p == Progress::Finished {
            let y: Vec<Vec<Double>> = transpose(&state.ys);
            let res: Result<OdeResult, IvpError> = Ok(
                OdeResult { y, t_event: state.t_event, t: state.ts },
            );
            assert(solved_through::<A, F, E>(
                *func,
                *event,
                count as nat,
                t0,
                y0@,
                settings,
                limit as nat,
                states,
                progress,
                res,
            ));
            return res;
        }
    }
    assert(solved_through::<A, F, E>(
        *func,
        *event,
        count as nat,
        t0,
        y0@,
        settings,
        limit as nat,
        states,
        progress,
        Err(IvpError::Unfinished),
    ));
    Err(IvpError::Unfinished)
}

/// Every state of an integration has recorded its first one; and none but the last can have met an
/// event, at which its record then ends.
pub(crate) proof fn lemma_records<
    A: Arithmetic,
    F: Fn(Double, &Vec<Double>) -> Vec<Double>,
    E: Fn(usize, Double, &Vec<Double>) -> Double,
>(
    func: F,
    event: E,
    count: nat,
    t0: Double,
    y0: Seq<Double>,
    settings: Settings,
    states: Seq<Integration>,
    progress: Seq<Progress>,
    i: int,
)
    requires
        attempts::<A, F, E>(func, event, states, progress),
        states[0].begun::<A, F, E>(func, event, count, t0, y0, settings),
        0 <= i < states.len(),
    ensures
        states[i].ts@.len() == states[i].ys@.len(),
        states[i].ts@.len() > 0,
        states[i].ts@[0] == t0,
        states[i].ys@[0]@ == y0,
        states[i].y@.len() == y0.len(),
        forall|j: int|
            0 <= j < states[i].ys@.len() ==> (#[trigger] states[i].ys@[j])@.len() == y0.len(),
        i < states.len() - 1 ==> states[i].t_event is None,
        states[i].t_event matches Some(te) ==> states[i].ts@.last() == te,
        i > 0 && progress[i - 1] == Progress::Finished ==> states[i].ts@.len() > 1,
    decreases i,
{
    if i > 0 {
        lemma_records::<A, F, E>(func, event, count, t0, y0, settings, states, progress, i - 1);
        let p = progress[i - 1];
        let a = states[i - 1];
        let b = states[i];
        assert(a.attempted::<A, F, E>(func, event, b, p));
        if i < states.len() - 1 {
            assert(open_ended(progress[i - 1]));
        }
        if b.ts@ != a.ts@ {
            assert(b.ys@.drop_last() == a.ys@);
            assert forall|j: int| 0 <= j < b.ys@.len() implies (#[trigger] b.ys@[j])@.len()
                == y0.len() by {
                if j < a.ys@.len() {
                    assert(b.ys@.drop_last()[j] == a.ys@[j]);
                }
            }
            assert(b.ys@.drop_last()[0] == a.ys@[0]);
        }
    }
}

} // verus!
