//! Root finding by bisection.
use crate::arithmetic::{
    deterministic, evaluates, formulas_have_one_result, fraction, given, parts_of_difference,
    parts_of_product, parts_of_sum, zero, Arithmetic, Formula,
};
use crate::double::Double;
use crate::rounding::{
    between, differences_in_reach, faithful, half_is_exact, half_stays_inside, in_reach,
    inner_points, products_are_rounded, rounding_cancels, steps_stay_between,
};
use crate::text::joined;
use vstd::prelude::*;

verus! {

/// The most iterations that a search makes.
pub const MAX_ITERATIONS: usize = 100;

/// How a search went.
#[derive(Debug)]
pub struct RootResults {
    pub root: Double,
    pub iterations: usize,
    pub function_calls: usize,
    pub converged: bool,
    pub flag: String,
}

/// Why a search failed.
#[derive(Debug)]
pub enum BisectError<E> {
    /// The ends of the interval do not have different signs.
    SignError(String),
    /// The search did not converge.
    ConvergenceError(RootResults),
    /// The function failed.
    FuncError(E),
}

impl<E> BisectError<E> {
    /// The message of the error, where `cause` is what the function's error says.
    pub fn message(&self, cause: &str) -> (res: String)
        ensures
            res@ == match self {
                BisectError::SignError(msg) => "ValueError: "@ + msg@,
                BisectError::ConvergenceError(results) => "RuntimeError: "@ + results.flag@,
                BisectError::FuncError(_) => "Error in passed-in function: "@ + cause@,
            },
    {
        proof {
            reveal_strlit("");
        }
        match self {
            BisectError::SignError(msg) => joined("ValueError: ", msg.as_str(), ""),
            BisectError::ConvergenceError(results) => joined(
                "RuntimeError: ",
                results.flag.as_str(),
                "",
            ),
            BisectError::FuncError(_) => joined("Error in passed-in function: ", cause, ""),
        }
    }
}

/// The ends of an interval. The function is negative at `a`.
#[derive(Clone, Copy, Debug, PartialEq, Eq, Structural)]
pub struct Bracket {
    pub a: Double,
    pub b: Double,
}

/// One iteration: where the function was evaluated, and to what.
pub struct Halving {
    pub mid: Double,
    pub value: Double,
}

impl Bracket {
    /// The interval's ends, the one where the function is not positive first.
    pub open spec fn oriented(a: Double, b: Double, fa: Double) -> Bracket {
        if zero().lt(fa) {
            Bracket { a: b, b: a }
        } else {
            Bracket { a, b }
        }
    }

    /// The middle of the interval.
    pub open spec fn middle(self) -> Formula {
        given(self.a).plus(given(self.b).minus(given(self.a)).times(fraction(1, 2)))
    }

    /// The half of the interval in which the function changes its sign.
    pub open spec fn narrowed(self, step: Halving) -> Bracket {
        if step.value.lt(zero()) {
            Bracket { a: step.mid, b: self.b }
        } else {
            Bracket { a: self.a, b: step.mid }
        }
    }

    /// How long the interval is.
    pub open spec fn width(self) -> Formula {
        given(self.b).minus(given(self.a)).size()
    }

    /// The interval is `w` long, and the tolerances ask for `limit`.
    pub open spec fn sized<A: Arithmetic>(
        self,
        mid: Double,
        xtol: Double,
        w: Double,
        limit: Double,
    ) -> bool {
        &&& evaluates::<A>(self.width(), w)
        &&& evaluates::<A>(tolerance(xtol, mid), limit)
    }

    /// Whether the interval is as short as the tolerances ask for.
    pub open spec fn tested<A: Arithmetic>(
        self,
        mid: Double,
        xtol: Double,
        close: bool,
    ) -> bool {
        exists|w: Double, limit: Double| #[trigger]
            self.sized::<A>(mid, xtol, w, limit) && close == w.le(limit)
    }

    /// The interval after the first `n` iterations.
    pub open spec fn after(self, steps: Seq<Halving>, n: nat) -> Bracket
        decreases n,
    {
        if n == 0 {
            self
        } else {
            self.after(steps, (n - 1) as nat).narrowed(steps[n - 1])
        }
    }
}

impl Bracket {
    /// The middle of the interval, computed so that little is lost to rounding.
    fn halve<A: Arithmetic>(&self) -> (res: Double)
        ensures
            evaluates::<A>(self.middle(), res),
    {
        proof {
            reveal_with_fuel(evaluates, 5);
        }
        A::sum(self.a, A::product(A::difference(self.b, self.a), A::ratio(1, 2)))
    }

    /// Whether the interval is as short as the tolerances ask for.
    fn is_short<A: Arithmetic>(&self, mid: Double, xtol: Double) -> (res: bool)
        ensures
            self.tested::<A>(mid, xtol, res),
    {
        let width: Double = A::difference(self.b, self.a).abs();
        let limit: Double = A::sum(xtol, A::product(A::ratio(1, 0x4_0000_0000_0000), mid.abs()));
        proof {
            reveal_with_fuel(evaluates, 5);
            assert(self.sized::<A>(mid, xtol, width, limit));
        }
        width.is_at_most(limit)
    }
}

/// The width at which a search stops: the absolute tolerance and `2^-50` of the middle.
pub open spec fn tolerance(xtol: Double, mid: Double) -> Formula {
    given(xtol).plus(fraction(1, 0x4_0000_0000_0000).times(given(mid).size()))
}

/// The iterations evaluate the function in the middle of what the ones before left over, and none
/// but the last found a zero or an interval that is short enough.
pub open spec fn halvings<A: Arithmetic, E, F: Fn(Double) -> Result<Double, E>>(
    func: F,
    start: Bracket,
    xtol: Double,
    steps: Seq<Halving>,
) -> bool {
    &&& forall|i: int|
        0 <= i < steps.len() ==> {
            &&& evaluates::<A>(start.after(steps, i as nat).middle(), (#[trigger] steps[i]).mid)
            &&& call_ensures(func, (steps[i].mid,), Ok::<Double, E>(steps[i].value))
        }
    &&& forall|i: int|
        0 <= i < steps.len() - 1 ==> goes_on::<A>(start, xtol, #[trigger] steps[i], steps, i)
}

/// Iteration `i` did not end the search.
pub open spec fn goes_on<A: Arithmetic>(
    start: Bracket,
    xtol: Double,
    step: Halving,
    steps: Seq<Halving>,
    i: int,
) -> bool {
    &&& !step.value.same(zero())
    &&& start.after(steps, (i + 1) as nat).tested::<A>(step.mid, xtol, false)
}

/// No iteration ended the search.
pub open spec fn unfinished<A: Arithmetic>(
    start: Bracket,
    xtol: Double,
    steps: Seq<Halving>,
) -> bool {
    steps.len() > 0 ==> goes_on::<A>(start, xtol, steps.last(), steps, steps.len() - 1)
}

/// The last iteration ended the search.
pub open spec fn ends<A: Arithmetic>(
    start: Bracket,
    xtol: Double,
    steps: Seq<Halving>,
) -> bool {
    ||| steps.len() == MAX_ITERATIONS
    ||| steps.last().value.same(zero())
    ||| start.after(steps, steps.len()).tested::<A>(steps.last().mid, xtol, true)
}

/// What is reported of a root that was found in `iterations` iterations.
pub open spec fn reported(results: RootResults, root: Double, iterations: nat) -> bool {
    &&& results.root == root
    &&& results.iterations == iterations
    &&& results.function_calls == iterations + 2
    &&& results.converged
    &&& results.flag@ == "converged"@
}

/// The function fails with `e` in the middle of what the iterations left over.
pub open spec fn failed_after<A: Arithmetic, E, F: Fn(Double) -> Result<Double, E>>(
    func: F,
    start: Bracket,
    steps: Seq<Halving>,
    e: E,
) -> bool {
    exists|mid: Double| #[trigger]
        call_ensures(func, (mid,), Err::<Double, E>(e)) && evaluates::<A>(
            start.after(steps, steps.len()).middle(),
            mid,
        )
}

/// What a search of an interval comes to in these iterations.
pub open spec fn searched_in<A: Arithmetic, E, F: Fn(Double) -> Result<Double, E>>(
    func: F,
    start: Bracket,
    xtol: Double,
    steps: Seq<Halving>,
    res: Result<(Double, RootResults), BisectError<E>>,
) -> bool {
    &&& halvings::<A, E, F>(func, start, xtol, steps)
    &&& match res {
        Ok((root, results)) => {
            &&& 0 < steps.len() <= MAX_ITERATIONS
            &&& ends::<A>(start, xtol, steps)
            &&& root == steps.last().mid
            &&& reported(results, root, steps.len())
        },
        Err(BisectError::FuncError(e)) => {
            &&& steps.len() < MAX_ITERATIONS
            &&& unfinished::<A>(start, xtol, steps)
            &&& failed_after::<A, E, F>(func, start, steps, e)
        },
        _ => false,
    }
}

/// What a search of an interval comes to.
pub open spec fn searched<A: Arithmetic, E, F: Fn(Double) -> Result<Double, E>>(
    func: F,
    start: Bracket,
    xtol: Double,
    res: Result<(Double, RootResults), BisectError<E>>,
) -> bool {
    exists|steps: Seq<Halving>| #[trigger] searched_in::<A, E, F>(func, start, xtol, steps, res)
}

/// What bisection comes to where the function is `fa` and `fb` at the ends.
pub open spec fn bracketed<A: Arithmetic, E, F: Fn(Double) -> Result<Double, E>>(
    func: F,
    a: Double,
    b: Double,
    fa: Double,
    fb: Double,
    xtol: Double,
    res: Result<(Double, RootResults), BisectError<E>>,
) -> bool {
    exists|p: Double| #[trigger]
        evaluates::<A>(given(fa).times(given(fb)), p) && if zero().lt(p) {
            res matches Err(BisectError::SignError(msg)) && msg@
                == "f(a) and f(b) must have different signs"@
        } else if fa.same(zero()) {
            res matches Ok((root, results)) && root == a && reported(results, a, 0)
        } else if fb.same(zero()) {
            res matches Ok((root, results)) && root == b && reported(results, b, 0)
        } else {
            searched::<A, E, F>(func, Bracket::oriented(a, b, fa), xtol, res)
        }
}

/// What bisection comes to.
pub open spec fn bisected<A: Arithmetic, E, F: Fn(Double) -> Result<Double, E>>(
    func: F,
    a: Double,
    b: Double,
    xtol: Double,
    res: Result<(Double, RootResults), BisectError<E>>,
) -> bool {
    ||| res matches Err(BisectError::FuncError(e)) && call_ensures(
        func,
        (a,),
        Err::<Double, E>(e),
    )
    ||| exists|fa: Double| #[trigger]
        call_ensures(func, (a,), Ok::<Double, E>(fa)) && {
            ||| res matches Err(BisectError::FuncError(e)) && call_ensures(
                func,
                (b,),
                Err::<Double, E>(e),
            )
            ||| exists|fb: Double| #[trigger]
                call_ensures(func, (b,), Ok::<Double, E>(fb)) && bracketed::<A, E, F>(
                    func,
                    a,
                    b,
                    fa,
                    fb,
                    xtol,
                    res,
                )
        }
}

fn report(root: Double, iterations: usize) -> (res: RootResults)
    requires
        iterations <= MAX_ITERATIONS,
    ensures
        reported(res, root, iterations as nat),
{
    RootResults {
        root,
        iterations,
        function_calls: iterations + 2,
        converged: true,
        flag: "converged".to_owned(),
    }
}

/// Finds a root of `func` between `a` and `b`, where it must have different signs, by halving the
/// interval until it is as short as `xtol` and a relative tolerance of `2^-50` ask for, or for the
/// most iterations allowed.
pub fn bisect<A: Arithmetic, E, F: Fn(Double) -> Result<Double, E>>(
    func: F,
    a: Double,
    b: Double,
    xtol: Double,
) -> (res: Result<(Double, RootResults), BisectError<E>>)
    requires
        forall|x: Double| call_requires(func, (x,)),
    ensures
        bisected::<A, E, F>(func, a, b, xtol, res),
{
    let fa: Double = match func(a) {
        Ok(v) => v,
        Err(e) => {
            return Err(BisectError::FuncError(e));
        },
    };
    let fb: Double = match func(b) {
        Ok(v) => v,
        Err(e) => {
            return Err(BisectError::FuncError(e));
        },
    };
    proof {
        reveal_with_fuel(evaluates, 5);
    }
    let p: Double = A::product(fa, fb);
    assert(evaluates::<A>(given(fa).times(given(fb)), p));
    if zero().is_less(p) {
        return Err(
            BisectError::SignError("f(a) and f(b) must have different signs".to_owned()),
        );
    }
    if fa.is_same(zero()) {
        return Ok((a, report(a, 0)));
    }
    if fb.is_same(zero()) {
        return Ok((b, report(b, 0)));
    }
    let mut bracket: Bracket = if zero().is_less(fa) {
        Bracket { a: b, b: a }
    } else {
        Bracket { a, b }
    };
    let ghost start = bracket;
    let ghost mut steps: Seq<Halving> = Seq::empty();
    let mut iterations: usize = 0;
    let mut mid: Double = bracket.a;
    let mut done: bool = false;
    while !done && iterations < MAX_ITERATIONS
        invariant
            forall|x: Double| call_requires(func, (x,)),
            start == Bracket::oriented(a, b, fa),
            call_ensures(func, (a,), Ok::<Double, E>(fa)),
            call_ensures(func, (b,), Ok::<Double, E>(fb)),
            evaluates::<A>(given(fa).times(given(fb)), p),
            !zero().lt(p),
            !fa.same(zero()),
            !fb.same(zero()),
            iterations <= MAX_ITERATIONS,
            steps.len() == iterations,
            done ==> iterations > 0,
            iterations > 0 ==> mid == steps.last().mid,
            halvings::<A, E, F>(func, start, xtol, steps),
            done ==> ends::<A>(start, xtol, steps),
            !done ==> bracket == start.after(steps, steps.len()),
            !done ==> unfinished::<A>(start, xtol, steps),
        decreases MAX_ITERATIONS - iterations,
    {
        mid = bracket.halve::<A>();
        let fmid: Double = match func(mid) {
            Ok(v) => v,
            Err(e) => {
                assert(failed_after::<A, E, F>(func, start, steps, e));
                let res: Result<(Double, RootResults), BisectError<E>> = Err(
                    BisectError::FuncError(e),
                );
                assert(searched_in::<A, E, F>(func, start, xtol, steps, res));
                return res;
            },
        };
        iterations = iterations + 1;
        let ghost step = Halving { mid, value: fmid };
        proof {
            lemma_one_more::<A, E, F>(func, start, xtol, steps, step);
            steps = steps.push(step);
        }
        if fmid.is_same(zero()) {
            done = true;
        } else {
            if fmid.is_less(zero()) {
                bracket = Bracket { a: mid, b: bracket.b };
            } else {
                bracket = Bracket { a: bracket.a, b: mid };
            }
            done = bracket.is_short::<A>(mid, xtol);
        }
    }
    let res: Result<(Double, RootResults), BisectError<E>> = Ok((mid, report(mid, iterations)));
    assert(searched_in::<A, E, F>(func, start, xtol, steps, res));
    res
}

/// One more iteration keeps what holds of the iterations before, and narrows the interval.
proof fn lemma_one_more<A: Arithmetic, E, F: Fn(Double) -> Result<Double, E>>(
    func: F,
    start: Bracket,
    xtol: Double,
    before: Seq<Halving>,
    step: Halving,
)
    requires
        halvings::<A, E, F>(func, start, xtol, before),
        unfinished::<A>(start, xtol, before),
        evaluates::<A>(start.after(before, before.len()).middle(), step.mid),
        call_ensures(func, (step.mid,), Ok::<Double, E>(step.value)),
    ensures
        halvings::<A, E, F>(func, start, xtol, before.push(step)),
        start.after(before.push(step), before.len() + 1) == start.after(
            before,
            before.len(),
        ).narrowed(step),
{
    let steps = before.push(step);
    lemma_after_prefix(start, before, steps);
    assert forall|i: int| 0 <= i < steps.len() implies {
        &&& evaluates::<A>(start.after(steps, i as nat).middle(), (#[trigger] steps[i]).mid)
        &&& call_ensures(func, (steps[i].mid,), Ok::<Double, E>(steps[i].value))
    } by {
        if i < before.len() {
            assert(steps[i] == before[i]);
        }
    }
    assert forall|i: int| 0 <= i < steps.len() - 1 implies goes_on::<A>(
        start,
        xtol,
        #[trigger] steps[i],
        steps,
        i,
    ) by {
        assert(steps[i] == before[i]);
        assert(goes_on::<A>(start, xtol, before[i], before, i));
        assert(start.after(steps, (i + 1) as nat) == start.after(before, (i + 1) as nat));
    }
}

/// Iterations that come later do not change the interval that earlier ones left over.
proof fn lemma_after_prefix(start: Bracket, before: Seq<Halving>, steps: Seq<Halving>)
    requires
        before.len() <= steps.len(),
        forall|i: int| 0 <= i < before.len() ==> before[i] == steps[i],
    ensures
        forall|i: nat| i <= before.len() ==> #[trigger] start.after(steps, i) == start.after(before, i),
{
    assert forall|i: nat| i <= before.len() implies #[trigger] start.after(steps, i)
        == start.after(before, i) by {
        lemma_after_same(start, before, steps, i);
    }
}

proof fn lemma_after_same(start: Bracket, before: Seq<Halving>, steps: Seq<Halving>, i: nat)
    requires
        i <= before.len() <= steps.len(),
        forall|j: int| 0 <= j < before.len() ==> before[j] == steps[j],
    ensures
        start.after(steps, i) == start.after(before, i),
    decreases i,
{
    if i > 0 {
        lemma_after_same(start, before, steps, (i - 1) as nat);
        assert(before[i - 1] == steps[i - 1]);
    }
}

/// The interval keeps a change of sign: each of its ends is an end that it began with, or a point
/// at which the function was found to be negative, for the one, or not negative, for the other.
pub proof fn bisection_keeps_the_bracket(start: Bracket, steps: Seq<Halving>, n: nat)
    requires
        n <= steps.len(),
    ensures
        start.after(steps, n).a == start.a || exists|i: int|
            0 <= i < n && (#[trigger] steps[i]).mid == start.after(steps, n).a
                && steps[i].value.lt(zero()),
        start.after(steps, n).b == start.b || exists|i: int|
            0 <= i < n && (#[trigger] steps[i]).mid == start.after(steps, n).b
                && !steps[i].value.lt(zero()),
    decreases n,
{
    if n > 0 {
        bisection_keeps_the_bracket(start, steps, (n - 1) as nat);
        assert(steps[n - 1] == steps[n - 1]);
    }
}

/// The function is a function: what it gives depends on the point alone; and it gives a value
/// everywhere.
pub open spec fn pure_function<E, F: Fn(Double) -> Result<Double, E>>(func: F) -> bool {
    &&& forall|x: Double, v: Double, w: Double| #[trigger]
        call_ensures(func, (x,), Ok::<Double, E>(v)) && #[trigger] call_ensures(
            func,
            (x,),
            Ok::<Double, E>(w),
        ) ==> v == w
    &&& forall|x: Double, e: E| !#[trigger] call_ensures(func, (x,), Err::<Double, E>(e))
}

/// Whether an interval is short enough has one answer.
proof fn lemma_tested_once<A: Arithmetic>(
    b: Bracket,
    mid: Double,
    xtol: Double,
    first: bool,
    second: bool,
)
    requires
        deterministic::<A>(),
        b.tested::<A>(mid, xtol, first),
        b.tested::<A>(mid, xtol, second),
    ensures
        first == second,
{
    let (w, limit): (Double, Double) = choose|w: Double, limit: Double| #[trigger]
        b.sized::<A>(mid, xtol, w, limit) && first == w.le(limit);
    let (x, other): (Double, Double) = choose|w: Double, limit: Double| #[trigger]
        b.sized::<A>(mid, xtol, w, limit) && second == w.le(limit);
    formulas_have_one_result::<A>(b.width(), w, x);
    formulas_have_one_result::<A>(tolerance(xtol, mid), limit, other);
}

/// Two runs of the same search make the same iterations, as far as both go.
proof fn lemma_same_steps<A: Arithmetic, E, F: Fn(Double) -> Result<Double, E>>(
    func: F,
    start: Bracket,
    xtol: Double,
    s: Seq<Halving>,
    t: Seq<Halving>,
    n: nat,
)
    requires
        deterministic::<A>(),
        pure_function::<E, F>(func),
        halvings::<A, E, F>(func, start, xtol, s),
        halvings::<A, E, F>(func, start, xtol, t),
        n <= s.len(),
        n <= t.len(),
    ensures
        s.take(n as int) == t.take(n as int),
        start.after(s, n) == start.after(t, n),
    decreases n,
{
    if n > 0 {
        let m = (n - 1) as nat;
        lemma_same_steps::<A, E, F>(func, start, xtol, s, t, m);
        let a = s[m as int];
        let b = t[m as int];
        formulas_have_one_result::<A>(start.after(s, m).middle(), a.mid, b.mid);
        assert(a.value == b.value);
        assert(s.take(n as int) =~= s.take(m as int).push(a));
        assert(t.take(n as int) =~= t.take(m as int).push(b));
    } else {
        assert(s.take(0) =~= t.take(0));
    }
}

/// A search that ended cannot have gone on.
proof fn lemma_no_longer<A: Arithmetic, E, F: Fn(Double) -> Result<Double, E>>(
    func: F,
    start: Bracket,
    xtol: Double,
    s: Seq<Halving>,
    t: Seq<Halving>,
)
    requires
        deterministic::<A>(),
        pure_function::<E, F>(func),
        halvings::<A, E, F>(func, start, xtol, s),
        halvings::<A, E, F>(func, start, xtol, t),
        0 < s.len() <= t.len() <= MAX_ITERATIONS,
        ends::<A>(start, xtol, s),
    ensures
        s == t,
{
    let n = s.len();
    lemma_same_steps::<A, E, F>(func, start, xtol, s, t, n);
    assert(s.take(n as int) =~= s);
    if n < t.len() {
        let i = n - 1;
        assert(t.take(n as int)[i] == t[i]);
        assert(s.last() == t[i]);
        assert(goes_on::<A>(start, xtol, t[i], t, i));
        if start.after(s, n).tested::<A>(s.last().mid, xtol, true) {
            lemma_tested_once::<A>(start.after(s, n), s.last().mid, xtol, true, false);
        }
    }
    assert(t.take(t.len() as int) =~= t);
}

/// Two successful searches are reported alike.
pub open spec fn same_root(a: (Double, RootResults), b: (Double, RootResults)) -> bool {
    &&& a.0 == b.0
    &&& a.1.root == b.1.root
    &&& a.1.iterations == b.1.iterations
    &&& a.1.function_calls == b.1.function_calls
    &&& a.1.converged == b.1.converged
    &&& a.1.flag@ == b.1.flag@
}

/// A search of an interval has one result.
proof fn lemma_searched_once<A: Arithmetic, E, F: Fn(Double) -> Result<Double, E>>(
    func: F,
    start: Bracket,
    xtol: Double,
    first: Result<(Double, RootResults), BisectError<E>>,
    second: Result<(Double, RootResults), BisectError<E>>,
)
    requires
        deterministic::<A>(),
        pure_function::<E, F>(func),
        searched::<A, E, F>(func, start, xtol, first),
        searched::<A, E, F>(func, start, xtol, second),
    ensures
        first is Ok,
        second is Ok,
        same_root(first->Ok_0, second->Ok_0),
{
    let s = choose|steps: Seq<Halving>| #[trigger]
        searched_in::<A, E, F>(func, start, xtol, steps, first);
    let t = choose|steps: Seq<Halving>| #[trigger]
        searched_in::<A, E, F>(func, start, xtol, steps, second);
    if s.len() <= t.len() {
        lemma_no_longer::<A, E, F>(func, start, xtol, s, t);
    } else {
        lemma_no_longer::<A, E, F>(func, start, xtol, t, s);
    }
}

/// The product of two values is positive exactly where they have the same sign.
pub open spec fn signs_multiply<A: Arithmetic>(x: Double, y: Double) -> bool {
    forall|p: Double| #[trigger]
        evaluates::<A>(given(x).times(given(y)), p) ==> (zero().lt(p) <==> (zero().lt(x)
            == zero().lt(y)))
}

/// The order of the two ends does not matter: bisection between them gives the same root, found
/// alike, or the same complaint about their signs. The ends are no roots, and their product has the
/// sign that it should have, which may fail where it is too small for a double.
pub proof fn order_of_ends_does_not_matter<
    A: Arithmetic,
    E,
    F: Fn(Double) -> Result<Double, E>,
>(
    func: F,
    a: Double,
    b: Double,
    fa: Double,
    fb: Double,
    xtol: Double,
    first: Result<(Double, RootResults), BisectError<E>>,
    second: Result<(Double, RootResults), BisectError<E>>,
)
    requires
        deterministic::<A>(),
        pure_function::<E, F>(func),
        call_ensures(func, (a,), Ok::<Double, E>(fa)),
        call_ensures(func, (b,), Ok::<Double, E>(fb)),
        !fa.nan() && !fa.same(zero()),
        !fb.nan() && !fb.same(zero()),
        signs_multiply::<A>(fa, fb),
        signs_multiply::<A>(fb, fa),
        bisected::<A, E, F>(func, a, b, xtol, first),
        bisected::<A, E, F>(func, b, a, xtol, second),
    ensures
        match (first, second) {
            (Ok(x), Ok(y)) => same_root(x, y),
            (Err(BisectError::SignError(x)), Err(BisectError::SignError(y))) => x@ == y@,
            _ => false,
        },
{
    assert(bracketed::<A, E, F>(func, a, b, fa, fb, xtol, first));
    assert(bracketed::<A, E, F>(func, b, a, fb, fa, xtol, second));
    if zero().lt(fa) != zero().lt(fb) {
        let start = Bracket::oriented(a, b, fa);
        assert(start == Bracket::oriented(b, a, fb));
        assert(searched::<A, E, F>(func, start, xtol, first));
        assert(searched::<A, E, F>(func, start, xtol, second));
        lemma_searched_once::<A, E, F>(func, start, xtol, first, second);
    }
}

/// The middle of an interval lies between its ends, where they are in reach of each other.
proof fn lemma_middle<A: Arithmetic>(bracket: Bracket, mid: Double)
    requires
        faithful::<A>(),
        bracket.a.finite(),
        bracket.b.finite(),
        in_reach(bracket.a, bracket.b),
        evaluates::<A>(bracket.middle(), mid),
    ensures
        mid.finite(),
        between(bracket.a, mid, bracket.b),
{
    let (a, b): (Double, Double) = (bracket.a, bracket.b);
    let way = given(b).minus(given(a));
    let (x, m): (Double, Double) = parts_of_sum::<A>(given(a), way.times(fraction(1, 2)), mid);
    let (d, h): (Double, Double) = parts_of_product::<A>(way, fraction(1, 2), m);
    let (y, z): (Double, Double) = parts_of_difference::<A>(given(b), given(a), d);
    differences_in_reach::<A>(a, b, d);
    half_is_exact::<A>(h);
    products_are_rounded::<A>(d, h, m);
    rounding_cancels(d.value(), 2, h.value(), m);
    half_stays_inside(b.value() - a.value(), d, m);
    steps_stay_between::<A>(a, b, m, mid);
}

impl Bracket {
    /// The interval lies in `outer`, and its ends are in reach of each other.
    pub open spec fn inside(self, outer: Bracket) -> bool {
        &&& self.a.finite()
        &&& self.b.finite()
        &&& in_reach(self.a, self.b)
        &&& between(outer.a, self.a, outer.b)
        &&& between(outer.a, self.b, outer.b)
    }
}

/// Both halves of an interval lie where it lies, and so does its middle.
proof fn lemma_halves<A: Arithmetic>(outer: Bracket, b: Bracket, mid: Double)
    requires
        faithful::<A>(),
        b.inside(outer),
        evaluates::<A>(b.middle(), mid),
    ensures
        between(b.a, mid, b.b),
        between(outer.a, mid, outer.b),
        (Bracket { a: mid, b: b.b }).inside(outer),
        (Bracket { a: b.a, b: mid }).inside(outer),
{
    lemma_middle::<A>(b, mid);
    inner_points(b.a, mid, b.b);
}

/// The interval after `n` iterations lies in the one that the search began with.
proof fn lemma_inside<A: Arithmetic, E, F: Fn(Double) -> Result<Double, E>>(
    func: F,
    start: Bracket,
    xtol: Double,
    steps: Seq<Halving>,
    n: nat,
)
    requires
        faithful::<A>(),
        start.inside(start),
        halvings::<A, E, F>(func, start, xtol, steps),
        n <= steps.len(),
    ensures
        start.after(steps, n).inside(start),
    decreases n,
{
    if n > 0 {
        let m = (n - 1) as nat;
        lemma_inside::<A, E, F>(func, start, xtol, steps, m);
        lemma_halves::<A>(start, start.after(steps, m), steps[m as int].mid);
    }
}

/// Every interval of a search lies in the one that it began with, and every middle lies between the
/// ends of its interval. The ends are in reach of each other: the distance between `-1e308` and
/// `1e308` is no double, and their middle is infinite.
pub proof fn halvings_stay_inside<A: Arithmetic, E, F: Fn(Double) -> Result<Double, E>>(
    func: F,
    start: Bracket,
    xtol: Double,
    steps: Seq<Halving>,
    i: int,
)
    requires
        faithful::<A>(),
        start.a.finite(),
        start.b.finite(),
        in_reach(start.a, start.b),
        halvings::<A, E, F>(func, start, xtol, steps),
        0 <= i < steps.len(),
    ensures
        start.after(steps, i as nat).inside(start),
        between(
            start.after(steps, i as nat).a,
            steps[i].mid,
            start.after(steps, i as nat).b,
        ),
        between(start.a, steps[i].mid, start.b),
{
    assert(!start.a.nan() && !start.b.nan());
    assert(start.inside(start));
    lemma_inside::<A, E, F>(func, start, xtol, steps, i as nat);
    lemma_halves::<A>(start, start.after(steps, i as nat), steps[i].mid);
}

/// A root that bisection finds lies between the ends, which are in reach of each other.
pub proof fn roots_lie_between_the_ends<A: Arithmetic, E, F: Fn(Double) -> Result<Double, E>>(
    func: F,
    a: Double,
    b: Double,
    xtol: Double,
    root: Double,
    results: RootResults,
)
    requires
        faithful::<A>(),
        a.finite(),
        b.finite(),
        in_reach(a, b),
        bisected::<A, E, F>(func, a, b, xtol, Ok((root, results))),
    ensures
        between(a, root, b),
{
    let res = Ok::<(Double, RootResults), BisectError<E>>((root, results));
    let (fa, fb): (Double, Double) = choose|fa: Double, fb: Double| #[trigger]
        bracketed::<A, E, F>(func, a, b, fa, fb, xtol, res);
    assert(!a.nan() && !b.nan());
    if root != a && root != b {
        let start = Bracket::oriented(a, b, fa);
        assert(searched::<A, E, F>(func, start, xtol, res));
        let steps = choose|steps: Seq<Halving>| #[trigger]
            searched_in::<A, E, F>(func, start, xtol, steps, res);
        halvings_stay_inside::<A, E, F>(func, start, xtol, steps, steps.len() - 1);
    }
}

} // verus!
