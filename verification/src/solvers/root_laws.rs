//! What the searches for roots come to where the arithmetic is exact.
use crate::arithmetic::{
    evaluates, fraction, given, part_of_opposite, part_of_size, zero, Arithmetic,
};
use crate::double::Double;
use crate::exact::{
    exact_difference_of, exact_fraction_of, exact_in, exact_product_of, exact_quotient_of,
    exact_sum_of, ordered_in, size, sizes_are_exact,
};
use crate::solvers::bisect::{
    bisected, bisection_keeps_the_bracket, bracketed, halvings, reported, searched, searched_in,
    Bracket, BisectError, Halving, RootResults,
};
use crate::solvers::brent::Search;
use vstd::prelude::*;

verus! {

/// Where bisection looks next is half way between the ends.
pub proof fn middles_are_half_way<A: Arithmetic>(
    bracket: Bracket,
    mid: Double,
    num: spec_fn(Double) -> real,
)
    requires
        exact_in::<A>(num),
        evaluates::<A>(bracket.middle(), mid),
        !mid.nan(),
    ensures
        2real * num(mid) == num(bracket.a) + num(bracket.b),
{
    let way = given(bracket.b).minus(given(bracket.a));
    let (p, q): (Double, Double) = exact_sum_of::<A>(
        given(bracket.a),
        way.times(fraction(1, 2)),
        mid,
        num,
    );
    let (r, s): (Double, Double) = exact_product_of::<A>(way, fraction(1, 2), q, num);
    let (m, n): (Double, Double) = exact_difference_of::<A>(
        given(bracket.b),
        given(bracket.a),
        r,
        num,
    );
    exact_fraction_of::<A>(1, 2, s, num);
    let (x, y): (real, real) = (num(r), num(s));
    assert(2real * (x * y) == x * (y * 2real)) by (nonlinear_arith);
}

/// Two, doubled `n` times from one on.
pub open spec fn doublings(n: nat) -> real
    decreases n,
{
    if n == 0 {
        1real
    } else {
        2real * doublings((n - 1) as nat)
    }
}

/// Every iteration of a bisection halves the interval.
pub proof fn bisection_halves_the_interval<A: Arithmetic, E, F: Fn(Double) -> Result<Double, E>>(
    func: F,
    start: Bracket,
    xtol: Double,
    steps: Seq<Halving>,
    n: nat,
    num: spec_fn(Double) -> real,
)
    requires
        exact_in::<A>(num),
        halvings::<A, E, F>(func, start, xtol, steps),
        n <= steps.len(),
        forall|i: int| 0 <= i < n ==> !(#[trigger] steps[i]).mid.nan(),
    ensures
        ({
            let left = start.after(steps, n);
            size(num(left.b) - num(left.a)) * doublings(n) == size(num(start.b) - num(start.a))
        }),
    decreases n,
{
    if n > 0 {
        let m = (n - 1) as nat;
        bisection_halves_the_interval::<A, E, F>(func, start, xtol, steps, m, num);
        let before = start.after(steps, m);
        assert(!steps[m as int].mid.nan());
        middles_are_half_way::<A>(before, steps[m as int].mid, num);
        let left = start.after(steps, n);
        let (w, v, d): (real, real, real) = (
            size(num(left.b) - num(left.a)),
            size(num(before.b) - num(before.a)),
            doublings(m),
        );
        assert(2real * w == v);
        assert(w * (2real * d) == (2real * w) * d) by (nonlinear_arith);
    } else {
        let w = size(num(start.b) - num(start.a));
        assert(w * 1real == w) by (nonlinear_arith);
    }
}

/// The bracket is no longer than the absolute tolerance and `2^-50` of the size of `root`.
pub open spec fn short_at(
    left: Bracket,
    root: Double,
    xtol: Double,
    num: spec_fn(Double) -> real,
) -> bool {
    0x4_0000_0000_0000real * (size(num(left.b) - num(left.a)) - num(xtol)) <= size(num(root))
}

/// The function was asked for at `x`: it is an end that the search began with, or one where the
/// function has the sign that it should have.
pub open spec fn an_end<E, F: Fn(Double) -> Result<Double, E>>(
    func: F,
    a: Double,
    b: Double,
    x: Double,
    below: bool,
) -> bool {
    ||| x == a
    ||| x == b
    ||| exists|v: Double| #[trigger]
        call_ensures(func, (x,), Ok::<Double, E>(v)) && v.lt(zero()) == below
}

/// A bisection that finds a root reports that root, how many iterations it took and how often it
/// asked for the function. It ends where the function is zero, or where the ends of what is left
/// are as close as the tolerances ask for and the root is one of them, or after a hundred
/// iterations.
pub proof fn bisection_ends_for_cause<A: Arithmetic, E, F: Fn(Double) -> Result<Double, E>>(
    func: F,
    a: Double,
    b: Double,
    xtol: Double,
    root: Double,
    results: RootResults,
    num: spec_fn(Double) -> real,
) -> (found: (Double, Bracket))
    requires
        exact_in::<A>(num),
        ordered_in(num),
        bisected::<A, E, F>(
            func,
            a,
            b,
            xtol,
            Ok::<(Double, RootResults), BisectError<E>>((root, results)),
        ),
    ensures
        results.root == root,
        results.function_calls == results.iterations + 2,
        results.iterations <= 100,
        results.converged,
        results.flag@ == "converged"@,
        call_ensures(func, (root,), Ok::<Double, E>(found.0)),
        found.0.same(zero()) || results.iterations == 100 || (short_at(found.1, root, xtol,
            num) && (
        root == found.1.a || root == found.1.b) && an_end::<E, F>(func, a, b, found.1.a, true)
            && an_end::<E, F>(func, a, b, found.1.b, false)),
{
    let res: Result<(Double, RootResults), BisectError<E>> = Ok((root, results));
    let fa = choose|fa: Double| #[trigger]
        call_ensures(func, (a,), Ok::<Double, E>(fa)) && {
            exists|fb: Double| #[trigger]
                call_ensures(func, (b,), Ok::<Double, E>(fb)) && bracketed::<A, E, F>(
                    func,
                    a,
                    b,
                    fa,
                    fb,
                    xtol,
                    res,
                )
        };
    let fb = choose|fb: Double| #[trigger]
        call_ensures(func, (b,), Ok::<Double, E>(fb)) && bracketed::<A, E, F>(
            func,
            a,
            b,
            fa,
            fb,
            xtol,
            res,
        );
    let start = Bracket::oriented(a, b, fa);
    if fa.same(zero()) {
        (fa, start)
    } else if fb.same(zero()) {
        (fb, start)
    } else {
        assert(searched::<A, E, F>(func, start, xtol, res));
        let steps = choose|steps: Seq<Halving>| #[trigger]
            searched_in::<A, E, F>(func, start, xtol, steps, res);
        let n = steps.len();
        let last = steps[n - 1];
        assert(steps.last() == last);
        assert(call_ensures(func, (last.mid,), Ok::<Double, E>(last.value)));
        let left = start.after(steps, n);
        if !last.value.same(zero()) && n < 100 {
            lemma_short::<A>(left, last.mid, xtol, num);
            bisection_keeps_the_bracket(start, steps, n);
            assert forall|i: int| 0 <= i < n implies call_ensures(
                func,
                ((#[trigger] steps[i]).mid,),
                Ok::<Double, E>(steps[i].value),
            ) by {}
        }
        (last.value, left)
    }
}

/// An interval that passes the test is short, exactly.
proof fn lemma_short<A: Arithmetic>(
    left: Bracket,
    mid: Double,
    xtol: Double,
    num: spec_fn(Double) -> real,
)
    requires
        exact_in::<A>(num),
        ordered_in(num),
        left.tested::<A>(mid, xtol, true),
    ensures
        short_at(left, mid, xtol, num),
{
    let (w, limit): (Double, Double) = choose|w: Double, limit: Double| #[trigger]
        left.sized::<A>(mid, xtol, w, limit) && w.le(limit);
    assert(num(w) <= num(limit)) by {
        reveal(ordered_in);
        assert(w.le(limit) == (num(w) <= num(limit)));
    }
    let d = part_of_size::<A>(given(left.b).minus(given(left.a)), w);
    assert(!d.nan());
    let (p, q): (Double, Double) = exact_difference_of::<A>(given(left.b), given(left.a), d, num);
    sizes_are_exact::<A>(d, num);
    let part = fraction(1, 0x4_0000_0000_0000).times(given(mid).size());
    let (r, s): (Double, Double) = exact_sum_of::<A>(given(xtol), part, limit, num);
    let (u, v): (Double, Double) = exact_product_of::<A>(
        fraction(1, 0x4_0000_0000_0000),
        given(mid).size(),
        s,
        num,
    );
    exact_fraction_of::<A>(1, 0x4_0000_0000_0000, u, num);
    let m = part_of_size::<A>(given(mid), v);
    assert(!mid.nan());
    sizes_are_exact::<A>(mid, num);
    let (x, y): (real, real) = (num(u), num(v));
    assert(0x4_0000_0000_0000real * (x * y) == (x * 0x4_0000_0000_0000real) * y)
        by (nonlinear_arith);
}

/// What is no zero can be cancelled.
proof fn lemma_cancel(x: real, y: real, e: real)
    requires
        x * e == y * e,
        e != 0real,
    ensures
        x == y,
{
    assert((x - y) * e == x * e - y * e) by (nonlinear_arith);
    let d = x - y;
    assert(d == 0real) by (nonlinear_arith)
        requires
            d * e == 0real,
            e != 0real,
    ;
}

/// The slope of a straight line, from two of its points.
proof fn lemma_slope(slope: real, x: real, y: real, fx: real, fy: real, r: real, d: real)
    requires
        fx == slope * (x - r),
        fy == slope * (y - r),
        d * (y - x) == fy - fx,
        y - x != 0real,
    ensures
        d == slope,
{
    assert(slope * (y - r) - slope * (x - r) == slope * (y - x)) by (nonlinear_arith);
    lemma_cancel(d, slope, y - x);
}

/// The secant of a straight line meets its root.
proof fn lemma_secant(slope: real, x: real, y: real, fx: real, fy: real, r: real, s: real)
    requires
        fx == slope * (x - r),
        fy == slope * (y - r),
        fx - fy != 0real,
        s * (fx - fy) == (-fx) * (x - y),
    ensures
        x + s == r,
{
    let e = x - y;
    let g = x - r;
    assert(slope * (x - r) - slope * (y - r) == slope * (x - y)) by (nonlinear_arith);
    assert(s * (slope * e) == (-(slope * g)) * e);
    assert((-(slope * g)) * e == (-g) * (slope * e)) by (nonlinear_arith);
    lemma_cancel(s, -g, slope * e);
}

/// The parabola through three points of a straight line meets its root.
proof fn lemma_parabola(slope: real, x: real, fx: real, fp: real, fb: real, r: real, s: real)
    requires
        fx == slope * (x - r),
        s * (slope * slope * (fb - fp)) == (-fx) * (fb * slope - fp * slope),
        slope * slope * (fb - fp) != 0real,
    ensures
        x + s == r,
{
    let g = x - r;
    let w = fb - fp;
    assert((-(slope * g)) * (fb * slope - fp * slope) == (-g) * (slope * slope * (fb - fp)))
        by (nonlinear_arith);
    lemma_cancel(s, -g, slope * slope * w);
}

/// On a straight line, the step that Brent's method tries leads from the current point to the root,
/// be it by the secant or by the parabola through three points.
pub proof fn trial_steps_solve_straight_lines<A: Arithmetic>(
    s: Search,
    stry: Double,
    slope: real,
    root: real,
    num: spec_fn(Double) -> real,
)
    requires
        exact_in::<A>(num),
        s.trial_step::<A>(stry),
        !stry.nan(),
        num(s.fcur) == slope * (num(s.xcur) - root),
        num(s.fpre) == slope * (num(s.xpre) - root),
        num(s.fblk) == slope * (num(s.xblk) - root),
    ensures
        num(s.xcur) + num(stry) == root,
{
    let back = given(s.fcur).negated();
    if s.xpre.same(s.xblk) {
        let (n, d): (Double, Double) = exact_quotient_of::<A>(
            back.times(given(s.xcur).minus(given(s.xpre))),
            given(s.fcur).minus(given(s.fpre)),
            stry,
            num,
        );
        let (p, q): (Double, Double) = exact_product_of::<A>(
            back,
            given(s.xcur).minus(given(s.xpre)),
            n,
            num,
        );
        lemma_negated::<A>(s.fcur, p, num);
        let (q0, q1): (Double, Double) = exact_difference_of::<A>(
            given(s.xcur),
            given(s.xpre),
            q,
            num,
        );
        let (d0, d1): (Double, Double) = exact_difference_of::<A>(
            given(s.fcur),
            given(s.fpre),
            d,
            num,
        );
        lemma_secant(
            slope,
            num(s.xcur),
            num(s.xpre),
            num(s.fcur),
            num(s.fpre),
            root,
            num(stry),
        );
    } else {
        let (dpre, dblk): (Double, Double) = choose|dpre: Double, dblk: Double| #[trigger]
            evaluates::<A>(s.parabola_step(dpre, dblk), stry) && s.sloped::<A>(dpre, dblk);
        let above = given(s.fblk).times(given(dblk)).minus(given(s.fpre).times(given(dpre)));
        let below = given(dblk).times(given(dpre)).times(given(s.fblk).minus(given(s.fpre)));
        let (n, d): (Double, Double) = exact_quotient_of::<A>(
            back.times(above),
            below,
            stry,
            num,
        );
        let (p, q): (Double, Double) = exact_product_of::<A>(back, above, n, num);
        lemma_negated::<A>(s.fcur, p, num);
        let (u, v): (Double, Double) = exact_difference_of::<A>(
            given(s.fblk).times(given(dblk)),
            given(s.fpre).times(given(dpre)),
            q,
            num,
        );
        let (u0, u1): (Double, Double) = exact_product_of::<A>(
            given(s.fblk),
            given(dblk),
            u,
            num,
        );
        let (v0, v1): (Double, Double) = exact_product_of::<A>(
            given(s.fpre),
            given(dpre),
            v,
            num,
        );
        let (e, f): (Double, Double) = exact_product_of::<A>(
            given(dblk).times(given(dpre)),
            given(s.fblk).minus(given(s.fpre)),
            d,
            num,
        );
        let (e0, e1): (Double, Double) = exact_product_of::<A>(given(dblk), given(dpre), e, num);
        let (f0, f1): (Double, Double) = exact_difference_of::<A>(
            given(s.fblk),
            given(s.fpre),
            f,
            num,
        );
        lemma_slope_to::<A>(s, s.xpre, s.fpre, dpre, slope, root, num);
        lemma_slope_to::<A>(s, s.xblk, s.fblk, dblk, slope, root, num);
        lemma_parabola(
            slope,
            num(s.xcur),
            num(s.fcur),
            num(s.fpre),
            num(s.fblk),
            root,
            num(stry),
        );
    }
}

proof fn lemma_negated<A: Arithmetic>(x: Double, v: Double, num: spec_fn(Double) -> real)
    requires
        exact_in::<A>(num),
        evaluates::<A>(given(x).negated(), v),
        !v.nan(),
    ensures
        num(v) == -num(x),
{
    let y = part_of_opposite::<A>(given(x), v);
    reveal(exact_in);
}

proof fn lemma_slope_to<A: Arithmetic>(
    s: Search,
    x: Double,
    fx: Double,
    d: Double,
    slope: real,
    root: real,
    num: spec_fn(Double) -> real,
)
    requires
        exact_in::<A>(num),
        evaluates::<A>(s.slope(x, fx), d),
        !d.nan(),
        num(s.fcur) == slope * (num(s.xcur) - root),
        num(fx) == slope * (num(x) - root),
    ensures
        num(d) == slope,
{
    let (n, e): (Double, Double) = exact_quotient_of::<A>(
        given(fx).minus(given(s.fcur)),
        given(x).minus(given(s.xcur)),
        d,
        num,
    );
    let (n0, n1): (Double, Double) = exact_difference_of::<A>(given(fx), given(s.fcur), n, num);
    let (e0, e1): (Double, Double) = exact_difference_of::<A>(given(x), given(s.xcur), e, num);
    lemma_slope(slope, num(s.xcur), num(x), num(s.fcur), num(fx), root, num(d));
}

/// The step to the middle is half of the way to the other side, and the least step half of what the
/// tolerances allow at the current point.
pub proof fn brent_measures_by_halves<A: Arithmetic>(
    s: Search,
    xtol: Double,
    rtol: Double,
    delta: Double,
    sbis: Double,
    num: spec_fn(Double) -> real,
)
    requires
        exact_in::<A>(num),
        ordered_in(num),
        s.measured::<A>(xtol, rtol, delta, sbis),
        !s.xcur.nan(),
    ensures
        !sbis.nan() ==> 2real * num(sbis) == num(s.xblk) - num(s.xcur),
        !delta.nan() ==> 2real * num(delta) == num(xtol) + num(rtol) * size(num(s.xcur)),
{
    if !sbis.nan() {
        let (n, d): (Double, Double) = exact_quotient_of::<A>(
            given(s.xblk).minus(given(s.xcur)),
            fraction(2, 1),
            sbis,
            num,
        );
        let (n0, n1): (Double, Double) = exact_difference_of::<A>(
            given(s.xblk),
            given(s.xcur),
            n,
            num,
        );
        exact_fraction_of::<A>(2, 1, d, num);
        let (x, y): (real, real) = (num(sbis), num(d));
        assert(y == 2real);
        assert(x * 2real == 2real * x) by (nonlinear_arith);
    }
    if !delta.nan() {
        let allowed = given(xtol).plus(given(rtol).times(given(s.xcur).size()));
        let (n, d): (Double, Double) = exact_quotient_of::<A>(
            allowed,
            fraction(2, 1),
            delta,
            num,
        );
        let (n0, n1): (Double, Double) = exact_sum_of::<A>(
            given(xtol),
            given(rtol).times(given(s.xcur).size()),
            n,
            num,
        );
        let (m0, m1): (Double, Double) = exact_product_of::<A>(
            given(rtol),
            given(s.xcur).size(),
            n1,
            num,
        );
        let m = part_of_size::<A>(given(s.xcur), m1);
        sizes_are_exact::<A>(s.xcur, num);
        exact_fraction_of::<A>(2, 1, d, num);
        let (x, y): (real, real) = (num(delta), num(d));
        assert(y == 2real);
        assert(x * 2real == 2real * x) by (nonlinear_arith);
    }
}

/// An iteration of Brent's method that does not end the search moves by its step, but at least by
/// what half of the tolerances allow, towards the other side. The step is that to the middle, unless
/// the step before was longer than the least and the current value is the smaller; and then unless
/// the trial step is less than half of the step before and of three times the way to the middle,
/// less the least step.
pub proof fn brent_moves_by_its_step<A: Arithmetic>(
    s: Search,
    delta: Double,
    sbis: Double,
    values: spec_fn(Double, Double) -> bool,
    next: Search,
    num: spec_fn(Double) -> real,
)
    requires
        exact_in::<A>(num),
        ordered_in(num),
        s.moved::<A>(delta, sbis, values, next),
        !delta.nan(),
        !sbis.nan(),
        !s.spre.nan(),
        !s.fcur.nan(),
        !s.fpre.nan(),
        !next.scur.nan(),
        !next.xcur.nan(),
    ensures
        size(num(next.scur)) > num(delta) ==> num(next.xcur) == num(s.xcur) + num(next.scur),
        size(num(next.scur)) <= num(delta) && num(sbis) > 0real ==> num(next.xcur) == num(s.xcur)
            + num(delta),
        size(num(next.scur)) <= num(delta) && num(sbis) <= 0real ==> num(next.xcur) == num(s.xcur)
            - num(delta),
        values(next.xcur, next.fcur),
        next.xpre == s.xcur,
        next.fpre == s.fcur,
        next.xblk == s.xblk,
        next.fblk == s.fblk,
        size(num(s.spre)) <= num(delta) || size(num(s.fcur)) >= size(num(s.fpre)) ==> next.scur
            == sbis && next.spre == sbis,
        (next.scur == sbis && next.spre == sbis) || (next.spre == s.scur && s.trial_step::<A>(
            next.scur,
        ) && 2real * size(num(next.scur)) < size(num(s.spre))),
{
    sizes_are_exact::<A>(next.scur, num);
    sizes_are_exact::<A>(s.spre, num);
    sizes_are_exact::<A>(s.fcur, num);
    sizes_are_exact::<A>(s.fpre, num);
    assert(num(zero()) == 0real) by {
        reveal(exact_in);
    }
    lemma_orders(delta, next.scur.absolute(), num);
    lemma_orders(zero(), sbis, num);
    lemma_orders(delta, s.spre.absolute(), num);
    lemma_orders(s.fcur.absolute(), s.fpre.absolute(), num);
    if delta.lt(next.scur.absolute()) {
        let (a, b): (Double, Double) = exact_sum_of::<A>(
            given(s.xcur),
            given(next.scur),
            next.xcur,
            num,
        );
    } else if zero().lt(sbis) {
        let (a, b): (Double, Double) = exact_sum_of::<A>(
            given(s.xcur),
            given(delta),
            next.xcur,
            num,
        );
    } else {
        let (a, b): (Double, Double) = exact_sum_of::<A>(
            given(s.xcur),
            given(delta).negated(),
            next.xcur,
            num,
        );
        lemma_negated::<A>(delta, b, num);
    }
    if delta.lt(s.spre.absolute()) && s.fcur.absolute().lt(s.fpre.absolute()) {
        let (stry, short): (Double, bool) = choose|stry: Double, short: bool| #[trigger]
            s.tried::<A>(delta, sbis, stry, short, (next.spre, next.scur));
        if short {
            let (twice, far): (Double, Double) = choose|twice: Double, far: Double| #[trigger]
                s.weighed::<A>(stry, sbis, delta, twice, far) && short == twice.lt(
                    s.spre.absolute().lesser(far),
                );
            let (a, b): (Double, Double) = exact_product_of::<A>(
                fraction(2, 1),
                given(stry).size(),
                twice,
                num,
            );
            exact_fraction_of::<A>(2, 1, a, num);
            assert(num(a) == 2real);
            let c = part_of_size::<A>(given(stry), b);
            lemma_orders(twice, s.spre.absolute(), num);
            assert(twice.lt(s.spre.absolute()));
        }
    }
}

/// Doubles are in the order of what they stand for.
proof fn lemma_orders(x: Double, y: Double, num: spec_fn(Double) -> real)
    requires
        ordered_in(num),
        !x.nan(),
        !y.nan(),
    ensures
        x.lt(y) == (num(x) < num(y)),
{
    reveal(ordered_in);
    assert(x.lt(y) == (num(x) < num(y)));
}

/// A search is over exactly where the function is zero, or where half of the way to the other side
/// is shorter than the least step.
pub proof fn searches_are_over_within_the_tolerance<A: Arithmetic>(
    s: Search,
    delta: Double,
    sbis: Double,
    num: spec_fn(Double) -> real,
)
    requires
        exact_in::<A>(num),
        ordered_in(num),
        !s.fcur.nan(),
        !delta.nan(),
        !sbis.nan(),
    ensures
        s.over(delta, sbis) <==> num(s.fcur) == 0real || size(num(sbis)) < num(delta),
{
    assert(num(zero()) == 0real) by {
        reveal(exact_in);
    }
    sizes_are_exact::<A>(sbis, num);
    lemma_orders(sbis.absolute(), delta, num);
    lemma_orders(s.fcur, zero(), num);
    lemma_orders(zero(), s.fcur, num);
}

/// The sides of a search are put in order: the current point is then the one where the function is
/// the smaller, and the two sides are the same two points as before.
pub proof fn the_better_side_is_current(s: Search)
    requires
        !s.fcur.nan(),
        !s.fblk.nan(),
    ensures
        s.turned().fcur.absolute().le(s.turned().fblk.absolute()),
        ((s.turned().xcur, s.turned().fcur) == (s.xcur, s.fcur) && (
            s.turned().xblk,
            s.turned().fblk,
        ) == (s.xblk, s.fblk)) || ((s.turned().xcur, s.turned().fcur) == (s.xblk, s.fblk) && (
            s.turned().xblk,
            s.turned().fblk,
        ) == (s.xcur, s.fcur)),
        s.turned().spre == s.spre,
        s.turned().scur == s.scur,
{
    assert(!s.fcur.absolute().nan());
    assert(!s.fblk.absolute().nan());
}

/// Where the last two values have different signs, the last point becomes the other side, and the
/// steps start afresh with the way between the two; where they have not, nothing changes.
pub proof fn sign_changes_make_a_new_side<A: Arithmetic>(
    s: Search,
    next: Search,
    num: spec_fn(Double) -> real,
)
    requires
        exact_in::<A>(num),
        ordered_in(num),
        s.bracketed::<A>(next),
        forall|v: Double| #[trigger] call_ensures(A::product, (s.fpre, s.fcur), v) ==> !v.nan(),
    ensures
        next.xcur == s.xcur && next.xpre == s.xpre && next.fcur == s.fcur && next.fpre == s.fpre,
        num(s.fpre) * num(s.fcur) < 0real ==> next.xblk == s.xpre && next.fblk == s.fpre
            && next.scur == next.spre && (!next.spre.nan() ==> num(next.spre) == num(s.xcur) - num(
            s.xpre,
        )),
        num(s.fpre) * num(s.fcur) >= 0real ==> next == s,
{
    let p = choose|p: Double| #[trigger] s.bracketed_by::<A>(p, next);
    assert(call_ensures(A::product, (s.fpre, s.fcur), p)) by {
        reveal_with_fuel(evaluates, 2);
    }
    let (a, b): (Double, Double) = exact_product_of::<A>(given(s.fpre), given(s.fcur), p, num);
    assert(num(zero()) == 0real) by {
        reveal(exact_in);
    }
    lemma_orders(p, zero(), num);
    if p.lt(zero()) && !next.spre.nan() {
        let (c, d): (Double, Double) = exact_difference_of::<A>(
            given(s.xcur),
            given(s.xpre),
            next.spre,
            num,
        );
    }
}

/// The function has one value at a point, and does not fail there.
pub open spec fn has_value<E, F: Fn(Double) -> Result<Double, E>>(
    func: F,
    x: Double,
    v: Double,
) -> bool {
    forall|r: Result<Double, E>| #[trigger] call_ensures(func, (x,), r) ==> r == Ok::<Double, E>(v)
}

/// Bisection complains of the signs at the ends exactly where they are the same; where the function
/// is zero at an end, that end is the root.
pub proof fn bisection_needs_different_signs<A: Arithmetic, E, F: Fn(Double) -> Result<Double, E>>(
    func: F,
    a: Double,
    b: Double,
    fa: Double,
    fb: Double,
    xtol: Double,
    res: Result<(Double, RootResults), BisectError<E>>,
    num: spec_fn(Double) -> real,
)
    requires
        exact_in::<A>(num),
        ordered_in(num),
        bisected::<A, E, F>(func, a, b, xtol, res),
        has_value::<E, F>(func, a, fa),
        has_value::<E, F>(func, b, fb),
        forall|v: Double| #[trigger] call_ensures(A::product, (fa, fb), v) ==> !v.nan(),
    ensures
        num(fa) * num(fb) > 0real <==> res matches Err(BisectError::SignError(_)),
        res matches Err(BisectError::SignError(msg)) ==> msg@
            == "f(a) and f(b) must have different signs"@,
        num(fa) == 0real ==> (res matches Ok((root, results)) && root == a && results.iterations
            == 0),
        num(fa) != 0real && num(fb) == 0real ==> (res matches Ok((root, results)) && root == b
            && results.iterations == 0),
{
    let ga = choose|ga: Double| #[trigger]
        call_ensures(func, (a,), Ok::<Double, E>(ga)) && {
            ||| res matches Err(BisectError::FuncError(e)) && call_ensures(
                func,
                (b,),
                Err::<Double, E>(e),
            )
            ||| exists|fb: Double| #[trigger]
                call_ensures(func, (b,), Ok::<Double, E>(fb)) && bracketed::<A, E, F>(
                    func,
                    a,
                    b,
                    ga,
                    fb,
                    xtol,
                    res,
                )
        };
    assert(ga == fa);
    let gb = choose|gb: Double| #[trigger]
        call_ensures(func, (b,), Ok::<Double, E>(gb)) && bracketed::<A, E, F>(
            func,
            a,
            b,
            ga,
            gb,
            xtol,
            res,
        );
    assert(gb == fb);
    let p = choose|p: Double| #[trigger]
        evaluates::<A>(given(fa).times(given(fb)), p) && if zero().lt(p) {
            res matches Err(BisectError::SignError(msg)) && msg@
                == "f(a) and f(b) must have different signs"@
        } else if fa.same(zero()) {
            res matches Ok((root, results)) && root == a && reported(
                results,
                a,
                0,
            )
        } else if fb.same(zero()) {
            res matches Ok((root, results)) && root == b && reported(
                results,
                b,
                0,
            )
        } else {
            searched::<A, E, F>(func, Bracket::oriented(a, b, fa), xtol, res)
        };
    assert(call_ensures(A::product, (fa, fb), p)) by {
        reveal_with_fuel(evaluates, 2);
    }
    let (x, y): (Double, Double) = exact_product_of::<A>(given(fa), given(fb), p, num);
    assert(num(zero()) == 0real) by {
        reveal(exact_in);
    }
    lemma_orders(zero(), p, num);
    lemma_orders(fa, zero(), num);
    lemma_orders(zero(), fa, num);
    lemma_orders(fb, zero(), num);
    lemma_orders(zero(), fb, num);
    let (u, v): (real, real) = (num(fa), num(fb));
    assert(u == 0real || v == 0real ==> u * v == 0real) by (nonlinear_arith);
}

} // verus!
