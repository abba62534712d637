//! How steps are aimed, judged and resized where the arithmetic is exact, and which events count.
use crate::arithmetic::{
    evaluates, fraction, given, one, part_of_size, parts_of_greater, parts_of_lesser,
    parts_of_power, zero, Arithmetic,
};
use crate::double::Double;
use crate::exact::{
    exact_difference_of, exact_fraction_of, exact_in, exact_product_of, exact_sum_of,
    extremes_are_exact, fifth_power, greatest, least, ordered_in, size, sizes_are_exact,
};
use crate::override_laws::lemma_push_contains;
use crate::solvers::brent::found;
use crate::solvers::ivp::{
    active, aimed, aimed_at, all_localized, at_least_step, event_tolerance, first_met, localized,
    next_after_rejected, next_after_taken, on_the_way, safe_factor, settled, spacing, Attempt,
    Integration, Progress, Settings, TerminateDirection,
};
use crate::solvers::exact_laws::numbers;
use crate::solvers::output_laws::{norms_are_root_mean_squares, sum_of_squares};
use crate::solvers::rk45::{dense, errors, estimated, interpolated, mean_norm};
use vstd::arithmetic::power2::{lemma2_to64, lemma2_to64_rest, lemma_pow2_adds, pow2};
use vstd::prelude::*;

verus! {

/// The fractions that the control of the steps goes by are numbers.
pub open spec fn control_numbers<A: Arithmetic>() -> bool {
    &&& forall|v: Double| #[trigger] call_ensures(A::ratio, (10i64, 1i64), v) ==> !v.nan()
    &&& forall|v: Double| #[trigger] call_ensures(A::ratio, (1i64, 1i64), v) ==> !v.nan()
    &&& forall|v: Double| #[trigger] call_ensures(A::ratio, (1i64, 5i64), v) ==> !v.nan()
}

/// An attempt that is not too short is taken exactly when its error estimate is less than one.
pub proof fn attempts_are_taken_below_one<
    A: Arithmetic,
    F: Fn(Double, &Vec<Double>) -> Vec<Double>,
    E: Fn(usize, Double, &Vec<Double>) -> Double,
>(
    func: F,
    event: E,
    s: Integration,
    next: Integration,
    progress: Progress,
    num: spec_fn(Double) -> real,
) -> (x: Attempt)
    requires
        exact_in::<A>(num),
        ordered_in(num),
        control_numbers::<A>(),
        s.attempted::<A, F, E>(func, event, next, progress),
        !s.h_abs.lt(s.min_step),
    ensures
        s.tried::<A, F>(func, x),
        !x.norm.nan() ==> (progress == Progress::Rejected <==> num(x.norm) >= 1real),
        progress == Progress::Rejected ==> next.t == s.t && next.y == s.y && next.ts == s.ts
            && next.ys == s.ys,
        progress != Progress::Failed,
{
    let (x, accurate): (Attempt, bool) = choose|x: Attempt, accurate: bool| #[trigger]
        s.attempted_with::<A, F, E>(func, event, x, accurate, next, progress);
    let limit = choose|limit: Double|
        accurate == #[trigger] x.norm.lt(limit) && evaluates::<A>(fraction(1, 1), limit);
    exact_fraction_of::<A>(1, 1, limit, num);
    if !x.norm.nan() {
        reveal(ordered_in);
        assert(x.norm.lt(limit) == (num(x.norm) < num(limit)));
    }
    x
}

/// The factor of a step with some safety, exactly: nine tenths of `p`, the fifth power of which is
/// one over the error estimate.
proof fn lemma_safe_factor<A: Arithmetic>(norm: Double, v: Double,
    num: spec_fn(Double) -> real) -> (
    p: real)
    requires
        exact_in::<A>(num),
        evaluates::<A>(safe_factor(norm), v),
        !v.nan(),
    ensures
        p > 0real,
        fifth_power(p) * num(norm) == 1real,
        10real * num(v) == 9real * p,
{
    let root = given(norm).to_the(fraction(-1i64, 5));
    let (a, b): (Double, Double) = exact_product_of::<A>(fraction(9, 10), root, v, num);
    exact_fraction_of::<A>(9, 10, a, num);
    let (c, d): (Double, Double) = parts_of_power::<A>(given(norm), fraction(-1i64, 5), b);
    assert(!c.nan() && !d.nan()) by {
        reveal(exact_in);
    }
    exact_fraction_of::<A>(-1i64, 5, d, num);
    assert(num(d) * 5real == -1real);
    assert(num(b) > 0real && fifth_power(num(b)) * num(c) == 1real) by {
        reveal(exact_in);
    }
    let (x, y): (real, real) = (num(a), num(b));
    assert(10real * (x * y) == (x * 10real) * y) by (nonlinear_arith);
    num(b)
}

/// An error estimate is zero exactly where it stands for zero.
proof fn lemma_zero_norm<A: Arithmetic>(norm: Double, num: spec_fn(Double) -> real)
    requires
        exact_in::<A>(num),
        ordered_in(num),
        !norm.nan(),
    ensures
        norm.same(zero()) == (num(norm) == 0real),
{
    assert(num(zero()) == 0real) by {
        reveal(exact_in);
    }
    reveal(ordered_in);
    assert(norm.le(zero()) == (num(norm) <= num(zero())));
    assert(zero().le(norm) == (num(zero()) <= num(norm)));
}

/// The factor of a step that was taken, exactly.
proof fn lemma_grown<A: Arithmetic>(norm: Double, g: Double, num: spec_fn(Double) -> real) -> (p:
    real)
    requires
        exact_in::<A>(num),
        ordered_in(num),
        control_numbers::<A>(),
        evaluates::<A>(
            if norm.same(zero()) {
                fraction(10, 1)
            } else {
                fraction(10, 1).at_most(safe_factor(norm))
            },
            g,
        ),
        forall|w: Double| #[trigger] evaluates::<A>(safe_factor(norm), w) ==> !w.nan(),
        !norm.nan(),
    ensures
        !g.nan(),
        num(norm) == 0real ==> num(g) == 10real,
        num(norm) != 0real ==> p > 0real && fifth_power(p) * num(norm) == 1real && 10real * num(g)
            == least(100real, 9real * p),
{
    lemma_zero_norm::<A>(norm, num);
    if norm.same(zero()) {
        exact_fraction_of::<A>(10, 1, g, num);
        0real
    } else {
        let (m, n): (Double, Double) = parts_of_lesser::<A>(fraction(10, 1), safe_factor(norm), g);
        exact_fraction_of::<A>(10, 1, m, num);
        let p = lemma_safe_factor::<A>(norm, n, num);
        extremes_are_exact(m, n, num);
        p
    }
}

/// After a step with error estimate `norm` that was taken, the next is `9/10 * p` times as long,
/// where the fifth power of `p` is one over the estimate; but at most ten times as long, and no
/// longer at all where an attempt had been rejected. Where the estimate is zero, it is as long as
/// that allows.
pub proof fn steps_grow_by_the_fifth_root<A: Arithmetic>(
    h: Double,
    norm: Double,
    rejected: bool,
    v: Double,
    num: spec_fn(Double) -> real,
) -> (p: real)
    requires
        exact_in::<A>(num),
        ordered_in(num),
        control_numbers::<A>(),
        evaluates::<A>(next_after_taken(h, norm, rejected), v),
        forall|w: Double| #[trigger] evaluates::<A>(safe_factor(norm), w) ==> !w.nan(),
        !h.nan(),
        !v.nan(),
        !norm.nan(),
    ensures
        num(norm) == 0real ==> 10real * num(v) == size(num(h)) * (if rejected {
            10real
        } else {
            100real
        }),
        num(norm) != 0real ==> p > 0real && fifth_power(p) * num(norm) == 1real && 10real * num(v)
            == size(num(h)) * least(
            if rejected {
                10real
            } else {
                100real
            },
            9real * p,
        ),
{
    let grown = if norm.same(zero()) {
        fraction(10, 1)
    } else {
        fraction(10, 1).at_most(safe_factor(norm))
    };
    let factor = if rejected {
        grown.at_most(fraction(1, 1))
    } else {
        grown
    };
    let (a, b): (Double, Double) = exact_product_of::<A>(given(h).size(), factor, v, num);
    let a0 = part_of_size::<A>(given(h), a);
    sizes_are_exact::<A>(h, num);
    let (x, y): (real, real) = (num(a), num(b));
    assert(10real * (x * y) == x * (10real * y)) by (nonlinear_arith);
    if rejected {
        let (m, n): (Double, Double) = parts_of_lesser::<A>(grown, fraction(1, 1), b);
        exact_fraction_of::<A>(1, 1, n, num);
        let p = lemma_grown::<A>(norm, m, num);
        extremes_are_exact(m, n, num);
        assert(num(norm) == 0real ==> 10real * y == 10real);
        assert(num(norm) != 0real ==> 10real * y == least(10real, 9real * p));
        p
    } else {
        let p = lemma_grown::<A>(norm, b, num);
        assert(num(norm) == 0real ==> 10real * y == 100real);
        p
    }
}

/// After an attempt with error estimate `norm` that was rejected, the next is `9/10 * p` times as
/// long, where the fifth power of `p` is one over the estimate, but at least a fifth as long.
pub proof fn steps_shrink_by_the_fifth_root<A: Arithmetic>(
    h: Double,
    norm: Double,
    v: Double,
    num: spec_fn(Double) -> real,
) -> (p: real)
    requires
        exact_in::<A>(num),
        ordered_in(num),
        control_numbers::<A>(),
        evaluates::<A>(next_after_rejected(h, norm), v),
        forall|w: Double| #[trigger] evaluates::<A>(safe_factor(norm), w) ==> !w.nan(),
        !h.nan(),
        !v.nan(),
    ensures
        p > 0real,
        fifth_power(p) * num(norm) == 1real,
        10real * num(v) == size(num(h)) * greatest(2real, 9real * p),
{
    let factor = fraction(1, 5).at_least(safe_factor(norm));
    let (a, b): (Double, Double) = exact_product_of::<A>(given(h).size(), factor, v, num);
    let a0 = part_of_size::<A>(given(h), a);
    sizes_are_exact::<A>(h, num);
    let (x, y): (real, real) = (num(a), num(b));
    assert(10real * (x * y) == x * (10real * y)) by (nonlinear_arith);
    let (m, n): (Double, Double) = parts_of_greater::<A>(fraction(1, 5), safe_factor(norm), b);
    exact_fraction_of::<A>(1, 5, m, num);
    let p = lemma_safe_factor::<A>(norm, n, num);
    extremes_are_exact(m, n, num);
    assert(10real * y == greatest(2real, 9real * p));
    p
}

/// A step is aimed at where its length leads, forth or back in time, but no further than to the
/// end; and it is as long as it is from the time to where it is aimed.
pub proof fn steps_are_aimed_no_further_than_the_end<A: Arithmetic>(
    s: Settings,
    t: Double,
    h_abs: Double,
    t_new: Double,
    h: Double,
    num: spec_fn(Double) -> real,
)
    requires
        exact_in::<A>(num),
        ordered_in(num),
        s.direction == one() || s.direction == one().opposite(),
        aimed::<A>(s, t, h_abs, t_new, h),
        forall|reach: Double, e: Double| #[trigger]
            aimed_at::<A>(s, t, h_abs, reach, e, t_new, h) ==> !e.nan(),
        !h.nan(),
    ensures
        num(h) == num(t_new) - num(t),
        s.direction == one() ==> num(t_new) == least(num(t) + num(h_abs), num(s.tf)),
        s.direction == one().opposite() ==> num(t_new) == greatest(
            num(t) - num(h_abs),
            num(s.tf),
        ),
{
    let (reach, e): (Double, Double) = choose|reach: Double, e: Double| #[trigger]
        aimed_at::<A>(s, t, h_abs, reach, e, t_new, h);
    let (p0, p1): (Double, Double) = exact_difference_of::<A>(given(t_new), given(t), h, num);
    let (d, x): (Double, Double) = exact_product_of::<A>(
        given(s.direction),
        given(reach).minus(given(s.tf)),
        e,
        num,
    );
    let (r, f): (Double, Double) = exact_difference_of::<A>(given(reach), given(s.tf), x, num);
    let (m, n): (Double, Double) = exact_sum_of::<A>(
        given(t),
        given(h_abs).times(given(s.direction)),
        reach,
        num,
    );
    let (u, v): (Double, Double) = exact_product_of::<A>(given(h_abs), given(s.direction), n, num);
    assert(num(zero()) == 0real && num(one()) == 1real && num(one().opposite()) == -1real) by {
        reveal(exact_in);
    }
    assert(zero().lt(e) == (0real < num(e))) by {
        reveal(ordered_in);
        assert(zero().lt(e) == (num(zero()) < num(e)));
    }
    let (y, z): (real, real) = (num(h_abs), num(x));
    assert(y * 1real == y && y * (-1real) == -y && 1real * z == z && (-1real) * z == -z)
        by (nonlinear_arith);
}

/// The least step at a time is ten times the distance to the next double on the way.
pub proof fn least_steps_are_ten_spacings<A: Arithmetic>(
    t: Double,
    direction: Double,
    v: Double,
    num: spec_fn(Double) -> real,
)
    requires
        exact_in::<A>(num),
        ordered_in(num),
        evaluates::<A>(spacing(t, direction), v),
        !v.nan(),
    ensures
        zero().lt(direction) ==> num(v) == 10real * size(num(t.successor()) - num(t)),
        !zero().lt(direction) ==> num(v) == 10real * size(num(t.predecessor()) - num(t)),
{
    let next = if zero().lt(direction) {
        t.successor()
    } else {
        t.predecessor()
    };
    let way = given(next).minus(given(t)).size();
    let (a, b): (Double, Double) = exact_product_of::<A>(fraction(10, 1), way, v, num);
    exact_fraction_of::<A>(10, 1, a, num);
    let c = part_of_size::<A>(given(next).minus(given(t)), b);
    assert(!c.nan());
    let (m, n): (Double, Double) = exact_difference_of::<A>(given(next), given(t), c, num);
    sizes_are_exact::<A>(c, num);
    let x = num(b);
    assert(num(a) == 10real);
}

/// Without settings of their own, integrations have a relative tolerance of a thousandth, an absolute
/// one of a millionth, and end at a crossing either way; they go from the beginning of the span to
/// its end, be that forth or back in time.
pub proof fn settings_have_defaults<A: Arithmetic>(
    t_span: (Double, Double),
    direction: Option<TerminateDirection>,
    rtol: Option<Double>,
    atol: Option<Double>,
    s: Settings,
    num: spec_fn(Double) -> real,
)
    requires
        exact_in::<A>(num),
        settled::<A>(t_span, direction, rtol, atol, s),
    ensures
        rtol matches Some(x) ==> s.rtol == x,
        rtol is None && !s.rtol.nan() ==> 1000real * num(s.rtol) == 1real,
        atol matches Some(x) ==> s.atol == x,
        atol is None && !s.atol.nan() ==> 1000000real * num(s.atol) == 1real,
        s.tf == t_span.1,
        t_span.1.lt(t_span.0) ==> num(s.direction) == -1real,
        !t_span.1.lt(t_span.0) ==> num(s.direction) == 1real,
        direction matches Some(d) ==> s.crossing == d,
        direction is None ==> s.crossing == TerminateDirection::Both,
{
    assert(num(one()) == 1real && num(one().opposite()) == -1real) by {
        reveal(exact_in);
    }
    if rtol is None && !s.rtol.nan() {
        exact_fraction_of::<A>(1, 1_000, s.rtol, num);
    }
    if atol is None && !s.atol.nan() {
        exact_fraction_of::<A>(1, 1_000_000, s.atol, num);
    }
}

/// An event that goes from negative to positive crosses upwards, and not downwards; the other way
/// round, it crosses downwards, and not upwards; one that comes to zero or leaves it crosses as it
/// moves; one that keeps its sign, or is no number, crosses in no way. Either way counts where both
/// do.
pub proof fn crossings_go_by_the_signs(before: Double, after: Double)
    ensures
        before.lt(zero()) && zero().lt(after) ==> TerminateDirection::Positive.crossed(
            before,
            after,
        ) && !TerminateDirection::Negative.crossed(before, after),
        zero().lt(before) && after.lt(zero()) ==> TerminateDirection::Negative.crossed(
            before,
            after,
        ) && !TerminateDirection::Positive.crossed(before, after),
        before.same(zero()) && zero().lt(after) || before.lt(zero()) && after.same(zero())
            ==> TerminateDirection::Positive.crossed(before, after)
            && !TerminateDirection::Negative.crossed(before, after),
        before.same(zero()) && after.lt(zero()) || zero().lt(before) && after.same(zero())
            ==> TerminateDirection::Negative.crossed(before, after)
            && !TerminateDirection::Positive.crossed(before, after),
        before.lt(zero()) && after.lt(zero()) || zero().lt(before) && zero().lt(after)
            || before.nan() || after.nan() ==> !TerminateDirection::Both.crossed(before, after),
        TerminateDirection::Both.crossed(before, after) == (TerminateDirection::Positive.crossed(
            before,
            after,
        ) || TerminateDirection::Negative.crossed(before, after)),
{
}

/// The events that are looked for in a step are those that cross zero in it, by their numbers, from
/// the first on.
pub proof fn active_events_are_those_that_cross(
    g: Seq<Double>,
    g_new: Seq<Double>,
    crossing: TerminateDirection,
    n: nat,
    i: usize,
)
    requires
        n <= usize::MAX,
    ensures
        active(g, g_new, crossing, n).contains(i) <==> i < n && crossing.crossed(
            g[i as int],
            g_new[i as int],
        ),
        forall|a: int, b: int|
            0 <= a < b < active(g, g_new, crossing, n).len() ==> #[trigger] active(
                g,
                g_new,
                crossing,
                n,
            )[a] < #[trigger] active(g, g_new, crossing, n)[b],
        forall|a: int|
            0 <= a < active(g, g_new, crossing, n).len() ==> #[trigger] active(
                g,
                g_new,
                crossing,
                n,
            )[a] < n,
    decreases n,
{
    if n > 0 {
        let m = (n - 1) as nat;
        active_events_are_those_that_cross(g, g_new, crossing, m, i);
        let before = active(g, g_new, crossing, m);
        let all = active(g, g_new, crossing, n);
        if crossing.crossed(g[n - 1], g_new[n - 1]) {
            lemma_push_contains(before, m as usize, i);
        }
    }
}

/// A step is no shorter than the least that makes sense.
pub proof fn steps_are_no_shorter_than_the_least(
    h: Double,
    min_step: Double,
    num: spec_fn(Double) -> real,
)
    requires
        ordered_in(num),
        !h.nan(),
        !min_step.nan(),
    ensures
        num(at_least_step(h, min_step)) == greatest(num(h), num(min_step)),
{
    reveal(ordered_in);
    assert(h.lt(min_step) == (num(h) < num(min_step)));
}

/// Where a step that is taken meets events, it ends at the root that is met first on the way, of
/// those which Brent's method finds on the dense output for the events that cross zero, within
/// `2^-50` both ways and in at most a hundred iterations; and the state there is that of the dense
/// output.
pub proof fn events_end_steps_on_the_dense_output<
    A: Arithmetic,
    E: Fn(usize, Double, &Vec<Double>) -> Double,
>(
    event: E,
    s: Integration,
    x: Attempt,
    g_new: Seq<Double>,
    t: Double,
    y: Seq<Double>,
) -> (hit: (Seq<[Double; 4]>, Seq<Double>))
    requires
        s.landed::<A, E>(event, x, g_new, t, y, true),
        s.g@.len() <= usize::MAX,
    ensures
        dense::<A>(x.k, s.y@.len(), hit.0),
        interpolated::<A>(t, s.t, x.h, s.y@, hit.0, y),
        t == first_met(hit.1, x.t_new.lt(s.t)),
        hit.1.len() == active(s.g@, g_new, s.settings.crossing, s.g@.len()).len(),
        hit.1.len() > 0,
        forall|i: int|
            0 <= i < hit.1.len() ==> found::<A>(
                s.t,
                x.t_new,
                Double { bits: 0x3cd0_0000_0000_0000 },
                Double { bits: 0x3cd0_0000_0000_0000 },
                100,
                |u: Double, v: Double|
                    exists|z: Vec<Double>| #[trigger]
                        call_ensures(
                            event,
                            (active(s.g@, g_new, s.settings.crossing, s.g@.len())[i], u, &z),
                            v,
                        ) && interpolated::<A>(u, s.t, x.h, s.y@, hit.0, z@),
                #[trigger] hit.1[i],
            ),
{
    let which = active(s.g@, g_new, s.settings.crossing, s.g@.len());
    let q = choose|q: Seq<[Double; 4]>| #[trigger]
        s.met::<A, E>(event, x, which, q, t) && interpolated::<A>(t, s.t, x.h, s.y@, q, y);
    let roots = choose|roots: Seq<Double>| #[trigger]
        all_localized::<A, E>(event, which, s.t, x.t_new, x.h, s.y@, q, roots) && t == first_met(
            roots,
            x.t_new.lt(s.t),
        );
    assert forall|i: int| 0 <= i < roots.len() implies found::<A>(
        s.t,
        x.t_new,
        Double { bits: 0x3cd0_0000_0000_0000 },
        Double { bits: 0x3cd0_0000_0000_0000 },
        100,
        |u: Double, v: Double|
            exists|z: Vec<Double>| #[trigger]
                call_ensures(event, (which[i], u, &z), v) && interpolated::<A>(
                    u,
                    s.t,
                    x.h,
                    s.y@,
                    q,
                    z@,
                ),
        #[trigger] roots[i],
    ) by {
        assert(localized::<A, E>(event, which[i], s.t, x.t_new, x.h, s.y@, q, roots[i]));
        let values = |u: Double, v: Double|
            exists|z: Vec<Double>| #[trigger]
                call_ensures(event, (which[i], u, &z), v) && interpolated::<A>(
                    u,
                    s.t,
                    x.h,
                    s.y@,
                    q,
                    z@,
                );
        assert(values =~= on_the_way::<A, E>(event, which[i], s.t, x.h, s.y@, q));
    }
    (q, roots)
}

/// The tolerance for event times is `2^-50`.
pub proof fn event_times_are_within_four_spacings_at_one()
    ensures
        event_tolerance() == (Double { bits: 0x3cd0_0000_0000_0000 }),
        event_tolerance().value() == pow2(1024),
        one().value() == pow2(1074),
{
    lemma_pow2_adds(52, 972);
    lemma_pow2_adds(52, 1022);
    lemma2_to64();
    lemma2_to64_rest();
    assert(pow2(52) == 0x10_0000_0000_0000);
}

/// The error estimate of a step is the root of the mean of the squares of the estimates of its
/// components.
#[verifier::spinoff_prover]
pub proof fn error_estimates_are_root_mean_squares<A: Arithmetic>(
    y: Seq<Double>,
    y_new: Seq<Double>,
    k: Seq<Vec<Double>>,
    h: Double,
    rtol: Double,
    atol: Double,
    norm: Double,
    num: spec_fn(Double) -> real,
) -> (err: Seq<Double>)
    requires
        exact_in::<A>(num),
        estimated::<A>(y, y_new, k, h, rtol, atol, norm),
        !norm.nan(),
        y.len() <= usize::MAX,
    ensures
        errors::<A>(y, y_new, k, h, rtol, atol, err),
        err.len() == y.len(),
        num(norm) >= 0real,
        num(norm) * num(norm) * (err.len() as real) == sum_of_squares(numbers(err, num)),
        forall|i: int| 0 <= i < err.len() ==> !(#[trigger] err[i]).nan(),
{
    let err = choose|err: Seq<Double>| #[trigger]
        errors::<A>(y, y_new, k, h, rtol, atol, err) && evaluates::<A>(mean_norm(err), norm);
    norms_are_root_mean_squares::<A>(err, norm, num);
    err
}

} // verus!
