//! How long the first step is where the arithmetic is exact.
use crate::arithmetic::{
    evaluates, fraction, given, part_of_size, parts_of_greater, parts_of_lesser, parts_of_power,
    Arithmetic,
};
use crate::double::Double;
use crate::exact::{
    exact_difference_of, exact_fraction_of, exact_in, exact_product_of, exact_quotient_of,
    exact_sum_of, extremes_are_exact, fifth_power, greatest, least, ordered_in, size,
    sizes_are_exact,
};
use crate::solvers::exact_laws::numbers;
use crate::solvers::output_laws::{norms_are_root_mean_squares, sum_of_squares};
use crate::solvers::rk45::{
    below, guessed, guessed_as, least_guess, mean_norm, probed, refined, refined_as, scaled,
    scaled_norm, span_of, up_to, FirstStep,
};
use vstd::prelude::*;

verus! {

/// A fraction is a number.
pub open spec fn numeral<A: Arithmetic>(n: i64, d: i64) -> bool {
    forall|v: Double| #[trigger] call_ensures(A::ratio, (n, d), v) ==> !v.nan()
}

/// The first guess: a millionth where the norm of the state or that of its derivative is less than
/// a hundred thousandth, a hundredth of the one over the other otherwise; but no more than the
/// interval.
pub proof fn the_first_guess_is_a_hundredth<A: Arithmetic>(
    w: FirstStep,
    interval: Double,
    num: spec_fn(Double) -> real,
) -> (g: real)
    requires
        exact_in::<A>(num),
        ordered_in(num),
        guessed::<A>(w, interval),
        numeral::<A>(1, 100_000),
        numeral::<A>(1, 1_000_000),
        forall|v: Double| #[trigger]
            evaluates::<A>(fraction(1, 100).times(given(w.d0)).over(given(w.d1)), v) ==> !v.nan(),
        !w.d0.nan(),
        !w.d1.nan(),
        !interval.nan(),
    ensures
        100_000real * num(w.d0) < 1real || 100_000real * num(w.d1) < 1real ==> 1_000_000real * num(
            w.h0,
        ) == least(1real, 1_000_000real * num(interval)),
        100_000real * num(w.d0) >= 1real && 100_000real * num(w.d1) >= 1real ==> 100real * (g * num(
            w.d1,
        )) == num(w.d0) && num(w.h0) == least(g, num(interval)),
{
    let (tiny0, tiny1): (bool, bool) = choose|tiny0: bool, tiny1: bool| #[trigger]
        guessed_as::<A>(w, interval, tiny0, tiny1);
    lemma_below::<A>(w.d0, 100_000, tiny0, num);
    lemma_below::<A>(w.d1, 100_000, tiny1, num);
    if tiny0 || tiny1 {
        let (m, n): (Double, Double) = parts_of_lesser::<A>(
            fraction(1, 1_000_000),
            given(interval),
            w.h0,
        );
        exact_fraction_of::<A>(1, 1_000_000, m, num);
        extremes_are_exact(m, n, num);
        num(m)
    } else {
        let part = fraction(1, 100).times(given(w.d0));
        let (m, n): (Double, Double) = parts_of_lesser::<A>(
            part.over(given(w.d1)),
            given(interval),
            w.h0,
        );
        let (p, q): (Double, Double) = exact_quotient_of::<A>(part, given(w.d1), m, num);
        let (r, s): (Double, Double) = exact_product_of::<A>(
            fraction(1, 100),
            given(w.d0),
            p,
            num,
        );
        exact_fraction_of::<A>(1, 100, r, num);
        extremes_are_exact(m, n, num);
        let (x, y): (real, real) = (num(r), num(w.d0));
        assert(100real * (x * y) == (x * 100real) * y) by (nonlinear_arith);
        num(m)
    }
}

proof fn lemma_below<A: Arithmetic>(d: Double, k: i64, yes: bool, num: spec_fn(Double) -> real)
    requires
        exact_in::<A>(num),
        ordered_in(num),
        below::<A>(d, (1i64, k), yes),
        k == 100_000,
        numeral::<A>(1, k),
        !d.nan(),
    ensures
        yes == (100_000real * num(d) < 1real),
{
    let limit = choose|limit: Double|
        yes == #[trigger] d.lt(limit) && evaluates::<A>(fraction(1, k), limit);
    exact_fraction_of::<A>(1, 100_000, limit, num);
    reveal(ordered_in);
    assert(d.lt(limit) == (num(d) < num(limit)));
}

proof fn lemma_up_to<A: Arithmetic>(d: Double, k: i64, yes: bool, num: spec_fn(Double) -> real)
    requires
        exact_in::<A>(num),
        ordered_in(num),
        up_to::<A>(d, (1i64, k), yes),
        k == 1_000_000_000_000_000,
        numeral::<A>(1, k),
        !d.nan(),
    ensures
        yes == (1_000_000_000_000_000real * num(d) <= 1real),
{
    let limit = choose|limit: Double|
        yes == #[trigger] d.le(limit) && evaluates::<A>(fraction(1, k), limit);
    exact_fraction_of::<A>(1, 1_000_000_000_000_000, limit, num);
    reveal(ordered_in);
    assert(d.le(limit) == (num(d) <= num(limit)));
}

/// The second guess: a millionth, or a thousandth of the first guess if that is more, where both
/// norms of the derivative are next to nothing; otherwise `p`, where the fifth power of `p` times the
/// greater of them is a hundredth.
pub proof fn the_second_guess_is_a_fifth_root<A: Arithmetic>(
    w: FirstStep,
    num: spec_fn(Double) -> real,
)
    requires
        exact_in::<A>(num),
        ordered_in(num),
        refined::<A>(w),
        numeral::<A>(1, 1_000_000_000_000_000),
        numeral::<A>(1, 1_000_000),
        forall|v: Double| #[trigger]
            evaluates::<A>(given(w.h0).times(fraction(1, 1_000)), v) ==> !v.nan(),
        !w.d1.nan(),
        !w.d2.nan(),
        !w.h1.nan(),
    ensures
        ({
            let e = 1_000_000_000_000_000real;
            let flat = e * num(w.d1) <= 1real && e * num(w.d2) <= 1real;
            &&& flat ==> 1_000_000real * num(w.h1) == greatest(1real, 1_000real * num(w.h0))
            &&& !flat ==> num(w.h1) > 0real && 100real * (fifth_power(num(w.h1)) * greatest(
                num(w.d1),
                num(w.d2),
            )) == 1real
        }),
{
    let (flat1, flat2): (bool, bool) = choose|flat1: bool, flat2: bool| #[trigger]
        refined_as::<A>(w, flat1, flat2);
    lemma_up_to::<A>(w.d1, 1_000_000_000_000_000, flat1, num);
    lemma_up_to::<A>(w.d2, 1_000_000_000_000_000, flat2, num);
    if flat1 && flat2 {
        let (m, n): (Double, Double) = parts_of_greater::<A>(
            fraction(1, 1_000_000),
            given(w.h0).times(fraction(1, 1_000)),
            w.h1,
        );
        exact_fraction_of::<A>(1, 1_000_000, m, num);
        let (p, q): (Double, Double) = exact_product_of::<A>(
            given(w.h0),
            fraction(1, 1_000),
            n,
            num,
        );
        exact_fraction_of::<A>(1, 1_000, q, num);
        extremes_are_exact(m, n, num);
        let (x, y): (real, real) = (num(w.h0), num(q));
        assert(1_000real * (x * y) == x * (y * 1_000real)) by (nonlinear_arith);
    } else {
        let base = fraction(1, 100).over(given(w.d1).at_least(given(w.d2)));
        let (b, e): (Double, Double) = parts_of_power::<A>(base, fraction(1, 5), w.h1);
        assert(!b.nan() && !e.nan()) by {
            reveal(exact_in);
        }
        exact_fraction_of::<A>(1, 5, e, num);
        assert(num(w.h1) > 0real && fifth_power(num(w.h1)) == num(b)) by {
            reveal(exact_in);
        }
        let (p, q): (Double, Double) = exact_quotient_of::<A>(
            fraction(1, 100),
            given(w.d1).at_least(given(w.d2)),
            b,
            num,
        );
        exact_fraction_of::<A>(1, 100, p, num);
        let (m, n): (Double, Double) = parts_of_greater::<A>(given(w.d1), given(w.d2), q);
        extremes_are_exact(m, n, num);
    }
}

/// The first step is the least of a hundred first guesses, the second guess, and the interval.
pub proof fn the_first_step_is_the_least_guess<A: Arithmetic>(
    w: FirstStep,
    interval: Double,
    h: Double,
    num: spec_fn(Double) -> real,
)
    requires
        exact_in::<A>(num),
        ordered_in(num),
        evaluates::<A>(least_guess(w, interval), h),
        forall|v: Double| #[trigger]
            evaluates::<A>(fraction(100, 1).times(given(w.h0)), v) ==> !v.nan(),
        !w.h1.nan(),
        !interval.nan(),
    ensures
        num(h) == least(least(100real * num(w.h0), num(w.h1)), num(interval)),
{
    let grown = fraction(100, 1).times(given(w.h0));
    let (m, n): (Double, Double) = parts_of_lesser::<A>(
        grown.at_most(given(w.h1)),
        given(interval),
        h,
    );
    let (p, q): (Double, Double) = parts_of_lesser::<A>(grown, given(w.h1), m);
    let (r, s): (Double, Double) = exact_product_of::<A>(fraction(100, 1), given(w.h0), p, num);
    exact_fraction_of::<A>(100, 1, r, num);
    assert(num(r) == 100real);
    extremes_are_exact(p, q, num);
    extremes_are_exact(m, n, num);
}

/// `norm` is the root of the mean square of what is measured in `scales`.
pub open spec fn mean_of(
    x: Seq<real>,
    scales: Seq<real>,
    norm: real,
) -> bool {
    exists|v: Seq<real>|
        v.len() == scales.len() && norm >= 0real && norm * norm * (v.len() as real)
            == #[trigger] sum_of_squares(v) && forall|i: int|
            0 <= i < v.len() ==> #[trigger] v[i] * scales[i] == x[i]
}

/// A norm of which each component is measured by its scale, exactly.
proof fn lemma_mean<A: Arithmetic>(
    a: Seq<Double>,
    scales: Seq<Double>,
    norm: Double,
    num: spec_fn(Double) -> real,
)
    requires
        exact_in::<A>(num),
        scaled_norm::<A>(a, scales, norm),
        !norm.nan(),
        scales.len() <= usize::MAX,
    ensures
        mean_of(numbers(a, num), numbers(scales, num), num(norm)) || a.len() < scales.len(),
{
    let v = choose|v: Seq<Double>| #[trigger]
        scaled::<A>(a, scales, v) && evaluates::<A>(
            mean_norm(v),
            norm,
        );
    norms_are_root_mean_squares::<A>(v, norm, num);
    let u = numbers(v, num);
    if a.len() >= scales.len() {
        assert forall|i: int| 0 <= i < u.len() implies #[trigger] u[i] * numbers(scales, num)[i]
            == numbers(a, num)[i] by {
            assert(!v[i].nan());
            let (p, q): (Double, Double) = exact_quotient_of::<A>(
                given(a[i]),
                given(scales[i]),
                v[i],
                num,
            );
        }
        assert(sum_of_squares(u) == sum_of_squares(u));
    }
}

/// What the first step goes by: the norms of the state, of its derivative, and of the change of the
/// derivative over the first guess, each measured by the absolute tolerance and the relative one of
/// the size of the state; where the change is that to the state that the first guess leads to along
/// the derivative.
pub proof fn the_first_step_goes_by_scaled_norms<
    A: Arithmetic,
    F: Fn(Double, &Vec<Double>) -> Vec<Double>,
>(
    func: F,
    t0: Double,
    y0: Seq<Double>,
    f0: Seq<Double>,
    direction: Double,
    rtol: Double,
    atol: Double,
    interval: Double,
    w: FirstStep,
    num: spec_fn(Double) -> real,
)
    requires
        exact_in::<A>(num),
        ordered_in(num),
        probed::<A, F>(func, t0, y0, f0, direction, rtol, atol, interval, w),
        y0.len() <= f0.len(),
        y0.len() <= usize::MAX,
        forall|i: int| 0 <= i < y0.len() ==> !(#[trigger] y0[i]).nan(),
        forall|i: int| 0 <= i < y0.len() ==> !(#[trigger] w.scales[i]).nan(),
        forall|i: int| 0 <= i < y0.len() ==> !(#[trigger] w.y1@[i]).nan(),
        forall|i: int| 0 <= i < y0.len() ==> !(#[trigger] w.change[i]).nan(),
        !w.d0.nan(),
        !w.d1.nan(),
        !w.d2.nan(),
        !w.t1.nan(),
    ensures
        w.scales.len() == y0.len(),
        forall|i: int|
            0 <= i < y0.len() ==> num(#[trigger] w.scales[i]) == num(atol) + size(num(y0[i])) * num(
                rtol,
            ),
        mean_of(numbers(y0, num), numbers(w.scales, num), num(w.d0)),
        mean_of(numbers(f0, num), numbers(w.scales, num), num(w.d1)),
        mean_of(numbers(w.change, num), numbers(w.scales, num), num(w.d2) * num(w.h0)),
        call_ensures(func, (w.t1, &w.y1), w.f1),
        num(w.t1) == num(t0) + num(w.h0) * num(direction),
        forall|i: int|
            0 <= i < y0.len() ==> num(#[trigger] w.y1@[i]) == num(y0[i]) + num(w.h0) * num(
                direction,
            ) * num(f0[i]),
        forall|i: int|
            0 <= i < y0.len() ==> num(#[trigger] w.change[i]) == num(w.f1@[i]) - num(f0[i]),
{
    assert forall|i: int| 0 <= i < y0.len() implies num(#[trigger] w.scales[i]) == num(atol) + size(
        num(y0[i]),
    ) * num(rtol) by {
        let part = given(y0[i]).size().times(given(rtol));
        let (a, b): (Double, Double) = exact_sum_of::<A>(given(atol), part, w.scales[i], num);
        let (c, d): (Double, Double) = exact_product_of::<A>(
            given(y0[i]).size(),
            given(rtol),
            b,
            num,
        );
        let e = part_of_size::<A>(given(y0[i]), c);
        assert(!y0[i].nan());
        sizes_are_exact::<A>(y0[i], num);
    }
    lemma_mean::<A>(y0, w.scales, w.d0, num);
    lemma_mean::<A>(f0, w.scales, w.d1, num);
    let norm = choose|norm: Double| #[trigger]
        scaled_norm::<A>(w.change, w.scales, norm) && evaluates::<A>(
            given(norm).over(given(w.h0)),
            w.d2,
        );
    let (p, q): (Double, Double) = exact_quotient_of::<A>(given(norm), given(w.h0), w.d2, num);
    lemma_mean::<A>(w.change, w.scales, norm, num);
    let (r, s): (Double, Double) = exact_sum_of::<A>(
        given(t0),
        given(w.h0).times(given(direction)),
        w.t1,
        num,
    );
    let (u, v): (Double, Double) = exact_product_of::<A>(given(w.h0), given(direction), s, num);
    assert forall|i: int| 0 <= i < y0.len() implies num(#[trigger] w.y1@[i]) == num(y0[i]) + num(
        w.h0,
    ) * num(direction) * num(f0[i]) by {
        let way = given(w.h0).times(given(direction));
        let (a, b): (Double, Double) = exact_sum_of::<A>(
            given(y0[i]),
            way.times(given(f0[i])),
            w.y1@[i],
            num,
        );
        let (c, d): (Double, Double) = exact_product_of::<A>(way, given(f0[i]), b, num);
        let (e, g): (Double, Double) = exact_product_of::<A>(
            given(w.h0),
            given(direction),
            c,
            num,
        );
    }
    assert forall|i: int| 0 <= i < y0.len() implies num(#[trigger] w.change[i]) == num(w.f1@[i])
        - num(f0[i]) by {
        let (a, b): (Double, Double) = exact_difference_of::<A>(
            given(w.f1@[i]),
            given(f0[i]),
            w.change[i],
            num,
        );
    }
}

/// The interval is as long as it is from its beginning to its end.
pub proof fn intervals_are_as_long_as_their_span<A: Arithmetic>(
    t0: Double,
    t_bound: Double,
    interval: Double,
    num: spec_fn(Double) -> real,
)
    requires
        exact_in::<A>(num),
        ordered_in(num),
        evaluates::<A>(span_of(t0, t_bound), interval),
        !interval.nan(),
    ensures
        num(interval) == size(num(t_bound) - num(t0)),
{
    let d = part_of_size::<A>(given(t_bound).minus(given(t0)), interval);
    assert(!d.nan());
    let (a, b): (Double, Double) = exact_difference_of::<A>(given(t_bound), given(t0), d, num);
    sizes_are_exact::<A>(d, num);
}

} // verus!
