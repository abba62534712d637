//! Laws of steps: how long the first one is, which way all of them go, and where events lie.
use crate::arithmetic::{
    evaluates, fraction, given, one, part_of_size, parts_of_difference, parts_of_greater,
    parts_of_lesser, parts_of_power, parts_of_product, parts_of_quotient, parts_of_sum,
    rank_orders_values, zero, Arithmetic,
};
use crate::double::Double;
use crate::rounding::{
    between, between_finite_is_finite, differences_tell, faithful, in_reach, inner_points,
    largest_is_bounded, largest_is_greatest, leans, orderly, power_of_two,
    powers_of_two_are_doubles, products_are_rounded, products_lean, quotients_are_rounded,
    quotients_lean, ratios_are_positive, rounded, rounding_is_symmetric, rounding_stays_between,
    small, small_numbers_are_doubles, sums_move, zero_is_nothing,
};
use crate::solvers::brent_laws::{opposed, roots_are_pinned, searchable};
use crate::solvers::ivp::{
    active, aimed, aimed_at, all_localized, at_least_step, attempts, direction_of, event_tolerance,
    first_event, first_met, lemma_records, localized, next_after_rejected, next_after_taken,
    on_the_way, safe_factor, solved, solved_through, spacing, Attempt, Integration, OdeResult,
    Progress, Settings,
};
use crate::solvers::ivp_laws::{first_met_is_first, lemma_run};
use crate::solvers::rk45::{
    below, errors, estimated, first_step, first_step_over, guessed, guessed_as, interpolated,
    least_guess, mean_norm, probed, refined, refined_as, scaled, scaled_norm, span_of, up_to,
    FirstStep,
};
use vstd::arithmetic::power2::{
    lemma2_to64, lemma2_to64_rest, lemma_pow2_adds, lemma_pow2_pos, lemma_pow2_strictly_increases,
    lemma_pow2_unfold, pow2,
};
use vstd::prelude::*;

verus! {

/// The first step is no longer than the interval, where that is a number.
pub proof fn first_step_fits_the_interval<
    A: Arithmetic,
    F: Fn(Double, &Vec<Double>) -> Vec<Double>,
>(
    func: F,
    t0: Double,
    y0: Seq<Double>,
    t_bound: Double,
    f0: Seq<Double>,
    direction: Double,
    rtol: Double,
    atol: Double,
    h: Double,
)
    requires
        first_step::<A, F>(func, t0, y0, t_bound, f0, direction, rtol, atol, h),
        y0.len() > 0,
    ensures
        exists|interval: Double| #[trigger]
            evaluates::<A>(span_of(t0, t_bound), interval) && (!interval.nan() ==> h.le(interval)),
{
    let interval = choose|interval: Double| #[trigger]
        evaluates::<A>(span_of(t0, t_bound), interval) && first_step_over::<A, F>(
            func,
            t0,
            y0,
            f0,
            direction,
            rtol,
            atol,
            interval,
            h,
        );
    if !interval.same(zero()) {
        let w = choose|w: FirstStep| #[trigger]
            probed::<A, F>(func, t0, y0, f0, direction, rtol, atol, interval, w)
                && evaluates::<A>(least_guess(w, interval), h);
        let guess = fraction(100, 1).times(given(w.h0)).at_most(given(w.h1));
        let (x, y): (Double, Double) = parts_of_lesser::<A>(guess, given(interval), h);
        assert(h == x.lesser(interval));
    }
    assert(evaluates::<A>(span_of(t0, t_bound), interval) && (!interval.nan() ==> h.le(interval)));
}

/// A quotient of a double of at least `2^-50` and a positive one is positive.
proof fn lemma_quotient_positive<A: Arithmetic>(a: Double, b: Double, v: Double)
    requires
        faithful::<A>(),
        a.finite(),
        b.finite(),
        b.value() > 0,
        a.value() >= pow2(1024),
        call_ensures(A::quotient, (a, b), v),
    ensures
        zero().lt(v),
        rounded(a.value() * pow2(1074), b.value(), v),
{
    quotients_are_rounded::<A>(a, b, v);
    largest_is_greatest(b);
    largest_is_bounded();
    lemma_pow2_adds(1024, 1074);
    lemma_pow2_pos(1074);
    small_numbers_are_doubles(1);
    assert(a.value() * pow2(1074) >= pow2(1024) * pow2(1074)) by (nonlinear_arith)
        requires
            a.value() >= pow2(1024),
            pow2(1074) > 0,
    ;
    assert(small(1).le(v)) by {
        reveal(rounded);
        assert(small(1).finite());
    }
}

/// A ratio is no less than a power of two that is no more than it.
proof fn lemma_ratio_at_least<A: Arithmetic>(d: i64, v: Double, k: nat)
    requires
        faithful::<A>(),
        call_ensures(A::ratio, (1i64, d), v),
        0 < d < 0x20_0000_0000_0000,
        52 <= k <= 1074,
        pow2(k) * d <= pow2(1074),
    ensures
        v.finite(),
        pow2(k) <= v.value() <= pow2(1074),
        zero().lt(v),
{
    ratios_are_positive::<A>(1, d, v);
    let unit = pow2(1074) as int;
    let e = k - 51;
    powers_of_two_are_doubles(e);
    powers_of_two_are_doubles(1023);
    assert((e + 51) as nat == k);
    let (low, high): (Double, Double) = (power_of_two(e), power_of_two(1023));
    lemma_pow2_pos(1074);
    assert(1 * unit <= high.value() * d) by (nonlinear_arith)
        requires
            high.value() == unit,
            unit > 0,
            d >= 1,
    ;
    rounding_stays_between(low, high, 1 * unit, d as int, v);
}

/// The first guess is positive, where the norm of the derivative is finite.
proof fn lemma_first_guess<A: Arithmetic>(w: FirstStep, interval: Double)
    requires
        faithful::<A>(),
        orderly::<A>(),
        guessed::<A>(w, interval),
        leans(w.d0, true),
        w.d1.finite(),
        zero().lt(interval),
    ensures
        zero().lt(w.h0),
{
    let (tiny0, tiny1): (bool, bool) = choose|tiny0: bool, tiny1: bool| #[trigger]
        guessed_as::<A>(w, interval, tiny0, tiny1);
    let ratio = fraction(1, 100).times(given(w.d0)).over(given(w.d1));
    let first = if tiny0 || tiny1 {
        fraction(1, 1_000_000)
    } else {
        ratio
    };
    let (x, y): (Double, Double) = parts_of_lesser::<A>(first, given(interval), w.h0);
    if tiny0 || tiny1 {
        ratios_are_positive::<A>(1, 1_000_000, x);
    } else {
        lemma_guess_ratio::<A>(w, x);
    }
}

/// A hundredth of one norm over another is positive, or no number, where they are not small.
proof fn lemma_guess_ratio<A: Arithmetic>(w: FirstStep, x: Double)
    requires
        faithful::<A>(),
        orderly::<A>(),
        below::<A>(w.d0, (1, 100_000), false),
        below::<A>(w.d1, (1, 100_000), false),
        leans(w.d0, true),
        w.d1.finite(),
        evaluates::<A>(fraction(1, 100).times(given(w.d0)).over(given(w.d1)), x),
    ensures
        x.nan() || zero().lt(x),
{
    let (m, d): (Double, Double) = parts_of_quotient::<A>(
        fraction(1, 100).times(given(w.d0)),
        given(w.d1),
        x,
    );
    let (c, d0): (Double, Double) = parts_of_product::<A>(fraction(1, 100), given(w.d0), m);
    lemma_not_below::<A>(w.d1);
    lemma2_to64();
    lemma_pow2_adds(7, 1067);
    lemma_pow2_pos(1067);
    lemma_pow2_pos(1057);
    lemma_pow2_pos(1074);
    lemma_ratio_at_least::<A>(100, c, 1067);
    if w.d0.finite() {
        lemma_not_below::<A>(w.d0);
        products_are_rounded::<A>(c, w.d0, m);
        let unit = pow2(1074) as int;
        let v = w.d0.value();
        lemma_pow2_adds(1067, 1057);
        lemma_pow2_adds(1050, 1074);
        powers_of_two_are_doubles(999);
        let low = power_of_two(999);
        assert(low.value() * unit <= c.value() * v) by (nonlinear_arith)
            requires
                low.value() * unit == pow2(1067) * pow2(1057),
                c.value() >= pow2(1067),
                v >= pow2(1057),
                pow2(1067) > 0,
                pow2(1057) > 0,
        ;
        assert(c.value() * v <= v * unit) by (nonlinear_arith)
            requires
                c.value() <= unit,
                v >= 0,
        ;
        rounding_stays_between(low, w.d0, c.value() * v, unit, m);
        lemma_pow2_strictly_increases(1024, 1050);
        lemma_quotient_positive::<A>(m, w.d1, x);
    } else {
        products_lean::<A>(c, w.d0, m, true, true);
        zero_is_nothing();
        rank_orders_values(zero(), w.d1);
        quotients_lean::<A>(m, w.d1, x, true, true);
        assert(!x.finite()) by {
            reveal(orderly);
        }
    }
}

/// A finite number that is not less than a hundred-thousandth is at least `2^-17`.
proof fn lemma_not_below<A: Arithmetic>(d: Double)
    requires
        faithful::<A>(),
        below::<A>(d, (1, 100_000), false),
        d.finite(),
    ensures
        d.value() >= pow2(1057),
        d.value() > 0,
{
    let limit = choose|limit: Double|
        false == #[trigger] d.lt(limit) && evaluates::<A>(fraction(1, 100_000), limit);
    lemma2_to64();
    lemma_pow2_adds(17, 1057);
    lemma_pow2_pos(1057);
    lemma_ratio_at_least::<A>(100_000, limit, 1057);
    assert(limit.le(d));
    rank_orders_values(limit, d);
}

/// A fifth is less than one.
proof fn lemma_fifth<A: Arithmetic>(b: Double)
    requires
        faithful::<A>(),
        call_ensures(A::ratio, (1i64, 5i64), b),
    ensures
        b.absolute().lt(one()),
        zero().le(b),
{
    ratios_are_positive::<A>(1, 5, b);
    let unit = pow2(1074) as int;
    lemma_pow2_unfold(1074);
    lemma_pow2_pos(1074);
    powers_of_two_are_doubles(1022);
    zero_is_nothing();
    rounding_stays_between(zero(), power_of_two(1022), 1 * unit, 5, b);
    assert(power_of_two(1022).bits == 1022 * 0x10_0000_0000_0000);
}

/// The second guess is positive, where the norms are finite.
proof fn lemma_second_guess<A: Arithmetic>(w: FirstStep)
    requires
        faithful::<A>(),
        orderly::<A>(),
        refined::<A>(w),
        w.d1.finite(),
        w.d2.finite(),
    ensures
        zero().lt(w.h1),
{
    let (flat1, flat2): (bool, bool) = choose|flat1: bool, flat2: bool| #[trigger]
        refined_as::<A>(w, flat1, flat2);
    if flat1 && flat2 {
        let (x, y): (Double, Double) = parts_of_greater::<A>(
            fraction(1, 1_000_000),
            given(w.h0).times(fraction(1, 1_000)),
            w.h1,
        );
        ratios_are_positive::<A>(1, 1_000_000, x);
    } else {
        let most = given(w.d1).at_least(given(w.d2));
        let (base, b): (Double, Double) = parts_of_power::<A>(
            fraction(1, 100).over(most),
            fraction(1, 5),
            w.h1,
        );
        let (c, m): (Double, Double) = parts_of_quotient::<A>(fraction(1, 100), most, base);
        let (x, y): (Double, Double) = parts_of_greater::<A>(given(w.d1), given(w.d2), m);
        assert(m == w.d1.greater(w.d2));
        if flat1 {
            lemma_not_flat::<A>(w.d2, m);
        } else {
            lemma_not_flat::<A>(w.d1, m);
        }
        lemma2_to64();
        lemma_pow2_adds(7, 1067);
        lemma_pow2_pos(1067);
        lemma_ratio_at_least::<A>(100, c, 1067);
        lemma_pow2_strictly_increases(1024, 1067);
        lemma_quotient_positive::<A>(c, m, base);
        lemma_fifth::<A>(b);
        assert(zero().lt(w.h1)) by {
            reveal(orderly);
        }
    }
}

/// A finite number that is no less than one that is not next to nothing is at least `2^-50`.
proof fn lemma_not_flat<A: Arithmetic>(d: Double, m: Double)
    requires
        faithful::<A>(),
        up_to::<A>(d, (1, 1_000_000_000_000_000), false),
        d.finite(),
        m.finite(),
        d.le(m),
    ensures
        m.value() >= pow2(1024),
        m.value() > 0,
{
    let limit = choose|limit: Double|
        false == #[trigger] d.le(limit) && evaluates::<A>(
            fraction(1, 1_000_000_000_000_000),
            limit,
        );
    lemma2_to64();
    lemma2_to64_rest();
    lemma_pow2_adds(50, 1024);
    lemma_pow2_pos(1024);
    lemma_ratio_at_least::<A>(1_000_000_000_000_000, limit, 1024);
    assert(limit.le(m));
    rank_orders_values(limit, m);
}

/// The first step is positive, and no longer than the interval, where the norms of the derivative
/// and of its change are finite. Where one of them is infinite, the step may be nothing.
pub proof fn first_step_is_positive<A: Arithmetic, F: Fn(Double, &Vec<Double>) -> Vec<Double>>(
    func: F,
    t0: Double,
    y0: Seq<Double>,
    f0: Seq<Double>,
    direction: Double,
    rtol: Double,
    atol: Double,
    interval: Double,
    w: FirstStep,
    h: Double,
)
    requires
        faithful::<A>(),
        orderly::<A>(),
        probed::<A, F>(func, t0, y0, f0, direction, rtol, atol, interval, w),
        evaluates::<A>(least_guess(w, interval), h),
        zero().lt(interval),
        w.d1.finite(),
        w.d2.finite(),
    ensures
        zero().lt(h),
        h.le(interval),
{
    lemma_mean_norm::<A>(y0, w.scales, w.d0);
    lemma_first_guess::<A>(w, interval);
    lemma_second_guess::<A>(w);
    let hundredfold = fraction(100, 1).times(given(w.h0));
    let (x, y): (Double, Double) = parts_of_lesser::<A>(
        hundredfold.at_most(given(w.h1)),
        given(interval),
        h,
    );
    let (p, q): (Double, Double) = parts_of_lesser::<A>(hundredfold, given(w.h1), x);
    let (c, r): (Double, Double) = parts_of_product::<A>(fraction(100, 1), given(w.h0), p);
    ratios_are_positive::<A>(100, 1, c);
    if w.h0.finite() {
        let unit = pow2(1074) as int;
        lemma_pow2_pos(1074);
        powers_of_two_are_doubles(1023);
        powers_of_two_are_doubles(1030);
        lemma2_to64();
        lemma_pow2_adds(7, 1074);
        rounding_stays_between(power_of_two(1023), power_of_two(1030), 100 * unit, 1, c);
        products_are_rounded::<A>(c, w.h0, p);
        zero_is_nothing();
        rank_orders_values(zero(), w.h0);
        let v = w.h0.value();
        assert(v * unit <= c.value() * v) by (nonlinear_arith)
            requires
                c.value() >= unit,
                v > 0,
        ;
        assert(w.h0.le(p)) by {
            reveal(rounded);
            assert(w.h0.finite());
        }
    } else {
        products_lean::<A>(c, w.h0, p, true, true);
        assert(!p.nan()) by {
            reveal(orderly);
        }
    }
}

/// A norm is no number, or not negative.
proof fn lemma_mean_norm<A: Arithmetic>(a: Seq<Double>, scales: Seq<Double>, norm: Double)
    requires
        orderly::<A>(),
        scaled_norm::<A>(a, scales, norm),
    ensures
        leans(norm, true),
{
    let v = choose|v: Seq<Double>| #[trigger]
        scaled::<A>(a, scales, v) && evaluates::<A>(mean_norm(v), norm);
    if v.len() > 0 {
        reveal(orderly);
        assert(exists|x: Double| #[trigger] call_ensures(A::square_root, (x,), norm));
    }
}

/// `b` does not come before `a` on a way that goes forth, or back.
pub open spec fn onward(backward: bool, a: Double, b: Double) -> bool {
    if backward {
        b.le(a)
    } else {
        a.le(b)
    }
}

/// The least step at a finite time is a number that is not negative.
proof fn lemma_spacing<A: Arithmetic>(t: Double, direction: Double, m: Double)
    requires
        faithful::<A>(),
        orderly::<A>(),
        t.finite(),
        evaluates::<A>(spacing(t, direction), m),
    ensures
        zero().le(m),
{
    let next = if zero().lt(direction) {
        t.successor()
    } else {
        t.predecessor()
    };
    let gap = given(next).minus(given(t));
    let (ten, size): (Double, Double) = parts_of_product::<A>(fraction(10, 1), gap.size(), m);
    let v = part_of_size::<A>(gap, size);
    let (x, y): (Double, Double) = parts_of_difference::<A>(given(next), given(t), v);
    assert(next.lt(t) || t.lt(next));
    differences_tell::<A>(next, t, v);
    assert(zero().lt(size));
    ratios_are_positive::<A>(10, 1, ten);
    products_lean::<A>(ten, size, m, true, true);
    assert(!m.nan()) by {
        reveal(orderly);
    }
}

/// An error estimate is no number, or not negative.
proof fn lemma_norm<A: Arithmetic>(
    y: Seq<Double>,
    y_new: Seq<Double>,
    k: Seq<Vec<Double>>,
    h: Double,
    rtol: Double,
    atol: Double,
    norm: Double,
)
    requires
        orderly::<A>(),
        estimated::<A>(y, y_new, k, h, rtol, atol, norm),
    ensures
        leans(norm, true),
{
    let err = choose|err: Seq<Double>| #[trigger]
        errors::<A>(y, y_new, k, h, rtol, atol, err) && evaluates::<A>(mean_norm(err), norm);
    if err.len() > 0 {
        reveal(orderly);
        assert(exists|x: Double| #[trigger] call_ensures(A::square_root, (x,), norm));
    }
}

/// A step leads on, and no further than to the end.
proof fn lemma_aimed<A: Arithmetic>(
    s: Settings,
    t0: Double,
    t: Double,
    h_abs: Double,
    t_new: Double,
    h: Double,
)
    requires
        faithful::<A>(),
        orderly::<A>(),
        t0.finite(),
        s.tf.finite(),
        s.direction == direction_of(t0, s.tf),
        onward(s.tf.lt(t0), t0, t),
        onward(s.tf.lt(t0), t, s.tf),
        zero().le(h_abs),
        aimed::<A>(s, t, h_abs, t_new, h),
    ensures
        onward(s.tf.lt(t0), t, t_new),
        onward(s.tf.lt(t0), t_new, s.tf),
        t_new.finite(),
        !h.nan(),
{
    let backward = s.tf.lt(t0);
    inner_points(t0, t, s.tf);
    let (reach, e): (Double, Double) = choose|reach: Double, e: Double| #[trigger]
        aimed_at::<A>(s, t, h_abs, reach, e, t_new, h);
    let stride = given(h_abs).times(given(s.direction));
    let (x, step): (Double, Double) = parts_of_sum::<A>(given(t), stride, reach);
    let (x0, x1): (Double, Double) = parts_of_product::<A>(given(h_abs), given(s.direction), step);
    assert(if backward {
        step.le(zero())
    } else {
        zero().le(step)
    }) by {
        reveal(orderly);
    }
    sums_move::<A>(t, step, reach);
    let way = given(reach).minus(given(s.tf));
    let (c, d): (Double, Double) = parts_of_product::<A>(given(s.direction), way, e);
    let (d0, d1): (Double, Double) = parts_of_difference::<A>(given(reach), given(s.tf), d);
    differences_tell::<A>(reach, s.tf, d);
    assert(!onward(backward, reach, s.tf) ==> zero().lt(e)) by {
        reveal(orderly);
    }
    inner_points(t, t_new, s.tf);
    let (h0, h1): (Double, Double) = parts_of_difference::<A>(given(t_new), given(t), h);
    lemma_difference_number::<A>(t_new, t, h);
}

/// A difference of finite numbers is a number.
proof fn lemma_difference_number<A: Arithmetic>(a: Double, b: Double, v: Double)
    requires
        faithful::<A>(),
        a.finite(),
        b.finite(),
        call_ensures(A::difference, (a, b), v),
    ensures
        !v.nan(),
{
    assert(rounded(a.value() - b.value(), 1, v)) by {
        reveal(faithful);
    }
    reveal(rounded);
}

/// Minus a fifth lies between minus one and nothing.
proof fn lemma_minus_fifth<A: Arithmetic>(b: Double)
    requires
        faithful::<A>(),
        call_ensures(A::ratio, (-1i64, 5i64), b),
    ensures
        b.absolute().lt(one()),
        b.lt(zero()),
{
    let unit = pow2(1074) as int;
    assert(rounded(-1 * unit, 5, b)) by {
        reveal(faithful);
    }
    rounding_is_symmetric(-1 * unit, 5, b);
    lemma2_to64();
    lemma_pow2_pos(1071);
    lemma_pow2_adds(3, 1071);
    lemma_pow2_unfold(1074);
    powers_of_two_are_doubles(1020);
    powers_of_two_are_doubles(1022);
    rounding_stays_between(power_of_two(1020), power_of_two(1022), unit, 5, b.opposite());
    assert(power_of_two(1020).bits == 1020 * 0x10_0000_0000_0000);
    assert(power_of_two(1022).bits == 1022 * 0x10_0000_0000_0000);
}

/// What a step may be changed by is no number, or not negative. It is finite where the error
/// estimate is at least one, and no number where that is none; and it is positive where the estimate
/// is between nothing and one.
proof fn lemma_safe_factor<A: Arithmetic>(norm: Double, v: Double)
    requires
        faithful::<A>(),
        orderly::<A>(),
        leans(norm, true),
        evaluates::<A>(safe_factor(norm), v),
    ensures
        leans(v, true),
        norm.nan() ==> v.nan(),
        one().le(norm) ==> v.finite() && zero().le(v),
        zero().lt(norm) && norm.le(one()) ==> zero().lt(v),
{
    let part = given(norm).to_the(fraction(-1i64, 5));
    let (c, p): (Double, Double) = parts_of_product::<A>(fraction(9, 10), part, v);
    let (n, b): (Double, Double) = parts_of_power::<A>(given(norm), fraction(-1i64, 5), p);
    lemma_minus_fifth::<A>(b);
    ratios_are_positive::<A>(9, 10, c);
    assert(leans(p, true) && (norm.nan() ==> p.nan()) && (one().le(norm) ==> p.le(one()))) by {
        reveal(orderly);
    }
    products_lean::<A>(c, p, v, true, true);
    zero_is_nothing();
    powers_of_two_are_doubles(1023);
    assert(power_of_two(1023) == one());
    let unit = pow2(1074) as int;
    lemma_pow2_pos(1074);
    if zero().lt(norm) && norm.le(one()) {
        assert(one().le(p)) by {
            reveal(orderly);
        }
        if p.finite() {
            rank_orders_values(one(), p);
            products_are_rounded::<A>(c, p, v);
            assert(c.value() * unit <= c.value() * p.value()) by (nonlinear_arith)
                requires
                    c.value() > 0,
                    unit <= p.value(),
            ;
            assert(c.le(v)) by {
                reveal(rounded);
                assert(c.finite());
            }
        } else {
            assert(!v.nan()) by {
                reveal(orderly);
            }
        }
    }
    if one().le(norm) {
        assert(!p.nan()) by {
            reveal(orderly);
        }
        between_finite_is_finite(zero(), p, one());
        rounding_stays_between(zero(), one(), 9 * unit, 10, c);
        products_are_rounded::<A>(c, p, v);
        assert(0 * unit <= c.value() * p.value() <= one().value() * unit) by (nonlinear_arith)
            requires
                0 <= c.value() <= unit,
                0 <= p.value() <= unit,
                one().value() == unit,
        ;
        rounding_stays_between(zero(), one(), c.value() * p.value(), unit, v);
    }
}

/// A size that is changed by a positive factor is a number.
proof fn lemma_number<A: Arithmetic>(h: Double, factor: Double, v: Double)
    requires
        faithful::<A>(),
        orderly::<A>(),
        !h.nan(),
        factor.finite(),
        zero().lt(factor),
        call_ensures(A::product, (h.absolute(), factor), v),
    ensures
        !v.nan(),
{
    let size = h.absolute();
    if size.finite() {
        products_are_rounded::<A>(size, factor, v);
        reveal(rounded);
    } else {
        reveal(orderly);
        assert(!size.nan() && !size.same(zero()));
    }
}

/// A number is less than one exactly where it is less than the ratio of one to one.
proof fn lemma_below_one<A: Arithmetic>(d: Double, yes: bool)
    requires
        faithful::<A>(),
        below::<A>(d, (1, 1), yes),
    ensures
        yes == d.lt(one()),
{
    let limit = choose|limit: Double|
        yes == #[trigger] d.lt(limit) && evaluates::<A>(fraction(1, 1), limit);
    ratios_are_positive::<A>(1, 1, limit);
    lemma_pow2_pos(1074);
    zero_is_nothing();
    powers_of_two_are_doubles(1023);
    assert(power_of_two(1023) == one());
    rounding_stays_between(one(), one(), 1int * pow2(1074), 1, limit);
}

/// After a step that is taken, the next one is a number.
proof fn lemma_after_taken<A: Arithmetic>(h: Double, norm: Double, rejected: bool, v: Double)
    requires
        faithful::<A>(),
        orderly::<A>(),
        !h.nan(),
        leans(norm, true),
        below::<A>(norm, (1, 1), true),
        evaluates::<A>(next_after_taken(h, norm, rejected), v),
    ensures
        !v.nan(),
{
    let grown = if norm.same(zero()) {
        fraction(10, 1)
    } else {
        fraction(10, 1).at_most(safe_factor(norm))
    };
    let held = if rejected {
        grown.at_most(fraction(1, 1))
    } else {
        grown
    };
    let (size, factor): (Double, Double) = parts_of_product::<A>(given(h).size(), held, v);
    let x = part_of_size::<A>(given(h), size);
    lemma_below_one::<A>(norm, true);
    let g = if rejected {
        let (g, l): (Double, Double) = parts_of_lesser::<A>(grown, fraction(1, 1), factor);
        ratios_are_positive::<A>(1, 1, l);
        g
    } else {
        factor
    };
    zero_is_nothing();
    if norm.same(zero()) {
        ratios_are_positive::<A>(10, 1, g);
    } else {
        let (ten, safe): (Double, Double) = parts_of_lesser::<A>(
            fraction(10, 1),
            safe_factor(norm),
            g,
        );
        ratios_are_positive::<A>(10, 1, ten);
        lemma_safe_factor::<A>(norm, safe);
        between_finite_is_finite(zero(), g, ten);
    }
    between_finite_is_finite(zero(), factor, g);
    lemma_number::<A>(h, factor, v);
}

/// After a step that is rejected, the next one is a number.
proof fn lemma_after_rejected<A: Arithmetic>(h: Double, norm: Double, v: Double)
    requires
        faithful::<A>(),
        orderly::<A>(),
        !h.nan(),
        leans(norm, true),
        below::<A>(norm, (1, 1), false),
        evaluates::<A>(next_after_rejected(h, norm), v),
    ensures
        !v.nan(),
{
    let (size, factor): (Double, Double) = parts_of_product::<A>(
        given(h).size(),
        fraction(1, 5).at_least(safe_factor(norm)),
        v,
    );
    let x = part_of_size::<A>(given(h), size);
    let (fifth, safe): (Double, Double) = parts_of_greater::<A>(
        fraction(1, 5),
        safe_factor(norm),
        factor,
    );
    ratios_are_positive::<A>(1, 5, fifth);
    lemma_safe_factor::<A>(norm, safe);
    lemma_below_one::<A>(norm, false);
    lemma_number::<A>(h, factor, v);
}

/// The first step is a number.
proof fn lemma_first_step<A: Arithmetic, F: Fn(Double, &Vec<Double>) -> Vec<Double>>(
    func: F,
    t0: Double,
    y0: Seq<Double>,
    t_bound: Double,
    f0: Seq<Double>,
    direction: Double,
    rtol: Double,
    atol: Double,
    h: Double,
)
    requires
        faithful::<A>(),
        t0.finite(),
        t_bound.finite(),
        first_step::<A, F>(func, t0, y0, t_bound, f0, direction, rtol, atol, h),
    ensures
        !h.nan(),
{
    if y0.len() > 0 {
        first_step_fits_the_interval::<A, F>(
            func,
            t0,
            y0,
            t_bound,
            f0,
            direction,
            rtol,
            atol,
            h,
        );
        let interval = choose|interval: Double| #[trigger]
            evaluates::<A>(span_of(t0, t_bound), interval) && (!interval.nan() ==> h.le(interval));
        let way = given(t_bound).minus(given(t0));
        let d = part_of_size::<A>(way, interval);
        let (x, y): (Double, Double) = parts_of_difference::<A>(given(t_bound), given(t0), d);
        lemma_difference_number::<A>(t_bound, t0, d);
    }
}

impl Integration {
    /// The integration has come some of the way, its record goes one way, and the next step goes
    /// on.
    pub open spec fn steady(self, t0: Double) -> bool {
        let backward = self.settings.tf.lt(t0);
        &&& onward(backward, t0, self.t)
        &&& onward(backward, self.t, self.settings.tf)
        &&& !self.h_abs.nan()
        &&& zero().le(self.min_step)
        &&& self.ts@.len() > 0
        &&& self.ts@[0] == t0
        &&& self.ts@.last() == self.t
        &&& forall|i: int, j: int|
            0 <= i <= j < self.ts@.len() ==> onward(
                backward,
                #[trigger] self.ts@[i],
                #[trigger] self.ts@[j],
            )
    }
}

/// An integration begins steady.
proof fn lemma_begun_steady<
    A: Arithmetic,
    F: Fn(Double, &Vec<Double>) -> Vec<Double>,
    E: Fn(usize, Double, &Vec<Double>) -> Double,
>(func: F, event: E, count: nat, t0: Double, y0: Seq<Double>, s: Settings, a: Integration)
    requires
        faithful::<A>(),
        orderly::<A>(),
        t0.finite(),
        s.tf.finite(),
        a.begun::<A, F, E>(func, event, count, t0, y0, s),
    ensures
        a.steady(t0),
{
    let h = choose|h: Double| #[trigger]
        first_step::<A, F>(func, t0, y0, s.tf, a.f@, s.direction, s.rtol, s.atol, h) && a.h_abs
            == at_least_step(h, a.min_step);
    lemma_first_step::<A, F>(func, t0, y0, s.tf, a.f@, s.direction, s.rtol, s.atol, h);
    lemma_spacing::<A>(t0, s.direction, a.min_step);
    assert(!t0.nan() && !s.tf.nan());
}

/// Where a step that is tried leads.
proof fn lemma_tried<A: Arithmetic, F: Fn(Double, &Vec<Double>) -> Vec<Double>>(
    func: F,
    t0: Double,
    a: Integration,
    x: Attempt,
)
    requires
        faithful::<A>(),
        orderly::<A>(),
        t0.finite(),
        a.settings.tf.finite(),
        a.settings.direction == direction_of(t0, a.settings.tf),
        a.steady(t0),
        !a.h_abs.lt(a.min_step),
        a.tried::<A, F>(func, x),
    ensures
        onward(a.settings.tf.lt(t0), a.t, x.t_new),
        onward(a.settings.tf.lt(t0), x.t_new, a.settings.tf),
        x.t_new.finite(),
        !x.h.nan(),
        leans(x.norm, true),
{
    lemma_aimed::<A>(a.settings, t0, a.t, a.h_abs, x.t_new, x.h);
    lemma_norm::<A>(
        a.y@,
        x.y_new@,
        x.k,
        x.h,
        a.settings.rtol,
        a.settings.atol,
        x.norm,
    );
}

/// An attempt that meets no event keeps the integration steady.
proof fn lemma_attempt_steady<
    A: Arithmetic,
    F: Fn(Double, &Vec<Double>) -> Vec<Double>,
    E: Fn(usize, Double, &Vec<Double>) -> Double,
>(func: F, event: E, t0: Double, a: Integration, b: Integration, p: Progress)
    requires
        faithful::<A>(),
        orderly::<A>(),
        t0.finite(),
        a.settings.tf.finite(),
        a.settings.direction == direction_of(t0, a.settings.tf),
        a.steady(t0),
        a.attempted::<A, F, E>(func, event, b, p),
        b.t_event is None,
    ensures
        b.steady(t0),
        b.settings == a.settings,
{
    if !a.h_abs.lt(a.min_step) {
        let (x, accurate): (Attempt, bool) = choose|x: Attempt, accurate: bool| #[trigger]
            a.attempted_with::<A, F, E>(func, event, x, accurate, b, p);
        lemma_tried::<A, F>(func, t0, a, x);
        if accurate {
            let (ended, h_next, min_step, e): (bool, Double, Double, Double) = choose|
                ended: bool,
                h_next: Double,
                min_step: Double,
                e: Double,
            | #[trigger]
                a.taken_with::<A, E>(event, x, b, p, ended, h_next, min_step, e);
            assert(!ended);
            lemma_after_taken::<A>(x.h, x.norm, a.rejected, h_next);
            lemma_spacing::<A>(b.t, a.settings.direction, min_step);
            let backward = a.settings.tf.lt(t0);
            assert forall|i: int, j: int| 0 <= i <= j < b.ts@.len() implies onward(
                backward,
                #[trigger] b.ts@[i],
                #[trigger] b.ts@[j],
            ) by {
                let n = a.ts@.len() - 1;
                if j <= n {
                    assert(onward(backward, a.ts@[i], a.ts@[j]));
                } else if i <= n {
                    assert(onward(backward, a.ts@[i], a.ts@[n]));
                }
            }
        } else {
            lemma_after_rejected::<A>(x.h, x.norm, b.h_abs);
        }
    }
}

/// Every state of an integration that has met no event is steady.
proof fn lemma_steady<
    A: Arithmetic,
    F: Fn(Double, &Vec<Double>) -> Vec<Double>,
    E: Fn(usize, Double, &Vec<Double>) -> Double,
>(
    func: F,
    event: E,
    count: nat,
    t0: Double,
    y0: Seq<Double>,
    s: Settings,
    states: Seq<Integration>,
    progress: Seq<Progress>,
    i: int,
)
    requires
        faithful::<A>(),
        orderly::<A>(),
        t0.finite(),
        s.tf.finite(),
        s.direction == direction_of(t0, s.tf),
        attempts::<A, F, E>(func, event, states, progress),
        states[0].begun::<A, F, E>(func, event, count, t0, y0, s),
        0 <= i < states.len(),
        states[i].t_event is None,
    ensures
        states[i].steady(t0),
        states[i].settings == s,
    decreases i,
{
    if i == 0 {
        lemma_begun_steady::<A, F, E>(func, event, count, t0, y0, s, states[0]);
    } else {
        let j = i - 1;
        lemma_records::<A, F, E>(func, event, count, t0, y0, s, states, progress, j);
        lemma_steady::<A, F, E>(func, event, count, t0, y0, s, states, progress, j);
        assert(states[j].attempted::<A, F, E>(func, event, states[j + 1], progress[j]));
        lemma_attempt_steady::<A, F, E>(func, event, t0, states[j], states[i], progress[j]);
    }
}

/// How many of the recorded times are not that of an event.
pub open spec fn steps_recorded(r: OdeResult) -> int {
    if r.t_event is Some {
        r.t@.len() - 1
    } else {
        r.t@.len() as int
    }
}

/// The times that a solution records never move against its direction, and lie between the ends of
/// the span, which are finite; the time of an event comes on top of them.
pub proof fn times_go_one_way<
    A: Arithmetic,
    F: Fn(Double, &Vec<Double>) -> Vec<Double>,
    E: Fn(usize, Double, &Vec<Double>) -> Double,
>(
    func: F,
    event: E,
    count: nat,
    t0: Double,
    y0: Seq<Double>,
    s: Settings,
    limit: nat,
    r: OdeResult,
)
    requires
        faithful::<A>(),
        orderly::<A>(),
        t0.finite(),
        s.tf.finite(),
        s.direction == direction_of(t0, s.tf),
        solved::<A, F, E>(func, event, count, t0, y0, s, limit, Ok(r)),
    ensures
        forall|i: int, j: int|
            0 <= i <= j < steps_recorded(r) ==> onward(
                s.tf.lt(t0),
                #[trigger] r.t@[i],
                #[trigger] r.t@[j],
            ),
        forall|i: int|
            0 <= i < steps_recorded(r) ==> between(t0, #[trigger] r.t@[i], s.tf),
{
    let (states, progress): (Seq<Integration>, Seq<Progress>) = lemma_run::<A, F, E>(
        func,
        event,
        count,
        t0,
        y0,
        s,
        limit,
        r,
    );
    let n = states.len() - 1;
    let last = lemma_last_step::<A, F, E>(
        func,
        event,
        count,
        t0,
        y0,
        s,
        limit,
        r,
        states,
        progress,
    );
    let backward = s.tf.lt(t0);
    assert forall|i: int, j: int| 0 <= i <= j < steps_recorded(r) implies onward(
        backward,
        #[trigger] r.t@[i],
        #[trigger] r.t@[j],
    ) by {
        assert(onward(backward, last.ts@[i], last.ts@[j]));
    }
    assert forall|i: int| 0 <= i < steps_recorded(r) implies between(
        t0,
        #[trigger] r.t@[i],
        s.tf,
    ) by {
        let m = last.ts@.len() - 1;
        assert(onward(backward, last.ts@[0], last.ts@[i]));
        assert(onward(backward, last.ts@[i], last.ts@[m]));
    }
}

/// The last state of a run that has met no event, and what it has recorded.
proof fn lemma_last_step<
    A: Arithmetic,
    F: Fn(Double, &Vec<Double>) -> Vec<Double>,
    E: Fn(usize, Double, &Vec<Double>) -> Double,
>(
    func: F,
    event: E,
    count: nat,
    t0: Double,
    y0: Seq<Double>,
    s: Settings,
    limit: nat,
    r: OdeResult,
    states: Seq<Integration>,
    progress: Seq<Progress>,
) -> (last: Integration)
    requires
        faithful::<A>(),
        orderly::<A>(),
        t0.finite(),
        s.tf.finite(),
        s.direction == direction_of(t0, s.tf),
        solved_through::<A, F, E>(
            func,
            event,
            count,
            t0,
            y0,
            s,
            limit,
            states,
            progress,
            Ok(r),
        ),
    ensures
        last.steady(t0),
        last.settings == s,
        last.ts@.len() == steps_recorded(r),
        forall|i: int| 0 <= i < last.ts@.len() ==> (#[trigger] r.t@[i]) == last.ts@[i],
        r.t_event is Some ==> last == states[states.len() - 2],
{
    let n = states.len() - 1;
    if r.t_event is None {
        lemma_steady::<A, F, E>(func, event, count, t0, y0, s, states, progress, n);
        states[n]
    } else {
        lemma_records::<A, F, E>(func, event, count, t0, y0, s, states, progress, n - 1);
        lemma_steady::<A, F, E>(func, event, count, t0, y0, s, states, progress, n - 1);
        let a = states[n - 1];
        let b = states[n];
        assert(a.attempted::<A, F, E>(func, event, states[n - 1 + 1], progress[n - 1]));
        let (x, accurate): (Attempt, bool) = choose|x: Attempt, accurate: bool| #[trigger]
            a.attempted_with::<A, F, E>(func, event, x, accurate, b, progress[n - 1]);
        assert(b.ts@ == a.ts@.push(b.t));
        a
    }
}

/// On the dense output of a step, the events change their signs between its ends, or are zero at
/// one of them, and Brent's method can search them.
pub open spec fn locatable<A: Arithmetic, E: Fn(usize, Double, &Vec<Double>) -> Double>(
    event: E,
    which: Seq<usize>,
    t_old: Double,
    t_new: Double,
    h: Double,
    y_old: Seq<Double>,
    q: Seq<[Double; 4]>,
) -> bool {
    &&& in_reach(t_old, t_new)
    &&& forall|i: int|
        0 <= i < which.len() ==> sought::<A>(
            t_old,
            t_new,
            #[trigger] on_the_way::<A, E>(event, which[i], t_old, h, y_old, q),
        )
}

/// A function changes its sign between two points, or is zero at one of them, and Brent's method
/// can search it.
pub open spec fn sought<A: Arithmetic>(
    xa: Double,
    xb: Double,
    values: spec_fn(Double, Double) -> bool,
) -> bool {
    &&& searchable::<A>(xa, xb, values)
    &&& forall|fa: Double, fb: Double| #[trigger]
        values(xa, fa) && #[trigger] values(xb, fb) ==> fa.same(zero()) || fb.same(zero())
            || opposed(fa, fb)
}

/// The first event of a step comes about inside the step.
pub proof fn first_events_lie_in_their_step<
    A: Arithmetic,
    E: Fn(usize, Double, &Vec<Double>) -> Double,
>(
    event: E,
    which: Seq<usize>,
    t_old: Double,
    t_new: Double,
    h: Double,
    y_old: Seq<Double>,
    q: Seq<[Double; 4]>,
    t: Double,
)
    requires
        faithful::<A>(),
        orderly::<A>(),
        t_old.finite(),
        t_new.finite(),
        which.len() > 0,
        locatable::<A, E>(event, which, t_old, t_new, h, y_old, q),
        first_event::<A, E>(event, which, t_old, t_new, h, y_old, q, t),
    ensures
        between(t_old, t, t_new),
{
    let roots = choose|roots: Seq<Double>| #[trigger]
        all_localized::<A, E>(event, which, t_old, t_new, h, y_old, q, roots) && t == first_met(
            roots,
            t_new.lt(t_old),
        );
    assert forall|i: int| 0 <= i < roots.len() implies (#[trigger] roots[i]).finite() && between(
        t_old,
        roots[i],
        t_new,
    ) by {
        assert(localized::<A, E>(event, which[i], t_old, t_new, h, y_old, q, roots[i]));
        let values = on_the_way::<A, E>(event, which[i], t_old, h, y_old, q);
        assert(sought::<A>(t_old, t_new, values));
        roots_are_pinned::<A>(
            t_old,
            t_new,
            event_tolerance(),
            event_tolerance(),
            100,
            values,
            roots[i],
        );
        inner_points(t_old, roots[i], t_new);
    }
    first_met_is_first(roots, t_new.lt(t_old));
    let j = roots.index_of(t);
    assert(roots[j] == t);
}

/// An event ends the integration `a` at `t`, in a step that leads on, and no further than to the
/// end; and `t` lies in that step, if the active events can be located in it.
pub open spec fn ended_by_event<A: Arithmetic, E: Fn(usize, Double, &Vec<Double>) -> Double>(
    event: E,
    t0: Double,
    a: Integration,
    x: Attempt,
    which: Seq<usize>,
    q: Seq<[Double; 4]>,
    t: Double,
) -> bool {
    let backward = a.settings.tf.lt(t0);
    &&& a.met::<A, E>(event, x, which, q, t)
    &&& onward(backward, a.t, x.t_new)
    &&& onward(backward, x.t_new, a.settings.tf)
    &&& locatable::<A, E>(event, which, a.t, x.t_new, x.h, a.y@, q) ==> onward(backward, a.t, t)
        && onward(backward, t, x.t_new)
}

/// A step that meets an event, and the event in it.
proof fn lemma_event_step<
    A: Arithmetic,
    F: Fn(Double, &Vec<Double>) -> Vec<Double>,
    E: Fn(usize, Double, &Vec<Double>) -> Double,
>(func: F, event: E, t0: Double, a: Integration, b: Integration, p: Progress) -> (found: (
    Attempt,
    Seq<usize>,
    Seq<[Double; 4]>,
))
    requires
        faithful::<A>(),
        orderly::<A>(),
        t0.finite(),
        a.settings.tf.finite(),
        a.settings.direction == direction_of(t0, a.settings.tf),
        a.steady(t0),
        a.t_event is None,
        a.attempted::<A, F, E>(func, event, b, p),
        b.t_event is Some,
    ensures
        ended_by_event::<A, E>(event, t0, a, found.0, found.1, found.2, b.t_event->0),
{
    let (x, accurate): (Attempt, bool) = choose|x: Attempt, accurate: bool| #[trigger]
        a.attempted_with::<A, F, E>(func, event, x, accurate, b, p);
    lemma_tried::<A, F>(func, t0, a, x);
    let (ended, h_next, min_step, e): (bool, Double, Double, Double) = choose|
        ended: bool,
        h_next: Double,
        min_step: Double,
        e: Double,
    | #[trigger]
        a.taken_with::<A, E>(event, x, b, p, ended, h_next, min_step, e);
    let which = active(a.g@, b.g@, a.settings.crossing, a.g@.len());
    let q = choose|q: Seq<[Double; 4]>| #[trigger]
        a.met::<A, E>(event, x, which, q, b.t) && interpolated::<A>(
            b.t,
            a.t,
            x.h,
            a.y@,
            q,
            b.y@,
        );
    if locatable::<A, E>(event, which, a.t, x.t_new, x.h, a.y@, q) {
        lemma_inside_step::<A, E>(event, t0, a, x, which, q, b.t);
    }
    (x, which, q)
}

/// An event that can be located lies in its step.
proof fn lemma_inside_step<A: Arithmetic, E: Fn(usize, Double, &Vec<Double>) -> Double>(
    event: E,
    t0: Double,
    a: Integration,
    x: Attempt,
    which: Seq<usize>,
    q: Seq<[Double; 4]>,
    t: Double,
)
    requires
        faithful::<A>(),
        orderly::<A>(),
        t0.finite(),
        a.settings.tf.finite(),
        onward(a.settings.tf.lt(t0), t0, a.t),
        onward(a.settings.tf.lt(t0), a.t, a.settings.tf),
        onward(a.settings.tf.lt(t0), a.t, x.t_new),
        x.t_new.finite(),
        which.len() > 0,
        a.met::<A, E>(event, x, which, q, t),
        locatable::<A, E>(event, which, a.t, x.t_new, x.h, a.y@, q),
    ensures
        onward(a.settings.tf.lt(t0), a.t, t),
        onward(a.settings.tf.lt(t0), t, x.t_new),
{
    inner_points(t0, a.t, a.settings.tf);
    first_events_lie_in_their_step::<A, E>(event, which, a.t, x.t_new, x.h, a.y@, q, t);
}

/// Where an event ended a solution, its time lies between the last time recorded before it and the
/// end of a step from there, which goes the right way and no further than to the end of the span,
/// if the event can be located on the dense output of that step.
pub proof fn event_times_lie_in_the_last_step<
    A: Arithmetic,
    F: Fn(Double, &Vec<Double>) -> Vec<Double>,
    E: Fn(usize, Double, &Vec<Double>) -> Double,
>(
    func: F,
    event: E,
    count: nat,
    t0: Double,
    y0: Seq<Double>,
    s: Settings,
    limit: nat,
    r: OdeResult,
)
    requires
        faithful::<A>(),
        orderly::<A>(),
        t0.finite(),
        s.tf.finite(),
        s.direction == direction_of(t0, s.tf),
        solved::<A, F, E>(func, event, count, t0, y0, s, limit, Ok(r)),
        r.t_event is Some,
    ensures
        r.t@.len() > 1,
        r.t@.last() == r.t_event->0,
        exists|a: Integration, x: Attempt, which: Seq<usize>, q: Seq<[Double; 4]>| #[trigger]
            ended_by_event::<A, E>(event, t0, a, x, which, q, r.t_event->0) && a.settings == s
                && a.t == r.t@[r.t@.len() - 2],
{
    let (states, progress): (Seq<Integration>, Seq<Progress>) = lemma_run::<A, F, E>(
        func,
        event,
        count,
        t0,
        y0,
        s,
        limit,
        r,
    );
    let n = states.len() - 1;
    let a = lemma_last_step::<A, F, E>(
        func,
        event,
        count,
        t0,
        y0,
        s,
        limit,
        r,
        states,
        progress,
    );
    lemma_records::<A, F, E>(func, event, count, t0, y0, s, states, progress, n - 1);
    lemma_records::<A, F, E>(func, event, count, t0, y0, s, states, progress, n);
    assert(states[n - 1].attempted::<A, F, E>(
        func,
        event,
        states[n - 1 + 1],
        progress[n - 1],
    ));
    let (x, which, q): (Attempt, Seq<usize>, Seq<[Double; 4]>) = lemma_event_step::<A, F, E>(
        func,
        event,
        t0,
        a,
        states[n],
        progress[n - 1],
    );
    assert(a.ts@[a.ts@.len() - 1] == r.t@[a.ts@.len() - 1]);
    assert(ended_by_event::<A, E>(event, t0, a, x, which, q, r.t_event->0));
}

} // verus!
