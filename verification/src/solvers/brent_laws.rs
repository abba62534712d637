//! What holds of the roots that Brent's method finds.
use crate::arithmetic::{
    evaluates, fraction, given, parts_of_difference, parts_of_product, parts_of_quotient,
    parts_of_sum, rank_orders_values, zero, Arithmetic,
};
use crate::double::Double;
use crate::rounding::{
    between, between_finite_is_finite, differences_in_reach, differences_lean, differences_tell,
    doubling_is_exact, faithful, half_stays_inside, in_reach, inner_points, largest,
    largest_is_bounded, largest_is_greatest, leans, opposites_have_opposite_values, orderly,
    power_of_two, powers_of_two_are_doubles, products_are_rounded, products_lean,
    quotients_are_rounded, quotients_lean, rounded, rounding_cancels, rounding_is_symmetric,
    rounding_stays_between, short_steps_stay_inside, sizes_are_absolute_values,
    small_doubles_have_room, steps_stay_between, sums_move, twice, two_is_exact, zero_is_nothing,
};
use crate::solvers::brent::{
    chain, found, found_along, found_with, half_tolerance, half_way, Search,
};
use vstd::arithmetic::power2::{lemma_pow2_pos, lemma_pow2_unfold, pow2};
use vstd::prelude::*;

verus! {

/// One of the two is negative and the other positive.
pub open spec fn opposed(v: Double, w: Double) -> bool {
    ||| v.lt(zero()) && zero().lt(w)
    ||| zero().lt(v) && w.lt(zero())
}

/// Between `xa` and `xb` the function gives numbers, one for each point, and the product of two of
/// them that are not zero is negative exactly where they have different signs. That may fail where
/// the product is too small for a double.
pub open spec fn searchable<A: Arithmetic>(
    xa: Double,
    xb: Double,
    values: spec_fn(Double, Double) -> bool,
) -> bool {
    &&& forall|x: Double, v: Double| #[trigger] values(x, v) && between(xa, x, xb) ==> !v.nan()
    &&& forall|x: Double, v: Double, y: Double, w: Double| #[trigger]
        values(x, v) && #[trigger] values(y, w) && between(xa, x, xb) && x.same(y) ==> v == w
    &&& forall|x: Double, v: Double, y: Double, w: Double, p: Double|
        #![trigger values(x, v), values(y, w), call_ensures(A::product, (v, w), p)]
        values(x, v) && values(y, w) && between(xa, x, xb) && between(xa, y, xb) && !v.same(zero())
            && !w.same(zero()) && call_ensures(A::product, (v, w), p) ==> p.lt(zero()) == opposed(
            v,
            w,
        )
}

impl Search {
    /// The point is one of the interval, and the function is `f` there.
    pub open spec fn known(
        xa: Double,
        xb: Double,
        values: spec_fn(Double, Double) -> bool,
        x: Double,
        f: Double,
    ) -> bool {
        between(xa, x, xb) && values(x, f)
    }

    /// The last two points are known, the last two steps are finite, and unless the current point
    /// is a root, the function has the other sign at the last one, or at the one on the other side,
    /// past the current one.
    pub open spec fn sound(
        self,
        xa: Double,
        xb: Double,
        values: spec_fn(Double, Double) -> bool,
    ) -> bool {
        &&& Search::known(xa, xb, values, self.xpre, self.fpre)
        &&& Search::known(xa, xb, values, self.xcur, self.fcur)
        &&& self.spre.finite()
        &&& self.scur.finite()
        &&& !self.fpre.same(zero())
        &&& {
            ||| self.fcur.same(zero())
            ||| opposed(self.fpre, self.fcur)
            ||| {
                &&& Search::known(xa, xb, values, self.xblk, self.fblk)
                &&& opposed(self.fblk, self.fcur)
                &&& between(self.xpre, self.xcur, self.xblk)
            }
        }
    }

    /// The sides are in order: the current point is a root, or the function has the other sign on
    /// the other side; there the last point is too, or it lies beyond the current one.
    pub open spec fn ready(
        self,
        xa: Double,
        xb: Double,
        values: spec_fn(Double, Double) -> bool,
    ) -> bool {
        &&& Search::known(xa, xb, values, self.xcur, self.fcur)
        &&& self.spre.finite()
        &&& self.scur.finite()
        &&& {
            ||| self.fcur.same(zero())
            ||| {
                &&& Search::known(xa, xb, values, self.xblk, self.fblk)
                &&& Search::known(xa, xb, values, self.xpre, self.fpre)
                &&& opposed(self.fblk, self.fcur)
                &&& {
                    ||| self.xpre == self.xblk && self.fpre == self.fblk
                    ||| opposed(self.fblk, self.fpre) && between(self.xpre, self.xcur, self.xblk)
                }
            }
        }
    }
}

/// Putting the sides in order keeps what is known.
proof fn lemma_ready<A: Arithmetic>(
    xa: Double,
    xb: Double,
    values: spec_fn(Double, Double) -> bool,
    s: Search,
    b: Search,
)
    requires
        faithful::<A>(),
        xa.finite(),
        xb.finite(),
        in_reach(xa, xb),
        searchable::<A>(xa, xb, values),
        s.sound(xa, xb, values),
        s.bracketed::<A>(b),
    ensures
        b.turned().ready(xa, xb, values),
{
    let p = choose|p: Double| #[trigger] s.bracketed_by::<A>(p, b);
    if p.lt(zero()) {
        lemma_points(xa, xb, s.xpre, s.xcur);
        let (x, y): (Double, Double) = parts_of_difference::<A>(
            given(s.xcur),
            given(s.xpre),
            b.spre,
        );
        differences_in_reach::<A>(s.xpre, s.xcur, b.spre);
    }
    let (v, w): (Double, Double) = parts_of_product::<A>(given(s.fpre), given(s.fcur), p);
    assert(values(s.xpre, s.fpre) && values(s.xcur, s.fcur));
    if !s.fcur.same(zero()) {
        assert(call_ensures(A::product, (s.fpre, s.fcur), p));
        assert(p.lt(zero()) <==> opposed(s.fpre, s.fcur));
    }
}

/// Towards the other side is up.
pub open spec fn upward(s: Search) -> bool {
    s.xcur.lt(s.xblk)
}

/// The two sides are different points.
proof fn lemma_apart<A: Arithmetic>(
    xa: Double,
    xb: Double,
    values: spec_fn(Double, Double) -> bool,
    s: Search,
)
    requires
        searchable::<A>(xa, xb, values),
        s.ready(xa, xb, values),
        !s.fcur.same(zero()),
    ensures
        upward(s) || s.xblk.lt(s.xcur),
{
    assert(values(s.xcur, s.fcur) && values(s.xblk, s.fblk));
    assert(!s.xcur.same(s.xblk));
}

/// The step of the secant, where it is finite, goes towards the other side.
proof fn lemma_secant<A: Arithmetic>(s: Search, stry: Double)
    requires
        orderly::<A>(),
        evaluates::<A>(s.secant_step(), stry),
        opposed(s.fpre, s.fcur),
        s.xcur.lt(s.xpre) || s.xpre.lt(s.xcur),
    ensures
        stry.finite() ==> leans(stry, s.xcur.lt(s.xpre)),
{
    let up = s.xcur.lt(s.xpre);
    let positive = zero().lt(s.fcur);
    let g = given(s.xcur).minus(given(s.xpre));
    let h = given(s.fcur).minus(given(s.fpre));
    let (n, d): (Double, Double) = parts_of_quotient::<A>(
        given(s.fcur).negated().times(g),
        h,
        stry,
    );
    let (m, x): (Double, Double) = parts_of_product::<A>(given(s.fcur).negated(), g, n);
    let (x0, x1): (Double, Double) = parts_of_difference::<A>(given(s.xcur), given(s.xpre), x);
    let (d0, d1): (Double, Double) = parts_of_difference::<A>(given(s.fcur), given(s.fpre), d);
    reveal_with_fuel(evaluates, 2);
    assert(m == s.fcur.opposite());
    assert(leans(m, !positive));
    differences_tell::<A>(s.xcur, s.xpre, x);
    assert(leans(x, !up));
    differences_tell::<A>(s.fcur, s.fpre, d);
    assert(leans(d, positive) && !d.same(zero()));
    products_lean::<A>(m, x, n, !positive, !up);
    quotients_lean::<A>(n, d, stry, positive == up, positive);
}

/// A slope has the sign that it should have, or is zero, or not a number; or it is infinite where
/// the points are the same.
proof fn lemma_slope<A: Arithmetic>(s: Search, x: Double, f: Double, d: Double, rises: bool)
    requires
        orderly::<A>(),
        evaluates::<A>(s.slope(x, f), d),
        x.lt(s.xcur) || s.xcur.lt(x),
        f.lt(s.fcur) || s.fcur.lt(f),
        rises == (s.xcur.lt(x) == s.fcur.lt(f)),
    ensures
        leans(d, rises),
{
    let (n, m): (Double, Double) = parts_of_quotient::<A>(
        given(f).minus(given(s.fcur)),
        given(x).minus(given(s.xcur)),
        d,
    );
    let (n0, n1): (Double, Double) = parts_of_difference::<A>(given(f), given(s.fcur), n);
    let (m0, m1): (Double, Double) = parts_of_difference::<A>(given(x), given(s.xcur), m);
    differences_tell::<A>(f, s.fcur, n);
    differences_tell::<A>(x, s.xcur, m);
    quotients_lean::<A>(n, m, d, s.fcur.lt(f), s.xcur.lt(x));
}

/// The step of the parabola, where it is finite, goes towards the other side: where the function
/// has one sign at the last point and the current one, which lies between the other two.
proof fn lemma_parabola<A: Arithmetic>(s: Search, dpre: Double, dblk: Double, stry: Double)
    requires
        orderly::<A>(),
        evaluates::<A>(s.parabola_step(dpre, dblk), stry),
        s.sloped::<A>(dpre, dblk),
        opposed(s.fblk, s.fcur),
        opposed(s.fblk, s.fpre),
        s.fcur.absolute().lt(s.fpre.absolute()),
        s.xcur.lt(s.xblk) && s.xpre.lt(s.xcur) || s.xblk.lt(s.xcur) && s.xcur.lt(s.xpre),
    ensures
        stry.finite() ==> leans(stry, upward(s)),
{
    let up = upward(s);
    let positive = zero().lt(s.fcur);
    let rises = positive == !up;
    lemma_slope::<A>(s, s.xpre, s.fpre, dpre, rises);
    lemma_slope::<A>(s, s.xblk, s.fblk, dblk, rises);
    let bb = given(s.fblk).times(given(dblk));
    let pp = given(s.fpre).times(given(dpre));
    let gap = given(s.fblk).minus(given(s.fpre));
    let dd = given(dblk).times(given(dpre));
    let (n, d): (Double, Double) = parts_of_quotient::<A>(
        given(s.fcur).negated().times(bb.minus(pp)),
        dd.times(gap),
        stry,
    );
    let (m, x): (Double, Double) = parts_of_product::<A>(given(s.fcur).negated(), bb.minus(pp), n);
    let (b, p): (Double, Double) = parts_of_difference::<A>(bb, pp, x);
    let (b0, b1): (Double, Double) = parts_of_product::<A>(given(s.fblk), given(dblk), b);
    let (p0, p1): (Double, Double) = parts_of_product::<A>(given(s.fpre), given(dpre), p);
    let (e, g): (Double, Double) = parts_of_product::<A>(dd, gap, d);
    let (e0, e1): (Double, Double) = parts_of_product::<A>(given(dblk), given(dpre), e);
    let (g0, g1): (Double, Double) = parts_of_difference::<A>(given(s.fblk), given(s.fpre), g);
    reveal_with_fuel(evaluates, 2);
    assert(m == s.fcur.opposite());
    assert(leans(m, !positive));
    assert(leans(s.fblk, !positive));
    assert(leans(s.fpre, positive));
    products_lean::<A>(s.fblk, dblk, b, !positive, rises);
    products_lean::<A>(s.fpre, dpre, p, positive, rises);
    differences_lean::<A>(b, p, x, !positive == rises);
    products_lean::<A>(m, x, n, !positive, !positive == rises);
    products_lean::<A>(dblk, dpre, e, rises, rises);
    differences_tell::<A>(s.fblk, s.fpre, g);
    assert(leans(g, !positive));
    products_lean::<A>(e, g, d, true, !positive);
    quotients_lean::<A>(n, d, stry, rises, !positive);
}

/// A step to try, where it is finite, goes towards the other side.
proof fn lemma_trial<A: Arithmetic>(
    xa: Double,
    xb: Double,
    values: spec_fn(Double, Double) -> bool,
    s: Search,
    stry: Double,
)
    requires
        orderly::<A>(),
        searchable::<A>(xa, xb, values),
        s.ready(xa, xb, values),
        !s.fcur.same(zero()),
        s.fcur.absolute().lt(s.fpre.absolute()),
        s.trial_step::<A>(stry),
    ensures
        stry.finite() ==> leans(stry, upward(s)),
{
    lemma_apart::<A>(xa, xb, values, s);
    assert(values(s.xcur, s.fcur) && values(s.xpre, s.fpre) && values(s.xblk, s.fblk));
    if s.xpre.same(s.xblk) {
        assert(s.fpre == s.fblk);
        lemma_secant::<A>(s, stry);
    } else {
        let (dpre, dblk): (Double, Double) = choose|dpre: Double, dblk: Double| #[trigger]
            evaluates::<A>(s.parabola_step(dpre, dblk), stry) && s.sloped::<A>(dpre, dblk);
        assert(!s.xpre.same(s.xcur));
        lemma_parabola::<A>(s, dpre, dblk, stry);
    }
}

/// Points of an interval are finite, and as close to each other as its ends.
proof fn lemma_points(xa: Double, xb: Double, x: Double, y: Double)
    requires
        xa.finite(),
        xb.finite(),
        in_reach(xa, xb),
        between(xa, x, xb),
        between(xa, y, xb),
    ensures
        x.finite(),
        y.finite(),
        in_reach(x, y),
{
    inner_points(xa, x, xb);
    inner_points(xa, y, xb);
}

/// The step to the middle goes towards the other side, and no further.
proof fn lemma_half_way<A: Arithmetic>(x: Double, y: Double, sbis: Double) -> (d: Double)
    requires
        faithful::<A>(),
        x.finite(),
        y.finite(),
        in_reach(x, y),
        evaluates::<A>(half_way(x, y), sbis),
    ensures
        d.finite(),
        sbis.finite(),
        rounded(y.value() - x.value(), 1, d),
        rounded(d.value(), 2, sbis),
        x.value() <= y.value() ==> 0 <= sbis.value() <= y.value() - x.value() && 0 <= d.value(),
        y.value() <= x.value() ==> y.value() - x.value() <= sbis.value() <= 0 && d.value() <= 0,
{
    let (d, t): (Double, Double) = parts_of_quotient::<A>(
        given(y).minus(given(x)),
        fraction(2, 1),
        sbis,
    );
    let (p, q): (Double, Double) = parts_of_difference::<A>(given(y), given(x), d);
    differences_in_reach::<A>(x, y, d);
    two_is_exact::<A>(t);
    quotients_are_rounded::<A>(d, t, sbis);
    rounding_cancels(d.value(), 2, pow2(1074) as int, sbis);
    half_stays_inside(y.value() - x.value(), d, sbis);
    d
}

/// The least step is a number that is not negative.
proof fn lemma_half_tolerance<A: Arithmetic>(x: Double, xtol: Double, rtol: Double, delta: Double)
    requires
        faithful::<A>(),
        orderly::<A>(),
        x.finite(),
        xtol.finite(),
        rtol.finite(),
        zero().le(xtol),
        zero().le(rtol),
        evaluates::<A>(half_tolerance(x, xtol, rtol), delta),
    ensures
        zero().le(delta),
{
    let part = given(rtol).times(given(x).size());
    let (q, t): (Double, Double) = parts_of_quotient::<A>(
        given(xtol).plus(part),
        fraction(2, 1),
        delta,
    );
    let (a, b): (Double, Double) = parts_of_sum::<A>(given(xtol), part, q);
    let (c, y): (Double, Double) = parts_of_product::<A>(given(rtol), given(x).size(), b);
    reveal_with_fuel(evaluates, 2);
    assert(y == x.absolute());
    sizes_are_absolute_values(x);
    products_are_rounded::<A>(rtol, y, b);
    assert(!b.nan()) by {
        reveal(rounded);
    }
    products_lean::<A>(rtol, y, b, true, true);
    sums_move::<A>(xtol, b, q);
    two_is_exact::<A>(t);
    zero_is_nothing();
    rank_orders_values(zero(), t);
    quotients_lean::<A>(q, t, delta, true, true);
}

/// Three times a double is no more than four times it, unless that is more than any double.
proof fn lemma_three<A: Arithmetic>(three: Double, b: Double, t: Double)
    requires
        faithful::<A>(),
        call_ensures(A::ratio, (3i64, 1i64), three),
        call_ensures(A::product, (three, b), t),
        b.finite(),
        !b.negative(),
        b.value() >= 0,
    ensures
        zero().le(t),
        4 * b.value() > largest().value() || (t.finite() && t.value() <= 4 * b.value()),
{
    let unit = pow2(1074) as int;
    lemma_pow2_pos(1074);
    powers_of_two_are_doubles(1025);
    lemma_pow2_unfold(1076);
    lemma_pow2_unfold(1075);
    zero_is_nothing();
    assert(rounded(3 * unit, 1, three)) by {
        reveal(faithful);
    }
    rounding_stays_between(zero(), power_of_two(1025), 3 * unit, 1, three);
    products_are_rounded::<A>(three, b, t);
    assert(0 <= three.value() * b.value() <= (4 * b.value()) * unit) by (nonlinear_arith)
        requires
            0 <= three.value() <= 4 * unit,
            b.value() >= 0,
    ;
    assert(zero().le(t)) by {
        reveal(rounded);
        assert(zero().finite());
    }
    if 4 * b.value() <= largest().value() {
        largest_is_bounded();
        lemma_pow2_unfold(2098);
        lemma_pow2_unfold(2097);
        small_doubles_have_room(b);
        doubling_is_exact(b);
        doubling_is_exact(twice(b));
        let quad = twice(twice(b));
        rounding_stays_between(zero(), quad, three.value() * b.value(), unit, t);
    }
}

/// The length that a step to try must not reach is no more than four times the half; or four times
/// the half is more than any double.
proof fn lemma_far<A: Arithmetic>(sbis: Double, delta: Double, far: Double)
    requires
        faithful::<A>(),
        orderly::<A>(),
        sbis.finite(),
        delta.finite(),
        zero().le(delta),
        evaluates::<A>(fraction(3, 1).times(given(sbis).size()).minus(given(delta)), far),
    ensures
        !far.nan(),
        ({
            let b = sbis.absolute().value();
            ||| 4 * b > largest().value()
            ||| far.le(largest()) && (far.finite() ==> far.value() <= 4 * b)
        }),
{
    let (t, e): (Double, Double) = parts_of_difference::<A>(
        fraction(3, 1).times(given(sbis).size()),
        given(delta),
        far,
    );
    let (three, b): (Double, Double) = parts_of_product::<A>(
        fraction(3, 1),
        given(sbis).size(),
        t,
    );
    assert(b == sbis.absolute()) by {
        reveal_with_fuel(evaluates, 2);
    }
    sizes_are_absolute_values(sbis);
    zero_is_nothing();
    lemma_three::<A>(three, b, t);
    rank_orders_values(zero(), delta);
    if t.finite() {
        assert(rounded(t.value() - delta.value(), 1, far)) by {
            reveal(faithful);
        }
        assert(!far.nan() && far.le(t)) by {
            reveal(rounded);
            assert(t.finite());
        }
        largest_is_greatest(t);
        rank_orders_values(t, largest());
        if far.finite() {
            rank_orders_values(far, t);
        }
    } else {
        assert(delta.lt(t));
        differences_tell::<A>(t, delta, far);
    }
}

/// Where the double of a size, rounded, is less than a finite number, it is no less than the double
/// of the size.
proof fn lemma_doubled<A: Arithmetic>(two: Double, r: Double, full: Double, cap: Double)
    requires
        faithful::<A>(),
        orderly::<A>(),
        call_ensures(A::ratio, (2i64, 1i64), two),
        call_ensures(A::product, (two, r), full),
        !r.negative(),
        cap.finite(),
        full.lt(cap),
    ensures
        r.finite(),
        full.finite(),
        2 * r.value() <= full.value() < cap.value(),
{
    two_is_exact::<A>(two);
    zero_is_nothing();
    rank_orders_values(zero(), two);
    assert(leans(r, true));
    products_lean::<A>(two, r, full, true, true);
    assert(zero().le(full));
    between_finite_is_finite(zero(), full, cap);
    assert(r.finite());
    products_are_rounded::<A>(two, r, full);
    let unit = pow2(1074) as int;
    let rv = r.value();
    assert(two.value() * rv == (2 * rv) * unit) by (nonlinear_arith)
        requires
            two.value() == 2 * unit,
    ;
    rounding_cancels(2 * rv, 1, unit, full);
    rank_orders_values(full, cap);
    if r.exponent() == 2046 {
        largest_is_bounded();
        largest_is_greatest(cap);
        assert(largest().le(full)) by {
            reveal(rounded);
            assert(largest().finite());
        }
        rank_orders_values(largest(), full);
    } else {
        doubling_is_exact(r);
        assert(twice(r).le(full)) by {
            reveal(rounded);
            assert(twice(r).finite());
        }
        rank_orders_values(twice(r), full);
    }
}

/// A step that is short enough is no longer than the way to the other side.
proof fn lemma_short<A: Arithmetic>(
    s: Search,
    n: int,
    d: Double,
    sbis: Double,
    delta: Double,
    stry: Double,
    full: Double,
    far: Double,
)
    requires
        faithful::<A>(),
        orderly::<A>(),
        d.finite(),
        sbis.finite(),
        delta.finite(),
        zero().le(delta),
        rounded(n, 1, d),
        rounded(d.value(), 2, sbis),
        n >= 0 ==> 0 <= sbis.value() <= n && 0 <= d.value(),
        n <= 0 ==> n <= sbis.value() <= 0 && d.value() <= 0,
        s.spre.finite(),
        s.weighed::<A>(stry, sbis, delta, full, far),
        full.lt(s.spre.absolute().lesser(far)),
    ensures
        stry.finite(),
        n >= 0 ==> -n <= stry.value() <= n,
        n <= 0 ==> n <= stry.value() <= -n,
{
    let b = sbis.absolute();
    let r = stry.absolute();
    sizes_are_absolute_values(sbis);
    sizes_are_absolute_values(s.spre);
    lemma_far::<A>(sbis, delta, far);
    let cap = s.spre.absolute();
    assert(full.lt(cap) && full.lt(far));
    largest_is_greatest(cap);
    let (two, r0): (Double, Double) = parts_of_product::<A>(
        fraction(2, 1),
        given(stry).size(),
        full,
    );
    assert(r0 == r) by {
        reveal_with_fuel(evaluates, 2);
    }
    lemma_doubled::<A>(two, r, full, cap);
    assert(stry.finite());
    sizes_are_absolute_values(stry);
    if 4 * b.value() <= largest().value() {
        between_finite_is_finite(full, far, largest());
        rank_orders_values(full, far);
    }
    assert(r.value() < 2 * b.value());
    if n >= 0 {
        short_steps_stay_inside(n, d, sbis, r);
    } else {
        rounding_is_symmetric(n, 1, d);
        rounding_is_symmetric(d.value(), 2, sbis);
        opposites_have_opposite_values(d);
        opposites_have_opposite_values(sbis);
        short_steps_stay_inside(-n, d.opposite(), sbis.opposite(), r);
    }
}

/// Where a search goes on to lies between its sides.
proof fn lemma_target<A: Arithmetic>(
    xa: Double,
    xb: Double,
    xtol: Double,
    rtol: Double,
    values: spec_fn(Double, Double) -> bool,
    s: Search,
    delta: Double,
    sbis: Double,
    steps: (Double, Double),
    x: Double,
)
    requires
        faithful::<A>(),
        orderly::<A>(),
        xa.finite(),
        xb.finite(),
        in_reach(xa, xb),
        xtol.finite(),
        rtol.finite(),
        zero().le(xtol),
        zero().le(rtol),
        searchable::<A>(xa, xb, values),
        s.ready(xa, xb, values),
        s.measured::<A>(xtol, rtol, delta, sbis),
        !s.over(delta, sbis),
        s.stepped::<A>(delta, sbis, steps),
        evaluates::<A>(s.target(steps.1, delta, sbis), x),
    ensures
        between(s.xcur, x, s.xblk),
        steps.0.finite(),
        steps.1.finite(),
{
    let n = s.xblk.value() - s.xcur.value();
    lemma_points(xa, xb, s.xcur, s.xblk);
    lemma_apart::<A>(xa, xb, values, s);
    rank_orders_values(s.xcur, s.xblk);
    rank_orders_values(s.xblk, s.xcur);
    let d = lemma_half_way::<A>(s.xcur, s.xblk, sbis);
    lemma_half_tolerance::<A>(s.xcur, xtol, rtol, delta);
    sizes_are_absolute_values(sbis);
    zero_is_nothing();
    between_finite_is_finite(zero(), delta, sbis.absolute());
    let scur = steps.1;
    if steps != (sbis, sbis) {
        let (stry, short): (Double, bool) = choose|stry: Double, short: bool| #[trigger]
            s.tried::<A>(delta, sbis, stry, short, steps);
        let (full, far): (Double, Double) = choose|full: Double, far: Double| #[trigger]
            s.weighed::<A>(stry, sbis, delta, full, far) && short == full.lt(
                s.spre.absolute().lesser(far),
            );
        lemma_short::<A>(s, n, d, sbis, delta, stry, full, far);
        lemma_trial::<A>(xa, xb, values, s, stry);
        rank_orders_values(zero(), stry);
        rank_orders_values(stry, zero());
    }
    if delta.lt(scur.absolute()) {
        let (a, b): (Double, Double) = parts_of_sum::<A>(given(s.xcur), given(scur), x);
        steps_stay_between::<A>(s.xcur, s.xblk, scur, x);
    } else if zero().lt(sbis) {
        rank_orders_values(zero(), sbis);
        let (a, b): (Double, Double) = parts_of_sum::<A>(given(s.xcur), given(delta), x);
        steps_stay_between::<A>(s.xcur, s.xblk, delta, x);
    } else {
        rank_orders_values(zero(), sbis);
        opposites_have_opposite_values(delta);
        let (a, b): (Double, Double) = parts_of_sum::<A>(
            given(s.xcur),
            given(delta).negated(),
            x,
        );
        assert(b == delta.opposite()) by {
            reveal_with_fuel(evaluates, 2);
        }
        steps_stay_between::<A>(s.xcur, s.xblk, delta.opposite(), x);
    }
}

/// An iteration keeps what is known.
proof fn lemma_iteration<A: Arithmetic>(
    xa: Double,
    xb: Double,
    xtol: Double,
    rtol: Double,
    values: spec_fn(Double, Double) -> bool,
    s: Search,
    next: Search,
)
    requires
        faithful::<A>(),
        orderly::<A>(),
        xa.finite(),
        xb.finite(),
        in_reach(xa, xb),
        xtol.finite(),
        rtol.finite(),
        zero().le(xtol),
        zero().le(rtol),
        searchable::<A>(xa, xb, values),
        s.sound(xa, xb, values),
        s.iterated::<A>(xtol, rtol, values, next),
    ensures
        next.sound(xa, xb, values),
{
    let (b, delta, sbis): (Search, Double, Double) = choose|
        b: Search,
        delta: Double,
        sbis: Double,
    | #[trigger]
        s.prepared::<A>(xtol, rtol, b, delta, sbis) && !b.turned().over(delta, sbis)
            && b.turned().moved::<A>(delta, sbis, values, next);
    lemma_ready::<A>(xa, xb, values, s, b);
    let c = b.turned();
    lemma_target::<A>(
        xa,
        xb,
        xtol,
        rtol,
        values,
        c,
        delta,
        sbis,
        (next.spre, next.scur),
        next.xcur,
    );
    assert(between(xa, next.xcur, xb));
    assert(values(next.xcur, next.fcur));
    assert(!next.fcur.nan());
}

/// All searches of a chain are sound if the first is.
proof fn lemma_chain<A: Arithmetic>(
    xa: Double,
    xb: Double,
    xtol: Double,
    rtol: Double,
    values: spec_fn(Double, Double) -> bool,
    searches: Seq<Search>,
    i: int,
)
    requires
        faithful::<A>(),
        orderly::<A>(),
        xa.finite(),
        xb.finite(),
        in_reach(xa, xb),
        xtol.finite(),
        rtol.finite(),
        zero().le(xtol),
        zero().le(rtol),
        searchable::<A>(xa, xb, values),
        chain::<A>(xtol, rtol, values, searches),
        0 <= i < searches.len(),
        searches[0].sound(xa, xb, values),
    ensures
        searches[i].sound(xa, xb, values),
    decreases i,
{
    if i > 0 {
        lemma_chain::<A>(xa, xb, xtol, rtol, values, searches, i - 1);
        assert(searches[i - 1].iterated::<A>(xtol, rtol, values, searches[i - 1 + 1]));
        lemma_iteration::<A>(xa, xb, xtol, rtol, values, searches[i - 1], searches[i]);
    }
}

/// Half of the way from `x` to `y` is less than half of what the tolerances allow at `x`.
pub open spec fn close<A: Arithmetic>(x: Double, y: Double, xtol: Double, rtol: Double) -> bool {
    exists|delta: Double, sbis: Double| #[trigger]
        sbis.absolute().lt(delta) && evaluates::<A>(half_tolerance(x, xtol, rtol), delta)
            && evaluates::<A>(half_way(x, y), sbis)
}

/// The function is zero at `root`, or it has the other sign at a point of the interval that is as
/// close to it as the tolerances ask.
pub open spec fn pinned<A: Arithmetic>(
    xa: Double,
    xb: Double,
    xtol: Double,
    rtol: Double,
    values: spec_fn(Double, Double) -> bool,
    root: Double,
) -> bool {
    exists|v: Double| #[trigger]
        values(root, v) && (v.same(zero()) || exists|x: Double, w: Double| #[trigger]
            values(x, w) && between(xa, x, xb) && opposed(v, w) && close::<A>(root, x, xtol, rtol))
}

/// The search took all the iterations allowed, none of them ended it, and `root` is where it stands
/// then.
pub open spec fn exhausted<A: Arithmetic>(
    xa: Double,
    xb: Double,
    xtol: Double,
    rtol: Double,
    max_iter: nat,
    values: spec_fn(Double, Double) -> bool,
    root: Double,
) -> bool {
    exists|fa: Double, fb: Double, searches: Seq<Search>|
        {
            &&& #[trigger] values(xa, fa)
            &&& #[trigger] values(xb, fb)
            &&& #[trigger] chain::<A>(xtol, rtol, values, searches)
            &&& searches.len() == max_iter + 1
            &&& searches[0] == Search::begun(xa, xb, fa, fb)
            &&& searches.last().xcur == root
        }
}

/// A root that Brent's method finds lies between the ends, where the function has different signs;
/// and unless the iterations ran out, the function is zero there, or has the other sign within the
/// tolerance.
///
/// The tolerances are not negative, and the ends are in reach of each other: between `-1e308` and
/// `1e308` the way to the middle is no double. Where the function has one sign at both ends, the
/// search may leave them and give zero.
pub proof fn roots_are_pinned<A: Arithmetic>(
    xa: Double,
    xb: Double,
    xtol: Double,
    rtol: Double,
    max_iter: nat,
    values: spec_fn(Double, Double) -> bool,
    root: Double,
)
    requires
        faithful::<A>(),
        orderly::<A>(),
        xa.finite(),
        xb.finite(),
        in_reach(xa, xb),
        xtol.finite(),
        rtol.finite(),
        zero().le(xtol),
        zero().le(rtol),
        searchable::<A>(xa, xb, values),
        forall|fa: Double, fb: Double| #[trigger]
            values(xa, fa) && #[trigger] values(xb, fb) ==> fa.same(zero()) || fb.same(zero())
                || opposed(fa, fb),
        found::<A>(xa, xb, xtol, rtol, max_iter, values, root),
    ensures
        between(xa, root, xb),
        pinned::<A>(xa, xb, xtol, rtol, values, root) || exhausted::<A>(
            xa,
            xb,
            xtol,
            rtol,
            max_iter,
            values,
            root,
        ),
{
    let (fa, fb): (Double, Double) = choose|fa: Double, fb: Double| #[trigger]
        found_with::<A>(xa, xb, fa, fb, xtol, rtol, max_iter, values, root);
    assert(!xa.nan() && !xb.nan());
    assert(between(xa, xa, xb) && between(xa, xb, xb));
    if !fa.same(zero()) && !fb.same(zero()) {
        let begin = Search::begun(xa, xb, fa, fb);
        assert(values(xa, fa) && values(xb, fb));
        assert(begin.sound(xa, xb, values));
        let searches = choose|searches: Seq<Search>| #[trigger]
            found_along::<A>(searches, xtol, rtol, max_iter, values, root) && searches[0] == begin;
        let last = searches.last();
        lemma_chain::<A>(xa, xb, xtol, rtol, values, searches, searches.len() - 1);
        if searches.len() <= max_iter {
            let (b, delta, sbis): (Search, Double, Double) = choose|
                b: Search,
                delta: Double,
                sbis: Double,
            | #[trigger]
                last.prepared::<A>(xtol, rtol, b, delta, sbis) && b.turned().over(delta, sbis)
                    && root == b.turned().xcur;
            lemma_ready::<A>(xa, xb, values, last, b);
            let c = b.turned();
            assert(values(c.xcur, c.fcur));
            if !c.fcur.same(zero()) {
                assert(values(c.xblk, c.fblk));
                assert(close::<A>(c.xcur, c.xblk, xtol, rtol));
            }
        }
    }
}

} // verus!
