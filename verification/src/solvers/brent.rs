//! Root finding by Brent's method.
use crate::arithmetic::{evaluates, fraction, given, zero, Arithmetic, Formula};
use crate::double::Double;
use vstd::prelude::*;

verus! {

/// A search under way: the last point, the current one, and the one on the other side of the root;
/// what the function is at each; and the last two steps.
#[derive(Clone, Copy, Debug, PartialEq, Eq, Structural)]
pub struct Search {
    pub xpre: Double,
    pub xcur: Double,
    pub xblk: Double,
    pub fpre: Double,
    pub fcur: Double,
    pub fblk: Double,
    pub spre: Double,
    pub scur: Double,
}

/// Half of what the tolerances allow at a point.
pub open spec fn half_tolerance(x: Double, xtol: Double, rtol: Double) -> Formula {
    given(xtol).plus(given(rtol).times(given(x).size())).over(fraction(2, 1))
}

/// Half of the way from one point to another.
pub open spec fn half_way(x: Double, y: Double) -> Formula {
    given(y).minus(given(x)).over(fraction(2, 1))
}

impl Search {
    /// A search that begins at two points.
    pub open spec fn begun(xa: Double, xb: Double, fa: Double, fb: Double) -> Search {
        Search {
            xpre: xa,
            xcur: xb,
            xblk: zero(),
            fpre: fa,
            fcur: fb,
            fblk: zero(),
            spre: zero(),
            scur: zero(),
        }
    }

    /// Where the product of the last two values is `p`, and negative, the last point becomes the
    /// other side, and the steps start afresh.
    pub open spec fn bracketed_by<A: Arithmetic>(self, p: Double, next: Search) -> bool {
        &&& evaluates::<A>(given(self.fpre).times(given(self.fcur)), p)
        &&& if p.lt(zero()) {
            &&& evaluates::<A>(given(self.xcur).minus(given(self.xpre)), next.spre)
            &&& next == Search {
                xblk: self.xpre,
                fblk: self.fpre,
                spre: next.spre,
                scur: next.spre,
                ..self
            }
        } else {
            next == self
        }
    }

    /// Where the last two values have different signs, the last point becomes the other side, and
    /// the steps start afresh.
    pub open spec fn bracketed<A: Arithmetic>(self, next: Search) -> bool {
        exists|p: Double| #[trigger] self.bracketed_by::<A>(p, next)
    }

    /// The better of the two sides is the current one.
    pub open spec fn turned(self) -> Search {
        if self.fblk.absolute().lt(self.fcur.absolute()) {
            Search {
                xpre: self.xcur,
                xcur: self.xblk,
                xblk: self.xcur,
                fpre: self.fcur,
                fcur: self.fblk,
                fblk: self.fcur,
                ..self
            }
        } else {
            self
        }
    }

    /// The least step: half of what the tolerances allow at the current point.
    pub open spec fn least_step(self, xtol: Double, rtol: Double) -> Formula {
        half_tolerance(self.xcur, xtol, rtol)
    }

    /// The step to the middle.
    pub open spec fn middle_step(self) -> Formula {
        half_way(self.xcur, self.xblk)
    }

    /// The search is over: the current point is a root, or as close to one as the tolerances ask.
    pub open spec fn over(self, delta: Double, sbis: Double) -> bool {
        self.fcur.same(zero()) || sbis.absolute().lt(delta)
    }

    /// The step of the secant through the last two points.
    pub open spec fn secant_step(self) -> Formula {
        given(self.fcur).negated().times(given(self.xcur).minus(given(self.xpre))).over(
            given(self.fcur).minus(given(self.fpre)),
        )
    }

    /// The slope from the current point to another one.
    pub open spec fn slope(self, x: Double, f: Double) -> Formula {
        given(f).minus(given(self.fcur)).over(given(x).minus(given(self.xcur)))
    }

    /// The slopes from the current point to the other two.
    pub open spec fn sloped<A: Arithmetic>(self, dpre: Double, dblk: Double) -> bool {
        &&& evaluates::<A>(self.slope(self.xpre, self.fpre), dpre)
        &&& evaluates::<A>(self.slope(self.xblk, self.fblk), dblk)
    }

    /// The step of the inverse parabola through all three points, of which the slopes are given.
    pub open spec fn parabola_step(self, dpre: Double, dblk: Double) -> Formula {
        given(self.fcur).negated().times(
            given(self.fblk).times(given(dblk)).minus(given(self.fpre).times(given(dpre))),
        ).over(given(dblk).times(given(dpre)).times(given(self.fblk).minus(given(self.fpre))))
    }

    /// The step to try where bisection may be beaten.
    pub open spec fn trial_step<A: Arithmetic>(self, stry: Double) -> bool {
        if self.xpre.same(self.xblk) {
            evaluates::<A>(self.secant_step(), stry)
        } else {
            exists|dpre: Double, dblk: Double| #[trigger]
                evaluates::<A>(self.parabola_step(dpre, dblk), stry) && self.sloped::<A>(
                    dpre,
                    dblk,
                )
        }
    }

    /// A step to try is weighed by its double, and by the length that it must not reach.
    pub open spec fn weighed<A: Arithmetic>(
        self,
        stry: Double,
        sbis: Double,
        delta: Double,
        twice: Double,
        far: Double,
    ) -> bool {
        &&& evaluates::<A>(fraction(2, 1).times(given(stry).size()), twice)
        &&& evaluates::<A>(fraction(3, 1).times(given(sbis).size()).minus(given(delta)), far)
    }

    /// Whether a step to try is short enough to take.
    pub open spec fn short_enough<A: Arithmetic>(
        self,
        stry: Double,
        sbis: Double,
        delta: Double,
        short: bool,
    ) -> bool {
        exists|twice: Double, far: Double| #[trigger]
            self.weighed::<A>(stry, sbis, delta, twice, far) && short == twice.lt(
                self.spre.absolute().lesser(far),
            )
    }

    /// A step is tried, and taken if it is short enough.
    pub open spec fn tried<A: Arithmetic>(
        self,
        delta: Double,
        sbis: Double,
        stry: Double,
        short: bool,
        steps: (Double, Double),
    ) -> bool {
        &&& self.short_enough::<A>(stry, sbis, delta, short)
        &&& self.trial_step::<A>(stry)
        &&& steps == if short {
            (self.scur, stry)
        } else {
            (sbis, sbis)
        }
    }

    /// The next two steps: the one to try, if it beats bisection; else that to the middle.
    pub open spec fn stepped<A: Arithmetic>(
        self,
        delta: Double,
        sbis: Double,
        steps: (Double, Double),
    ) -> bool {
        if delta.lt(self.spre.absolute()) && self.fcur.absolute().lt(self.fpre.absolute()) {
            exists|stry: Double, short: bool| #[trigger]
                self.tried::<A>(delta, sbis, stry, short, steps)
        } else {
            steps == (sbis, sbis)
        }
    }

    /// The point to go to: a step away, and no less than the least step.
    pub open spec fn target(self, scur: Double, delta: Double, sbis: Double) -> Formula {
        if delta.lt(scur.absolute()) {
            given(self.xcur).plus(given(scur))
        } else if zero().lt(sbis) {
            given(self.xcur).plus(given(delta))
        } else {
            given(self.xcur).plus(given(delta).negated())
        }
    }

    /// A search that has its sides in order, and is not over, goes on to `next`. `values` says what
    /// the function may be at a point.
    pub open spec fn moved<A: Arithmetic>(
        self,
        delta: Double,
        sbis: Double,
        values: spec_fn(Double, Double) -> bool,
        next: Search,
    ) -> bool {
        &&& self.stepped::<A>(delta, sbis, (next.spre, next.scur))
        &&& evaluates::<A>(self.target(next.scur, delta, sbis), next.xcur)
        &&& values(next.xcur, next.fcur)
        &&& next.xpre == self.xcur
        &&& next.fpre == self.fcur
        &&& next.xblk == self.xblk
        &&& next.fblk == self.fblk
    }

    /// `delta` and `sbis` are the least step and the step to the middle.
    pub open spec fn measured<A: Arithmetic>(
        self,
        xtol: Double,
        rtol: Double,
        delta: Double,
        sbis: Double,
    ) -> bool {
        &&& evaluates::<A>(self.least_step(xtol, rtol), delta)
        &&& evaluates::<A>(self.middle_step(), sbis)
    }

    /// An iteration puts the sides in order, as in `s.turned()`, and measures the steps there.
    pub open spec fn prepared<A: Arithmetic>(
        self,
        xtol: Double,
        rtol: Double,
        s: Search,
        delta: Double,
        sbis: Double,
    ) -> bool {
        &&& self.bracketed::<A>(s)
        &&& s.turned().measured::<A>(xtol, rtol, delta, sbis)
    }

    /// One iteration that does not end the search.
    pub open spec fn iterated<A: Arithmetic>(
        self,
        xtol: Double,
        rtol: Double,
        values: spec_fn(Double, Double) -> bool,
        next: Search,
    ) -> bool {
        exists|s: Search, delta: Double, sbis: Double| #[trigger]
            self.prepared::<A>(xtol, rtol, s, delta, sbis) && !s.turned().over(delta, sbis)
                && s.turned().moved::<A>(delta, sbis, values, next)
    }

    /// One iteration that ends the search at `root`.
    pub open spec fn ended<A: Arithmetic>(
        self,
        xtol: Double,
        rtol: Double,
        root: Double,
    ) -> bool {
        exists|s: Search, delta: Double, sbis: Double| #[trigger]
            self.prepared::<A>(xtol, rtol, s, delta, sbis) && s.turned().over(delta, sbis) && root
                == s.turned().xcur
    }
}

/// Each of the searches comes from the one before by an iteration.
pub open spec fn chain<A: Arithmetic>(
    xtol: Double,
    rtol: Double,
    values: spec_fn(Double, Double) -> bool,
    searches: Seq<Search>,
) -> bool {
    forall|i: int|
        0 <= i < searches.len() - 1 ==> (#[trigger] searches[i]).iterated::<A>(
            xtol,
            rtol,
            values,
            searches[i + 1],
        )
}

/// `root` is what these searches find: where an iteration ends them, or where they stand after the
/// most iterations allowed.
pub open spec fn found_along<A: Arithmetic>(
    searches: Seq<Search>,
    xtol: Double,
    rtol: Double,
    max_iter: nat,
    values: spec_fn(Double, Double) -> bool,
    root: Double,
) -> bool {
    &&& chain::<A>(xtol, rtol, values, searches)
    &&& searches.len() > 0
    &&& {
        ||| searches.len() <= max_iter && searches.last().ended::<A>(xtol, rtol, root)
        ||| searches.len() == max_iter + 1 && root == searches.last().xcur
    }
}

/// `root` is what a search from `begin` finds.
pub open spec fn found_from<A: Arithmetic>(
    begin: Search,
    xtol: Double,
    rtol: Double,
    max_iter: nat,
    values: spec_fn(Double, Double) -> bool,
    root: Double,
) -> bool {
    exists|searches: Seq<Search>| #[trigger]
        found_along::<A>(searches, xtol, rtol, max_iter, values, root) && searches[0] == begin
}

/// `root` is what Brent's method finds between `xa` and `xb`, where the function is `fa` and `fb`:
/// an end at which it is zero, or else what the search from them finds.
pub open spec fn found_with<A: Arithmetic>(
    xa: Double,
    xb: Double,
    fa: Double,
    fb: Double,
    xtol: Double,
    rtol: Double,
    max_iter: nat,
    values: spec_fn(Double, Double) -> bool,
    root: Double,
) -> bool {
    &&& values(xa, fa)
    &&& values(xb, fb)
    &&& if fa.same(zero()) {
        root == xa
    } else if fb.same(zero()) {
        root == xb
    } else {
        found_from::<A>(Search::begun(xa, xb, fa, fb), xtol, rtol, max_iter, values, root)
    }
}

/// `root` is what Brent's method finds between `xa` and `xb`.
pub open spec fn found<A: Arithmetic>(
    xa: Double,
    xb: Double,
    xtol: Double,
    rtol: Double,
    max_iter: nat,
    values: spec_fn(Double, Double) -> bool,
    root: Double,
) -> bool {
    exists|fa: Double, fb: Double| #[trigger]
        found_with::<A>(xa, xb, fa, fb, xtol, rtol, max_iter, values, root)
}

impl Search {
    fn bracket<A: Arithmetic>(self) -> (res: Search)
        ensures
            self.bracketed::<A>(res),
    {
        let p: Double = A::product(self.fpre, self.fcur);
        proof {
            reveal_with_fuel(evaluates, 2);
        }
        let next: Search = if p.is_less(zero()) {
            let s: Double = A::difference(self.xcur, self.xpre);
            Search { xblk: self.xpre, fblk: self.fpre, spre: s, scur: s, ..self }
        } else {
            self
        };
        assert(self.bracketed_by::<A>(p, next));
        next
    }

    fn turn(self) -> (res: Search)
        ensures
            res == self.turned(),
    {
        if self.fblk.abs().is_less(self.fcur.abs()) {
            Search {
                xpre: self.xcur,
                xcur: self.xblk,
                xblk: self.xcur,
                fpre: self.fcur,
                fcur: self.fblk,
                fblk: self.fcur,
                ..self
            }
        } else {
            self
        }
    }

    fn measure<A: Arithmetic>(self, xtol: Double, rtol: Double) -> (res: (Double, Double))
        ensures
            self.measured::<A>(xtol, rtol, res.0, res.1),
    {
        proof {
            reveal_with_fuel(evaluates, 5);
        }
        let delta: Double = A::quotient(
            A::sum(xtol, A::product(rtol, self.xcur.abs())),
            A::ratio(2, 1),
        );
        assert(evaluates::<A>(self.least_step(xtol, rtol), delta));
        let sbis: Double = A::quotient(A::difference(self.xblk, self.xcur), A::ratio(2, 1));
        assert(evaluates::<A>(self.middle_step(), sbis));
        (delta, sbis)
    }

    fn slope_to<A: Arithmetic>(self, x: Double, f: Double) -> (res: Double)
        ensures
            evaluates::<A>(self.slope(x, f), res),
    {
        proof {
            reveal_with_fuel(evaluates, 4);
        }
        A::quotient(A::difference(f, self.fcur), A::difference(x, self.xcur))
    }

    fn secant<A: Arithmetic>(self) -> (res: Double)
        ensures
            evaluates::<A>(self.secant_step(), res),
    {
        proof {
            reveal_with_fuel(evaluates, 5);
        }
        A::quotient(
            A::product(self.fcur.negate(), A::difference(self.xcur, self.xpre)),
            A::difference(self.fcur, self.fpre),
        )
    }

    fn parabola<A: Arithmetic>(self, dpre: Double, dblk: Double) -> (res: Double)
        ensures
            evaluates::<A>(self.parabola_step(dpre, dblk), res),
    {
        proof {
            reveal_with_fuel(evaluates, 5);
        }
        A::quotient(
            A::product(
                self.fcur.negate(),
                A::difference(A::product(self.fblk, dblk), A::product(self.fpre, dpre)),
            ),
            A::product(A::product(dblk, dpre), A::difference(self.fblk, self.fpre)),
        )
    }

    fn try_step<A: Arithmetic>(self) -> (res: Double)
        ensures
            self.trial_step::<A>(res),
    {
        if self.xpre.is_same(self.xblk) {
            self.secant::<A>()
        } else {
            let dpre: Double = self.slope_to::<A>(self.xpre, self.fpre);
            let dblk: Double = self.slope_to::<A>(self.xblk, self.fblk);
            assert(self.sloped::<A>(dpre, dblk));
            self.parabola::<A>(dpre, dblk)
        }
    }

    fn is_short<A: Arithmetic>(self, stry: Double, sbis: Double, delta: Double) -> (res: bool)
        ensures
            self.short_enough::<A>(stry, sbis, delta, res),
    {
        proof {
            reveal_with_fuel(evaluates, 4);
        }
        let twice: Double = A::product(A::ratio(2, 1), stry.abs());
        assert(evaluates::<A>(fraction(2, 1).times(given(stry).size()), twice));
        let far: Double = A::difference(A::product(A::ratio(3, 1), sbis.abs()), delta);
        assert(self.weighed::<A>(stry, sbis, delta, twice, far));
        twice.is_less(self.spre.abs().min(far))
    }

    fn step<A: Arithmetic>(self, delta: Double, sbis: Double) -> (res: (Double, Double))
        ensures
            self.stepped::<A>(delta, sbis, res),
    {
        if delta.is_less(self.spre.abs()) && self.fcur.abs().is_less(self.fpre.abs()) {
            let stry: Double = self.try_step::<A>();
            let short: bool = self.is_short::<A>(stry, sbis, delta);
            let steps: (Double, Double) = if short {
                (self.scur, stry)
            } else {
                (sbis, sbis)
            };
            assert(self.tried::<A>(delta, sbis, stry, short, steps));
            steps
        } else {
            (sbis, sbis)
        }
    }

    fn aim<A: Arithmetic>(self, scur: Double, delta: Double, sbis: Double) -> (res: Double)
        ensures
            evaluates::<A>(self.target(scur, delta, sbis), res),
    {
        proof {
            reveal_with_fuel(evaluates, 3);
        }
        if delta.is_less(scur.abs()) {
            A::sum(self.xcur, scur)
        } else if zero().is_less(sbis) {
            A::sum(self.xcur, delta)
        } else {
            A::sum(self.xcur, delta.negate())
        }
    }
}

/// What a function may be at a point.
pub open spec fn values_of<F: Fn(Double) -> Double>(f: F) -> spec_fn(Double, Double) -> bool {
    |x: Double, v: Double| call_ensures(f, (x,), v)
}

/// Finds a root of `f` between `xa` and `xb`, in at most `max_iter` iterations.
pub fn brentq<A: Arithmetic, F: Fn(Double) -> Double>(
    f: F,
    xa: Double,
    xb: Double,
    xtol: Double,
    rtol: Double,
    max_iter: usize,
) -> (res: Double)
    requires
        forall|x: Double| call_requires(f, (x,)),
    ensures
        found::<A>(xa, xb, xtol, rtol, max_iter as nat, values_of(f), res),
{
    let fa: Double = f(xa);
    let fb: Double = f(xb);
    let ghost values = values_of(f);
    assert(values(xa, fa) && values(xb, fb));
    if fa.is_same(zero()) {
        assert(found_with::<A>(xa, xb, fa, fb, xtol, rtol, max_iter as nat, values, xa));
        return xa;
    }
    if fb.is_same(zero()) {
        assert(found_with::<A>(xa, xb, fa, fb, xtol, rtol, max_iter as nat, values, xb));
        return xb;
    }
    let mut s: Search = Search {
        xpre: xa,
        xcur: xb,
        xblk: zero(),
        fpre: fa,
        fcur: fb,
        fblk: zero(),
        spre: zero(),
        scur: zero(),
    };
    let ghost begin = s;
    let ghost mut searches: Seq<Search> = seq![s];
    let mut i: usize = 0;
    while i < max_iter
        invariant
            i <= max_iter,
            forall|x: Double| call_requires(f, (x,)),
            values == values_of(f),
            values(xa, fa),
            values(xb, fb),
            !fa.same(zero()),
            !fb.same(zero()),
            begin == Search::begun(xa, xb, fa, fb),
            searches.len() == i + 1,
            searches[0] == begin,
            searches.last() == s,
            chain::<A>(xtol, rtol, values, searches),
        decreases max_iter - i,
    {
        let b: Search = s.bracket::<A>();
        let c: Search = b.turn();
        let (delta, sbis): (Double, Double) = c.measure::<A>(xtol, rtol);
        if c.fcur.is_same(zero()) || sbis.abs().is_less(delta) {
            proof {
                assert(s.prepared::<A>(xtol, rtol, b, delta, sbis));
                assert(s.ended::<A>(xtol, rtol, c.xcur));
                let n = max_iter as nat;
                assert(found_along::<A>(searches, xtol, rtol, n, values, c.xcur));
                assert(found_with::<A>(xa, xb, fa, fb, xtol, rtol, n, values, c.xcur));
            }
            return c.xcur;
        }
        let (spre, scur): (Double, Double) = c.step::<A>(delta, sbis);
        let xcur: Double = c.aim::<A>(scur, delta, sbis);
        let fcur: Double = f(xcur);
        let next: Search = Search {
            xpre: c.xcur,
            xcur,
            xblk: c.xblk,
            fpre: c.fcur,
            fcur,
            fblk: c.fblk,
            spre,
            scur,
        };
        proof {
            assert(values(next.xcur, next.fcur));
            assert(s.prepared::<A>(xtol, rtol, b, delta, sbis));
            assert(b.turned().moved::<A>(delta, sbis, values, next));
            assert(s.iterated::<A>(xtol, rtol, values, next));
            let before = searches;
            searches = searches.push(next);
            assert forall|j: int| 0 <= j < searches.len() - 1 implies (
            #[trigger] searches[j]).iterated::<A>(xtol, rtol, values, searches[j + 1]) by {
                assert(searches[j] == before[j]);
                if j + 1 < before.len() {
                    assert(searches[j + 1] == before[j + 1]);
                }
            }
        }
        s = next;
        i = i + 1;
    }
    assert(found_along::<A>(searches, xtol, rtol, max_iter as nat, values, s.xcur));
    assert(found_with::<A>(xa, xb, fa, fb, xtol, rtol, max_iter as nat, values, s.xcur));
    s.xcur
}

/// A function with more values allows for every root that one with fewer values allows for.
pub proof fn found_by_more_values<A: Arithmetic>(
    xa: Double,
    xb: Double,
    xtol: Double,
    rtol: Double,
    max_iter: nat,
    fewer: spec_fn(Double, Double) -> bool,
    more: spec_fn(Double, Double) -> bool,
    root: Double,
)
    requires
        found::<A>(xa, xb, xtol, rtol, max_iter, fewer, root),
        forall|x: Double, v: Double| #[trigger] fewer(x, v) ==> more(x, v),
    ensures
        found::<A>(xa, xb, xtol, rtol, max_iter, more, root),
{
    let (fa, fb): (Double, Double) = choose|fa: Double, fb: Double| #[trigger]
        found_with::<A>(xa, xb, fa, fb, xtol, rtol, max_iter, fewer, root);
    if !fa.same(zero()) && !fb.same(zero()) {
        let begin = Search::begun(xa, xb, fa, fb);
        let searches = choose|searches: Seq<Search>| #[trigger]
            found_along::<A>(searches, xtol, rtol, max_iter, fewer, root) && searches[0] == begin;
        assert forall|i: int| 0 <= i < searches.len() - 1 implies (
        #[trigger] searches[i]).iterated::<A>(xtol, rtol, more, searches[i + 1]) by {
            assert(searches[i].iterated::<A>(xtol, rtol, fewer, searches[i + 1]));
        }
        assert(found_along::<A>(searches, xtol, rtol, max_iter, more, root));
    }
    assert(found_with::<A>(xa, xb, fa, fb, xtol, rtol, max_iter, more, root));
}

/// An end of the interval at which the function is zero is the root, whatever the tolerances.
pub proof fn zero_ends_are_roots<A: Arithmetic>(
    xa: Double,
    xb: Double,
    xtol: Double,
    rtol: Double,
    max_iter: nat,
    values: spec_fn(Double, Double) -> bool,
    root: Double,
)
    requires
        found::<A>(xa, xb, xtol, rtol, max_iter, values, root),
        forall|v: Double| #[trigger] values(xa, v) ==> v.same(zero()),
    ensures
        root == xa,
{
}

} // verus!
