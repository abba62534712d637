//! The explicit Runge-Kutta method of order 5(4) of Dormand and Prince: one step, its error
//! estimate, its dense output, and the choice of the first step.
use crate::arithmetic::{
    evaluates, fraction, given, infinity, parts_of_product, parts_of_sum, plus_product, zero,
    Arithmetic, Formula,
};
use crate::double::{copy_doubles, Double};
use vstd::prelude::*;

verus! {

/// A fraction of whole numbers.
pub type Fraction = (i64, i64);

/// The weights of the earlier stages in stage `s`.
pub open spec fn stage_weights(s: int) -> Seq<Fraction> {
    if s == 1 {
        seq![(1i64, 5i64)]
    } else if s == 2 {
        seq![(3i64, 40i64), (9i64, 40i64)]
    } else if s == 3 {
        seq![(44i64, 45i64), (-56i64, 15i64), (32i64, 9i64)]
    } else if s == 4 {
        seq![
            (19372i64, 6561i64),
            (-25360i64, 2187i64),
            (64448i64, 6561i64),
            (-212i64, 729i64),
        ]
    } else {
        seq![
            (9017i64, 3168i64),
            (-355i64, 33i64),
            (46732i64, 5247i64),
            (49i64, 176i64),
            (-5103i64, 18656i64),
        ]
    }
}

/// How far into the step stage `s` is.
pub open spec fn stage_node(s: int) -> Fraction {
    if s == 1 {
        (1i64, 5i64)
    } else if s == 2 {
        (3i64, 10i64)
    } else if s == 3 {
        (4i64, 5i64)
    } else if s == 4 {
        (8i64, 9i64)
    } else {
        (1i64, 1i64)
    }
}

/// The weights of the stages in the solution.
pub open spec fn solution_weights() -> Seq<Fraction> {
    seq![
        (35i64, 384i64),
        (0i64, 1i64),
        (500i64, 1113i64),
        (125i64, 192i64),
        (-2187i64, 6784i64),
        (11i64, 84i64),
    ]
}

/// The weights of the stages in the error estimate.
pub open spec fn error_weights() -> Seq<Fraction> {
    seq![
        (-71i64, 57600i64),
        (0i64, 1i64),
        (71i64, 16695i64),
        (-71i64, 1920i64),
        (17253i64, 339200i64),
        (-22i64, 525i64),
        (1i64, 40i64),
    ]
}

/// The weights of the stages in coefficient `c` of the dense output.
pub open spec fn dense_weights(c: int) -> Seq<Fraction> {
    if c == 0 {
        seq![
            (1i64, 1i64),
            (0i64, 1i64),
            (0i64, 1i64),
            (0i64, 1i64),
            (0i64, 1i64),
            (0i64, 1i64),
            (0i64, 1i64),
        ]
    } else if c == 1 {
        seq![
            (-8048581381i64, 2820520608i64),
            (0i64, 1i64),
            (131558114200i64, 32700410799i64),
            (-1754552775i64, 470086768i64),
            (127303824393i64, 49829197408i64),
            (-282668133i64, 205662961i64),
            (40617522i64, 29380423i64),
        ]
    } else if c == 2 {
        seq![
            (8663915743i64, 2820520608i64),
            (0i64, 1i64),
            (-68118460800i64, 10900136933i64),
            (14199869525i64, 1410260304i64),
            (-318862633887i64, 49829197408i64),
            (2019193451i64, 616988883i64),
            (-110615467i64, 29380423i64),
        ]
    } else {
        seq![
            (-12715105075i64, 11282082432i64),
            (0i64, 1i64),
            (87487479700i64, 32700410799i64),
            (-10690763975i64, 1880347072i64),
            (701980252875i64, 199316789632i64),
            (-1453857185i64, 822651844i64),
            (69997945i64, 29380423i64),
        ]
    }
}

fn stage_weights_at(s: usize) -> (res: Vec<Fraction>)
    requires
        1 <= s <= 5,
    ensures
        res@ == stage_weights(s as int),
{
    let res: Vec<Fraction> = if s == 1 {
        vec![(1, 5)]
    } else if s == 2 {
        vec![(3, 40), (9, 40)]
    } else if s == 3 {
        vec![(44, 45), (-56, 15), (32, 9)]
    } else if s == 4 {
        vec![(19372, 6561), (-25360, 2187), (64448, 6561), (-212, 729)]
    } else {
        vec![(9017, 3168), (-355, 33), (46732, 5247), (49, 176), (-5103, 18656)]
    };
    assert(res@ =~= stage_weights(s as int));
    res
}

fn stage_node_at(s: usize) -> (res: Fraction)
    requires
        1 <= s <= 5,
    ensures
        res == stage_node(s as int),
{
    if s == 1 {
        (1, 5)
    } else if s == 2 {
        (3, 10)
    } else if s == 3 {
        (4, 5)
    } else if s == 4 {
        (8, 9)
    } else {
        (1, 1)
    }
}

fn solution_weight_list() -> (res: Vec<Fraction>)
    ensures
        res@ == solution_weights(),
{
    let res: Vec<Fraction> = vec![
        (35, 384),
        (0, 1),
        (500, 1113),
        (125, 192),
        (-2187, 6784),
        (11, 84),
    ];
    assert(res@ =~= solution_weights());
    res
}

fn error_weight_list() -> (res: Vec<Fraction>)
    ensures
        res@ == error_weights(),
{
    let res: Vec<Fraction> = vec![
        (-71, 57600),
        (0, 1),
        (71, 16695),
        (-71, 1920),
        (17253, 339200),
        (-22, 525),
        (1, 40),
    ];
    assert(res@ =~= error_weights());
    res
}

fn dense_weights_at(c: usize) -> (res: Vec<Fraction>)
    requires
        c < 4,
    ensures
        res@ == dense_weights(c as int),
{
    let res: Vec<Fraction> = if c == 0 {
        vec![(1, 1), (0, 1), (0, 1), (0, 1), (0, 1), (0, 1), (0, 1)]
    } else if c == 1 {
        vec![
            (-8048581381, 2820520608),
            (0, 1),
            (131558114200, 32700410799),
            (-1754552775, 470086768),
            (127303824393, 49829197408),
            (-282668133, 205662961),
            (40617522, 29380423),
        ]
    } else if c == 2 {
        vec![
            (8663915743, 2820520608),
            (0, 1),
            (-68118460800, 10900136933),
            (14199869525, 1410260304),
            (-318862633887, 49829197408),
            (2019193451, 616988883),
            (-110615467, 29380423),
        ]
    } else {
        vec![
            (-12715105075, 11282082432),
            (0, 1),
            (87487479700, 32700410799),
            (-10690763975, 1880347072),
            (701980252875, 199316789632),
            (-1453857185, 822651844),
            (69997945, 29380423),
        ]
    };
    assert(res@ =~= dense_weights(c as int));
    res
}

/// Component `i` of the first `n` stages.
pub open spec fn column(k: Seq<Vec<Double>>, i: int, n: nat) -> Seq<Double> {
    Seq::new(n, |j: int| k[j]@[i])
}

/// The weighted sum of values, from the first on.
pub open spec fn weighted(w: Seq<Fraction>, v: Seq<Double>) -> Formula
    decreases w.len(),
{
    if w.len() == 0 {
        given(zero())
    } else {
        weighted(w.drop_last(), v.drop_last()).plus(
            fraction(w.last().0, w.last().1).times(given(v.last())),
        )
    }
}

/// The weighted sum of component `i` of the stages.
fn weigh<A: Arithmetic>(w: &Vec<Fraction>, k: &Vec<Vec<Double>>, i: usize) -> (res: Double)
    requires
        w.len() <= k.len(),
        forall|j: int| 0 <= j < w.len() ==> i < (#[trigger] k@[j]).len(),
    ensures
        evaluates::<A>(weighted(w@, column(k@, i as int, w@.len())), res),
{
    let mut acc: Double = zero();
    let mut j: usize = 0;
    let ghost v = column(k@, i as int, w@.len());
    assert(w@.take(0) =~= seq![]);
    assert(v.take(0) =~= seq![]);
    while j < w.len()
        invariant
            j <= w.len() <= k.len(),
            forall|j: int| 0 <= j < w.len() ==> i < (#[trigger] k@[j]).len(),
            v == column(k@, i as int, w@.len()),
            evaluates::<A>(weighted(w@.take(j as int), v.take(j as int)), acc),
        decreases w.len() - j,
    {
        let f: Fraction = w[j];
        let x: Double = k[j][i];
        proof {
            assert(w@.take(j + 1).drop_last() =~= w@.take(j as int));
            assert(v.take(j + 1).drop_last() =~= v.take(j as int));
            assert(v[j as int] == x);
        }
        acc = plus_fraction::<A>(acc, f, x);
        j = j + 1;
    }
    proof {
        assert(w@.take(w@.len() as int) =~= w@);
        assert(v.take(w@.len() as int) =~= v);
    }
    acc
}

/// `acc + f * x`, each operation rounded.
fn plus_fraction<A: Arithmetic>(acc: Double, f: Fraction, x: Double) -> (res: Double)
    ensures
        forall|e: Formula| #[trigger]
            evaluates::<A>(e, acc) ==> evaluates::<A>(
                e.plus(fraction(f.0, f.1).times(given(x))),
                res,
            ),
{
    let p: Double = A::product(A::ratio(f.0, f.1), x);
    let res: Double = A::sum(acc, p);
    proof {
        reveal_with_fuel(evaluates, 2);
        assert(evaluates::<A>(fraction(f.0, f.1).times(given(x)), p));
    }
    res
}

/// The sum of the squares, from the first on.
pub open spec fn squares(x: Seq<Double>) -> Formula
    decreases x.len(),
{
    if x.len() == 0 {
        given(zero())
    } else {
        squares(x.drop_last()).plus(given(x.last()).times(given(x.last())))
    }
}

/// The root of the mean square; zero of nothing.
pub open spec fn mean_norm(x: Seq<Double>) -> Formula {
    if x.len() == 0 {
        given(zero())
    } else {
        squares(x).over(Formula::Count(x.len() as usize)).root()
    }
}

/// The root of the mean square.
pub fn rms_norm<A: Arithmetic>(x: &Vec<Double>) -> (res: Double)
    ensures
        evaluates::<A>(mean_norm(x@), res),
{
    if x.len() == 0 {
        return zero();
    }
    let mut acc: Double = zero();
    let mut i: usize = 0;
    assert(x@.take(0) =~= seq![]);
    while i < x.len()
        invariant
            i <= x.len(),
            evaluates::<A>(squares(x@.take(i as int)), acc),
        decreases x.len() - i,
    {
        assert(x@.take(i + 1).drop_last() =~= x@.take(i as int));
        acc = plus_product::<A>(acc, x[i], x[i]);
        i = i + 1;
    }
    assert(x@.take(x@.len() as int) =~= x@);
    let count: Double = A::count(x.len());
    let mean: Double = A::quotient(acc, count);
    let res: Double = A::square_root(mean);
    proof {
        assert(evaluates::<A>(Formula::Count(x@.len() as usize), count));
        assert(evaluates::<A>(squares(x@).over(Formula::Count(x@.len() as usize)), mean));
    }
    res
}

/// `func` gives a derivative, with a component for each of the state's `n`, wherever it is asked.
pub open spec fn system<F: Fn(Double, &Vec<Double>) -> Vec<Double>>(func: F, n: nat) -> bool {
    &&& forall|t: Double, y: Vec<Double>|
        y@.len() == n ==> #[trigger] call_requires(func, (t, &y))
    &&& forall|t: Double, y: Vec<Double>, d: Vec<Double>| #[trigger]
        call_ensures(func, (t, &y), d) && y@.len() == n ==> d@.len() >= n
}

/// A component of the state of a stage, or of the solution: the old one and a step along the
/// weighted stages.
pub open spec fn along(
    y: Seq<Double>,
    k: Seq<Vec<Double>>,
    h: Double,
    w: Seq<Fraction>,
    i: int,
) -> Formula {
    given(y[i]).plus(given(h).times(weighted(w, column(k, i, w.len()))))
}

/// `moved` is the state from a step along the weighted stages.
pub open spec fn advanced<A: Arithmetic>(
    y: Seq<Double>,
    k: Seq<Vec<Double>>,
    h: Double,
    w: Seq<Fraction>,
    moved: Seq<Double>,
) -> bool {
    &&& moved.len() == y.len()
    &&& forall|i: int|
        0 <= i < y.len() ==> evaluates::<A>(along(y, k, h, w, i), #[trigger] moved[i])
}

/// A step along the weighted stages.
fn advance<A: Arithmetic>(
    y: &Vec<Double>,
    k: &Vec<Vec<Double>>,
    h: Double,
    w: &Vec<Fraction>,
) -> (res: Vec<Double>)
    requires
        w.len() <= k.len(),
        forall|j: int| 0 <= j < w.len() ==> y.len() <= (#[trigger] k@[j]).len(),
    ensures
        advanced::<A>(y@, k@, h, w@, res@),
{
    let mut res: Vec<Double> = Vec::new();
    let mut i: usize = 0;
    while i < y.len()
        invariant
            i <= y.len(),
            w.len() <= k.len(),
            forall|j: int| 0 <= j < w.len() ==> y.len() <= (#[trigger] k@[j]).len(),
            res@.len() == i,
            forall|j: int|
                0 <= j < i ==> evaluates::<A>(along(y@, k@, h, w@, j), #[trigger] res@[j]),
        decreases y.len() - i,
    {
        let acc: Double = weigh::<A>(w, k, i);
        let p: Double = A::product(h, acc);
        let v: Double = A::sum(y[i], p);
        proof {
            let inner = weighted(w@, column(k@, i as int, w@.len()));
            assert(evaluates::<A>(given(h), h));
            assert(evaluates::<A>(given(h).times(inner), p));
            assert(evaluates::<A>(given(y@[i as int]), y@[i as int]));
            assert(evaluates::<A>(along(y@, k@, h, w@, i as int), v));
        }
        res.push(v);
        i = i + 1;
    }
    res
}

/// The time and the state of stage `s`, along the stages before.
pub open spec fn reached<A: Arithmetic>(
    t: Double,
    y: Seq<Double>,
    h: Double,
    k: Seq<Vec<Double>>,
    s: int,
    ts: Double,
    ys: Seq<Double>,
) -> bool {
    let node = stage_node(s);
    &&& advanced::<A>(y, k, h, stage_weights(s), ys)
    &&& evaluates::<A>(given(t).plus(fraction(node.0, node.1).times(given(h))), ts)
}

/// Stage `s` is the derivative at the stage's time, at the state along the stages before.
pub open spec fn staged<A: Arithmetic, F: Fn(Double, &Vec<Double>) -> Vec<Double>>(
    func: F,
    t: Double,
    y: Seq<Double>,
    h: Double,
    k: Seq<Vec<Double>>,
    s: int,
) -> bool {
    exists|ts: Double, ys: Vec<Double>| #[trigger]
        call_ensures(func, (ts, &ys), k[s]) && reached::<A>(t, y, h, k, s, ts, ys@)
}

/// `k` are the stages of a step of length `h` from state `y` at time `t`, and `y_new` is the state
/// at its end, where the last stage is the derivative.
pub open spec fn stepped<A: Arithmetic, F: Fn(Double, &Vec<Double>) -> Vec<Double>>(
    func: F,
    t: Double,
    y: Seq<Double>,
    f: Seq<Double>,
    h: Double,
    y_new: Vec<Double>,
    k: Seq<Vec<Double>>,
) -> bool {
    &&& k.len() == 7
    &&& k[0]@ == f
    &&& forall|s: int| 1 <= s <= 5 ==> #[trigger] staged::<A, F>(func, t, y, h, k, s)
    &&& advanced::<A>(y, k, h, solution_weights(), y_new@)
    &&& exists|t_new: Double| #[trigger]
        call_ensures(func, (t_new, &y_new), k[6]) && evaluates::<A>(
            given(t).plus(given(h)),
            t_new,
        )
}

/// Stages that come later do not change what is along the stages before.
proof fn lemma_later_stages<A: Arithmetic>(
    y: Seq<Double>,
    before: Seq<Vec<Double>>,
    after: Seq<Vec<Double>>,
    h: Double,
    w: Seq<Fraction>,
    moved: Seq<Double>,
)
    requires
        w.len() <= before.len() <= after.len(),
        forall|j: int| 0 <= j < before.len() ==> before[j] == after[j],
        advanced::<A>(y, before, h, w, moved),
    ensures
        advanced::<A>(y, after, h, w, moved),
{
    assert forall|i: int| 0 <= i < y.len() implies evaluates::<A>(
        along(y, after, h, w, i),
        #[trigger] moved[i],
    ) by {
        assert(column(before, i, w.len()) =~= column(after, i, w.len()));
        assert(evaluates::<A>(along(y, before, h, w, i), moved[i]));
    }
}

proof fn lemma_staged_later<A: Arithmetic, F: Fn(Double, &Vec<Double>) -> Vec<Double>>(
    func: F,
    t: Double,
    y: Seq<Double>,
    h: Double,
    before: Seq<Vec<Double>>,
    after: Seq<Vec<Double>>,
    s: int,
)
    requires
        1 <= s <= 5,
        s < before.len() <= after.len(),
        forall|j: int| 0 <= j < before.len() ==> before[j] == after[j],
        staged::<A, F>(func, t, y, h, before, s),
    ensures
        staged::<A, F>(func, t, y, h, after, s),
{
    let (ts, ys): (Double, Vec<Double>) = choose|ts: Double, ys: Vec<Double>| #[trigger]
        call_ensures(func, (ts, &ys), before[s]) && reached::<A>(t, y, h, before, s, ts, ys@);
    assert(stage_weights(s).len() == s);
    lemma_later_stages::<A>(y, before, after, h, stage_weights(s), ys@);
    assert(call_ensures(func, (ts, &ys), after[s]));
}

/// One step: the state at its end, and the stages, of which the last is the derivative there.
pub fn rk_step<A: Arithmetic, F: Fn(Double, &Vec<Double>) -> Vec<Double>>(
    func: &F,
    t: Double,
    y: &Vec<Double>,
    f: &Vec<Double>,
    h: Double,
) -> (res: (Vec<Double>, Vec<Vec<Double>>))
    requires
        system(*func, y@.len()),
        f@.len() >= y@.len(),
    ensures
        stepped::<A, F>(*func, t, y@, f@, h, res.0, res.1@),
        forall|s: int| 0 <= s < 7 ==> y@.len() <= (#[trigger] res.1@[s])@.len(),
{
    let mut k: Vec<Vec<Double>> = Vec::new();
    k.push(copy_doubles(f));
    let mut s: usize = 1;
    while s < 6
        invariant
            1 <= s <= 6,
            system(*func, y@.len()),
            k@.len() == s,
            k@[0]@ == f@,
            forall|j: int| 0 <= j < s ==> y@.len() <= (#[trigger] k@[j])@.len(),
            forall|j: int| 1 <= j < s ==> #[trigger] staged::<A, F>(*func, t, y@, h, k@, j),
        decreases 6 - s,
    {
        let w: Vec<Fraction> = stage_weights_at(s);
        let node: Fraction = stage_node_at(s);
        let ys: Vec<Double> = advance::<A>(y, &k, h, &w);
        let ts: Double = plus_fraction::<A>(t, node, h);
        proof {
            assert(evaluates::<A>(given(t), t));
        }
        let d: Vec<Double> = func(ts, &ys);
        let ghost before = k@;
        k.push(d);
        proof {
            assert(call_ensures(*func, (ts, &ys), k@[s as int]));
            lemma_later_stages::<A>(y@, before, k@, h, w@, ys@);
            assert(staged::<A, F>(*func, t, y@, h, k@, s as int));
            assert forall|j: int| 1 <= j < s + 1 implies #[trigger] staged::<A, F>(
                *func,
                t,
                y@,
                h,
                k@,
                j,
            ) by {
                if j < s {
                    lemma_staged_later::<A, F>(*func, t, y@, h, before, k@, j);
                }
            }
        }
        s = s + 1;
    }
    let w: Vec<Fraction> = solution_weight_list();
    let y_new: Vec<Double> = advance::<A>(y, &k, h, &w);
    let t_new: Double = A::sum(t, h);
    let d: Vec<Double> = func(t_new, &y_new);
    let ghost before = k@;
    k.push(d);
    proof {
        reveal_with_fuel(evaluates, 2);
        assert(call_ensures(*func, (t_new, &y_new), k@[6]));
        assert(evaluates::<A>(given(t).plus(given(h)), t_new));
        lemma_later_stages::<A>(y@, before, k@, h, w@, y_new@);
        assert forall|j: int| 1 <= j <= 5 implies #[trigger] staged::<A, F>(
            *func,
            t,
            y@,
            h,
            k@,
            j,
        ) by {
            lemma_staged_later::<A, F>(*func, t, y@, h, before, k@, j);
        }
    }
    (y_new, k)
}

/// `yes` says whether `d` is less than a fraction.
pub open spec fn below<A: Arithmetic>(d: Double, f: Fraction, yes: bool) -> bool {
    exists|limit: Double|
        yes == #[trigger] d.lt(limit) && evaluates::<A>(fraction(f.0, f.1), limit)
}

/// Whether `d` is less than a fraction.
pub(crate) fn is_below<A: Arithmetic>(d: Double, f: Fraction) -> (res: bool)
    ensures
        below::<A>(d, f, res),
{
    let limit: Double = A::ratio(f.0, f.1);
    assert(evaluates::<A>(fraction(f.0, f.1), limit));
    d.is_less(limit)
}

/// `yes` says whether `d` is at most a fraction.
pub open spec fn up_to<A: Arithmetic>(d: Double, f: Fraction, yes: bool) -> bool {
    exists|limit: Double|
        yes == #[trigger] d.le(limit) && evaluates::<A>(fraction(f.0, f.1), limit)
}

fn is_up_to<A: Arithmetic>(d: Double, f: Fraction) -> (res: bool)
    ensures
        up_to::<A>(d, f, res),
{
    let limit: Double = A::ratio(f.0, f.1);
    assert(evaluates::<A>(fraction(f.0, f.1), limit));
    d.is_at_most(limit)
}

/// What an error in a component is measured by: the absolute tolerance and the relative one of the
/// greater of two sizes.
pub open spec fn scale(a: Double, b: Double, rtol: Double, atol: Double) -> Formula {
    given(atol).plus(given(a).size().at_least(given(b).size()).times(given(rtol)))
}

/// The error estimate of a component, measured by its scale.
pub open spec fn error_in(
    y: Seq<Double>,
    y_new: Seq<Double>,
    k: Seq<Vec<Double>>,
    h: Double,
    rtol: Double,
    atol: Double,
    i: int,
) -> Formula {
    weighted(error_weights(), column(k, i, 7)).times(given(h)).over(
        scale(y[i], y_new[i], rtol, atol),
    )
}

/// `err` are the error estimates of the components.
pub open spec fn errors<A: Arithmetic>(
    y: Seq<Double>,
    y_new: Seq<Double>,
    k: Seq<Vec<Double>>,
    h: Double,
    rtol: Double,
    atol: Double,
    err: Seq<Double>,
) -> bool {
    &&& err.len() == y.len()
    &&& forall|i: int|
        0 <= i < y.len() ==> evaluates::<A>(
            error_in(y, y_new, k, h, rtol, atol, i),
            #[trigger] err[i],
        )
}

/// `norm` is the error estimate of a step.
pub open spec fn estimated<A: Arithmetic>(
    y: Seq<Double>,
    y_new: Seq<Double>,
    k: Seq<Vec<Double>>,
    h: Double,
    rtol: Double,
    atol: Double,
    norm: Double,
) -> bool {
    exists|err: Seq<Double>| #[trigger]
        errors::<A>(y, y_new, k, h, rtol, atol, err) && evaluates::<A>(mean_norm(err), norm)
}

/// What an error in a component is measured by.
fn scale_of<A: Arithmetic>(a: Double, b: Double, rtol: Double, atol: Double) -> (res: Double)
    ensures
        evaluates::<A>(scale(a, b, rtol, atol), res),
{
    proof {
        reveal_with_fuel(evaluates, 6);
    }
    A::sum(atol, A::product(a.abs().max(b.abs()), rtol))
}

/// The error estimate of a step.
pub fn error_norm<A: Arithmetic>(
    y: &Vec<Double>,
    y_new: &Vec<Double>,
    k: &Vec<Vec<Double>>,
    h: Double,
    rtol: Double,
    atol: Double,
) -> (res: Double)
    requires
        y_new@.len() == y@.len(),
        k@.len() == 7,
        forall|s: int| 0 <= s < 7 ==> y@.len() <= (#[trigger] k@[s])@.len(),
    ensures
        estimated::<A>(y@, y_new@, k@, h, rtol, atol, res),
{
    let w: Vec<Fraction> = error_weight_list();
    let mut err: Vec<Double> = Vec::new();
    let mut i: usize = 0;
    while i < y.len()
        invariant
            i <= y.len(),
            w@ == error_weights(),
            y_new@.len() == y@.len(),
            k@.len() == 7,
            forall|s: int| 0 <= s < 7 ==> y@.len() <= (#[trigger] k@[s])@.len(),
            err@.len() == i,
            forall|j: int|
                0 <= j < i ==> evaluates::<A>(
                    error_in(y@, y_new@, k@, h, rtol, atol, j),
                    #[trigger] err@[j],
                ),
        decreases y.len() - i,
    {
        let acc: Double = weigh::<A>(&w, k, i);
        let p: Double = A::product(acc, h);
        let sc: Double = scale_of::<A>(y[i], y_new[i], rtol, atol);
        let e: Double = A::quotient(p, sc);
        proof {
            let inner = weighted(error_weights(), column(k@, i as int, 7));
            assert(evaluates::<A>(given(h), h));
            assert(evaluates::<A>(inner.times(given(h)), p));
            assert(evaluates::<A>(error_in(y@, y_new@, k@, h, rtol, atol, i as int), e));
        }
        err.push(e);
        i = i + 1;
    }
    assert(errors::<A>(y@, y_new@, k@, h, rtol, atol, err@));
    rms_norm::<A>(&err)
}

/// Coefficient `c` of the dense output of component `i`.
pub open spec fn dense_coefficient(k: Seq<Vec<Double>>, i: int, c: int) -> Formula {
    weighted(dense_weights(c), column(k, i, 7))
}

/// `q` are the coefficients of the dense output of a step.
pub open spec fn dense<A: Arithmetic>(
    k: Seq<Vec<Double>>,
    n: nat,
    q: Seq<[Double; 4]>,
) -> bool {
    &&& q.len() == n
    &&& forall|i: int, c: int|
        0 <= i < n && 0 <= c < 4 ==> evaluates::<A>(
            dense_coefficient(k, i, c),
            #[trigger] q[i]@[c],
        )
}

/// The coefficients of the dense output of a step.
pub fn dense_coefficients<A: Arithmetic>(k: &Vec<Vec<Double>>, n: usize) -> (res: Vec<
    [Double; 4],
>)
    requires
        k@.len() == 7,
        forall|s: int| 0 <= s < 7 ==> n <= (#[trigger] k@[s])@.len(),
    ensures
        dense::<A>(k@, n as nat, res@),
{
    let w0: Vec<Fraction> = dense_weights_at(0);
    let w1: Vec<Fraction> = dense_weights_at(1);
    let w2: Vec<Fraction> = dense_weights_at(2);
    let w3: Vec<Fraction> = dense_weights_at(3);
    let mut res: Vec<[Double; 4]> = Vec::new();
    let mut i: usize = 0;
    while i < n
        invariant
            i <= n,
            w0@ == dense_weights(0),
            w1@ == dense_weights(1),
            w2@ == dense_weights(2),
            w3@ == dense_weights(3),
            k@.len() == 7,
            forall|s: int| 0 <= s < 7 ==> n <= (#[trigger] k@[s])@.len(),
            dense::<A>(k@, i as nat, res@),
        decreases n - i,
    {
        let q0: Double = weigh::<A>(&w0, k, i);
        let q1: Double = weigh::<A>(&w1, k, i);
        let q2: Double = weigh::<A>(&w2, k, i);
        let q3: Double = weigh::<A>(&w3, k, i);
        let row: [Double; 4] = [q0, q1, q2, q3];
        let ghost before = res@;
        res.push(row);
        proof {
            assert forall|a: int, c: int| 0 <= a < i + 1 && 0 <= c < 4 implies evaluates::<A>(
                dense_coefficient(k@, a, c),
                #[trigger] res@[a]@[c],
            ) by {
                if a < i {
                    assert(res@[a] == before[a]);
                } else {
                    assert(row@[0] == q0 && row@[1] == q1 && row@[2] == q2 && row@[3] == q3);
                }
            }
        }
        i = i + 1;
    }
    res
}

/// How far into a step a time is.
pub open spec fn progress(t: Double, t_old: Double, h: Double) -> Formula {
    given(t).minus(given(t_old)).over(given(h))
}

/// A component of the dense output: a quartic, of which the powers are given.
pub open spec fn quartic(y: Double, h: Double, q: Seq<Double>, p: Seq<Double>) -> Formula {
    given(y).plus(
        given(h).times(
            given(q[0]).times(given(p[0])).plus(given(q[1]).times(given(p[1]))).plus(
                given(q[2]).times(given(p[2])),
            ).plus(given(q[3]).times(given(p[3]))),
        ),
    )
}

/// `p` are the first four powers of `x`.
pub open spec fn powers<A: Arithmetic>(x: Double, p: Seq<Double>) -> bool {
    &&& p.len() == 4
    &&& p[0] == x
    &&& evaluates::<A>(given(p[0]).times(given(x)), p[1])
    &&& evaluates::<A>(given(p[1]).times(given(x)), p[2])
    &&& evaluates::<A>(given(p[2]).times(given(x)), p[3])
}

/// `y` is the dense output at time `t` of a step of length `h` from state `y_old` at `t_old`, with
/// the powers `p` of how far into the step the time is.
pub open spec fn interpolated_by<A: Arithmetic>(
    t: Double,
    t_old: Double,
    h: Double,
    y_old: Seq<Double>,
    q: Seq<[Double; 4]>,
    p: Seq<Double>,
    y: Seq<Double>,
) -> bool {
    &&& powers::<A>(p[0], p)
    &&& evaluates::<A>(progress(t, t_old, h), p[0])
    &&& y.len() == y_old.len()
    &&& forall|i: int|
        0 <= i < y.len() ==> evaluates::<A>(quartic(y_old[i], h, q[i]@, p), #[trigger] y[i])
}

/// `y` is the dense output at time `t` of a step of length `h` from state `y_old` at `t_old`.
pub open spec fn interpolated<A: Arithmetic>(
    t: Double,
    t_old: Double,
    h: Double,
    y_old: Seq<Double>,
    q: Seq<[Double; 4]>,
    y: Seq<Double>,
) -> bool {
    exists|p: Seq<Double>| #[trigger] interpolated_by::<A>(t, t_old, h, y_old, q, p, y)
}

/// One component of the dense output.
fn quartic_at<A: Arithmetic>(
    y: Double,
    h: Double,
    q: &[Double; 4],
    p0: Double,
    p1: Double,
    p2: Double,
    p3: Double,
) -> (res: Double)
    ensures
        evaluates::<A>(quartic(y, h, q@, seq![p0, p1, p2, p3]), res),
{
    let a: Double = A::product(q[0], p0);
    let b: Double = plus_product::<A>(a, q[1], p1);
    let c: Double = plus_product::<A>(b, q[2], p2);
    let d: Double = plus_product::<A>(c, q[3], p3);
    let e: Double = A::product(h, d);
    let res: Double = A::sum(y, e);
    proof {
        let p = seq![p0, p1, p2, p3];
        assert(evaluates::<A>(given(q@[0]).times(given(p[0])), a)) by {
            reveal_with_fuel(evaluates, 2);
        }
        let sum = given(q@[0]).times(given(p[0])).plus(given(q@[1]).times(given(p[1]))).plus(
            given(q@[2]).times(given(p[2])),
        ).plus(given(q@[3]).times(given(p[3])));
        assert(evaluates::<A>(sum, d));
        assert(evaluates::<A>(given(h), h));
        assert(evaluates::<A>(given(h).times(sum), e));
        assert(evaluates::<A>(given(y), y));
    }
    res
}

/// The dense output of a step at a time.
pub fn dense_output<A: Arithmetic>(
    t: Double,
    t_old: Double,
    h: Double,
    y_old: &Vec<Double>,
    q: &Vec<[Double; 4]>,
) -> (res: Vec<Double>)
    requires
        q@.len() == y_old@.len(),
    ensures
        interpolated::<A>(t, t_old, h, y_old@, q@, res@),
{
    let x: Double = A::quotient(A::difference(t, t_old), h);
    let p1: Double = A::product(x, x);
    let p2: Double = A::product(p1, x);
    let p3: Double = A::product(p2, x);
    let ghost p = seq![x, p1, p2, p3];
    proof {
        reveal_with_fuel(evaluates, 3);
        assert(evaluates::<A>(progress(t, t_old, h), x));
        assert(powers::<A>(p[0], p));
    }
    let mut res: Vec<Double> = Vec::new();
    let mut i: usize = 0;
    while i < y_old.len()
        invariant
            i <= y_old.len(),
            q@.len() == y_old@.len(),
            p == seq![x, p1, p2, p3],
            res@.len() == i,
            forall|j: int|
                0 <= j < i ==> evaluates::<A>(
                    quartic(y_old@[j], h, q@[j]@, p),
                    #[trigger] res@[j],
                ),
        decreases y_old.len() - i,
    {
        let v: Double = quartic_at::<A>(y_old[i], h, &q[i], x, p1, p2, p3);
        res.push(v);
        i = i + 1;
    }
    assert(interpolated_by::<A>(t, t_old, h, y_old@, q@, p, res@));
    res
}

/// Each of `a`, over its scale.
pub open spec fn scaled<A: Arithmetic>(
    a: Seq<Double>,
    scales: Seq<Double>,
    res: Seq<Double>,
) -> bool {
    &&& res.len() == scales.len()
    &&& forall|i: int|
        0 <= i < scales.len() ==> evaluates::<A>(
            given(a[i]).over(given(scales[i])),
            #[trigger] res[i],
        )
}

/// `norm` is the norm of a vector of which each component is measured by its scale.
pub open spec fn scaled_norm<A: Arithmetic>(
    a: Seq<Double>,
    scales: Seq<Double>,
    norm: Double,
) -> bool {
    exists|v: Seq<Double>| #[trigger]
        scaled::<A>(a, scales, v) && evaluates::<A>(mean_norm(v), norm)
}

fn norm_scaled<A: Arithmetic>(a: &Vec<Double>, scales: &Vec<Double>) -> (res: Double)
    requires
        a@.len() >= scales@.len(),
    ensures
        scaled_norm::<A>(a@, scales@, res),
{
    let mut v: Vec<Double> = Vec::new();
    let mut i: usize = 0;
    while i < scales.len()
        invariant
            i <= scales.len() <= a.len(),
            v@.len() == i,
            forall|j: int|
                0 <= j < i ==> evaluates::<A>(
                    given(a@[j]).over(given(scales@[j])),
                    #[trigger] v@[j],
                ),
        decreases scales.len() - i,
    {
        proof {
            reveal_with_fuel(evaluates, 2);
        }
        let x: Double = A::quotient(a[i], scales[i]);
        v.push(x);
        i = i + 1;
    }
    assert(scaled::<A>(a@, scales@, v@));
    rms_norm::<A>(&v)
}

/// What the choice of the first step goes by.
pub struct FirstStep {
    /// The scales of the components.
    pub scales: Seq<Double>,
    /// The norms of the state, of its derivative, and of the change of the derivative.
    pub d0: Double,
    pub d1: Double,
    pub d2: Double,
    /// A first guess, and where it leads.
    pub h0: Double,
    pub t1: Double,
    pub y1: Vec<Double>,
    pub f1: Vec<Double>,
    /// The change of the derivative.
    pub change: Seq<Double>,
    /// A second guess.
    pub h1: Double,
}

/// The first guess, at most the length of the interval: small where the norms are.
pub open spec fn first_guess(d0: Double, d1: Double, interval: Double, tiny: bool) -> Formula {
    (if tiny {
        fraction(1, 1_000_000)
    } else {
        fraction(1, 100).times(given(d0)).over(given(d1))
    }).at_most(given(interval))
}

/// The first guess is made; `tiny0` and `tiny1` say whether the norms are small.
pub open spec fn guessed_as<A: Arithmetic>(
    w: FirstStep,
    interval: Double,
    tiny0: bool,
    tiny1: bool,
) -> bool {
    &&& below::<A>(w.d0, (1, 100_000), tiny0)
    &&& below::<A>(w.d1, (1, 100_000), tiny1)
    &&& evaluates::<A>(first_guess(w.d0, w.d1, interval, tiny0 || tiny1), w.h0)
}

/// The first guess is made.
pub open spec fn guessed<A: Arithmetic>(w: FirstStep, interval: Double) -> bool {
    exists|tiny0: bool, tiny1: bool| #[trigger] guessed_as::<A>(w, interval, tiny0, tiny1)
}

/// The second guess, by how much the derivative changes.
pub open spec fn second_guess(d1: Double, d2: Double, h0: Double, flat: bool) -> Formula {
    if flat {
        fraction(1, 1_000_000).at_least(given(h0).times(fraction(1, 1_000)))
    } else {
        fraction(1, 100).over(given(d1).at_least(given(d2))).to_the(fraction(1, 5))
    }
}

/// The second guess is made; `flat1` and `flat2` say whether the norms are next to nothing.
pub open spec fn refined_as<A: Arithmetic>(w: FirstStep, flat1: bool, flat2: bool) -> bool {
    &&& up_to::<A>(w.d1, (1, 1_000_000_000_000_000), flat1)
    &&& up_to::<A>(w.d2, (1, 1_000_000_000_000_000), flat2)
    &&& evaluates::<A>(second_guess(w.d1, w.d2, w.h0, flat1 && flat2), w.h1)
}

/// The second guess is made.
pub open spec fn refined<A: Arithmetic>(w: FirstStep) -> bool {
    exists|flat1: bool, flat2: bool| #[trigger] refined_as::<A>(w, flat1, flat2)
}

/// A component of the state after the first guess.
pub open spec fn euler(y: Double, f: Double, h: Double, direction: Double) -> Formula {
    given(y).plus(given(h).times(given(direction)).times(given(f)))
}

/// The norm of the change of the derivative is one over the first guess.
pub open spec fn bent<A: Arithmetic>(w: FirstStep) -> bool {
    exists|norm: Double| #[trigger]
        scaled_norm::<A>(w.change, w.scales, norm) && evaluates::<A>(
            given(norm).over(given(w.h0)),
            w.d2,
        )
}

/// `w` is how the first step is chosen.
pub open spec fn probed<A: Arithmetic, F: Fn(Double, &Vec<Double>) -> Vec<Double>>(
    func: F,
    t0: Double,
    y0: Seq<Double>,
    f0: Seq<Double>,
    direction: Double,
    rtol: Double,
    atol: Double,
    interval: Double,
    w: FirstStep,
) -> bool {
    &&& w.scales.len() == y0.len()
    &&& forall|i: int|
        0 <= i < y0.len() ==> evaluates::<A>(
            given(atol).plus(given(y0[i]).size().times(given(rtol))),
            #[trigger] w.scales[i],
        )
    &&& scaled_norm::<A>(y0, w.scales, w.d0)
    &&& scaled_norm::<A>(f0, w.scales, w.d1)
    &&& guessed::<A>(w, interval)
    &&& w.y1@.len() == y0.len()
    &&& forall|i: int|
        0 <= i < y0.len() ==> evaluates::<A>(
            euler(y0[i], f0[i], w.h0, direction),
            #[trigger] w.y1@[i],
        )
    &&& evaluates::<A>(given(t0).plus(given(w.h0).times(given(direction))), w.t1)
    &&& call_ensures(func, (w.t1, &w.y1), w.f1)
    &&& w.change.len() == y0.len()
    &&& forall|i: int|
        0 <= i < y0.len() ==> evaluates::<A>(
            given(w.f1@[i]).minus(given(f0[i])),
            #[trigger] w.change[i],
        )
    &&& bent::<A>(w)
    &&& refined::<A>(w)
}

/// The first step: a hundred times the first guess, or the second guess, or the interval, whichever
/// is the least.
pub open spec fn least_guess(w: FirstStep, interval: Double) -> Formula {
    fraction(100, 1).times(given(w.h0)).at_most(given(w.h1)).at_most(given(interval))
}

/// `h` is the first step over an interval of a length.
pub open spec fn first_step_over<A: Arithmetic, F: Fn(Double, &Vec<Double>) -> Vec<Double>>(
    func: F,
    t0: Double,
    y0: Seq<Double>,
    f0: Seq<Double>,
    direction: Double,
    rtol: Double,
    atol: Double,
    interval: Double,
    h: Double,
) -> bool {
    if interval.same(zero()) {
        h == zero()
    } else {
        exists|w: FirstStep| #[trigger]
            probed::<A, F>(func, t0, y0, f0, direction, rtol, atol, interval, w)
                && evaluates::<A>(least_guess(w, interval), h)
    }
}

/// How long the way from `t0` to `t_bound` is.
pub open spec fn span_of(t0: Double, t_bound: Double) -> Formula {
    given(t_bound).minus(given(t0)).size()
}

/// `h` is the first step. Where there is nothing to integrate, any step will do.
pub open spec fn first_step<A: Arithmetic, F: Fn(Double, &Vec<Double>) -> Vec<Double>>(
    func: F,
    t0: Double,
    y0: Seq<Double>,
    t_bound: Double,
    f0: Seq<Double>,
    direction: Double,
    rtol: Double,
    atol: Double,
    h: Double,
) -> bool {
    if y0.len() == 0 {
        h == infinity()
    } else {
        exists|interval: Double| #[trigger]
            evaluates::<A>(span_of(t0, t_bound), interval) && first_step_over::<A, F>(
                func,
                t0,
                y0,
                f0,
                direction,
                rtol,
                atol,
                interval,
                h,
            )
    }
}

fn guess<A: Arithmetic>(d0: Double, d1: Double, interval: Double) -> (res: Double)
    ensures
        forall|w: FirstStep|
            #![trigger guessed::<A>(w, interval)]
            w.d0 == d0 && w.d1 == d1 && w.h0 == res ==> guessed::<A>(w, interval),
{
    let tiny0: bool = is_below::<A>(d0, (1, 100_000));
    let tiny1: bool = is_below::<A>(d1, (1, 100_000));
    proof {
        reveal_with_fuel(evaluates, 5);
    }
    let h: Double = if tiny0 || tiny1 {
        A::ratio(1, 1_000_000)
    } else {
        A::quotient(A::product(A::ratio(1, 100), d0), d1)
    };
    let res: Double = h.min(interval);
    proof {
        assert(evaluates::<A>(first_guess(d0, d1, interval, tiny0 || tiny1), res));
        assert forall|w: FirstStep|
            #![trigger guessed::<A>(w, interval)]
            w.d0 == d0 && w.d1 == d1 && w.h0 == res implies guessed::<A>(w, interval) by {
            assert(guessed_as::<A>(w, interval, tiny0, tiny1));
        }
    }
    res
}

fn refine<A: Arithmetic>(d1: Double, d2: Double, h0: Double) -> (res: Double)
    ensures
        forall|w: FirstStep|
            #![trigger refined::<A>(w)]
            w.d1 == d1 && w.d2 == d2 && w.h0 == h0 && w.h1 == res ==> refined::<A>(w),
{
    let flat1: bool = is_up_to::<A>(d1, (1, 1_000_000_000_000_000));
    let flat2: bool = is_up_to::<A>(d2, (1, 1_000_000_000_000_000));
    proof {
        reveal_with_fuel(evaluates, 5);
    }
    let res: Double = if flat1 && flat2 {
        A::ratio(1, 1_000_000).max(A::product(h0, A::ratio(1, 1_000)))
    } else {
        A::power(A::quotient(A::ratio(1, 100), d1.max(d2)), A::ratio(1, 5))
    };
    proof {
        assert(evaluates::<A>(second_guess(d1, d2, h0, flat1 && flat2), res));
        assert forall|w: FirstStep|
            #![trigger refined::<A>(w)]
            w.d1 == d1 && w.d2 == d2 && w.h0 == h0 && w.h1 == res implies refined::<A>(w) by {
            assert(refined_as::<A>(w, flat1, flat2));
        }
    }
    res
}

fn scale_alone<A: Arithmetic>(y: Double, rtol: Double, atol: Double) -> (res: Double)
    ensures
        evaluates::<A>(given(atol).plus(given(y).size().times(given(rtol))), res),
{
    proof {
        reveal_with_fuel(evaluates, 5);
    }
    A::sum(atol, A::product(y.abs(), rtol))
}

fn euler_at<A: Arithmetic>(y: Double, f: Double, h: Double, direction: Double) -> (res: Double)
    ensures
        evaluates::<A>(euler(y, f, h, direction), res),
{
    proof {
        reveal_with_fuel(evaluates, 5);
    }
    A::sum(y, A::product(A::product(h, direction), f))
}

/// Chooses a good first step.
pub fn select_initial_step<A: Arithmetic, F: Fn(Double, &Vec<Double>) -> Vec<Double>>(
    func: &F,
    t0: Double,
    y0: &Vec<Double>,
    t_bound: Double,
    f0: &Vec<Double>,
    direction: Double,
    rtol: Double,
    atol: Double,
) -> (res: Double)
    requires
        system(*func, y0@.len()),
        f0@.len() >= y0@.len(),
    ensures
        first_step::<A, F>(*func, t0, y0@, t_bound, f0@, direction, rtol, atol, res),
{
    let n: usize = y0.len();
    if n == 0 {
        return infinity();
    }
    let interval: Double = A::difference(t_bound, t0).abs();
    assert(evaluates::<A>(span_of(t0, t_bound), interval)) by {
        reveal_with_fuel(evaluates, 3);
    }
    if interval.is_same(zero()) {
        return zero();
    }
    let mut scales: Vec<Double> = Vec::new();
    let mut i: usize = 0;
    while i < n
        invariant
            i <= n == y0.len(),
            scales@.len() == i,
            forall|j: int|
                0 <= j < i ==> evaluates::<A>(
                    given(atol).plus(given(y0@[j]).size().times(given(rtol))),
                    #[trigger] scales@[j],
                ),
        decreases n - i,
    {
        let s: Double = scale_alone::<A>(y0[i], rtol, atol);
        scales.push(s);
        i = i + 1;
    }
    let d0: Double = norm_scaled::<A>(y0, &scales);
    let d1: Double = norm_scaled::<A>(f0, &scales);
    let h0: Double = guess::<A>(d0, d1, interval);
    let mut y1: Vec<Double> = Vec::new();
    let mut i: usize = 0;
    while i < n
        invariant
            i <= n == y0.len(),
            n <= f0.len(),
            y1@.len() == i,
            forall|j: int|
                0 <= j < i ==> evaluates::<A>(
                    euler(y0@[j], f0@[j], h0, direction),
                    #[trigger] y1@[j],
                ),
        decreases n - i,
    {
        let v: Double = euler_at::<A>(y0[i], f0[i], h0, direction);
        y1.push(v);
        i = i + 1;
    }
    let t1: Double = A::sum(t0, A::product(h0, direction));
    assert(evaluates::<A>(given(t0).plus(given(h0).times(given(direction))), t1)) by {
        reveal_with_fuel(evaluates, 3);
    }
    let f1: Vec<Double> = func(t1, &y1);
    let mut change: Vec<Double> = Vec::new();
    let mut i: usize = 0;
    while i < n
        invariant
            i <= n == y0.len(),
            n <= f0.len(),
            n <= f1.len(),
            change@.len() == i,
            forall|j: int|
                0 <= j < i ==> evaluates::<A>(
                    given(f1@[j]).minus(given(f0@[j])),
                    #[trigger] change@[j],
                ),
        decreases n - i,
    {
        proof {
            reveal_with_fuel(evaluates, 2);
        }
        let v: Double = A::difference(f1[i], f0[i]);
        change.push(v);
        i = i + 1;
    }
    let norm: Double = norm_scaled::<A>(&change, &scales);
    let d2: Double = A::quotient(norm, h0);
    assert(evaluates::<A>(given(norm).over(given(h0)), d2)) by {
        reveal_with_fuel(evaluates, 2);
    }
    let h1: Double = refine::<A>(d1, d2, h0);
    let res: Double = A::product(A::ratio(100, 1), h0).min(h1).min(interval);
    proof {
        let w = FirstStep {
            scales: scales@,
            d0,
            d1,
            d2,
            h0,
            t1,
            y1,
            f1,
            change: change@,
            h1,
        };
        assert(guessed::<A>(w, interval));
        assert(refined::<A>(w));
        assert(probed::<A, F>(*func, t0, y0@, f0@, direction, rtol, atol, interval, w));
        assert(evaluates::<A>(least_guess(w, interval), res)) by {
            reveal_with_fuel(evaluates, 5);
        }
    }
    res
}

/// A fraction as an exact number.
pub open spec fn exact(f: Fraction) -> real {
    (f.0 as real) / (f.1 as real)
}

/// The weighted sum of the first `n` values, exactly.
pub open spec fn exact_sum(w: Seq<Fraction>, k: Seq<real>, n: nat) -> real
    decreases n,
{
    if n == 0 {
        0real
    } else {
        exact_sum(w, k, (n - 1) as nat) + exact(w[n - 1]) * k[n - 1]
    }
}

/// The dense output of one component, of which `k` are the stages, exactly, at a part `x` of the
/// step.
pub open spec fn exact_output(y: real, h: real, k: Seq<real>, x: real) -> real {
    y + h * (exact_sum(dense_weights(0), k, 7) * x + exact_sum(dense_weights(1), k, 7) * (x * x)
        + exact_sum(dense_weights(2), k, 7) * (x * x * x) + exact_sum(dense_weights(3), k, 7) * (x
        * x * x * x))
}

/// But for rounding, the dense output passes through both ends of the step: it is the old state at
/// the beginning, and the solution of the step at the end.
pub proof fn dense_output_meets_both_ends(y: real, h: real, k: Seq<real>)
    requires
        k.len() == 7,
    ensures
        exact_output(y, h, k, 0real) == y,
        exact_output(y, h, k, 1real) == y + h * exact_sum(solution_weights(), k, 6),
{
    let q0 = exact_sum(dense_weights(0), k, 7);
    let q1 = exact_sum(dense_weights(1), k, 7);
    let q2 = exact_sum(dense_weights(2), k, 7);
    let q3 = exact_sum(dense_weights(3), k, 7);
    assert(q0 * 0real + q1 * (0real * 0real) + q2 * (0real * 0real * 0real) + q3 * (0real * 0real
        * 0real * 0real) == 0real) by (nonlinear_arith);
    assert(h * 0real == 0real) by (nonlinear_arith);
    assert(q0 * 1real + q1 * (1real * 1real) + q2 * (1real * 1real * 1real) + q3 * (1real * 1real
        * 1real * 1real) == q0 + q1 + q2 + q3) by (nonlinear_arith);
    lemma_dense_weights_add_up(k, 6);
    assert(q0 + q1 + q2 + q3 == exact_sum(solution_weights(), k, 6)) by {
        lemma_last_stage();
        let a = exact(dense_weights(0)[6]);
        let b = exact(dense_weights(1)[6]);
        let c = exact(dense_weights(2)[6]);
        let d = exact(dense_weights(3)[6]);
        let l = k[6];
        assert(a * l + b * l + c * l + d * l == 0real) by (nonlinear_arith)
            requires
                a + b + c + d == 0real,
        ;
    }
}

/// The weights of the last stage in the dense output add up to nothing.
proof fn lemma_last_stage()
    ensures
        exact(dense_weights(0)[6]) + exact(dense_weights(1)[6]) + exact(dense_weights(2)[6])
            + exact(dense_weights(3)[6]) == 0real,
{
    assert(exact((0, 1)) + exact((40617522, 29380423)) + exact((-110615467i64, 29380423)) + exact(
        (69997945, 29380423),
    ) == 0real) by (nonlinear_arith);
}

/// The weights of a stage in the dense output add up to its weight in the solution.
proof fn lemma_weights_of_stage(j: int)
    requires
        0 <= j < 6,
    ensures
        exact(dense_weights(0)[j]) + exact(dense_weights(1)[j]) + exact(dense_weights(2)[j])
            + exact(dense_weights(3)[j]) == exact(solution_weights()[j]),
{
    assert(exact((1, 1)) + exact((-8048581381i64, 2820520608)) + exact((8663915743, 2820520608))
        + exact((-12715105075i64, 11282082432)) == exact((35, 384))) by (nonlinear_arith);
    assert(exact((0, 1)) + exact((0, 1)) + exact((0, 1)) + exact((0, 1)) == exact((0, 1)))
        by (nonlinear_arith);
    assert(exact((0, 1)) + exact((131558114200, 32700410799)) + exact(
        (-68118460800i64, 10900136933),
    ) + exact((87487479700, 32700410799)) == exact((500, 1113))) by (nonlinear_arith);
    assert(exact((0, 1)) + exact((-1754552775i64, 470086768)) + exact((14199869525, 1410260304))
        + exact((-10690763975i64, 1880347072)) == exact((125, 192))) by (nonlinear_arith);
    assert(exact((0, 1)) + exact((127303824393, 49829197408)) + exact(
        (-318862633887i64, 49829197408),
    ) + exact((701980252875, 199316789632)) == exact((-2187i64, 6784))) by (nonlinear_arith);
    assert(exact((0, 1)) + exact((-282668133i64, 205662961)) + exact((2019193451, 616988883))
        + exact((-1453857185i64, 822651844)) == exact((11, 84))) by (nonlinear_arith);
}

/// The coefficients of the dense output add up to the solution, stage by stage.
proof fn lemma_dense_weights_add_up(k: Seq<real>, n: nat)
    requires
        n <= 6,
        k.len() == 7,
    ensures
        exact_sum(dense_weights(0), k, n) + exact_sum(dense_weights(1), k, n) + exact_sum(
            dense_weights(2),
            k,
            n,
        ) + exact_sum(dense_weights(3), k, n) == exact_sum(solution_weights(), k, n),
    decreases n,
{
    if n > 0 {
        let j = n - 1;
        lemma_dense_weights_add_up(k, j as nat);
        lemma_weights_of_stage(j);
        let a = exact(dense_weights(0)[j]);
        let b = exact(dense_weights(1)[j]);
        let c = exact(dense_weights(2)[j]);
        let d = exact(dense_weights(3)[j]);
        let e = exact(solution_weights()[j]);
        let x = k[j];
        assert(a * x + b * x + c * x + d * x == e * x) by (nonlinear_arith)
            requires
                a + b + c + d == e,
        ;
    }
}

/// Operations with a zero give what they should, for finite numbers.
pub open spec fn zeros_behave<A: Arithmetic>() -> bool {
    &&& forall|a: Double, v: Double| #[trigger]
        call_ensures(A::difference, (a, a), v) && a.finite() ==> v.same(zero())
    &&& forall|a: Double, b: Double, v: Double| #[trigger]
        call_ensures(A::quotient, (a, b), v) && a.same(zero()) && b.finite() && !b.same(zero())
            ==> v.same(zero())
    &&& forall|a: Double, b: Double, v: Double| #[trigger]
        call_ensures(A::product, (a, b), v) && a.finite() && b.finite() && (a.same(zero())
            || b.same(zero())) ==> v.same(zero())
    &&& forall|a: Double, b: Double, v: Double| #[trigger]
        call_ensures(A::sum, (a, b), v) && a.finite() && b.same(zero()) ==> v.same(a)
}

/// A zero is finite, and a number that is the same as a zero is one.
proof fn lemma_zero(x: Double)
    requires
        x.same(zero()),
    ensures
        x.finite(),
{
    assert(x.size_bits() == 0);
    assert(x.bits == 0 || x.bits == 0x8000_0000_0000_0000);
}

/// A product with a zero is a zero.
proof fn lemma_product_zero<A: Arithmetic>(x: Double, z: Double, v: Double)
    requires
        zeros_behave::<A>(),
        x.finite(),
        z.same(zero()),
        evaluates::<A>(given(x).times(given(z)), v),
    ensures
        v.same(zero()),
{
    reveal_with_fuel(evaluates, 2);
    lemma_zero(z);
    assert(call_ensures(A::product, (x, z), v));
}

/// At the beginning of a step, the dense output is the old state.
pub proof fn dense_output_begins_at_the_old_state<A: Arithmetic>(
    t_old: Double,
    h: Double,
    y_old: Seq<Double>,
    q: Seq<[Double; 4]>,
    y: Seq<Double>,
    i: int,
)
    requires
        zeros_behave::<A>(),
        t_old.finite(),
        h.finite(),
        !h.same(zero()),
        0 <= i < y_old.len(),
        y_old[i].finite(),
        forall|c: int| 0 <= c < 4 ==> (#[trigger] q[i]@[c]).finite(),
        interpolated::<A>(t_old, t_old, h, y_old, q, y),
    ensures
        y[i].same(y_old[i]),
{
    let p = choose|p: Seq<Double>| #[trigger]
        interpolated_by::<A>(t_old, t_old, h, y_old, q, p, y);
    assert(p[0].same(zero())) by {
        reveal_with_fuel(evaluates, 3);
    }
    lemma_zero(p[0]);
    lemma_product_zero::<A>(p[0], p[0], p[1]);
    lemma_zero(p[1]);
    lemma_product_zero::<A>(p[1], p[0], p[2]);
    lemma_zero(p[2]);
    lemma_product_zero::<A>(p[2], p[0], p[3]);
    let c = q[i]@;
    assert(c[0].finite() && c[1].finite() && c[2].finite() && c[3].finite());
    let a0 = given(c[0]).times(given(p[0]));
    let a1 = given(c[1]).times(given(p[1]));
    let a2 = given(c[2]).times(given(p[2]));
    let a3 = given(c[3]).times(given(p[3]));
    let s1 = a0.plus(a1);
    let s2 = s1.plus(a2);
    let s3 = s2.plus(a3);
    assert(evaluates::<A>(given(y_old[i]).plus(given(h).times(s3)), y[i]));
    let (u, w): (Double, Double) = parts_of_sum::<A>(given(y_old[i]), given(h).times(s3), y[i]);
    let (g, d): (Double, Double) = parts_of_product::<A>(given(h), s3, w);
    let d2 = lemma_no_more::<A>(s2, c[3], p[3], d);
    let d1 = lemma_no_more::<A>(s1, c[2], p[2], d2);
    let d0 = lemma_no_more::<A>(a0, c[1], p[1], d1);
    lemma_product_zero::<A>(c[0], p[0], d0);
    lemma_zero(d);
    assert(w.same(zero()));
}

/// A product with a zero adds nothing to a zero.
proof fn lemma_no_more<A: Arithmetic>(e: Formula, c: Double, z: Double, v: Double) -> (x: Double)
    requires
        zeros_behave::<A>(),
        c.finite(),
        z.same(zero()),
        evaluates::<A>(e.plus(given(c).times(given(z))), v),
    ensures
        evaluates::<A>(e, x),
        x.same(zero()) ==> v.same(zero()),
{
    let (x, y): (Double, Double) = parts_of_sum::<A>(e, given(c).times(given(z)), v);
    lemma_product_zero::<A>(c, z, y);
    if x.same(zero()) {
        lemma_zero(x);
    }
    x
}

} // verus!
