//! What a step of the Runge-Kutta method comes to where the arithmetic is exact: the order of the
//! method, of its error estimate and of its dense output.
use crate::arithmetic::{evaluates, fraction, given, zero, Arithmetic};
use crate::double::Double;
use crate::exact::{exact_fraction_of, exact_in, exact_product_of, exact_sum_of};
use crate::solvers::rk45::{
    along, column, dense_weights, error_weights, exact, exact_sum, reached, solution_weights,
    stage_node, stage_weights, staged, stepped, weighted, Fraction,
};
use vstd::prelude::*;

verus! {

/// A polynomial of which `q` are the coefficients, from the constant one on.
pub open spec fn polynomial(q: Seq<real>, u: real) -> real {
    q[0] + q[1] * u + q[2] * (u * u) + q[3] * (u * u * u) + q[4] * (u * u * u * u)
}

/// Sixty times the integral of a polynomial from 0 to `u`.
#[verifier::opaque]
pub open spec fn sixty_integrals(q: Seq<real>, u: real) -> real {
    60real * (q[0] * u) + 30real * (q[1] * (u * u)) + 20real * (q[2] * (u * u * u)) + 15real * (q[3]
        * (u * u * u * u)) + 12real * (q[4] * (u * u * u * u * u))
}

/// What the values stand for.
pub open spec fn numbers(v: Seq<Double>, num: spec_fn(Double) -> real) -> Seq<real> {
    Seq::new(v.len(), |j: int| num(v[j]))
}

/// A weighted sum goes by the values that have weights.
proof fn lemma_sum_prefix(w: Seq<Fraction>, x: Seq<Fraction>, k: Seq<real>, l: Seq<real>, n: nat)
    requires
        forall|j: int| 0 <= j < n ==> #[trigger] w[j] == x[j],
        forall|j: int| 0 <= j < n ==> #[trigger] k[j] == l[j],
    ensures
        exact_sum(w, k, n) == exact_sum(x, l, n),
    decreases n,
{
    if n > 0 {
        lemma_sum_prefix(w, x, k, l, (n - 1) as nat);
        assert(w[n - 1] == x[n - 1]);
        assert(k[n - 1] == l[n - 1]);
    }
}

/// A weighted sum, exactly.
#[verifier::spinoff_prover]
pub(crate) proof fn lemma_weighted<A: Arithmetic>(
    w: Seq<Fraction>,
    v: Seq<Double>,
    x: Double,
    num: spec_fn(Double) -> real,
)
    requires
        exact_in::<A>(num),
        w.len() == v.len(),
        evaluates::<A>(weighted(w, v), x),
        !x.nan(),
    ensures
        num(x) == exact_sum(w, numbers(v, num), w.len()),
        forall|j: int| 0 <= j < v.len() ==> !(#[trigger] v[j]).nan(),
    decreases w.len(),
{
    if w.len() == 0 {
        assert(num(zero()) == 0real) by {
            reveal(exact_in);
        }
    } else {
        let n = (w.len() - 1) as nat;
        let rest = weighted(w.drop_last(), v.drop_last());
        let term = fraction(w.last().0, w.last().1).times(given(v.last()));
        let (a, b): (Double, Double) = exact_sum_of::<A>(rest, term, x, num);
        lemma_weighted::<A>(w.drop_last(), v.drop_last(), a, num);
        let (c, d): (Double, Double) = exact_product_of::<A>(
            fraction(w.last().0, w.last().1),
            given(v.last()),
            b,
            num,
        );
        exact_fraction_of::<A>(w.last().0, w.last().1, c, num);
        assert(d == v.last());
        lemma_sum_prefix(
            w.drop_last(),
            w,
            numbers(v.drop_last(), num),
            numbers(v, num),
            n,
        );
        assert forall|j: int| 0 <= j < v.len() implies !(#[trigger] v[j]).nan() by {
            if j < n {
                assert(v.drop_last()[j] == v[j]);
            }
        }
    }
}

/// A component of a state along weighted stages, exactly.
pub(crate) proof fn lemma_along<A: Arithmetic>(
    y: Seq<Double>,
    k: Seq<Vec<Double>>,
    h: Double,
    w: Seq<Fraction>,
    i: int,
    x: Double,
    num: spec_fn(Double) -> real,
)
    requires
        exact_in::<A>(num),
        evaluates::<A>(along(y, k, h, w, i), x),
        !x.nan(),
    ensures
        !y[i].nan(),
        !h.nan(),
        num(x) == num(y[i]) + num(h) * exact_sum(w, numbers(column(k, i, w.len()), num), w.len()),
        forall|j: int| 0 <= j < w.len() ==> !(#[trigger] k[j]@[i]).nan(),
{
    let sum = weighted(w, column(k, i, w.len()));
    let (a, b): (Double, Double) = exact_sum_of::<A>(given(y[i]), given(h).times(sum), x, num);
    let (c, d): (Double, Double) = exact_product_of::<A>(given(h), sum, b, num);
    lemma_weighted::<A>(w, column(k, i, w.len()), d, num);
    assert forall|j: int| 0 <= j < w.len() implies !(#[trigger] k[j]@[i]).nan() by {
        assert(column(k, i, w.len())[j] == k[j]@[i]);
    }
}

/// How far into a step each stage is.
pub open spec fn depth(s: int) -> real {
    if s == 0 {
        0real
    } else if s == 1 {
        1real / 5real
    } else if s == 2 {
        3real / 10real
    } else if s == 3 {
        4real / 5real
    } else if s == 4 {
        8real / 9real
    } else {
        1real
    }
}

pub(crate) proof fn lemma_depths()
    ensures
        depth(0) == 0real,
        5real * depth(1) == 1real,
        10real * depth(2) == 3real,
        5real * depth(3) == 4real,
        9real * depth(4) == 8real,
        depth(5) == 1real,
        depth(6) == 1real,
{
    assert(5real * (1real / 5real) == 1real) by (nonlinear_arith);
    assert(10real * (3real / 10real) == 3real) by (nonlinear_arith);
    assert(5real * (4real / 5real) == 4real) by (nonlinear_arith);
    assert(9real * (8real / 9real) == 8real) by (nonlinear_arith);
}

/// The time of a stage, exactly.
pub(crate) proof fn lemma_stage_time<A: Arithmetic>(
    t: Double,
    h: Double,
    s: int,
    ts: Double,
    num: spec_fn(Double) -> real,
)
    requires
        exact_in::<A>(num),
        1 <= s <= 5,
        evaluates::<A>(
            given(t).plus(fraction(stage_node(s).0, stage_node(s).1).times(given(h))),
            ts,
        ),
        !ts.nan(),
    ensures
        num(ts) == num(t) + depth(s) * num(h),
{
    let node = fraction(stage_node(s).0, stage_node(s).1);
    let (a, b): (Double, Double) = exact_sum_of::<A>(given(t), node.times(given(h)), ts, num);
    let (c, d): (Double, Double) = exact_product_of::<A>(node, given(h), b, num);
    exact_fraction_of::<A>(stage_node(s).0, stage_node(s).1, c, num);
    lemma_depths();
    assert(num(c) == exact(stage_node(s)));
    assert(5real * exact((1i64, 5i64)) == 1real) by (nonlinear_arith);
    assert(10real * exact((3i64, 10i64)) == 3real) by (nonlinear_arith);
    assert(5real * exact((4i64, 5i64)) == 4real) by (nonlinear_arith);
    assert(9real * exact((8i64, 9i64)) == 8real) by (nonlinear_arith);
    assert(exact((1i64, 1i64)) == 1real) by (nonlinear_arith);
    assert(num(c) == depth(s));
}

/// Each stage of a step is the derivative at a time that lies into the step by the sum of that
/// stage's weights, and the last stage is the derivative at the end of the step.
#[verifier::spinoff_prover]
pub proof fn stages_lie_where_their_weights_lead<
    A: Arithmetic,
    F: Fn(Double, &Vec<Double>) -> Vec<Double>,
>(
    func: F,
    t: Double,
    y: Seq<Double>,
    f: Seq<Double>,
    h: Double,
    y_new: Vec<Double>,
    k: Seq<Vec<Double>>,
    s: int,
    num: spec_fn(Double) -> real,
)
    requires
        exact_in::<A>(num),
        stepped::<A, F>(func, t, y, f, h, y_new, k),
        1 <= s <= 6,
    ensures
        exists|ts: Double, ys: Vec<Double>| #[trigger]
            call_ensures(func, (ts, &ys), k[s]) && (!ts.nan() ==> num(ts) == num(t) + num(h) * (
            if s == 6 {
                exact_sum(solution_weights(), Seq::new(6, |j: int| 1real), 6)
            } else {
                exact_sum(stage_weights(s), Seq::new(s as nat, |j: int| 1real), s as nat)
            })),
        s == 6 ==> exact_sum(solution_weights(), Seq::new(6, |j: int| 1real), 6) == 1real,
{
    lemma_solution_sum(Seq::new(6, |j: int| 1real));
    if s == 6 {
        let t_new = choose|t_new: Double| #[trigger]
            call_ensures(func, (t_new, &y_new), k[6]) && evaluates::<A>(
                given(t).plus(given(h)),
                t_new,
            );
        if !t_new.nan() {
            let (a, b): (Double, Double) = exact_sum_of::<A>(given(t), given(h), t_new, num);
        }
        assert(call_ensures(func, (t_new, &y_new), k[s]));
    } else {
        assert(staged::<A, F>(func, t, y, h, k, s));
        let (ts, ys): (Double, Vec<Double>) = choose|ts: Double, ys: Vec<Double>| #[trigger]
            call_ensures(func, (ts, &ys), k[s]) && reached::<A>(t, y, h, k, s, ts, ys@);
        if !ts.nan() {
            lemma_stage_time::<A>(t, h, s, ts, num);
            lemma_row_sum(s);
            let c = depth(s);
            let x = num(h);
            assert(c * x == x * c) by (nonlinear_arith);
        }
        assert(call_ensures(func, (ts, &ys), k[s]));
    }
}

/// The weights of a stage add up to how far into the step it is.
proof fn lemma_row_sum(s: int)
    requires
        1 <= s <= 5,
    ensures
        exact_sum(stage_weights(s), Seq::new(s as nat, |j: int| 1real), s as nat) == depth(s),
{
    lemma_depths();
    let k = Seq::new(s as nat, |j: int| 1real);
    lemma_stage_sum(s, k);
}

/// The weighted sum of the stages before one.
#[verifier::spinoff_prover]
pub(crate) proof fn lemma_stage_sum(s: int, k: Seq<real>)
    requires
        1 <= s <= 5,
        k.len() == s,
    ensures
        s == 1 ==> 5real * exact_sum(stage_weights(1), k, 1) == k[0],
        s == 2 ==> 40real * exact_sum(stage_weights(2), k, 2) == 3real * k[0] + 9real * k[1],
        s == 3 ==> 45real * exact_sum(stage_weights(3), k, 3) == 44real * k[0] - 168real * k[1]
            + 160real * k[2],
        s == 4 ==> 6561real * exact_sum(stage_weights(4), k, 4) == 19372real * k[0] - 76080real
            * k[1] + 64448real * k[2] - 1908real * k[3],
        s == 5 ==> 167904real * exact_sum(stage_weights(5), k, 5) == 477901real * k[0] - 1806240real
            * k[1] + 1495424real * k[2] + 46746real * k[3] - 45927real * k[4],
{
    reveal_with_fuel(exact_sum, 6);
    if s == 1 {
        let x = k[0];
        assert(5real * (exact((1i64, 5i64)) * x) == 1real * x) by (nonlinear_arith);
    } else if s == 2 {
        let x = k[0];
        assert(40real * (exact((3i64, 40i64)) * x) == 3real * x) by (nonlinear_arith);
        let x = k[1];
        assert(40real * (exact((9i64, 40i64)) * x) == 9real * x) by (nonlinear_arith);
    } else if s == 3 {
        let x = k[0];
        assert(45real * (exact((44i64, 45i64)) * x) == 44real * x) by (nonlinear_arith);
        let x = k[1];
        assert(15real * (exact((-56i64, 15i64)) * x) == -56real * x) by (nonlinear_arith);
        let x = k[2];
        assert(9real * (exact((32i64, 9i64)) * x) == 32real * x) by (nonlinear_arith);
    } else if s == 4 {
        let x = k[0];
        assert(6561real * (exact((19372i64, 6561i64)) * x) == 19372real * x) by (nonlinear_arith);
        let x = k[1];
        assert(2187real * (exact((-25360i64, 2187i64)) * x) == -25360real * x) by (nonlinear_arith);
        let x = k[2];
        assert(6561real * (exact((64448i64, 6561i64)) * x) == 64448real * x) by (nonlinear_arith);
        let x = k[3];
        assert(729real * (exact((-212i64, 729i64)) * x) == -212real * x) by (nonlinear_arith);
    } else {
        let x = k[0];
        assert(3168real * (exact((9017i64, 3168i64)) * x) == 9017real * x) by (nonlinear_arith);
        let x = k[1];
        assert(33real * (exact((-355i64, 33i64)) * x) == -355real * x) by (nonlinear_arith);
        let x = k[2];
        assert(5247real * (exact((46732i64, 5247i64)) * x) == 46732real * x) by (nonlinear_arith);
        let x = k[3];
        assert(176real * (exact((49i64, 176i64)) * x) == 49real * x) by (nonlinear_arith);
        let x = k[4];
        assert(18656real * (exact((-5103i64, 18656i64)) * x) == -5103real * x) by (nonlinear_arith);
    }
}

/// The weighted sum of the stages in the solution.
#[verifier::spinoff_prover]
pub(crate) proof fn lemma_solution_sum(k: Seq<real>)
    requires
        k.len() == 6,
    ensures
        142464real * exact_sum(solution_weights(), k, 6) == 12985real * k[0] + 64000real * k[2]
            + 92750real * k[3] - 45927real * k[4] + 18656real * k[5],
{
    reveal_with_fuel(exact_sum, 7);
    let x = k[0];
    assert(384real * (exact((35i64, 384i64)) * x) == 35real * x) by (nonlinear_arith);
    let x = k[1];
    assert(1real * (exact((0i64, 1i64)) * x) == 0real * x) by (nonlinear_arith);
    let x = k[2];
    assert(1113real * (exact((500i64, 1113i64)) * x) == 500real * x) by (nonlinear_arith);
    let x = k[3];
    assert(192real * (exact((125i64, 192i64)) * x) == 125real * x) by (nonlinear_arith);
    let x = k[4];
    assert(6784real * (exact((-2187i64, 6784i64)) * x) == -2187real * x) by (nonlinear_arith);
    let x = k[5];
    assert(84real * (exact((11i64, 84i64)) * x) == 11real * x) by (nonlinear_arith);
}

/// The weighted sum of the stages in the error estimate.
#[verifier::spinoff_prover]
proof fn lemma_error_sum(k: Seq<real>)
    requires
        k.len() == 7,
    ensures
        21369600real * exact_sum(error_weights(), k, 7) == -26341real * k[0] + 90880real * k[2]
            - 790230real * k[3] + 1086939real * k[4] - 895488real * k[5] + 534240real * k[6],
{
    reveal_with_fuel(exact_sum, 8);
    let x = k[0];
    assert(57600real * (exact((-71i64, 57600i64)) * x) == -71real * x)
        by (nonlinear_arith);
    let x = k[1];
    assert(1real * (exact((0i64, 1i64)) * x) == 0real * x)
        by (nonlinear_arith);
    let x = k[2];
    assert(16695real * (exact((71i64, 16695i64)) * x) == 71real * x)
        by (nonlinear_arith);
    let x = k[3];
    assert(1920real * (exact((-71i64, 1920i64)) * x) == -71real * x)
        by (nonlinear_arith);
    let x = k[4];
    assert(339200real * (exact((17253i64, 339200i64)) * x) == 17253real * x)
        by (nonlinear_arith);
    let x = k[5];
    assert(525real * (exact((-22i64, 525i64)) * x) == -22real * x)
        by (nonlinear_arith);
    let x = k[6];
    assert(40real * (exact((1i64, 40i64)) * x) == 1real * x)
        by (nonlinear_arith);
}

/// The weighted sum of the stages in coefficient 0 of the dense output.
#[verifier::spinoff_prover]
proof fn lemma_dense_sum_0(k: Seq<real>)
    requires
        k.len() == 7,
    ensures
        1real * exact_sum(dense_weights(0), k, 7) == 1real * k[0],
{
    reveal_with_fuel(exact_sum, 8);
    let x = k[0];
    assert(1real * (exact((1i64, 1i64)) * x) == 1real * x)
        by (nonlinear_arith);
    let x = k[1];
    assert(1real * (exact((0i64, 1i64)) * x) == 0real * x)
        by (nonlinear_arith);
    let x = k[2];
    assert(1real * (exact((0i64, 1i64)) * x) == 0real * x)
        by (nonlinear_arith);
    let x = k[3];
    assert(1real * (exact((0i64, 1i64)) * x) == 0real * x)
        by (nonlinear_arith);
    let x = k[4];
    assert(1real * (exact((0i64, 1i64)) * x) == 0real * x)
        by (nonlinear_arith);
    let x = k[5];
    assert(1real * (exact((0i64, 1i64)) * x) == 0real * x)
        by (nonlinear_arith);
    let x = k[6];
    assert(1real * (exact((0i64, 1i64)) * x) == 0real * x)
        by (nonlinear_arith);
}

/// The weighted sum of the stages in coefficient 1 of the dense output.
#[verifier::spinoff_prover]
proof fn lemma_dense_sum_1(k: Seq<real>)
    requires
        k.len() == 7,
    ensures
        1046413145568real * exact_sum(dense_weights(1), k, 7) == -2986023692351real * k[0]
            + 4209859654400real * k[2] - 3905634477150real * k[3] + 2673380312253real * k[4]
            - 1438215460704real * k[5] + 1446633663552real * k[6],
{
    reveal_with_fuel(exact_sum, 8);
    let x = k[0];
    assert(2820520608real * (exact((-8048581381i64, 2820520608i64)) * x) == -8048581381real * x)
        by (nonlinear_arith);
    let x = k[1];
    assert(1real * (exact((0i64, 1i64)) * x) == 0real * x)
        by (nonlinear_arith);
    let x = k[2];
    assert(32700410799real * (exact((131558114200i64, 32700410799i64)) * x) == 131558114200real * x)
        by (nonlinear_arith);
    let x = k[3];
    assert(470086768real * (exact((-1754552775i64, 470086768i64)) * x) == -1754552775real * x)
        by (nonlinear_arith);
    let x = k[4];
    assert(49829197408real * (exact((127303824393i64, 49829197408i64)) * x) == 127303824393real * x)
        by (nonlinear_arith);
    let x = k[5];
    assert(205662961real * (exact((-282668133i64, 205662961i64)) * x) == -282668133real * x)
        by (nonlinear_arith);
    let x = k[6];
    assert(29380423real * (exact((40617522i64, 29380423i64)) * x) == 40617522real * x)
        by (nonlinear_arith);
}

/// The weighted sum of the stages in coefficient 2 of the dense output.
#[verifier::spinoff_prover]
proof fn lemma_dense_sum_2(k: Seq<real>)
    requires
        k.len() == 7,
    ensures
        1046413145568real * exact_sum(dense_weights(2), k, 7) == 3214312740653real * k[0]
            - 6539372236800real * k[2] + 10536303187550real * k[3] - 6696115311627real * k[4]
            + 3424552092896real * k[5] - 3939680472672real * k[6],
{
    reveal_with_fuel(exact_sum, 8);
    let x = k[0];
    assert(2820520608real * (exact((8663915743i64, 2820520608i64)) * x) == 8663915743real * x)
        by (nonlinear_arith);
    let x = k[1];
    assert(1real * (exact((0i64, 1i64)) * x) == 0real * x)
        by (nonlinear_arith);
    let x = k[2];
    assert(10900136933real * (exact((-68118460800i64, 10900136933i64)) * x) == -68118460800real * x)
        by (nonlinear_arith);
    let x = k[3];
    assert(1410260304real * (exact((14199869525i64, 1410260304i64)) * x) == 14199869525real * x)
        by (nonlinear_arith);
    let x = k[4];
    assert(49829197408real * (exact((-318862633887i64, 49829197408i64)) * x)
        == -318862633887real * x)
        by (nonlinear_arith);
    let x = k[5];
    assert(616988883real * (exact((2019193451i64, 616988883i64)) * x) == 2019193451real * x)
        by (nonlinear_arith);
    let x = k[6];
    assert(29380423real * (exact((-110615467i64, 29380423i64)) * x) == -110615467real * x)
        by (nonlinear_arith);
}

/// The weighted sum of the stages in coefficient 3 of the dense output.
#[verifier::spinoff_prover]
proof fn lemma_dense_sum_3(k: Seq<real>)
    requires
        k.len() == 7,
    ensures
        4185652582272real * exact_sum(dense_weights(3), k, 7) == -4717303982825real * k[0]
            + 11198397401600real * k[2] - 23797640608350real * k[3] + 14741585310375real * k[4]
            - 7397225357280real * k[5] + 9972187236480real * k[6],
{
    reveal_with_fuel(exact_sum, 8);
    let x = k[0];
    assert(11282082432real * (exact((-12715105075i64, 11282082432i64)) * x) == -12715105075real * x)
        by (nonlinear_arith);
    let x = k[1];
    assert(1real * (exact((0i64, 1i64)) * x) == 0real * x)
        by (nonlinear_arith);
    let x = k[2];
    assert(32700410799real * (exact((87487479700i64, 32700410799i64)) * x) == 87487479700real * x)
        by (nonlinear_arith);
    let x = k[3];
    assert(1880347072real * (exact((-10690763975i64, 1880347072i64)) * x) == -10690763975real * x)
        by (nonlinear_arith);
    let x = k[4];
    assert(199316789632real * (exact((701980252875i64, 199316789632i64)) * x)
        == 701980252875real * x)
        by (nonlinear_arith);
    let x = k[5];
    assert(822651844real * (exact((-1453857185i64, 822651844i64)) * x) == -1453857185real * x)
        by (nonlinear_arith);
    let x = k[6];
    assert(29380423real * (exact((69997945i64, 29380423i64)) * x) == 69997945real * x)
        by (nonlinear_arith);
}

/// A polynomial at a part of a step, by the powers of the part.
proof fn lemma_polynomial_at(q: Seq<real>, c: real, h: real)
    ensures
        polynomial(q, c * h) == q[0] + c * (q[1] * h) + (c * c) * (q[2] * (h * h)) + (c * c * c) * (
        q[3] * (h * h * h)) + (c * c * c * c) * (q[4] * (h * h * h * h)),
{
    let (a, b, d, e): (real, real, real, real) = (q[1], q[2], q[3], q[4]);
    assert(a * (c * h) == c * (a * h)) by (nonlinear_arith);
    assert(b * ((c * h) * (c * h)) == (c * c) * (b * (h * h))) by (nonlinear_arith);
    assert(d * ((c * h) * (c * h) * (c * h)) == (c * c * c) * (d * (h * h * h)))
        by (nonlinear_arith);
    assert(e * ((c * h) * (c * h) * (c * h) * (c * h)) == (c * c * c * c) * (e * (h * h * h * h)))
        by (nonlinear_arith);
}

/// A polynomial at each stage, without denominators; `a` are the polynomial's terms at the end of
/// the step.
pub open spec fn on_polynomial(a: Seq<real>, k: Seq<real>) -> bool {
    &&& k[0] == a[0]
    &&& 625real * k[1] == 625real * a[0] + 125real * a[1] + 25real * a[2] + 5real * a[3] + a[4]
    &&& 10000real * k[2] == 10000real * a[0] + 3000real * a[1] + 900real * a[2] + 270real * a[3]
        + 81real * a[4]
    &&& 625real * k[3] == 625real * a[0] + 500real * a[1] + 400real * a[2] + 320real * a[3]
        + 256real * a[4]
    &&& 6561real * k[4] == 6561real * a[0] + 5832real * a[1] + 5184real * a[2] + 4608real * a[3]
        + 4096real * a[4]
    &&& k[5] == a[0] + a[1] + a[2] + a[3] + a[4]
}

/// The terms of a polynomial at `h`.
pub open spec fn terms(q: Seq<real>, h: real) -> Seq<real> {
    seq![q[0], q[1] * h, q[2] * (h * h), q[3] * (h * h * h), q[4] * (h * h * h * h)]
}

/// The stages of a step on a polynomial.
#[verifier::spinoff_prover]
proof fn lemma_on_polynomial(q: Seq<real>, h: real, k: Seq<real>)
    requires
        forall|j: int| 0 <= j < 6 ==> #[trigger] k[j] == polynomial(q, depth(j) * h),
    ensures
        on_polynomial(terms(q, h), k),
{
    lemma_depths();
    let a = terms(q, h);
    let (a1, a2, a3, a4): (real, real, real, real) = (a[1], a[2], a[3], a[4]);
    assert forall|j: int| 0 <= j < 6 implies #[trigger] k[j] == ({
        let c = depth(j);
        a[0] + c * a1 + (c * c) * a2 + (c * c * c) * a3 + (c * c * c * c) * a4
    }) by {
        lemma_polynomial_at(q, depth(j), h);
    }
    let c = depth(0);
    assert(c * a1 + (c * c) * a2 + (c * c * c) * a3 + (c * c * c * c) * a4 == 0real)
        by (nonlinear_arith)
        requires
            c == 0real,
    ;
    assert(k[0] == a[0]);
    let c = depth(1);
    assert(625real * (c * a1 + (c * c) * a2 + (c * c * c) * a3 + (c * c * c * c) * a4) == 125real
        * a1 + 25real * a2 + 5real * a3 + a4) by (nonlinear_arith)
        requires
            5real * c == 1real,
    ;
    assert(k[1] == a[0] + (c * a1 + (c * c) * a2 + (c * c * c) * a3 + (c * c * c * c) * a4));
    let c = depth(2);
    assert(10000real * (c * a1 + (c * c) * a2 + (c * c * c) * a3 + (c * c * c * c) * a4) == 3000real
        * a1 + 900real * a2 + 270real * a3 + 81real * a4) by (nonlinear_arith)
        requires
            10real * c == 3real,
    ;
    assert(k[2] == a[0] + (c * a1 + (c * c) * a2 + (c * c * c) * a3 + (c * c * c * c) * a4));
    let c = depth(3);
    assert(625real * (c * a1 + (c * c) * a2 + (c * c * c) * a3 + (c * c * c * c) * a4) == 500real
        * a1 + 400real * a2 + 320real * a3 + 256real * a4) by (nonlinear_arith)
        requires
            5real * c == 4real,
    ;
    assert(k[3] == a[0] + (c * a1 + (c * c) * a2 + (c * c * c) * a3 + (c * c * c * c) * a4));
    let c = depth(4);
    assert(6561real * (c * a1 + (c * c) * a2 + (c * c * c) * a3 + (c * c * c * c) * a4) == 5832real
        * a1 + 5184real * a2 + 4608real * a3 + 4096real * a4) by (nonlinear_arith)
        requires
            9real * c == 8real,
    ;
    assert(k[4] == a[0] + (c * a1 + (c * c) * a2 + (c * c * c) * a3 + (c * c * c * c) * a4));
    let c = depth(5);
    assert(c * a1 + (c * c) * a2 + (c * c * c) * a3 + (c * c * c * c) * a4 == a1 + a2 + a3 + a4)
        by (nonlinear_arith)
        requires
            c == 1real,
    ;
    assert(k[5] == a[0] + (c * a1 + (c * c) * a2 + (c * c * c) * a3 + (c * c * c * c) * a4));
}

/// Component `i` of the derivative is a polynomial of the time, counted from `t`; or no number.
pub open spec fn forced<F: Fn(Double, &Vec<Double>) -> Vec<Double>>(
    func: F,
    i: int,
    t: real,
    q: Seq<real>,
    num: spec_fn(Double) -> real,
) -> bool {
    forall|ts: Double, ys: Vec<Double>, d: Vec<Double>| #[trigger]
        call_ensures(func, (ts, &ys), d) && !d@[i].nan() ==> !ts.nan() && num(d@[i]) == polynomial(
            q,
            num(ts) - t,
        )
}

/// The stages of a step on a polynomial.
#[verifier::spinoff_prover]
pub(crate) proof fn lemma_stages<A: Arithmetic, F: Fn(Double, &Vec<Double>) -> Vec<Double>>(
    func: F,
    t: Double,
    y: Seq<Double>,
    f: Seq<Double>,
    h: Double,
    y_new: Vec<Double>,
    k: Seq<Vec<Double>>,
    i: int,
    q: Seq<real>,
    num: spec_fn(Double) -> real,
)
    requires
        exact_in::<A>(num),
        stepped::<A, F>(func, t, y, f, h, y_new, k),
        0 <= i < y.len(),
        forced(func, i, num(t), q, num),
        !f[i].nan() ==> num(f[i]) == q[0],
        forall|j: int| 0 <= j < 6 ==> !(#[trigger] k[j]@[i]).nan(),
    ensures
        on_polynomial(terms(q, num(h)), numbers(column(k, i, 6), num)),
        !k[6]@[i].nan() ==> num(k[6]@[i]) == polynomial(q, num(h)),
{
    let x = num(h);
    let v = numbers(column(k, i, 6), num);
    assert forall|j: int| 0 <= j < 6 implies #[trigger] v[j] == polynomial(q, depth(j) * x) by {
        assert(!k[j]@[i].nan());
        if j == 0 {
            lemma_polynomial_at(q, 0real, x);
            let (a, b, c, d): (real, real, real, real) = (
                q[1] * x,
                q[2] * (x * x),
                q[3] * (x * x * x),
                q[4] * (x * x * x * x),
            );
            assert(0real * a + (0real * 0real) * b + (0real * 0real * 0real) * c + (0real * 0real
                * 0real * 0real) * d == 0real) by (nonlinear_arith);
        } else {
            assert(staged::<A, F>(func, t, y, h, k, j));
            let (ts, ys): (Double, Vec<Double>) = choose|ts: Double, ys: Vec<Double>| #[trigger]
                call_ensures(func, (ts, &ys), k[j]) && reached::<A>(t, y, h, k, j, ts, ys@);
            lemma_stage_time::<A>(t, h, j, ts, num);
            assert(num(ts) - num(t) == depth(j) * x);
        }
    }
    lemma_on_polynomial(q, x, v);
    if !k[6]@[i].nan() {
        let t_new = choose|t_new: Double| #[trigger]
            call_ensures(func, (t_new, &y_new), k[6]) && evaluates::<A>(
                given(t).plus(given(h)),
                t_new,
            );
        let (a, b): (Double, Double) = exact_sum_of::<A>(given(t), given(h), t_new, num);
        assert(num(t_new) - num(t) == x);
    }
}

/// The weighted sum of the stages in the solution on a polynomial.
#[verifier::spinoff_prover]
proof fn lemma_solution_terms(a: Seq<real>, k: Seq<real>)
    requires
        k.len() == 6,
        on_polynomial(a, k),
    ensures
        60real * exact_sum(solution_weights(), k, 6) == 60real * a[0] + 30real * a[1]
            + 20real * a[2]
            + 15real * a[3] + 12real * a[4],
{
    lemma_solution_sum(k);
}

proof fn lemma_spread(x: real, s: real, a: real, b: real, c: real, d: real, e: real)
    requires
        60real * s == 60real * a + 30real * b + 20real * c + 15real * d + 12real * e,
    ensures
        60real * (x * s) == 60real * (x * a) + 30real * (x * b) + 20real * (x * c)
            + 15real * (x * d)
            + 12real * (x * e),
{
    assert(60real * (x * s) == x * (60real * s)) by (nonlinear_arith);
    assert(x * (60real * a + 30real * b + 20real * c + 15real * d + 12real * e) == 60real * (x * a)
        + 30real * (x * b) + 20real * (x * c) + 15real * (x * d) + 12real * (x * e))
        by (nonlinear_arith);
}

/// A step along the mean of a polynomial is its integral.
#[verifier::spinoff_prover]
proof fn lemma_step_integral(q: Seq<real>, x: real, s: real)
    requires
        60real * s == 60real * terms(q, x)[0] + 30real * terms(q, x)[1] + 20real * terms(q, x)[2]
            + 15real * terms(q, x)[3] + 12real * terms(q, x)[4],
    ensures
        60real * (x * s) == sixty_integrals(q, x),
{
    let a = terms(q, x);
    lemma_spread(x, s, a[0], a[1], a[2], a[3], a[4]);
    let (q0, q1, q2, q3, q4): (real, real, real, real, real) = (q[0], q[1], q[2], q[3], q[4]);
    assert(x * a[0] == q[0] * x) by {
        assert(x * q0 == q0 * x) by (nonlinear_arith);
    }
    assert(x * a[1] == q[1] * (x * x)) by {
        assert(x * (q1 * x) == q1 * (x * x)) by (nonlinear_arith);
    }
    assert(x * a[2] == q[2] * (x * x * x)) by {
        assert(x * (q2 * (x * x)) == q2 * (x * x * x)) by (nonlinear_arith);
    }
    assert(x * a[3] == q[3] * (x * x * x * x)) by {
        assert(x * (q3 * (x * x * x)) == q3 * (x * x * x * x)) by (nonlinear_arith);
    }
    assert(x * a[4] == q[4] * (x * x * x * x * x)) by {
        assert(x * (q4 * (x * x * x * x)) == q4 * (x * x * x * x * x)) by (nonlinear_arith);
    }
    reveal(sixty_integrals);
}

/// Where the derivative of a component is a polynomial of the time of degree up to four, one step
/// adds to the component the integral of the polynomial over the step; and the last stage is the
/// polynomial at the end of the step.
#[verifier::spinoff_prover]
pub proof fn steps_integrate_polynomials<A: Arithmetic, F: Fn(Double, &Vec<Double>) -> Vec<Double>>(
    func: F,
    t: Double,
    y: Seq<Double>,
    f: Seq<Double>,
    h: Double,
    y_new: Vec<Double>,
    k: Seq<Vec<Double>>,
    i: int,
    q: Seq<real>,
    num: spec_fn(Double) -> real,
)
    requires
        exact_in::<A>(num),
        stepped::<A, F>(func, t, y, f, h, y_new, k),
        0 <= i < y.len(),
        forced(func, i, num(t), q, num),
        !f[i].nan() ==> num(f[i]) == q[0],
    ensures
        !y_new@[i].nan() ==> 60real * (num(y_new@[i]) - num(y[i])) == sixty_integrals(q, num(h)),
        !k[6]@[i].nan() ==> num(k[6]@[i]) == polynomial(q, num(h)),
{
    let x = num(h);
    if !y_new@[i].nan() {
        let w = solution_weights();
        assert(evaluates::<A>(along(y, k, h, w, i), y_new@[i]));
        lemma_along::<A>(y, k, h, w, i, y_new@[i], num);
        lemma_stages::<A, F>(func, t, y, f, h, y_new, k, i, q, num);
        let v = numbers(column(k, i, 6), num);
        lemma_solution_terms(terms(q, x), v);
        lemma_step_integral(q, x, exact_sum(w, v, 6));
    }
    if !k[6]@[i].nan() {
        let t_new = choose|t_new: Double| #[trigger]
            call_ensures(func, (t_new, &y_new), k[6]) && evaluates::<A>(
                given(t).plus(given(h)),
                t_new,
            );
        let (a, b): (Double, Double) = exact_sum_of::<A>(given(t), given(h), t_new, num);
        assert(num(t_new) - num(t) == x);
    }
}

/// The dense output of a component on a polynomial of degree three: its coefficients are the
/// terms of the integral.
#[verifier::spinoff_prover]
proof fn lemma_dense_terms(a: Seq<real>, k: Seq<real>)
    requires
        k.len() == 7,
        on_polynomial(a, k),
        k[6] == a[0] + a[1] + a[2] + a[3] + a[4],
        a[4] == 0real,
    ensures
        exact_sum(dense_weights(0), k, 7) == a[0],
        2real * exact_sum(dense_weights(1), k, 7) == a[1],
        3real * exact_sum(dense_weights(2), k, 7) == a[2],
        4real * exact_sum(dense_weights(3), k, 7) == a[3],
{
    lemma_dense_sum_0(k);
    lemma_dense_sum_1(k);
    lemma_dense_sum_2(k);
    lemma_dense_sum_3(k);
}

/// The error estimate on a polynomial: nothing but what the fourth power brings.
#[verifier::spinoff_prover]
pub(crate) proof fn lemma_error_terms(a: Seq<real>, k: Seq<real>)
    requires
        k.len() == 7,
        on_polynomial(a, k),
        k[6] == a[0] + a[1] + a[2] + a[3] + a[4],
    ensures
        270000real * exact_sum(error_weights(), k, 7) == -71real * a[4],
{
    lemma_error_sum(k);
}

/// The weighted sum of a component of the stages, exactly.
pub(crate) proof fn lemma_weighted_stages<A: Arithmetic>(
    w: Seq<Fraction>,
    k: Seq<Vec<Double>>,
    i: int,
    x: Double,
    num: spec_fn(Double) -> real,
)
    requires
        exact_in::<A>(num),
        evaluates::<A>(weighted(w, column(k, i, w.len())), x),
        !x.nan(),
    ensures
        num(x) == exact_sum(w, numbers(column(k, i, w.len()), num), w.len()),
        forall|j: int| 0 <= j < w.len() ==> !(#[trigger] k[j]@[i]).nan(),
{
    lemma_weighted::<A>(w, column(k, i, w.len()), x, num);
    assert forall|j: int| 0 <= j < w.len() implies !(#[trigger] k[j]@[i]).nan() by {
        assert(column(k, i, w.len())[j] == k[j]@[i]);
    }
}

/// What the coefficients of the dense output of a component come to on a polynomial.
#[verifier::spinoff_prover]
pub(crate) proof fn lemma_dense_coefficients<A: Arithmetic>(
    k: Seq<Vec<Double>>,
    i: int,
    c: Seq<Double>,
    num: spec_fn(Double) -> real,
)
    requires
        exact_in::<A>(num),
        evaluates::<A>(weighted(dense_weights(0), column(k, i, 7)), c[0]),
        evaluates::<A>(weighted(dense_weights(1), column(k, i, 7)), c[1]),
        evaluates::<A>(weighted(dense_weights(2), column(k, i, 7)), c[2]),
        evaluates::<A>(weighted(dense_weights(3), column(k, i, 7)), c[3]),
        !c[0].nan() && !c[1].nan() && !c[2].nan() && !c[3].nan(),
    ensures
        forall|j: int| 0 <= j < 7 ==> !(#[trigger] k[j]@[i]).nan(),
        forall|a: Seq<real>|
            #![trigger a[4]]
            ({
                let v = numbers(column(k, i, 7), num);
                on_polynomial(a, v) && v[6] == a[0] + a[1] + a[2] + a[3] + a[4] && a[4] == 0real
                    ==> num(c[0]) == a[0] && 2real * num(c[1]) == a[1] && 3real * num(c[2]) == a[2]
                    && 4real * num(c[3]) == a[3]
            }),
{
    let v = numbers(column(k, i, 7), num);
    lemma_weighted_stages::<A>(dense_weights(0), k, i, c[0], num);
    lemma_weighted_stages::<A>(dense_weights(1), k, i, c[1], num);
    lemma_weighted_stages::<A>(dense_weights(2), k, i, c[2], num);
    lemma_weighted_stages::<A>(dense_weights(3), k, i, c[3], num);
    assert forall|a: Seq<real>|
        #![trigger a[4]]
        on_polynomial(a, v) && v[6] == a[0] + a[1] + a[2] + a[3] + a[4] && a[4]
            == 0real implies num(c[0]) == a[0] && 2real * num(c[1]) == a[1] && 3real * num(c[2])
        == a[2] && 4real * num(c[3]) == a[3] by {
        lemma_dense_terms(a, v);
    }
}

/// What the weighted sum of the error estimate of a component comes to on a polynomial.
#[verifier::spinoff_prover]
pub(crate) proof fn lemma_error_value<A: Arithmetic>(
    k: Seq<Vec<Double>>,
    i: int,
    c: Double,
    num: spec_fn(Double) -> real,
)
    requires
        exact_in::<A>(num),
        evaluates::<A>(weighted(error_weights(), column(k, i, 7)), c),
        !c.nan(),
    ensures
        forall|j: int| 0 <= j < 7 ==> !(#[trigger] k[j]@[i]).nan(),
        forall|a: Seq<real>|
            #![trigger a[4]]
            ({
                let v = numbers(column(k, i, 7), num);
                on_polynomial(a, v) && v[6] == a[0] + a[1] + a[2] + a[3] + a[4] ==> 270000real
                    * num(c) == -71real * a[4]
            }),
{
    let v = numbers(column(k, i, 7), num);
    lemma_weighted_stages::<A>(error_weights(), k, i, c, num);
    assert forall|a: Seq<real>|
        #![trigger a[4]]
        on_polynomial(a, v) && v[6] == a[0] + a[1] + a[2] + a[3] + a[4] implies 270000real * num(c)
        == -71real * a[4] by {
        lemma_error_terms(a, v);
    }
}

} // verus!
