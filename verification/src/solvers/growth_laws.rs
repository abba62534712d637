//! What a step comes to where the derivative is a multiple of the state, and the arithmetic is
//! exact.
use crate::arithmetic::{evaluates, given, Arithmetic};
use crate::double::Double;
use crate::exact::exact_in;
use crate::solvers::exact_laws::{lemma_along, lemma_solution_sum, lemma_stage_sum, numbers};
use crate::solvers::rk45::{
    along, column, exact_sum, reached, solution_weights, stage_weights, staged, stepped,
};
use vstd::prelude::*;

verus! {

/// Component `i` of the derivative is `rate` times the component of the state; or no number.
pub open spec fn growing<F: Fn(Double, &Vec<Double>) -> Vec<Double>>(
    func: F,
    i: int,
    rate: real,
    num: spec_fn(Double) -> real,
) -> bool {
    forall|ts: Double, ys: Vec<Double>, d: Vec<Double>| #[trigger]
        call_ensures(func, (ts, &ys), d) && !d@[i].nan() ==> !ys@[i].nan() && num(d@[i]) == rate
            * num(ys@[i])
}

/// Six hundred times the factor by which a step multiplies a state that grows at a rate, by the
/// product `z` of the rate and the step: the exponential series up to the fifth power, and
/// `z^6 / 600`.
pub open spec fn six_hundred_growths(z: real) -> real {
    600real + 600real * z + 300real * (z * z) + 100real * (z * z * z) + 25real * (z * z * z * z)
        + 5real * (z * z * z * z * z) + z * z * z * z * z * z
}

/// The products of `y` with the powers of `z`.
spec fn powers_of(m: Seq<real>, z: real) -> bool {
    &&& m[1] == z * m[0]
    &&& m[2] == z * m[1]
    &&& m[3] == z * m[2]
    &&& m[4] == z * m[3]
    &&& m[5] == z * m[4]
    &&& m[6] == z * m[5]
}

proof fn lemma_lift_0(z: real, y: real, m: Seq<real>)
    requires
        powers_of(m, z),
        y == m[0],
    ensures
        z * y == m[1],
{
}

proof fn lemma_lift_1(z: real, y: real, m: Seq<real>)
    requires
        powers_of(m, z),
        5real * y == 5real * m[0] + m[1],
    ensures
        5real * (z * y) == 5real * m[1] + m[2],
{
    let (a0, a1): (real, real) = (m[0], m[1]);
    assert(5real * (z * y) == z * (5real * y)) by (nonlinear_arith);
    assert(z * (5real * a0 + a1) == 5real * (z * a0) + (z * a1)) by (nonlinear_arith);
}

proof fn lemma_lift_2(z: real, y: real, m: Seq<real>)
    requires
        powers_of(m, z),
        200real * y == 200real * m[0] + 60real * m[1] + 9real * m[2],
    ensures
        200real * (z * y) == 200real * m[1] + 60real * m[2] + 9real * m[3],
{
    let (a0, a1, a2): (real, real, real) = (m[0], m[1], m[2]);
    assert(200real * (z * y) == z * (200real * y)) by (nonlinear_arith);
    assert(z * (200real * a0 + 60real * a1 + 9real * a2) == 200real * (z * a0)
        + 60real * (z * a1) + 9real * (z * a2)) by (nonlinear_arith);
}

proof fn lemma_lift_3(z: real, y: real, m: Seq<real>)
    requires
        powers_of(m, z),
        25real * y == 25real * m[0] + 20real * m[1] + 8real * m[2] + 4real * m[3],
    ensures
        25real * (z * y) == 25real * m[1] + 20real * m[2] + 8real * m[3] + 4real * m[4],
{
    let (a0, a1, a2, a3): (real, real, real, real) = (m[0], m[1], m[2], m[3]);
    assert(25real * (z * y) == z * (25real * y)) by (nonlinear_arith);
    assert(z * (25real * a0 + 20real * a1 + 8real * a2 + 4real * a3) == 25real * (z * a0)
        + 20real * (z * a1) + 8real * (z * a2) + 4real * (z * a3)) by (nonlinear_arith);
}

proof fn lemma_lift_4(z: real, y: real, m: Seq<real>)
    requires
        powers_of(m, z),
        18225real * y == 18225real * m[0] + 16200real * m[1] + 7200real * m[2] + 6360real * m[3]
            - 848real * m[4],
    ensures
        18225real * (z * y) == 18225real * m[1] + 16200real * m[2] + 7200real * m[3]
            + 6360real * m[4] - 848real * m[5],
{
    let (a0, a1, a2, a3, a4): (real, real, real, real, real) = (m[0], m[1], m[2], m[3], m[4]);
    assert(18225real * (z * y) == z * (18225real * y)) by (nonlinear_arith);
    assert(z * (18225real * a0 + 16200real * a1 + 7200real * a2 + 6360real * a3 - 848real * a4)
        == 18225real * (z * a0) + 16200real * (z * a1) + 7200real * (z * a2)
        + 6360real * (z * a3) - 848real * (z * a4)) by (nonlinear_arith);
}

proof fn lemma_lift_5(z: real, y: real, m: Seq<real>)
    requires
        powers_of(m, z),
        550real * y == 550real * m[0] + 550real * m[1] + 275real * m[2] + 210real * m[3]
            - 28real * m[4] + 7real * m[5],
    ensures
        550real * (z * y) == 550real * m[1] + 550real * m[2] + 275real * m[3] + 210real * m[4]
            - 28real * m[5] + 7real * m[6],
{
    let (a0, a1, a2, a3, a4, a5): (real, real, real, real, real, real) = (m[0], m[1], m[2], m[3],
        m[4], m[5]);
    assert(550real * (z * y) == z * (550real * y)) by (nonlinear_arith);
    assert(z * (550real * a0 + 550real * a1 + 275real * a2 + 210real * a3 - 28real * a4
        + 7real * a5) == 550real * (z * a0) + 550real * (z * a1) + 275real * (z * a2)
        + 210real * (z * a3) - 28real * (z * a4) + 7real * (z * a5)) by (nonlinear_arith);
}

proof fn lemma_spread_1(h: real, s: real, k0: real)
    requires
        5real * s == k0,
    ensures
        5real * (h * s) == (h * k0),
{
    assert(5real * (h * s) == h * (5real * s)) by (nonlinear_arith);
    assert(h * (k0) == (h * k0)) by (nonlinear_arith);
}

proof fn lemma_spread_2(h: real, s: real, k0: real, k1: real)
    requires
        40real * s == 3real * k0 + 9real * k1,
    ensures
        40real * (h * s) == 3real * (h * k0) + 9real * (h * k1),
{
    assert(40real * (h * s) == h * (40real * s)) by (nonlinear_arith);
    assert(h * (3real * k0 + 9real * k1) == 3real * (h * k0) + 9real * (h * k1))
        by (nonlinear_arith);
}

proof fn lemma_spread_3(h: real, s: real, k0: real, k1: real, k2: real)
    requires
        45real * s == 44real * k0 - 168real * k1 + 160real * k2,
    ensures
        45real * (h * s) == 44real * (h * k0) - 168real * (h * k1) + 160real * (h * k2),
{
    assert(45real * (h * s) == h * (45real * s)) by (nonlinear_arith);
    assert(h * (44real * k0 - 168real * k1 + 160real * k2) == 44real * (h * k0)
        - 168real * (h * k1) + 160real * (h * k2)) by (nonlinear_arith);
}

proof fn lemma_spread_4(h: real, s: real, k0: real, k1: real, k2: real, k3: real)
    requires
        6561real * s == 19372real * k0 - 76080real * k1 + 64448real * k2 - 1908real * k3,
    ensures
        6561real * (h * s) == 19372real * (h * k0) - 76080real * (h * k1) + 64448real * (h * k2)
            - 1908real * (h * k3),
{
    assert(6561real * (h * s) == h * (6561real * s)) by (nonlinear_arith);
    assert(h * (19372real * k0 - 76080real * k1 + 64448real * k2 - 1908real * k3)
        == 19372real * (h * k0) - 76080real * (h * k1) + 64448real * (h * k2)
        - 1908real * (h * k3)) by (nonlinear_arith);
}

proof fn lemma_spread_5(h: real, s: real, k0: real, k1: real, k2: real, k3: real, k4: real)
    requires
        167904real * s == 477901real * k0 - 1806240real * k1 + 1495424real * k2 + 46746real * k3
            - 45927real * k4,
    ensures
        167904real * (h * s) == 477901real * (h * k0) - 1806240real * (h * k1)
            + 1495424real * (h * k2) + 46746real * (h * k3) - 45927real * (h * k4),
{
    assert(167904real * (h * s) == h * (167904real * s)) by (nonlinear_arith);
    assert(h * (477901real * k0 - 1806240real * k1 + 1495424real * k2 + 46746real * k3
        - 45927real * k4) == 477901real * (h * k0) - 1806240real * (h * k1)
        + 1495424real * (h * k2) + 46746real * (h * k3) - 45927real * (h * k4))
        by (nonlinear_arith);
}

proof fn lemma_spread_solution(h: real, s: real, k0: real, k1: real, k2: real, k3: real, k4: real,
    k5: real)
    requires
        142464real * s == 12985real * k0 + 64000real * k2 + 92750real * k3 - 45927real * k4
            + 18656real * k5,
    ensures
        142464real * (h * s) == 12985real * (h * k0) + 64000real * (h * k2)
            + 92750real * (h * k3) - 45927real * (h * k4) + 18656real * (h * k5),
{
    assert(142464real * (h * s) == h * (142464real * s)) by (nonlinear_arith);
    assert(h * (12985real * k0 + 64000real * k2 + 92750real * k3 - 45927real * k4
        + 18656real * k5) == 12985real * (h * k0) + 64000real * (h * k2) + 92750real * (h * k3)
        - 45927real * (h * k4) + 18656real * (h * k5)) by (nonlinear_arith);
}

/// A stage of a state that grows at a rate: how far along the step it is, times the step.
proof fn lemma_grown_stage(rate: real, h: real, y: real, k: real)
    requires
        k == rate * y,
    ensures
        h * k == (rate * h) * y,
{
    assert(h * (rate * y) == (rate * h) * y) by (nonlinear_arith);
}

/// The states of the stages, and that at the end of the step, by the powers of `z`.
#[verifier::spinoff_prover]
proof fn lemma_growth(z: real, m: Seq<real>, y: Seq<real>, w: Seq<real>, end: real)
    requires
        powers_of(m, z),
        y[0] == m[0],
        forall|j: int| 0 <= j < 6 ==> #[trigger] w[j] == z * y[j],
        5real * (y[1] - y[0]) == w[0],
        40real * (y[2] - y[0]) == 3real * w[0] + 9real * w[1],
        45real * (y[3] - y[0]) == 44real * w[0] - 168real * w[1] + 160real * w[2],
        6561real * (y[4] - y[0]) == 19372real * w[0] - 76080real * w[1] + 64448real * w[2]
            - 1908real * w[3],
        167904real * (y[5] - y[0]) == 477901real * w[0] - 1806240real * w[1]
            + 1495424real * w[2] + 46746real * w[3] - 45927real * w[4],
        142464real * (end - y[0]) == 12985real * w[0] + 64000real * w[2] + 92750real * w[3]
            - 45927real * w[4] + 18656real * w[5],
    ensures
        600real * end == 600real * m[0] + 600real * m[1] + 300real * m[2] + 100real * m[3] + 25real
            * m[4] + 5real * m[5] + m[6],
{
    assert(w[0] == z * y[0]);
    lemma_lift_0(z, y[0], m);
    assert(w[1] == z * y[1]);
    lemma_lift_1(z, y[1], m);
    assert(w[2] == z * y[2]);
    lemma_lift_2(z, y[2], m);
    assert(w[3] == z * y[3]);
    lemma_lift_3(z, y[3], m);
    assert(w[4] == z * y[4]);
    lemma_lift_4(z, y[4], m);
    assert(w[5] == z * y[5]);
    lemma_lift_5(z, y[5], m);
}

/// The products with the powers, one by one.
#[verifier::spinoff_prover]
proof fn lemma_series(y: real, z: real) -> (m: Seq<real>)
    ensures
        powers_of(m, z),
        m[0] == y,
        600real * m[0] + 600real * m[1] + 300real * m[2] + 100real * m[3] + 25real * m[4] + 5real
            * m[5] + m[6] == y * six_hundred_growths(z),
{
    let z2 = z * z;
    let z3 = z * z * z;
    let z4 = z * z * z * z;
    let z5 = z * z * z * z * z;
    let z6 = z * z * z * z * z * z;
    let m = seq![y, y * z, y * z2, y * z3, y * z4, y * z5, y * z6];
    assert(y * z == z * y) by (nonlinear_arith);
    assert(y * (z * z) == z * (y * z)) by (nonlinear_arith);
    assert(y * (z2 * z) == z * (y * z2)) by (nonlinear_arith);
    assert(y * (z3 * z) == z * (y * z3)) by (nonlinear_arith);
    assert(y * (z4 * z) == z * (y * z4)) by (nonlinear_arith);
    assert(y * (z5 * z) == z * (y * z5)) by (nonlinear_arith);
    assert(y * (600real + 600real * z + 300real * z2 + 100real * z3 + 25real * z4 + 5real * z5 + z6)
        == 600real * y + 600real * (y * z) + 300real * (y * z2) + 100real * (y * z3) + 25real * (y
        * z4) + 5real * (y * z5) + y * z6) by (nonlinear_arith);
    m
}

/// Where the derivative of a component is a multiple of the component, one step multiplies the
/// component by the exponential series of the rate times the step, up to the fifth power, and the
/// term `z^6 / 600` of the method.
#[verifier::spinoff_prover]
pub proof fn steps_grow_exponentially<A: Arithmetic, F: Fn(Double, &Vec<Double>) -> Vec<Double>>(
    func: F,
    t: Double,
    y: Seq<Double>,
    f: Seq<Double>,
    h: Double,
    y_new: Vec<Double>,
    k: Seq<Vec<Double>>,
    i: int,
    rate: real,
    num: spec_fn(Double) -> real,
)
    requires
        exact_in::<A>(num),
        stepped::<A, F>(func, t, y, f, h, y_new, k),
        0 <= i < y.len(),
        growing(func, i, rate, num),
        !f[i].nan() ==> num(f[i]) == rate * num(y[i]),
        !y_new@[i].nan(),
    ensures
        600real * num(y_new@[i]) == num(y[i]) * six_hundred_growths(rate * num(h)),
        !k[6]@[i].nan() ==> num(k[6]@[i]) == rate * num(y_new@[i]),
{
    let w = solution_weights();
    let v = numbers(column(k, i, 6), num);
    let x = num(h);
    let z = rate * x;
    assert(evaluates::<A>(along(y, k, h, w, i), y_new@[i]));
    lemma_along::<A>(y, k, h, w, i, y_new@[i], num);
    assert(!k[0]@[i].nan() && !k[1]@[i].nan() && !k[2]@[i].nan() && !k[3]@[i].nan()
        && !k[4]@[i].nan() && !k[5]@[i].nan());
    let y1 = lemma_stage_state::<A, F>(func, t, y, f, h, y_new, k, i, rate, 1, num);
    let y2 = lemma_stage_state::<A, F>(func, t, y, f, h, y_new, k, i, rate, 2, num);
    let y3 = lemma_stage_state::<A, F>(func, t, y, f, h, y_new, k, i, rate, 3, num);
    let y4 = lemma_stage_state::<A, F>(func, t, y, f, h, y_new, k, i, rate, 4, num);
    let y5 = lemma_stage_state::<A, F>(func, t, y, f, h, y_new, k, i, rate, 5, num);
    let y0 = num(y[i]);
    let states = seq![y0, y1, y2, y3, y4, y5];
    let steps = seq![x * v[0], x * v[1], x * v[2], x * v[3], x * v[4], x * v[5]];
    assert forall|j: int| 0 <= j < 6 implies #[trigger] steps[j] == z * states[j] by {
        assert(v[j] == rate * states[j]);
        lemma_grown_stage(rate, x, states[j], v[j]);
    }
    lemma_solution_sum(v);
    let s = exact_sum(w, v, 6);
    lemma_spread_solution(x, s, v[0], v[1], v[2], v[3], v[4], v[5]);
    let m = lemma_series(y0, z);
    lemma_growth(z, m, states, steps, num(y_new@[i]));
    if !k[6]@[i].nan() {
        let t_new = choose|t_new: Double| #[trigger]
            call_ensures(func, (t_new, &y_new), k[6]) && evaluates::<A>(
                given(t).plus(given(h)),
                t_new,
            );
        assert(call_ensures(func, (t_new, &y_new), k[6]));
    }
}

/// The state of a stage, by the stages before it.
#[verifier::spinoff_prover]
proof fn lemma_stage_state<A: Arithmetic, F: Fn(Double, &Vec<Double>) -> Vec<Double>>(
    func: F,
    t: Double,
    y: Seq<Double>,
    f: Seq<Double>,
    h: Double,
    y_new: Vec<Double>,
    k: Seq<Vec<Double>>,
    i: int,
    rate: real,
    s: int,
    num: spec_fn(Double) -> real,
) -> (ys: real)
    requires
        exact_in::<A>(num),
        stepped::<A, F>(func, t, y, f, h, y_new, k),
        0 <= i < y.len(),
        growing(func, i, rate, num),
        1 <= s <= 5,
        !k[s]@[i].nan(),
    ensures
        num(k[s]@[i]) == rate * ys,
        ({
            let v = numbers(column(k, i, 6), num);
            let x = num(h);
            let y0 = num(y[i]);
            &&& s == 1 ==> 5real * (ys - y0) == (x * v[0])
            &&& s == 2 ==> 40real * (ys - y0) == 3real * (x * v[0]) + 9real * (x * v[1])
            &&& s == 3 ==> 45real * (ys - y0) == 44real * (x * v[0]) - 168real * (x * v[1])
                + 160real * (x * v[2])
            &&& s == 4 ==> 6561real * (ys - y0) == 19372real * (x * v[0])
                - 76080real * (x * v[1]) + 64448real * (x * v[2]) - 1908real * (x * v[3])
            &&& s == 5 ==> 167904real * (ys - y0) == 477901real * (x * v[0])
                - 1806240real * (x * v[1]) + 1495424real * (x * v[2]) + 46746real * (x * v[3])
                - 45927real * (x * v[4])
        }),
{
    assert(staged::<A, F>(func, t, y, h, k, s));
    let (ts, at): (Double, Vec<Double>) = choose|ts: Double, at: Vec<Double>| #[trigger]
        call_ensures(func, (ts, &at), k[s]) && reached::<A>(t, y, h, k, s, ts, at@);
    let w = stage_weights(s);
    assert(evaluates::<A>(along(y, k, h, w, i), at@[i]));
    lemma_along::<A>(y, k, h, w, i, at@[i], num);
    let u = numbers(column(k, i, w.len()), num);
    let v = numbers(column(k, i, 6), num);
    assert(w.len() == s);
    assert forall|j: int| 0 <= j < s implies #[trigger] u[j] == v[j] by {}
    lemma_stage_sum(s, u);
    let x = num(h);
    let total = exact_sum(w, u, s as nat);
    if s == 1 {
        lemma_spread_1(x, total, v[0]);
    } else if s == 2 {
        lemma_spread_2(x, total, v[0], v[1]);
    } else if s == 3 {
        lemma_spread_3(x, total, v[0], v[1], v[2]);
    } else if s == 4 {
        lemma_spread_4(x, total, v[0], v[1], v[2], v[3]);
    } else {
        lemma_spread_5(x, total, v[0], v[1], v[2], v[3], v[4]);
    }
    num(at@[i])
}

} // verus!
