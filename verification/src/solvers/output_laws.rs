//! What the dense output and the error estimate of a step come to where the arithmetic is exact.
use crate::arithmetic::{
    evaluates, given, part_of_root, part_of_size, parts_of_greater, zero, Arithmetic, Formula,
};
use crate::double::Double;
use crate::exact::{
    exact_difference_of, exact_in, exact_product_of, exact_quotient_of, exact_sum_of,
    extremes_are_exact, fifth_power, greatest, ordered_in, size, sizes_are_exact,
};
use crate::solvers::exact_laws::{
    forced, lemma_dense_coefficients, lemma_error_value, lemma_stages, numbers, polynomial,
    sixty_integrals, terms,
};
use crate::solvers::rk45::{
    column, dense, dense_coefficient, error_weights, errors, interpolated, interpolated_by,
    mean_norm, powers, quartic, scale, squares, stepped, weighted,
};
use vstd::prelude::*;

verus! {

/// A product of two given numbers, exactly.
proof fn lemma_times<A: Arithmetic>(x: Double, y: Double, v: Double, num: spec_fn(Double) -> real)
    requires
        exact_in::<A>(num),
        evaluates::<A>(given(x).times(given(y)), v),
        !v.nan(),
    ensures
        !x.nan(),
        !y.nan(),
        num(v) == num(x) * num(y),
{
    let (a, b): (Double, Double) = exact_product_of::<A>(given(x), given(y), v, num);
}

/// The terms of the dense output, exactly.
#[verifier::spinoff_prover]
proof fn lemma_dense_parts<A: Arithmetic>(
    c: Seq<Double>,
    p: Seq<Double>,
    v: Double,
    num: spec_fn(Double) -> real,
)
    requires
        exact_in::<A>(num),
        evaluates::<A>(
            given(c[0]).times(given(p[0])).plus(given(c[1]).times(given(p[1]))).plus(
                given(c[2]).times(given(p[2])),
            ).plus(given(c[3]).times(given(p[3]))),
            v,
        ),
        !v.nan(),
    ensures
        !c[0].nan() && !c[1].nan() && !c[2].nan() && !c[3].nan(),
        !p[0].nan() && !p[1].nan() && !p[2].nan() && !p[3].nan(),
        num(v) == num(c[0]) * num(p[0]) + num(c[1]) * num(p[1]) + num(c[2]) * num(p[2]) + num(c[3])
            * num(p[3]),
{
    let a0 = given(c[0]).times(given(p[0]));
    let a1 = given(c[1]).times(given(p[1]));
    let a2 = given(c[2]).times(given(p[2]));
    let a3 = given(c[3]).times(given(p[3]));
    let (d2, e3): (Double, Double) = exact_sum_of::<A>(a0.plus(a1).plus(a2), a3, v, num);
    let (d1, e2): (Double, Double) = exact_sum_of::<A>(a0.plus(a1), a2, d2, num);
    let (e0, e1): (Double, Double) = exact_sum_of::<A>(a0, a1, d1, num);
    lemma_times::<A>(c[0], p[0], e0, num);
    lemma_times::<A>(c[1], p[1], e1, num);
    lemma_times::<A>(c[2], p[2], e2, num);
    lemma_times::<A>(c[3], p[3], e3, num);
}

/// The powers of how far into a step a time is, exactly.
proof fn lemma_powers<A: Arithmetic>(p: Seq<Double>, num: spec_fn(Double) -> real)
    requires
        exact_in::<A>(num),
        powers::<A>(p[0], p),
        !p[1].nan() && !p[2].nan() && !p[3].nan(),
    ensures
        num(p[1]) == num(p[0]) * num(p[0]),
        num(p[2]) == num(p[1]) * num(p[0]),
        num(p[3]) == num(p[2]) * num(p[0]),
{
    lemma_times::<A>(p[0], p[0], p[1], num);
    lemma_times::<A>(p[1], p[0], p[2], num);
    lemma_times::<A>(p[2], p[0], p[3], num);
}

/// `d` is a quartic without a constant, of which `c` are the coefficients, at `x`.
#[verifier::opaque]
spec fn quartic_of(c: Seq<real>, x: real, d: real) -> bool {
    d == c[0] * x + c[1] * (x * x) + c[2] * (x * x * x) + c[3] * (x * x * x * x)
}

/// A quartic, of which the powers are given.
#[verifier::spinoff_prover]
proof fn lemma_quartic_of_powers(c: Seq<real>, p: Seq<real>, x: real, d: real)
    requires
        p[0] == x,
        p[1] == p[0] * x,
        p[2] == p[1] * x,
        p[3] == p[2] * x,
        d == c[0] * p[0] + c[1] * p[1] + c[2] * p[2] + c[3] * p[3],
    ensures
        quartic_of(c, x, d),
{
    reveal(quartic_of);
    assert(p[1] == x * x);
    assert(p[2] == x * x * x);
    assert(p[3] == x * x * x * x);
}

/// A component of the dense output, exactly: a quartic of how far into the step the time is, of
/// which `d` is all but the old state and the step.
#[verifier::spinoff_prover]
proof fn lemma_quartic<A: Arithmetic>(
    t: Double,
    t_old: Double,
    h: Double,
    y_old: Seq<Double>,
    q: Seq<[Double; 4]>,
    y: Seq<Double>,
    i: int,
    num: spec_fn(Double) -> real,
) -> (parts: (real, real))
    requires
        exact_in::<A>(num),
        interpolated::<A>(t, t_old, h, y_old, q, y),
        0 <= i < y_old.len(),
        !y[i].nan(),
    ensures
        ({
            let (x, d): (real, real) = parts;
            let c = q[i]@;
            &&& num(h) != 0real
            &&& x * num(h) == num(t) - num(t_old)
            &&& !c[0].nan() && !c[1].nan() && !c[2].nan() && !c[3].nan()
            &&& num(y[i]) == num(y_old[i]) + num(h) * d
            &&& quartic_of(seq![num(c[0]), num(c[1]), num(c[2]), num(c[3])], x, d)
        }),
{
    let p = choose|p: Seq<Double>| #[trigger] interpolated_by::<A>(t, t_old, h, y_old, q, p, y);
    let c = q[i]@;
    assert(evaluates::<A>(quartic(y_old[i], h, c, p), y[i]));
    let sum = given(c[0]).times(given(p[0])).plus(given(c[1]).times(given(p[1]))).plus(
        given(c[2]).times(given(p[2])),
    ).plus(given(c[3]).times(given(p[3])));
    let (u, v): (Double, Double) = exact_sum_of::<A>(
        given(y_old[i]),
        given(h).times(sum),
        y[i],
        num,
    );
    let (g, d): (Double, Double) = exact_product_of::<A>(given(h), sum, v, num);
    lemma_dense_parts::<A>(c, p, d, num);
    lemma_powers::<A>(p, num);
    let (m, n): (Double, Double) = exact_quotient_of::<A>(
        given(t).minus(given(t_old)),
        given(h),
        p[0],
        num,
    );
    let (m0, m1): (Double, Double) = exact_difference_of::<A>(given(t), given(t_old), m, num);
    lemma_quartic_of_powers(
        seq![num(c[0]), num(c[1]), num(c[2]), num(c[3])],
        seq![num(p[0]), num(p[1]), num(p[2]), num(p[3])],
        num(p[0]),
        num(d),
    );
    (num(p[0]), num(d))
}

/// Where the derivative of a component is a polynomial of the time of degree up to three, the dense
/// output of a step adds to the component the integral of the polynomial, up to any time.
#[verifier::spinoff_prover]
pub proof fn dense_output_integrates_cubics<
    A: Arithmetic,
    F: Fn(Double, &Vec<Double>) -> Vec<Double>,
>(
    func: F,
    t: Double,
    y: Seq<Double>,
    f: Seq<Double>,
    h: Double,
    y_new: Vec<Double>,
    k: Seq<Vec<Double>>,
    coefficients: Seq<[Double; 4]>,
    at: Double,
    y_at: Seq<Double>,
    i: int,
    q: Seq<real>,
    num: spec_fn(Double) -> real,
)
    requires
        exact_in::<A>(num),
        stepped::<A, F>(func, t, y, f, h, y_new, k),
        dense::<A>(k, y.len(), coefficients),
        interpolated::<A>(at, t, h, y, coefficients, y_at),
        0 <= i < y.len(),
        forced(func, i, num(t), q, num),
        !f[i].nan() ==> num(f[i]) == q[0],
        q[4] == 0real,
        !y_at[i].nan(),
    ensures
        60real * (num(y_at[i]) - num(y[i])) == sixty_integrals(q, num(at) - num(t)),
{
    let (x, d): (real, real) = lemma_quartic::<A>(at, t, h, y, coefficients, y_at, i, num);
    let c = coefficients[i]@;
    assert(evaluates::<A>(dense_coefficient(k, i, 0), c[0]));
    assert(evaluates::<A>(dense_coefficient(k, i, 1), c[1]));
    assert(evaluates::<A>(dense_coefficient(k, i, 2), c[2]));
    assert(evaluates::<A>(dense_coefficient(k, i, 3), c[3]));
    lemma_dense_coefficients::<A>(k, i, c, num);
    lemma_stages::<A, F>(func, t, y, f, h, y_new, k, i, q, num);
    let z = num(h);
    let v = numbers(column(k, i, 7), num);
    let a = terms(q, z);
    assert(forall|j: int| 0 <= j < 6 ==> #[trigger] v[j] == numbers(column(k, i, 6), num)[j]);
    assert(!k[6]@[i].nan());
    lemma_polynomial_ends(q, z);
    assert(q[4] * (z * z * z * z) == 0real) by {
        let (r, w): (real, real) = (q[4], z * z * z * z);
        assert(r * w == 0real) by (nonlinear_arith)
            requires
                r == 0real,
        ;
    }
    assert(a[4] == 0real);
    lemma_dense_integral(seq![num(c[0]), num(c[1]), num(c[2]), num(c[3])], q, x, z, x * z, d);
}

/// A term of the dense output is a term of the integral.
proof fn lemma_dense_term(m: real, c: real, q: real, zp: real, z: real, xp: real, up: real)
    requires
        m * c == q * zp,
        up == (zp * z) * xp,
    ensures
        m * (z * (c * xp)) == q * up,
{
    assert(m * (z * (c * xp)) == (m * c) * (z * xp)) by (nonlinear_arith);
    assert((q * zp) * (z * xp) == q * ((zp * z) * xp)) by (nonlinear_arith);
}

proof fn lemma_second_power(x: real, z: real)
    by (nonlinear_arith)
    ensures
        (x * z) * (x * z) == (z * z) * (x * x),
{
}

proof fn lemma_third_power(x: real, z: real)
    by (nonlinear_arith)
    ensures
        (x * z) * (x * z) * (x * z) == ((z * z) * z) * (x * x * x),
{
}

proof fn lemma_fourth_power(x: real, z: real)
    by (nonlinear_arith)
    ensures
        (x * z) * (x * z) * (x * z) * (x * z) == ((z * z * z) * z) * (x * x * x * x),
{
}

proof fn lemma_spread(z: real, a: real, b: real, c: real, d: real)
    by (nonlinear_arith)
    ensures
        z * (a + b + c + d) == z * a + z * b + z * c + z * d,
{
}

/// The terms of a quartic, each as that of the integral.
#[verifier::spinoff_prover]
proof fn lemma_dense_terms_spread(
    c: Seq<real>,
    q: Seq<real>,
    z: real,
    x: Seq<real>,
    u: Seq<real>,
    d: real,
)
    requires
        d == c[0] * x[0] + c[1] * x[1] + c[2] * x[2] + c[3] * x[3],
        c[0] * (z * x[0]) == q[0] * u[0],
        2real * (z * (c[1] * x[1])) == q[1] * u[1],
        3real * (z * (c[2] * x[2])) == q[2] * u[2],
        4real * (z * (c[3] * x[3])) == q[3] * u[3],
    ensures
        60real * (z * d) == 60real * (q[0] * u[0]) + 30real * (q[1] * u[1]) + 20real * (q[2] * u[2])
            + 15real * (q[3] * u[3]),
{
    lemma_spread(z, c[0] * x[0], c[1] * x[1], c[2] * x[2], c[3] * x[3]);
    let (a, b): (real, real) = (c[0], x[0]);
    assert(z * (a * b) == a * (z * b)) by (nonlinear_arith);
}

/// A quartic whose coefficients are the terms of an integral is the integral.
#[verifier::spinoff_prover]
proof fn lemma_dense_integral(c: Seq<real>, q: Seq<real>, x: real, z: real, u: real, d: real)
    requires
        quartic_of(c, x, d),
        u == x * z,
        q[4] == 0real,
        c[0] == q[0],
        2real * c[1] == q[1] * z,
        3real * c[2] == q[2] * (z * z),
        4real * c[3] == q[3] * (z * z * z),
    ensures
        60real * (z * d) == sixty_integrals(q, u),
{
    let xs = seq![x, x * x, x * x * x, x * x * x * x];
    let us = seq![u, u * u, u * u * u, u * u * u * u];
    assert(d == c[0] * xs[0] + c[1] * xs[1] + c[2] * xs[2] + c[3] * xs[3]) by {
        reveal(quartic_of);
    }
    assert(c[0] * (z * xs[0]) == q[0] * us[0]) by {
        assert(z * x == x * z) by (nonlinear_arith);
    }
    assert(2real * (z * (c[1] * xs[1])) == q[1] * us[1]) by {
        lemma_second_power(x, z);
        lemma_dense_term(2real, c[1], q[1], z, z, x * x, u * u);
    }
    assert(3real * (z * (c[2] * xs[2])) == q[2] * us[2]) by {
        lemma_third_power(x, z);
        lemma_dense_term(3real, c[2], q[2], z * z, z, x * x * x, u * u * u);
    }
    assert(4real * (z * (c[3] * xs[3])) == q[3] * us[3]) by {
        lemma_fourth_power(x, z);
        lemma_dense_term(4real, c[3], q[3], z * z * z, z, x * x * x * x, u * u * u * u);
    }
    lemma_dense_terms_spread(c, q, z, xs, us, d);
    assert(sixty_integrals(q, u) == 60real * (q[0] * us[0]) + 30real * (q[1] * us[1]) + 20real * (
    q[2] * us[2]) + 15real * (q[3] * us[3])) by {
        reveal(sixty_integrals);
        let (r, w): (real, real) = (q[4], u * u * u * u * u);
        assert(r * w == 0real) by (nonlinear_arith)
            requires
                r == 0real,
        ;
    }
}

/// A polynomial is the sum of its terms.
proof fn lemma_polynomial_ends(q: Seq<real>, h: real)
    ensures
        polynomial(q, h) == terms(q, h)[0] + terms(q, h)[1] + terms(q, h)[2] + terms(q, h)[3]
            + terms(q, h)[4],
{
}

/// The sum of some squares.
pub open spec fn sum_of_squares(x: Seq<real>) -> real
    decreases x.len(),
{
    if x.len() == 0 {
        0real
    } else {
        x[0] * x[0] + sum_of_squares(x.drop_first())
    }
}

/// The sum of some squares, from the last on.
proof fn lemma_last_square(x: Seq<real>)
    requires
        x.len() > 0,
    ensures
        sum_of_squares(x) == sum_of_squares(x.drop_last()) + x.last() * x.last(),
    decreases x.len(),
{
    if x.len() == 1 {
        assert(x.drop_last() =~= seq![]);
        assert(x.drop_first() =~= seq![]);
    } else {
        lemma_last_square(x.drop_first());
        assert(x.drop_first().drop_last() =~= x.drop_last().drop_first());
    }
}

/// The sum of the squares, exactly.
proof fn lemma_squares<A: Arithmetic>(x: Seq<Double>, v: Double, num: spec_fn(Double) -> real)
    requires
        exact_in::<A>(num),
        evaluates::<A>(squares(x), v),
        !v.nan(),
    ensures
        num(v) == sum_of_squares(numbers(x, num)),
        forall|i: int| 0 <= i < x.len() ==> !(#[trigger] x[i]).nan(),
    decreases x.len(),
{
    if x.len() == 0 {
        assert(num(zero()) == 0real) by {
            reveal(exact_in);
        }
    } else {
        let (a, b): (Double, Double) = exact_sum_of::<A>(
            squares(x.drop_last()),
            given(x.last()).times(given(x.last())),
            v,
            num,
        );
        lemma_squares::<A>(x.drop_last(), a, num);
        lemma_times::<A>(x.last(), x.last(), b, num);
        lemma_last_square(numbers(x, num));
        assert(numbers(x, num).drop_last() =~= numbers(x.drop_last(), num));
        assert forall|i: int| 0 <= i < x.len() implies !(#[trigger] x[i]).nan() by {
            if i < x.len() - 1 {
                assert(x.drop_last()[i] == x[i]);
            }
        }
    }
}

/// The norm of a vector is the root of the mean of its squares.
#[verifier::spinoff_prover]
pub proof fn norms_are_root_mean_squares<A: Arithmetic>(
    x: Seq<Double>,
    norm: Double,
    num: spec_fn(Double) -> real,
)
    requires
        exact_in::<A>(num),
        evaluates::<A>(mean_norm(x), norm),
        !norm.nan(),
        x.len() <= usize::MAX,
    ensures
        num(norm) >= 0real,
        num(norm) * num(norm) * (x.len() as real) == sum_of_squares(numbers(x, num)),
        forall|i: int| 0 <= i < x.len() ==> !(#[trigger] x[i]).nan(),
{
    reveal(exact_in);
    if x.len() > 0 {
        let count = Formula::Count(x.len() as usize);
        let m = part_of_root::<A>(squares(x).over(count), norm);
        let (a, b): (Double, Double) = exact_quotient_of::<A>(squares(x), count, m, num);
        lemma_squares::<A>(x, a, num);
    } else {
        assert(num(norm) * num(norm) * 0real == 0real) by (nonlinear_arith);
    }
}

/// What an error is measured by, exactly.
proof fn lemma_scale<A: Arithmetic>(
    a: Double,
    b: Double,
    rtol: Double,
    atol: Double,
    v: Double,
    num: spec_fn(Double) -> real,
)
    requires
        exact_in::<A>(num),
        ordered_in(num),
        evaluates::<A>(scale(a, b, rtol, atol), v),
        !v.nan(),
        !a.nan(),
        !b.nan(),
    ensures
        num(v) == num(atol) + greatest(size(num(a)), size(num(b))) * num(rtol),
{
    let sizes = given(a).size().at_least(given(b).size());
    let (x, y): (Double, Double) = exact_sum_of::<A>(given(atol), sizes.times(given(rtol)), v, num);
    let (c, d): (Double, Double) = exact_product_of::<A>(sizes, given(rtol), y, num);
    let (e, g): (Double, Double) = parts_of_greater::<A>(given(a).size(), given(b).size(), c);
    let e0 = part_of_size::<A>(given(a), e);
    let g0 = part_of_size::<A>(given(b), g);
    sizes_are_exact::<A>(a, num);
    sizes_are_exact::<A>(b, num);
    extremes_are_exact(e, g, num);
}

/// Where the derivative of a component is a polynomial of the time of degree up to four, the error
/// estimate of the component is nothing but for the fourth power, of which it is -71/270000 times
/// the fifth power of the step, measured by the absolute tolerance and the relative one of the
/// greater of the sizes at the two ends of the step.
#[verifier::spinoff_prover]
pub proof fn error_estimates_see_the_fourth_power<
    A: Arithmetic,
    F: Fn(Double, &Vec<Double>) -> Vec<Double>,
>(
    func: F,
    t: Double,
    y: Seq<Double>,
    f: Seq<Double>,
    h: Double,
    y_new: Vec<Double>,
    k: Seq<Vec<Double>>,
    rtol: Double,
    atol: Double,
    err: Seq<Double>,
    i: int,
    q: Seq<real>,
    num: spec_fn(Double) -> real,
)
    requires
        exact_in::<A>(num),
        ordered_in(num),
        stepped::<A, F>(func, t, y, f, h, y_new, k),
        errors::<A>(y, y_new@, k, h, rtol, atol, err),
        0 <= i < y.len(),
        forced(func, i, num(t), q, num),
        !f[i].nan() ==> num(f[i]) == q[0],
        !err[i].nan(),
        !y[i].nan(),
        !y_new@[i].nan(),
    ensures
        270000real * (num(err[i]) * (num(atol) + greatest(size(num(y[i])), size(num(y_new@[i])))
            * num(rtol))) == -71real * (q[4] * fifth_power(num(h))),
{
    let sum = weighted(error_weights(), column(k, i, 7));
    let sc = scale(y[i], y_new@[i], rtol, atol);
    let (a, b): (Double, Double) = exact_quotient_of::<A>(sum.times(given(h)), sc, err[i], num);
    let (c, d): (Double, Double) = exact_product_of::<A>(sum, given(h), a, num);
    lemma_error_value::<A>(k, i, c, num);
    lemma_scale::<A>(y[i], y_new@[i], rtol, atol, b, num);
    lemma_stages::<A, F>(func, t, y, f, h, y_new, k, i, q, num);
    let z = num(h);
    let v = numbers(column(k, i, 7), num);
    assert(forall|j: int| 0 <= j < 6 ==> #[trigger] v[j] == numbers(column(k, i, 6), num)[j]);
    lemma_polynomial_ends(q, z);
    assert(terms(q, z)[4] == q[4] * (z * z * z * z));
    let s = num(c);
    let r = q[4];
    let big = 270000real * s;
    assert(big == -71real * (r * (z * z * z * z)));
    assert(270000real * (s * z) == big * z) by (nonlinear_arith)
        requires
            big == 270000real * s,
    ;
    assert((-71real * (r * (z * z * z * z))) * z == -71real * (r * (z * z * z * z * z)))
        by (nonlinear_arith);
}

} // verus!
