//! Arithmetic without rounding: what results come to where the operations are exact.
//!
//! Doubles stand for real numbers by an interpretation, of which nothing is said but that an
//! operation which cannot give the exact result gives no number. What holds then holds of the
//! method itself, whatever is lost to rounding.
use crate::arithmetic::{
    evaluates, fraction, one, part_of_opposite, parts_of_difference, parts_of_product,
    parts_of_quotient, parts_of_sum, zero, Arithmetic, Formula,
};
use crate::double::Double;
use vstd::prelude::*;

verus! {

/// Every operation gives the exact result or no number, where each double `x` that is a number
/// stands for `num(x)`; and what is computed from no number is none.
#[verifier::opaque]
pub open spec fn exact_in<A: Arithmetic>(num: spec_fn(Double) -> real) -> bool {
    &&& num(zero()) == 0real
    &&& num(one()) == 1real
    &&& forall|x: Double| !x.nan() ==> #[trigger] num(x.opposite()) == -num(x)
    &&& forall|a: Double, b: Double, v: Double| #[trigger]
        call_ensures(A::sum, (a, b), v) && !v.nan() ==> !a.nan() && !b.nan() && num(v) == num(a)
            + num(b)
    &&& forall|a: Double, b: Double, v: Double| #[trigger]
        call_ensures(A::difference, (a, b), v) && !v.nan() ==> !a.nan() && !b.nan() && num(v)
            == num(a) - num(b)
    &&& forall|a: Double, b: Double, v: Double| #[trigger]
        call_ensures(A::product, (a, b), v) && !v.nan() ==> !a.nan() && !b.nan() && num(v) == num(
            a,
        ) * num(b)
    &&& forall|a: Double, b: Double, v: Double| #[trigger]
        call_ensures(A::quotient, (a, b), v) && !v.nan() ==> !a.nan() && !b.nan() && num(b) != 0real
            && num(v) * num(b) == num(a)
    &&& forall|n: i64, d: i64, v: Double| #[trigger]
        call_ensures(A::ratio, (n, d), v) && !v.nan() ==> d != 0 && num(v) * (d as real)
            == n as real
    &&& forall|n: usize, v: Double| #[trigger]
        call_ensures(A::count, (n,), v) && !v.nan() ==> num(v) == n as real
    &&& forall|a: Double, v: Double| #[trigger]
        call_ensures(A::square_root, (a,), v) && !v.nan() ==> !a.nan() && num(v) >= 0real && num(v)
            * num(v) == num(a)
    &&& forall|a: Double, b: Double, v: Double| #[trigger]
        call_ensures(A::power, (a, b), v) && !v.nan() ==> {
            &&& !a.nan()
            &&& !b.nan()
            &&& num(b) * 5real == 1real ==> num(v) > 0real && fifth_power(num(v)) == num(a)
            &&& num(b) * 5real == -1real ==> num(v) > 0real && fifth_power(num(v)) * num(a) == 1real
        }
}

/// Doubles that are numbers stand in the order of the numbers that they stand for.
#[verifier::opaque]
pub open spec fn ordered_in(num: spec_fn(Double) -> real) -> bool {
    forall|x: Double, y: Double|
        #![trigger num(x), num(y)]
        !x.nan() && !y.nan() ==> {
            &&& x.lt(y) == (num(x) < num(y))
            &&& x.le(y) == (num(x) <= num(y))
        }
}

/// The product of five equal factors.
pub open spec fn fifth_power(x: real) -> real {
    x * x * x * x * x
}

/// The lesser of two numbers.
pub open spec fn least(x: real, y: real) -> real {
    if y < x {
        y
    } else {
        x
    }
}

/// The greater of two numbers.
pub open spec fn greatest(x: real, y: real) -> real {
    if x < y {
        y
    } else {
        x
    }
}

/// A number without its sign.
pub open spec fn size(x: real) -> real {
    if x < 0real {
        -x
    } else {
        x
    }
}

/// What a formula of sums, differences, products and quotients comes to, exactly.
pub open spec fn meaning(f: Formula, num: spec_fn(Double) -> real) -> real
    decreases f,
{
    match f {
        Formula::Given(x) => num(x),
        Formula::Ratio(n, d) => (n as real) / (d as real),
        Formula::Count(n) => n as real,
        Formula::Sum(a, b) => meaning(*a, num) + meaning(*b, num),
        Formula::Difference(a, b) => meaning(*a, num) - meaning(*b, num),
        Formula::Product(a, b) => meaning(*a, num) * meaning(*b, num),
        Formula::Quotient(a, b) => meaning(*a, num) / meaning(*b, num),
        Formula::Opposite(a) => -meaning(*a, num),
        _ => 0real,
    }
}

/// The formula is made of sums, differences, products and quotients.
pub open spec fn meaningful(f: Formula) -> bool
    decreases f,
{
    match f {
        Formula::Given(_) => true,
        Formula::Ratio(_, _) => true,
        Formula::Count(_) => true,
        Formula::Sum(a, b) => meaningful(*a) && meaningful(*b),
        Formula::Difference(a, b) => meaningful(*a) && meaningful(*b),
        Formula::Product(a, b) => meaningful(*a) && meaningful(*b),
        Formula::Quotient(a, b) => meaningful(*a) && meaningful(*b),
        Formula::Opposite(a) => meaningful(*a),
        _ => false,
    }
}

/// A quotient, from its product with the divisor.
pub(crate) proof fn lemma_quotient(v: real, a: real, b: real)
    requires
        v * b == a,
        b != 0real,
    ensures
        v == a / b,
{
    assert((v * b) / b == v) by (nonlinear_arith)
        requires
            b != 0real,
    ;
}

/// Where the operations are exact, a formula that comes to a number comes to its meaning.
pub proof fn formulas_come_to_their_meaning<A: Arithmetic>(
    f: Formula,
    v: Double,
    num: spec_fn(Double) -> real,
)
    requires
        exact_in::<A>(num),
        evaluates::<A>(f, v),
        meaningful(f),
        !v.nan(),
    ensures
        num(v) == meaning(f, num),
    decreases f,
{
    reveal(exact_in);
    match f {
        Formula::Given(_) => {},
        Formula::Ratio(n, d) => {
            lemma_quotient(num(v), n as real, d as real);
        },
        Formula::Count(_) => {},
        Formula::Sum(a, b) => {
            let (x, y): (Double, Double) = parts_of_sum::<A>(*a, *b, v);
            formulas_come_to_their_meaning::<A>(*a, x, num);
            formulas_come_to_their_meaning::<A>(*b, y, num);
        },
        Formula::Difference(a, b) => {
            let (x, y): (Double, Double) = parts_of_difference::<A>(*a, *b, v);
            formulas_come_to_their_meaning::<A>(*a, x, num);
            formulas_come_to_their_meaning::<A>(*b, y, num);
        },
        Formula::Product(a, b) => {
            let (x, y): (Double, Double) = parts_of_product::<A>(*a, *b, v);
            formulas_come_to_their_meaning::<A>(*a, x, num);
            formulas_come_to_their_meaning::<A>(*b, y, num);
        },
        Formula::Quotient(a, b) => {
            let (x, y): (Double, Double) = parts_of_quotient::<A>(*a, *b, v);
            formulas_come_to_their_meaning::<A>(*a, x, num);
            formulas_come_to_their_meaning::<A>(*b, y, num);
            lemma_quotient(num(v), num(x), num(y));
        },
        Formula::Opposite(a) => {
            let x = part_of_opposite::<A>(*a, v);
            formulas_come_to_their_meaning::<A>(*a, x, num);
        },
        _ => {},
    }
}

/// A sum, exactly.
pub(crate) proof fn exact_sum_of<A: Arithmetic>(
    f: Formula,
    g: Formula,
    v: Double,
    num: spec_fn(Double) -> real,
) -> (parts: (Double, Double))
    requires
        exact_in::<A>(num),
        evaluates::<A>(f.plus(g), v),
        !v.nan(),
    ensures
        evaluates::<A>(f, parts.0),
        evaluates::<A>(g, parts.1),
        !parts.0.nan(),
        !parts.1.nan(),
        num(v) == num(parts.0) + num(parts.1),
{
    reveal(exact_in);
    parts_of_sum::<A>(f, g, v)
}

/// A difference, exactly.
pub(crate) proof fn exact_difference_of<A: Arithmetic>(
    f: Formula,
    g: Formula,
    v: Double,
    num: spec_fn(Double) -> real,
) -> (parts: (Double, Double))
    requires
        exact_in::<A>(num),
        evaluates::<A>(f.minus(g), v),
        !v.nan(),
    ensures
        evaluates::<A>(f, parts.0),
        evaluates::<A>(g, parts.1),
        !parts.0.nan(),
        !parts.1.nan(),
        num(v) == num(parts.0) - num(parts.1),
{
    reveal(exact_in);
    parts_of_difference::<A>(f, g, v)
}

/// A product, exactly.
pub(crate) proof fn exact_product_of<A: Arithmetic>(
    f: Formula,
    g: Formula,
    v: Double,
    num: spec_fn(Double) -> real,
) -> (parts: (Double, Double))
    requires
        exact_in::<A>(num),
        evaluates::<A>(f.times(g), v),
        !v.nan(),
    ensures
        evaluates::<A>(f, parts.0),
        evaluates::<A>(g, parts.1),
        !parts.0.nan(),
        !parts.1.nan(),
        num(v) == num(parts.0) * num(parts.1),
{
    reveal(exact_in);
    parts_of_product::<A>(f, g, v)
}

/// A quotient, exactly.
pub(crate) proof fn exact_quotient_of<A: Arithmetic>(
    f: Formula,
    g: Formula,
    v: Double,
    num: spec_fn(Double) -> real,
) -> (parts: (Double, Double))
    requires
        exact_in::<A>(num),
        evaluates::<A>(f.over(g), v),
        !v.nan(),
    ensures
        evaluates::<A>(f, parts.0),
        evaluates::<A>(g, parts.1),
        !parts.0.nan(),
        !parts.1.nan(),
        num(parts.1) != 0real,
        num(v) * num(parts.1) == num(parts.0),
{
    reveal(exact_in);
    parts_of_quotient::<A>(f, g, v)
}

/// A fraction, exactly.
pub(crate) proof fn exact_fraction_of<A: Arithmetic>(
    n: i64,
    d: i64,
    v: Double,
    num: spec_fn(Double) -> real,
)
    requires
        exact_in::<A>(num),
        evaluates::<A>(fraction(n, d), v),
        !v.nan(),
    ensures
        d != 0,
        num(v) * (d as real) == n as real,
        num(v) == (n as real) / (d as real),
{
    reveal(exact_in);
    lemma_quotient(num(v), n as real, d as real);
}

/// The size of a double stands for the size of what it stands for.
pub proof fn sizes_are_exact<A: Arithmetic>(x: Double, num: spec_fn(Double) -> real)
    requires
        exact_in::<A>(num),
        ordered_in(num),
        !x.nan(),
    ensures
        num(x.absolute()) == size(num(x)),
        !x.absolute().nan(),
{
    reveal(exact_in);
    reveal(ordered_in);
    assert(!zero().nan());
    assert(zero().le(x) == (num(zero()) <= num(x)));
    assert(x.le(zero()) == (num(x) <= num(zero())));
    if x.negative() {
        assert(x.absolute() == x.opposite());
    } else {
        assert(x.absolute() == x);
    }
}

/// The lesser and the greater of two doubles stand for those of what they stand for.
pub proof fn extremes_are_exact(x: Double, y: Double, num: spec_fn(Double) -> real)
    requires
        ordered_in(num),
        !x.nan(),
        !y.nan(),
    ensures
        num(x.lesser(y)) == least(num(x), num(y)),
        num(x.greater(y)) == greatest(num(x), num(y)),
        !x.lesser(y).nan(),
        !x.greater(y).nan(),
{
    reveal(ordered_in);
    assert(y.lt(x) == (num(y) < num(x)));
    assert(x.lt(y) == (num(x) < num(y)));
}

/// What is not a number is neither less nor greater than anything, and gives way to what is one.
pub proof fn numbers_win_over_what_is_none(x: Double, y: Double)
    ensures
        x.nan() <==> x.exponent() == 2047 && x.bits as int % 0x10_0000_0000_0000 != 0,
        x.nan() ==> !x.lt(y) && !y.lt(x) && !x.le(y) && !y.le(x) && !x.same(y),
        x.nan() ==> x.lesser(y) == y && x.greater(y) == y,
        y.nan() && !x.nan() ==> x.lesser(y) == x && x.greater(y) == x,
{
}

} // verus!
