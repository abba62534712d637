//! What rounding operations may be expected to keep, and the doubles that there are.
//!
//! The predicates here hold of IEEE 754 arithmetic. A law that rests on one of them names it in its
//! `requires`.
use crate::arithmetic::{lemma_size_bits, one, rank_orders_values, zero, Arithmetic};
use crate::double::Double;
use vstd::arithmetic::power2::{
    lemma2_to64, lemma2_to64_rest, lemma_pow2_adds, lemma_pow2_pos, lemma_pow2_strictly_increases,
    lemma_pow2_unfold, pow2,
};
use vstd::prelude::*;

verus! {

/// `v` is `n / d`, in units of `2^-1074`, rounded: no double lies between the two.
#[verifier::opaque]
pub open spec fn rounded(n: int, d: int, v: Double) -> bool {
    &&& !v.nan()
    &&& forall|w: Double| #[trigger]
        w.finite() ==> {
            &&& w.value() * d <= n ==> w.le(v)
            &&& n <= w.value() * d ==> v.le(w)
        }
}

/// Operations on finite numbers give the exact result, rounded; so do ratios of whole numbers that
/// are doubles themselves.
#[verifier::opaque]
pub open spec fn faithful<A: Arithmetic>() -> bool {
    &&& forall|a: Double, b: Double, v: Double| #[trigger]
        call_ensures(A::sum, (a, b), v) && a.finite() && b.finite() ==> rounded(
            a.value() + b.value(),
            1,
            v,
        )
    &&& forall|a: Double, b: Double, v: Double| #[trigger]
        call_ensures(A::difference, (a, b), v) && a.finite() && b.finite() ==> rounded(
            a.value() - b.value(),
            1,
            v,
        )
    &&& forall|a: Double, b: Double, v: Double| #[trigger]
        call_ensures(A::product, (a, b), v) && a.finite() && b.finite() ==> rounded(
            a.value() * b.value(),
            pow2(1074) as int,
            v,
        )
    &&& forall|a: Double, b: Double, v: Double| #[trigger]
        call_ensures(A::quotient, (a, b), v) && a.finite() && b.finite() && b.value() > 0
            ==> rounded(a.value() * pow2(1074), b.value(), v)
    &&& forall|n: i64, d: i64, v: Double| #[trigger]
        call_ensures(A::ratio, (n, d), v) && -0x20_0000_0000_0000 < n < 0x20_0000_0000_0000 && 0 < d
            < 0x20_0000_0000_0000 ==> rounded(n * pow2(1074), d as int, v)
}

/// Not a number, or of the sign that `up` says, or zero.
pub open spec fn leans(v: Double, up: bool) -> bool {
    v.nan() || if up {
        zero().le(v)
    } else {
        v.le(zero())
    }
}

/// Operations keep order and signs, for infinities too.
#[verifier::opaque]
pub open spec fn orderly<A: Arithmetic>() -> bool {
    &&& forall|a: Double, b: Double, v: Double| #[trigger]
        call_ensures(A::sum, (a, b), v) && a.finite() ==> {
            &&& zero().le(b) ==> a.le(v)
            &&& b.le(zero()) ==> v.le(a)
        }
    &&& forall|a: Double, b: Double, v: Double| #[trigger]
        call_ensures(A::difference, (a, b), v) ==> {
            &&& b.lt(a) ==> zero().lt(v)
            &&& a.lt(b) ==> v.lt(zero())
            &&& a.same(b) && a.finite() ==> v.same(zero())
            &&& a.nan() || b.nan() ==> v.nan()
        }
    &&& forall|a: Double, b: Double, v: Double| #[trigger]
        call_ensures(A::product, (a, b), v) ==> {
            &&& a.nan() || b.nan() ==> v.nan()
            &&& forall|p: bool, q: bool| #[trigger]
                leans(a, p) && #[trigger] leans(b, q) ==> leans(v, p == q)
            &&& !a.finite() || !b.finite() ==> !v.finite()
            &&& !a.nan() && !b.nan() && !a.same(zero()) && !b.same(zero()) ==> !v.nan()
            &&& !a.nan() && b == one() ==> v.same(a)
            &&& !a.nan() && b == one().opposite() ==> v.same(a.opposite())
            &&& !b.nan() && a == one() ==> v.same(b)
            &&& !b.nan() && a == one().opposite() ==> v.same(b.opposite())
        }
    &&& forall|a: Double, b: Double, v: Double| #[trigger]
        call_ensures(A::quotient, (a, b), v) ==> {
            &&& a.nan() || b.nan() ==> v.nan()
            &&& b.same(zero()) ==> !v.finite()
            &&& !b.same(zero()) ==> forall|p: bool, q: bool| #[trigger]
                leans(a, p) && #[trigger] leans(b, q) ==> leans(v, p == q)
            &&& !a.nan() && b.finite() && !b.same(zero()) ==> !v.nan()
            &&& !a.finite() && b.finite() ==> !v.finite()
        }
    &&& forall|a: Double, v: Double| #[trigger]
        call_ensures(A::square_root, (a,), v) ==> leans(v, true)
    &&& forall|a: Double, b: Double, v: Double| #[trigger]
        call_ensures(A::power, (a, b), v) && b.absolute().lt(one()) ==> {
            &&& a.nan() && !b.same(zero()) ==> v.nan()
            &&& leans(a, true) ==> leans(v, true)
            &&& zero().lt(a) && (a.finite() || zero().le(b)) ==> zero().lt(v)
            &&& zero().lt(a) && a.le(one()) && b.le(zero()) ==> one().le(v)
            &&& one().le(a) && b.le(zero()) ==> v.le(one())
        }
}

/// The greatest finite double.
pub open spec fn largest() -> Double {
    Double { bits: 0x7fef_ffff_ffff_ffff }
}

/// A finite double is a number, and its opposite has the opposite value.
pub proof fn opposites_have_opposite_values(a: Double)
    requires
        a.finite(),
    ensures
        a.opposite().finite(),
        a.opposite().value() == -a.value(),
        !a.nan(),
{
    lemma_size_bits(a);
    lemma_size_bits(a.opposite());
    assert(a.opposite().size_bits() == a.size_bits());
    assert(a.opposite().exponent() == a.exponent());
    assert(a.opposite().significand() == a.significand());
}

/// The size of a finite double is the size of its value.
pub proof fn sizes_are_absolute_values(a: Double)
    requires
        a.finite(),
    ensures
        a.absolute().finite(),
        a.absolute().value() == if a.value() >= 0 {
            a.value()
        } else {
            -a.value()
        },
        zero().le(a.absolute()),
{
    lemma_size_bits(a);
    lemma_size_bits(a.absolute());
    lemma_pow2_pos(a.shift());
    assert(a.significand() * pow2(a.shift()) >= 0) by (nonlinear_arith)
        requires
            a.significand() >= 0,
            pow2(a.shift()) > 0,
    ;
    assert(a.absolute().exponent() == a.exponent());
    assert(a.absolute().significand() == a.significand());
}

/// Zero has the value zero.
pub proof fn zero_is_nothing()
    ensures
        zero().finite(),
        zero().value() == 0,
        one().finite(),
{
    lemma2_to64();
    assert(zero().exponent() == 0);
    assert(zero().significand() == 0);
    assert(one().exponent() == 1023);
}

/// A number between two finite doubles is finite.
pub proof fn between_finite_is_finite(a: Double, v: Double, b: Double)
    requires
        a.finite(),
        b.finite(),
        a.le(v),
        v.le(b),
    ensures
        v.finite(),
        a.value() <= v.value() <= b.value(),
{
    lemma_size_bits(a);
    lemma_size_bits(b);
    lemma_size_bits(v);
    assert(v.finite());
    rank_orders_values(a, v);
    rank_orders_values(v, b);
}

/// What is rounded between two finite doubles comes out between them.
pub proof fn rounding_stays_between(a: Double, b: Double, n: int, d: int, v: Double)
    requires
        a.finite(),
        b.finite(),
        d > 0,
        rounded(n, d, v),
        a.value() * d <= n <= b.value() * d,
    ensures
        a.le(v),
        v.le(b),
        v.finite(),
        a.value() <= v.value() <= b.value(),
{
    reveal(rounded);
    assert(a.finite() && b.finite());
    between_finite_is_finite(a, v, b);
}

/// What is exactly a double is rounded to its value.
pub proof fn rounding_keeps_doubles(w: Double, n: int, d: int, v: Double)
    requires
        w.finite(),
        d > 0,
        rounded(n, d, v),
        n == w.value() * d,
    ensures
        v.finite(),
        v.value() == w.value(),
{
    rounding_stays_between(w, w, n, d, v);
}

/// The double of a whole number of units, for fewer than `2^53`.
pub open spec fn small(n: int) -> Double {
    Double { bits: n as u64 }
}

/// Every number of units below `2^53` is a double.
pub proof fn small_numbers_are_doubles(n: int)
    requires
        0 <= n < 0x20_0000_0000_0000,
    ensures
        small(n).finite(),
        small(n).value() == n,
{
    lemma2_to64();
    let d = small(n);
    assert(d.exponent() == 0 || d.exponent() == 1);
    assert(d.significand() == n);
    assert(d.shift() == 0);
    assert(n * 1 == n);
}

/// Twice a double that is not negative, where the doubles go that far.
pub open spec fn twice(a: Double) -> Double {
    if a.exponent() == 0 {
        Double { bits: (2 * a.bits) as u64 }
    } else {
        Double { bits: (a.bits + 0x10_0000_0000_0000) as u64 }
    }
}

/// Doubling is exact.
pub proof fn doubling_is_exact(a: Double)
    requires
        !a.negative(),
        a.exponent() < 2046,
    ensures
        twice(a).finite(),
        !twice(a).negative(),
        twice(a).value() == 2 * a.value(),
        twice(a).exponent() <= a.exponent() + 1,
{
    lemma_size_bits(a);
    let b = twice(a);
    if a.exponent() == 0 {
        let n = a.bits as int;
        assert(n < 0x10_0000_0000_0000);
        small_numbers_are_doubles(n);
        small_numbers_are_doubles(2 * n);
        assert(b == small(2 * n));
        assert(a == small(n));
    } else {
        assert(b.bits as int / 0x10_0000_0000_0000 == a.bits as int / 0x10_0000_0000_0000 + 1);
        assert(b.exponent() == a.exponent() + 1);
        assert(b.bits as int % 0x10_0000_0000_0000 == a.bits as int % 0x10_0000_0000_0000);
        assert(b.significand() == a.significand());
        lemma_pow2_unfold(b.shift());
        assert(a.significand() * (2 * pow2(a.shift())) == 2 * (a.significand() * pow2(a.shift())))
            by (nonlinear_arith);
    }
}

/// Half of a double that is not negative, where that is a double.
pub open spec fn half_of(a: Double) -> Double {
    if a.exponent() <= 1 {
        small(a.value() / 2)
    } else {
        Double { bits: (a.bits - 0x10_0000_0000_0000) as u64 }
    }
}

/// A double whose value is even has a double half; any other counts fewer than `2^53` units.
pub proof fn halving_even_values_is_exact(a: Double)
    requires
        a.finite(),
        !a.negative(),
    ensures
        a.value() >= 0,
        a.value() % 2 == 0 ==> half_of(a).finite() && 2 * half_of(a).value() == a.value(),
        a.value() % 2 != 0 ==> a.value() < 0x20_0000_0000_0000,
{
    lemma_size_bits(a);
    lemma_pow2_pos(a.shift());
    if a.exponent() <= 1 {
        lemma2_to64();
        assert(a == small(a.bits as int));
        small_numbers_are_doubles(a.bits as int);
        assert(0 <= a.value() < 0x20_0000_0000_0000);
        small_numbers_are_doubles(a.value() / 2);
    } else {
        let b = half_of(a);
        assert(b.bits as int / 0x10_0000_0000_0000 == a.bits as int / 0x10_0000_0000_0000 - 1);
        assert(b.exponent() == a.exponent() - 1);
        assert(b.bits as int % 0x10_0000_0000_0000 == a.bits as int % 0x10_0000_0000_0000);
        assert(b.significand() == a.significand());
        lemma_pow2_unfold(a.shift());
        assert(a.significand() * (2 * pow2(b.shift())) == 2 * (a.significand() * pow2(b.shift())))
            by (nonlinear_arith);
        assert(a.significand() * pow2(a.shift()) >= 0) by (nonlinear_arith)
            requires
                a.significand() >= 0,
                pow2(a.shift()) > 0,
        ;
        assert(a.value() == 2 * b.value());
    }
}

/// A double below `2^2096` units can be doubled twice.
pub proof fn small_doubles_have_room(a: Double)
    requires
        a.finite(),
        !a.negative(),
        a.value() < pow2(2096),
    ensures
        a.exponent() < 2045,
{
    lemma_size_bits(a);
    if a.exponent() >= 2045 {
        let s = a.shift();
        lemma2_to64_rest();
        if s > 2044 {
            lemma_pow2_strictly_increases(2044, s);
        }
        lemma_pow2_adds(52, 2044);
        lemma_pow2_pos(2044);
        assert(a.significand() * pow2(s) >= 0x10_0000_0000_0000 * pow2(2044)) by (nonlinear_arith)
            requires
                a.significand() >= 0x10_0000_0000_0000,
                pow2(s) >= pow2(2044),
                pow2(2044) > 0,
        ;
    }
}

/// The greatest double is less than `2^2098` units, and no more than twice any double in its
/// binade.
pub proof fn largest_is_bounded()
    ensures
        largest().value() < pow2(2098),
        forall|a: Double|
            a.finite() && !a.negative() && a.exponent() == 2046 ==> largest().value() <= 2
                * #[trigger] a.value(),
{
    let d = largest();
    lemma2_to64_rest();
    lemma_pow2_adds(53, 2045);
    lemma_pow2_pos(2045);
    let p = pow2(2045) as int;
    assert(d.exponent() == 2046);
    assert(d.significand() == 0x1f_ffff_ffff_ffff);
    assert(0x1f_ffff_ffff_ffff * p < 0x20_0000_0000_0000 * p) by (nonlinear_arith)
        requires
            p > 0,
    ;
    assert forall|a: Double|
        a.finite() && !a.negative() && a.exponent() == 2046 implies largest().value() <= 2
        * #[trigger] a.value() by {
        let s = a.significand() as int;
        assert(s >= 0x10_0000_0000_0000);
        assert(0x1f_ffff_ffff_ffff * p <= 2 * (s * p)) by (nonlinear_arith)
            requires
                p > 0,
                s >= 0x10_0000_0000_0000,
        ;
    }
}

/// No finite double is greater than the greatest, nor less than its opposite.
pub proof fn largest_is_greatest(a: Double)
    requires
        a.finite(),
    ensures
        largest().finite(),
        -largest().value() <= a.value() <= largest().value(),
{
    lemma_size_bits(a);
    lemma_size_bits(largest());
    opposites_have_opposite_values(largest());
    assert(a.le(largest()));
    assert(largest().opposite().le(a));
    rank_orders_values(a, largest());
    rank_orders_values(largest().opposite(), a);
}

/// Half of a distance, rounded twice, is no longer than the distance: `d` is a distance of `n`
/// units, rounded, and `m` is half of `d`, rounded.
pub proof fn half_is_no_longer(n: int, d: Double, m: Double)
    requires
        n >= 0,
        d.finite(),
        rounded(n, 1, d),
        rounded(d.value(), 2, m),
    ensures
        m.finite(),
        0 <= m.value() <= n,
        0 <= d.value(),
        m.value() <= d.value(),
{
    reveal(rounded);
    zero_is_nothing();
    assert(zero().finite());
    rank_orders_values(zero(), d);
    rounding_stays_between(zero(), d, d.value(), 2, m);
    if m.value() > n {
        // then `m` is a double past the distance, so that `d` is no greater
        assert(m.finite());
        rank_orders_values(d, m);
        assert(d.value() == m.value());
        let s = d.absolute();
        sizes_are_absolute_values(d);
        lemma_size_bits(s);
        assert(!s.negative());
        halving_even_values_is_exact(s);
        if s.value() % 2 == 0 {
            let h = half_of(s);
            assert(h.finite());
            rank_orders_values(m, h);
        } else {
            small_numbers_are_doubles(n);
            rounding_keeps_doubles(small(n), n, 1, d);
        }
    }
}

/// Rounding does not depend on how the exact result is written.
pub proof fn rounding_cancels(n: int, d: int, k: int, v: Double)
    requires
        k > 0,
        d > 0,
        rounded(n * k, d * k, v),
    ensures
        rounded(n, d, v),
{
    reveal(rounded);
    assert forall|w: Double| #[trigger] w.finite() implies {
        &&& w.value() * d <= n ==> w.le(v)
        &&& n <= w.value() * d ==> v.le(w)
    } by {
        let x = w.value() * d;
        assert(w.value() * (d * k) == x * k) by (nonlinear_arith)
            requires
                x == w.value() * d,
        ;
        if x <= n {
            assert(x * k <= n * k) by (nonlinear_arith)
                requires
                    x <= n,
                    k > 0,
            ;
        }
        if n <= x {
            assert(n * k <= x * k) by (nonlinear_arith)
                requires
                    n <= x,
                    k > 0,
            ;
        }
    }
}

/// Rounding treats both signs alike.
pub proof fn rounding_is_symmetric(n: int, d: int, v: Double)
    requires
        rounded(n, d, v),
    ensures
        rounded(-n, d, v.opposite()),
{
    reveal(rounded);
    assert forall|w: Double| #[trigger] w.finite() implies {
        &&& w.value() * d <= -n ==> w.le(v.opposite())
        &&& -n <= w.value() * d ==> v.opposite().le(w)
    } by {
        let u = w.opposite();
        opposites_have_opposite_values(w);
        assert(u.finite());
        assert(u.value() * d == -(w.value() * d)) by (nonlinear_arith)
            requires
                u.value() == -w.value(),
        ;
    }
}

/// Half of a distance, rounded twice, lies between nothing and the distance, on either side.
pub proof fn half_stays_inside(n: int, d: Double, m: Double)
    requires
        d.finite(),
        rounded(n, 1, d),
        rounded(d.value(), 2, m),
    ensures
        m.finite(),
        n >= 0 ==> 0 <= m.value() <= n && 0 <= d.value(),
        n <= 0 ==> n <= m.value() <= 0 && d.value() <= 0,
{
    if n >= 0 {
        half_is_no_longer(n, d, m);
    }
    if n <= 0 {
        rounding_is_symmetric(n, 1, d);
        rounding_is_symmetric(d.value(), 2, m);
        opposites_have_opposite_values(d);
        half_is_no_longer(-n, d.opposite(), m.opposite());
        opposites_have_opposite_values(m.opposite());
        assert(m.opposite().opposite() == m);
    }
}

/// The power of two with a given exponent field.
pub open spec fn power_of_two(e: int) -> Double {
    Double { bits: (e * 0x10_0000_0000_0000) as u64 }
}

/// Powers of two are doubles.
pub proof fn powers_of_two_are_doubles(e: int)
    requires
        1 <= e <= 2046,
    ensures
        power_of_two(e).finite(),
        power_of_two(e).value() == pow2((e + 51) as nat),
{
    let d = power_of_two(e);
    assert(d.bits == e * 0x10_0000_0000_0000);
    assert(d.exponent() == e);
    assert(d.significand() == 0x10_0000_0000_0000);
    lemma2_to64_rest();
    lemma_pow2_adds(52, (e - 1) as nat);
}

/// Half is a double.
pub proof fn half_is_exact<A: Arithmetic>(h: Double)
    requires
        faithful::<A>(),
        call_ensures(A::ratio, (1i64, 2i64), h),
    ensures
        h.finite(),
        h.value() > 0,
        2 * h.value() == pow2(1074),
{
    reveal(faithful);
    powers_of_two_are_doubles(1022);
    lemma_pow2_unfold(1074);
    lemma_pow2_pos(1073);
    rounding_keeps_doubles(power_of_two(1022), 1int * pow2(1074), 2, h);
}

/// Two is a double.
pub proof fn two_is_exact<A: Arithmetic>(t: Double)
    requires
        faithful::<A>(),
        call_ensures(A::ratio, (2i64, 1i64), t),
    ensures
        t.finite(),
        t.value() == 2 * pow2(1074),
        pow2(1074) > 0,
{
    reveal(faithful);
    powers_of_two_are_doubles(1024);
    lemma_pow2_unfold(1075);
    lemma_pow2_pos(1074);
    rounding_keeps_doubles(power_of_two(1024), 2int * pow2(1074), 1, t);
}

/// `x` lies between `a` and `b`, or is one of them.
pub open spec fn between(a: Double, x: Double, b: Double) -> bool {
    ||| a.le(x) && x.le(b)
    ||| b.le(x) && x.le(a)
}

/// The distance between two finite doubles is no greater than the greatest double.
pub open spec fn in_reach(a: Double, b: Double) -> bool {
    -largest().value() <= b.value() - a.value() <= largest().value()
}

/// What is between two finite doubles is finite, has a value between theirs, and is no further from
/// either than they are from each other.
pub proof fn inner_points(a: Double, x: Double, b: Double)
    requires
        a.finite(),
        b.finite(),
        between(a, x, b),
    ensures
        x.finite(),
        a.value() <= x.value() <= b.value() || b.value() <= x.value() <= a.value(),
        in_reach(a, b) ==> in_reach(a, x) && in_reach(x, b),
{
    if a.le(x) && x.le(b) {
        between_finite_is_finite(a, x, b);
    } else {
        between_finite_is_finite(b, x, a);
    }
}

/// A difference of finite doubles in reach of each other is finite.
pub proof fn differences_in_reach<A: Arithmetic>(a: Double, b: Double, d: Double)
    requires
        faithful::<A>(),
        a.finite(),
        b.finite(),
        in_reach(a, b),
        call_ensures(A::difference, (b, a), d),
    ensures
        d.finite(),
        rounded(b.value() - a.value(), 1, d),
{
    reveal(faithful);
    largest_is_greatest(zero());
    opposites_have_opposite_values(largest());
    rounding_stays_between(largest().opposite(), largest(), b.value() - a.value(), 1, d);
}

/// A step from `a` towards `b` that is no longer than the way there ends between them.
pub proof fn steps_stay_between<A: Arithmetic>(a: Double, b: Double, s: Double, x: Double)
    requires
        faithful::<A>(),
        a.finite(),
        b.finite(),
        s.finite(),
        a.value() <= b.value() ==> 0 <= s.value() <= b.value() - a.value(),
        b.value() <= a.value() ==> b.value() - a.value() <= s.value() <= 0,
        call_ensures(A::sum, (a, s), x),
    ensures
        x.finite(),
        between(a, x, b),
{
    reveal(faithful);
    let n = a.value() + s.value();
    if a.value() <= b.value() {
        rounding_stays_between(a, b, n, 1, x);
    } else {
        rounding_stays_between(b, a, n, 1, x);
    }
}

/// Products of finite doubles are rounded.
pub proof fn products_are_rounded<A: Arithmetic>(a: Double, b: Double, v: Double)
    requires
        faithful::<A>(),
        a.finite(),
        b.finite(),
        call_ensures(A::product, (a, b), v),
    ensures
        rounded(a.value() * b.value(), pow2(1074) as int, v),
{
    reveal(faithful);
}

/// Quotients of finite doubles by positive ones are rounded.
pub proof fn quotients_are_rounded<A: Arithmetic>(a: Double, b: Double, v: Double)
    requires
        faithful::<A>(),
        a.finite(),
        b.finite(),
        b.value() > 0,
        call_ensures(A::quotient, (a, b), v),
    ensures
        rounded(a.value() * pow2(1074), b.value(), v),
{
    reveal(faithful);
}

/// A step that is shorter than twice the rounded half of a distance is no longer than the distance:
/// `d` is a distance of `n` units, rounded, and `m` is half of `d`, rounded.
pub proof fn short_steps_stay_inside(n: int, d: Double, m: Double, r: Double)
    requires
        n >= 0,
        d.finite(),
        m.finite(),
        rounded(n, 1, d),
        rounded(d.value(), 2, m),
        r.finite(),
        !r.negative(),
        r.value() < 2 * m.value(),
    ensures
        r.value() <= n,
{
    reveal(rounded);
    if r.value() > n {
        assert(r.finite());
        rank_orders_values(d, r);
        halving_even_values_is_exact(r);
        if r.value() % 2 == 0 {
            let h = half_of(r);
            assert(h.finite());
            rank_orders_values(m, h);
        } else {
            small_numbers_are_doubles(n);
            rounding_keeps_doubles(small(n), n, 1, d);
            let c = small((n + 1) / 2);
            small_numbers_are_doubles((n + 1) / 2);
            assert(c.finite());
            rank_orders_values(m, c);
        }
    }
}

/// A difference of a number on one side of zero and one on the other leans to the first side.
pub proof fn differences_lean<A: Arithmetic>(a: Double, b: Double, v: Double, up: bool)
    requires
        orderly::<A>(),
        call_ensures(A::difference, (a, b), v),
        leans(a, up),
        leans(b, !up),
    ensures
        leans(v, up),
{
    reveal(orderly);
    zero_is_nothing();
    assert(a.same(b) ==> a.size_bits() == 0);
}

/// Differences tell which of two numbers is less.
pub proof fn differences_tell<A: Arithmetic>(a: Double, b: Double, v: Double)
    requires
        orderly::<A>(),
        call_ensures(A::difference, (a, b), v),
    ensures
        b.lt(a) ==> zero().lt(v),
        a.lt(b) ==> v.lt(zero()),
{
    reveal(orderly);
}

/// Products lean as the signs of their factors say.
pub proof fn products_lean<A: Arithmetic>(a: Double, b: Double, v: Double, p: bool, q: bool)
    requires
        orderly::<A>(),
        call_ensures(A::product, (a, b), v),
        leans(a, p),
        leans(b, q),
    ensures
        leans(v, p == q),
        a.nan() || b.nan() ==> v.nan(),
        !a.finite() || !b.finite() ==> !v.finite(),
{
    reveal(orderly);
}

/// Quotients that are finite lean as the signs of their parts say.
pub proof fn quotients_lean<A: Arithmetic>(a: Double, b: Double, v: Double, p: bool, q: bool)
    requires
        orderly::<A>(),
        call_ensures(A::quotient, (a, b), v),
        leans(a, p),
        leans(b, q),
    ensures
        b.same(zero()) ==> !v.finite(),
        !b.same(zero()) ==> leans(v, p == q),
        !a.nan() && b.finite() && !b.same(zero()) ==> !v.nan(),
{
    reveal(orderly);
}

/// A sum with a finite number is a number, on the side of it that the other one says.
pub proof fn sums_move<A: Arithmetic>(a: Double, b: Double, v: Double)
    requires
        orderly::<A>(),
        call_ensures(A::sum, (a, b), v),
        a.finite(),
    ensures
        zero().le(b) ==> a.le(v),
        b.le(zero()) ==> v.le(a),
{
    reveal(orderly);
}

/// A positive ratio of no more than 128 is a positive double.
pub proof fn ratios_are_positive<A: Arithmetic>(n: i64, d: i64, v: Double)
    requires
        faithful::<A>(),
        call_ensures(A::ratio, (n, d), v),
        0 < n < 0x20_0000_0000_0000,
        0 < d < 0x20_0000_0000_0000,
        n <= 128 * d,
    ensures
        rounded(n * pow2(1074), d as int, v),
        v.finite(),
        v.value() > 0,
        zero().lt(v),
{
    let unit = pow2(1074) as int;
    assert(rounded(n * pow2(1074), d as int, v)) by {
        reveal(faithful);
    }
    lemma2_to64();
    lemma2_to64_rest();
    lemma_pow2_strictly_increases(53, 1074);
    small_numbers_are_doubles(1);
    powers_of_two_are_doubles(1030);
    lemma_pow2_adds(7, 1074);
    let top = power_of_two(1030);
    assert(top.value() == 128 * unit);
    assert(1 * (d as int) <= n * unit <= top.value() * d) by (nonlinear_arith)
        requires
            0 < n <= 128 * d,
            0 < d <= unit,
            top.value() == 128 * unit,
    ;
    rounding_stays_between(small(1), top, n * unit, d as int, v);
    assert(small(1).le(v));
}

} // verus!
