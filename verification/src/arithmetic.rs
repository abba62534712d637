//! Arithmetic on doubles: what is decided on bit patterns, and formulas over the operations that
//! the caller's number type performs.
use crate::double::Double;
use vstd::arithmetic::power2::{
    lemma2_to64, lemma_pow2_adds, lemma_pow2_pos, lemma_pow2_unfold, pow2,
};
use vstd::prelude::*;

verus! {

/// The operations on doubles that round. An implementation performs them; nothing is assumed of
/// what they return, so what is proved of a computation holds for every implementation.
pub trait Arithmetic {
    fn sum(a: Double, b: Double) -> Double;

    fn difference(a: Double, b: Double) -> Double;

    fn product(a: Double, b: Double) -> Double;

    fn quotient(a: Double, b: Double) -> Double;

    fn power(base: Double, exponent: Double) -> Double;

    fn square_root(a: Double) -> Double;

    /// The double for `numerator / denominator`.
    fn ratio(numerator: i64, denominator: i64) -> Double;

    /// The double for a number of items.
    fn count(n: usize) -> Double;
}

/// Zero.
pub open spec fn spec_zero() -> Double {
    Double { bits: 0 }
}

/// Zero.
#[verifier::when_used_as_spec(spec_zero)]
pub fn zero() -> (res: Double)
    ensures
        res == spec_zero(),
{
    Double { bits: 0 }
}

/// One.
pub open spec fn spec_one() -> Double {
    Double { bits: 0x3ff0_0000_0000_0000 }
}

/// One.
#[verifier::when_used_as_spec(spec_one)]
pub fn one() -> (res: Double)
    ensures
        res == spec_one(),
{
    Double { bits: 0x3ff0_0000_0000_0000 }
}

/// Positive infinity.
pub open spec fn spec_infinity() -> Double {
    Double { bits: 0x7ff0_0000_0000_0000 }
}

/// Positive infinity.
#[verifier::when_used_as_spec(spec_infinity)]
pub fn infinity() -> (res: Double)
    ensures
        res == spec_infinity(),
{
    Double { bits: 0x7ff0_0000_0000_0000 }
}

impl Double {
    /// The bit pattern without the sign.
    pub open spec fn size_bits(self) -> int {
        if self.negative() {
            self.bits - 0x8000_0000_0000_0000
        } else {
            self.bits as int
        }
    }

    pub open spec fn nan(self) -> bool {
        self.size_bits() > 0x7ff0_0000_0000_0000
    }

    /// Where a double that is a number stands among all of them. Both zeros stand at 0.
    pub open spec fn rank(self) -> int {
        if self.negative() {
            -self.size_bits()
        } else {
            self.size_bits()
        }
    }

    /// `<`, which is false of not-a-number.
    pub open spec fn lt(self, other: Double) -> bool {
        !self.nan() && !other.nan() && self.rank() < other.rank()
    }

    /// `<=`, which is false of not-a-number.
    pub open spec fn le(self, other: Double) -> bool {
        !self.nan() && !other.nan() && self.rank() <= other.rank()
    }

    /// `==`, which is false of not-a-number and true of the two zeros.
    pub open spec fn same(self, other: Double) -> bool {
        !self.nan() && !other.nan() && self.rank() == other.rank()
    }

    /// The double without its sign.
    pub open spec fn absolute(self) -> Double {
        Double { bits: self.size_bits() as u64 }
    }

    /// The double with the other sign.
    pub open spec fn opposite(self) -> Double {
        Double {
            bits: if self.negative() {
                (self.bits - 0x8000_0000_0000_0000) as u64
            } else {
                (self.bits + 0x8000_0000_0000_0000) as u64
            },
        }
    }

    /// The lesser of two; where one is not a number, the other.
    pub open spec fn lesser(self, other: Double) -> Double {
        if self.nan() || other.lt(self) {
            other
        } else {
            self
        }
    }

    /// The greater of two; where one is not a number, the other.
    pub open spec fn greater(self, other: Double) -> Double {
        if self.nan() || self.lt(other) {
            other
        } else {
            self
        }
    }

    /// The least double above; the double itself where there is none.
    pub open spec fn successor(self) -> Double {
        if self.nan() || self == spec_infinity() {
            self
        } else if self.rank() == 0 {
            Double { bits: 1 }
        } else if self.negative() {
            Double { bits: (self.bits - 1) as u64 }
        } else {
            Double { bits: (self.bits + 1) as u64 }
        }
    }

    /// The greatest double below; the double itself where there is none.
    pub open spec fn predecessor(self) -> Double {
        self.opposite().successor().opposite()
    }

    pub fn is_nan(self) -> (res: bool)
        ensures
            res == self.nan(),
    {
        self.abs().bits > 0x7ff0_0000_0000_0000
    }

    pub fn abs(self) -> (res: Double)
        ensures
            res == self.absolute(),
    {
        if self.bits >= 0x8000_0000_0000_0000 {
            Double { bits: self.bits - 0x8000_0000_0000_0000 }
        } else {
            self
        }
    }

    pub fn negate(self) -> (res: Double)
        ensures
            res == self.opposite(),
    {
        if self.bits >= 0x8000_0000_0000_0000 {
            Double { bits: self.bits - 0x8000_0000_0000_0000 }
        } else {
            Double { bits: self.bits + 0x8000_0000_0000_0000 }
        }
    }

    /// `self < other`.
    pub fn is_less(self, other: Double) -> (res: bool)
        ensures
            res == self.lt(other),
    {
        if self.is_nan() || other.is_nan() {
            return false;
        }
        let a: u64 = self.abs().bits;
        let b: u64 = other.abs().bits;
        if self.bits >= 0x8000_0000_0000_0000 {
            if other.bits >= 0x8000_0000_0000_0000 {
                b < a
            } else {
                a > 0 || b > 0
            }
        } else if other.bits >= 0x8000_0000_0000_0000 {
            false
        } else {
            a < b
        }
    }

    /// `self <= other`.
    pub fn is_at_most(self, other: Double) -> (res: bool)
        ensures
            res == self.le(other),
    {
        !self.is_nan() && !other.is_nan() && !other.is_less(self)
    }

    /// `self == other`, as numbers.
    pub fn is_same(self, other: Double) -> (res: bool)
        ensures
            res == self.same(other),
    {
        self.is_at_most(other) && other.is_at_most(self)
    }

    pub fn min(self, other: Double) -> (res: Double)
        ensures
            res == self.lesser(other),
    {
        if self.is_nan() || other.is_less(self) {
            other
        } else {
            self
        }
    }

    pub fn max(self, other: Double) -> (res: Double)
        ensures
            res == self.greater(other),
    {
        if self.is_nan() || self.is_less(other) {
            other
        } else {
            self
        }
    }

    pub fn next_up(self) -> (res: Double)
        ensures
            res == self.successor(),
    {
        if self.is_nan() || self.bits == 0x7ff0_0000_0000_0000 {
            self
        } else if self.abs().bits == 0 {
            Double { bits: 1 }
        } else if self.bits >= 0x8000_0000_0000_0000 {
            Double { bits: self.bits - 1 }
        } else {
            Double { bits: self.bits + 1 }
        }
    }

    pub fn next_down(self) -> (res: Double)
        ensures
            res == self.predecessor(),
    {
        self.negate().next_up().negate()
    }
}

/// A formula over doubles, in the order in which its operations are performed.
pub enum Formula {
    Given(Double),
    Ratio(i64, i64),
    Count(usize),
    Sum(Box<Formula>, Box<Formula>),
    Difference(Box<Formula>, Box<Formula>),
    Product(Box<Formula>, Box<Formula>),
    Quotient(Box<Formula>, Box<Formula>),
    Power(Box<Formula>, Box<Formula>),
    SquareRoot(Box<Formula>),
    Absolute(Box<Formula>),
    Opposite(Box<Formula>),
    Lesser(Box<Formula>, Box<Formula>),
    Greater(Box<Formula>, Box<Formula>),
}

/// `v` is what the formula comes to when `A` performs its operations.
pub open spec fn evaluates<A: Arithmetic>(e: Formula, v: Double) -> bool
    decreases e,
{
    match e {
        Formula::Given(x) => v == x,
        Formula::Ratio(n, d) => call_ensures(A::ratio, (n, d), v),
        Formula::Count(n) => call_ensures(A::count, (n,), v),
        Formula::Sum(a, b) => exists|x: Double, y: Double| #[trigger]
            call_ensures(A::sum, (x, y), v) && evaluates::<A>(*a, x) && evaluates::<A>(*b, y),
        Formula::Difference(a, b) => exists|x: Double, y: Double| #[trigger]
            call_ensures(A::difference, (x, y), v) && evaluates::<A>(*a, x) && evaluates::<A>(
                *b,
                y,
            ),
        Formula::Product(a, b) => exists|x: Double, y: Double| #[trigger]
            call_ensures(A::product, (x, y), v) && evaluates::<A>(*a, x) && evaluates::<A>(*b, y),
        Formula::Quotient(a, b) => exists|x: Double, y: Double| #[trigger]
            call_ensures(A::quotient, (x, y), v) && evaluates::<A>(*a, x) && evaluates::<A>(*b, y),
        Formula::Power(a, b) => exists|x: Double, y: Double| #[trigger]
            call_ensures(A::power, (x, y), v) && evaluates::<A>(*a, x) && evaluates::<A>(*b, y),
        Formula::SquareRoot(a) => exists|x: Double| #[trigger]
            call_ensures(A::square_root, (x,), v) && evaluates::<A>(*a, x),
        Formula::Absolute(a) => exists|x: Double|
            v == #[trigger] x.absolute() && evaluates::<A>(*a, x),
        Formula::Opposite(a) => exists|x: Double|
            v == #[trigger] x.opposite() && evaluates::<A>(*a, x),
        Formula::Lesser(a, b) => exists|x: Double, y: Double|
            v == #[trigger] x.lesser(y) && evaluates::<A>(*a, x) && evaluates::<A>(*b, y),
        Formula::Greater(a, b) => exists|x: Double, y: Double|
            v == #[trigger] x.greater(y) && evaluates::<A>(*a, x) && evaluates::<A>(*b, y),
    }
}

impl Formula {
    pub open spec fn plus(self, other: Formula) -> Formula {
        Formula::Sum(Box::new(self), Box::new(other))
    }

    pub open spec fn minus(self, other: Formula) -> Formula {
        Formula::Difference(Box::new(self), Box::new(other))
    }

    pub open spec fn times(self, other: Formula) -> Formula {
        Formula::Product(Box::new(self), Box::new(other))
    }

    pub open spec fn over(self, other: Formula) -> Formula {
        Formula::Quotient(Box::new(self), Box::new(other))
    }

    pub open spec fn to_the(self, other: Formula) -> Formula {
        Formula::Power(Box::new(self), Box::new(other))
    }

    pub open spec fn root(self) -> Formula {
        Formula::SquareRoot(Box::new(self))
    }

    pub open spec fn size(self) -> Formula {
        Formula::Absolute(Box::new(self))
    }

    pub open spec fn negated(self) -> Formula {
        Formula::Opposite(Box::new(self))
    }

    pub open spec fn at_most(self, other: Formula) -> Formula {
        Formula::Lesser(Box::new(self), Box::new(other))
    }

    pub open spec fn at_least(self, other: Formula) -> Formula {
        Formula::Greater(Box::new(self), Box::new(other))
    }
}

/// A given double, as a formula.
pub open spec fn given(x: Double) -> Formula {
    Formula::Given(x)
}

/// A fraction, as a formula.
pub open spec fn fraction(n: i64, d: i64) -> Formula {
    Formula::Ratio(n, d)
}

/// `acc + x * y`, each operation rounded.
pub fn plus_product<A: Arithmetic>(acc: Double, x: Double, y: Double) -> (res: Double)
    ensures
        forall|f: Formula| #[trigger]
            evaluates::<A>(f, acc) ==> evaluates::<A>(f.plus(given(x).times(given(y))), res),
{
    let p: Double = A::product(x, y);
    let res: Double = A::sum(acc, p);
    proof {
        reveal_with_fuel(evaluates, 2);
        assert(evaluates::<A>(given(x).times(given(y)), p));
    }
    res
}

/// Each operation gives the same result whenever it is given the same operands.
pub open spec fn deterministic<A: Arithmetic>() -> bool {
    &&& forall|a: Double, b: Double, v: Double, w: Double| #[trigger]
        call_ensures(A::sum, (a, b), v) && #[trigger] call_ensures(A::sum, (a, b), w) ==> v
            == w
    &&& forall|a: Double, b: Double, v: Double, w: Double| #[trigger]
        call_ensures(A::difference, (a, b), v) && #[trigger] call_ensures(A::difference, (a, b), w) ==> v
            == w
    &&& forall|a: Double, b: Double, v: Double, w: Double| #[trigger]
        call_ensures(A::product, (a, b), v) && #[trigger] call_ensures(A::product, (a, b), w) ==> v
            == w
    &&& forall|a: Double, b: Double, v: Double, w: Double| #[trigger]
        call_ensures(A::quotient, (a, b), v) && #[trigger] call_ensures(A::quotient, (a, b), w) ==> v
            == w
    &&& forall|a: Double, b: Double, v: Double, w: Double| #[trigger]
        call_ensures(A::power, (a, b), v) && #[trigger] call_ensures(A::power, (a, b), w) ==> v
            == w
    &&& forall|a: Double, v: Double, w: Double| #[trigger]
        call_ensures(A::square_root, (a,), v) && #[trigger] call_ensures(A::square_root, (a,), w)
            ==> v == w
    &&& forall|n: i64, d: i64, v: Double, w: Double| #[trigger]
        call_ensures(A::ratio, (n, d), v) && #[trigger] call_ensures(A::ratio, (n, d), w) ==> v
            == w
    &&& forall|n: usize, v: Double, w: Double| #[trigger]
        call_ensures(A::count, (n,), v) && #[trigger] call_ensures(A::count, (n,), w) ==> v == w
}

/// A sum is one of what its parts are.
pub proof fn parts_of_sum<A: Arithmetic>(f: Formula, g: Formula, v: Double) -> (parts: (
    Double,
    Double,
))
    requires
        evaluates::<A>(f.plus(g), v),
    ensures
        call_ensures(A::sum, parts, v),
        evaluates::<A>(f, parts.0),
        evaluates::<A>(g, parts.1),
{
    choose|x: Double, y: Double| #[trigger]
        call_ensures(A::sum, (x, y), v) && evaluates::<A>(f, x) && evaluates::<A>(g, y)
}

/// A difference is one of what its parts are.
pub proof fn parts_of_difference<A: Arithmetic>(f: Formula, g: Formula, v: Double) -> (parts: (
    Double,
    Double,
))
    requires
        evaluates::<A>(f.minus(g), v),
    ensures
        call_ensures(A::difference, parts, v),
        evaluates::<A>(f, parts.0),
        evaluates::<A>(g, parts.1),
{
    choose|x: Double, y: Double| #[trigger]
        call_ensures(A::difference, (x, y), v) && evaluates::<A>(f, x) && evaluates::<A>(g, y)
}

/// A product is one of what its parts are.
pub proof fn parts_of_product<A: Arithmetic>(f: Formula, g: Formula, v: Double) -> (parts: (
    Double,
    Double,
))
    requires
        evaluates::<A>(f.times(g), v),
    ensures
        call_ensures(A::product, parts, v),
        evaluates::<A>(f, parts.0),
        evaluates::<A>(g, parts.1),
{
    choose|x: Double, y: Double| #[trigger]
        call_ensures(A::product, (x, y), v) && evaluates::<A>(f, x) && evaluates::<A>(g, y)
}

/// A quotient is one of what its parts are.
pub proof fn parts_of_quotient<A: Arithmetic>(f: Formula, g: Formula, v: Double) -> (parts: (
    Double,
    Double,
))
    requires
        evaluates::<A>(f.over(g), v),
    ensures
        call_ensures(A::quotient, parts, v),
        evaluates::<A>(f, parts.0),
        evaluates::<A>(g, parts.1),
{
    choose|x: Double, y: Double| #[trigger]
        call_ensures(A::quotient, (x, y), v) && evaluates::<A>(f, x) && evaluates::<A>(g, y)
}

/// The lesser of two formulas is that of what they are.
pub proof fn parts_of_lesser<A: Arithmetic>(f: Formula, g: Formula, v: Double) -> (parts: (
    Double,
    Double,
))
    requires
        evaluates::<A>(f.at_most(g), v),
    ensures
        v == parts.0.lesser(parts.1),
        evaluates::<A>(f, parts.0),
        evaluates::<A>(g, parts.1),
{
    choose|x: Double, y: Double|
        v == #[trigger] x.lesser(y) && evaluates::<A>(f, x) && evaluates::<A>(g, y)
}

/// The greater of two formulas is that of what they are.
pub proof fn parts_of_greater<A: Arithmetic>(f: Formula, g: Formula, v: Double) -> (parts: (
    Double,
    Double,
))
    requires
        evaluates::<A>(f.at_least(g), v),
    ensures
        v == parts.0.greater(parts.1),
        evaluates::<A>(f, parts.0),
        evaluates::<A>(g, parts.1),
{
    choose|x: Double, y: Double|
        v == #[trigger] x.greater(y) && evaluates::<A>(f, x) && evaluates::<A>(g, y)
}

/// A power is one of what its parts are.
pub proof fn parts_of_power<A: Arithmetic>(f: Formula, g: Formula, v: Double) -> (parts: (
    Double,
    Double,
))
    requires
        evaluates::<A>(f.to_the(g), v),
    ensures
        call_ensures(A::power, parts, v),
        evaluates::<A>(f, parts.0),
        evaluates::<A>(g, parts.1),
{
    choose|x: Double, y: Double| #[trigger]
        call_ensures(A::power, (x, y), v) && evaluates::<A>(f, x) && evaluates::<A>(g, y)
}

/// A size is one of what it is the size of.
pub proof fn part_of_size<A: Arithmetic>(f: Formula, v: Double) -> (part: Double)
    requires
        evaluates::<A>(f.size(), v),
    ensures
        v == part.absolute(),
        evaluates::<A>(f, part),
{
    choose|x: Double| v == #[trigger] x.absolute() && evaluates::<A>(f, x)
}

/// A root is one of what it is the root of.
pub proof fn part_of_root<A: Arithmetic>(f: Formula, v: Double) -> (part: Double)
    requires
        evaluates::<A>(f.root(), v),
    ensures
        call_ensures(A::square_root, (part,), v),
        evaluates::<A>(f, part),
{
    choose|x: Double| #[trigger] call_ensures(A::square_root, (x,), v) && evaluates::<A>(f, x)
}

/// An opposite is one of what it is the opposite of.
pub proof fn part_of_opposite<A: Arithmetic>(f: Formula, v: Double) -> (part: Double)
    requires
        evaluates::<A>(f.negated(), v),
    ensures
        v == part.opposite(),
        evaluates::<A>(f, part),
{
    choose|x: Double| v == #[trigger] x.opposite() && evaluates::<A>(f, x)
}

/// A formula comes to one result, where each operation does.
pub proof fn formulas_have_one_result<A: Arithmetic>(e: Formula, v: Double, w: Double)
    requires
        deterministic::<A>(),
        evaluates::<A>(e, v),
        evaluates::<A>(e, w),
    ensures
        v == w,
    decreases e,
{
    match e {
        Formula::Given(_) => {},
        Formula::Ratio(_, _) => {},
        Formula::Count(_) => {},
        Formula::Sum(a, b) => {
            let (x, y): (Double, Double) = parts_of_sum::<A>(*a, *b, v);
            let (p, q): (Double, Double) = parts_of_sum::<A>(*a, *b, w);
            formulas_have_one_result::<A>(*a, x, p);
            formulas_have_one_result::<A>(*b, y, q);
        },
        Formula::Difference(a, b) => {
            let (x, y): (Double, Double) = parts_of_difference::<A>(*a, *b, v);
            let (p, q): (Double, Double) = parts_of_difference::<A>(*a, *b, w);
            formulas_have_one_result::<A>(*a, x, p);
            formulas_have_one_result::<A>(*b, y, q);
        },
        Formula::Product(a, b) => {
            let (x, y): (Double, Double) = parts_of_product::<A>(*a, *b, v);
            let (p, q): (Double, Double) = parts_of_product::<A>(*a, *b, w);
            formulas_have_one_result::<A>(*a, x, p);
            formulas_have_one_result::<A>(*b, y, q);
        },
        Formula::Quotient(a, b) => {
            let (x, y): (Double, Double) = parts_of_quotient::<A>(*a, *b, v);
            let (p, q): (Double, Double) = parts_of_quotient::<A>(*a, *b, w);
            formulas_have_one_result::<A>(*a, x, p);
            formulas_have_one_result::<A>(*b, y, q);
        },
        Formula::Power(a, b) => {
            let (x, y): (Double, Double) = parts_of_power::<A>(*a, *b, v);
            let (p, q): (Double, Double) = parts_of_power::<A>(*a, *b, w);
            formulas_have_one_result::<A>(*a, x, p);
            formulas_have_one_result::<A>(*b, y, q);
        },
        Formula::Lesser(a, b) => {
            let (x, y): (Double, Double) = parts_of_lesser::<A>(*a, *b, v);
            let (p, q): (Double, Double) = parts_of_lesser::<A>(*a, *b, w);
            formulas_have_one_result::<A>(*a, x, p);
            formulas_have_one_result::<A>(*b, y, q);
        },
        Formula::Greater(a, b) => {
            let (x, y): (Double, Double) = parts_of_greater::<A>(*a, *b, v);
            let (p, q): (Double, Double) = parts_of_greater::<A>(*a, *b, w);
            formulas_have_one_result::<A>(*a, x, p);
            formulas_have_one_result::<A>(*b, y, q);
        },
        Formula::SquareRoot(a) => {
            let x = part_of_root::<A>(*a, v);
            let p = part_of_root::<A>(*a, w);
            formulas_have_one_result::<A>(*a, x, p);
        },
        Formula::Absolute(a) => {
            let x = part_of_size::<A>(*a, v);
            let p = part_of_size::<A>(*a, w);
            formulas_have_one_result::<A>(*a, x, p);
        },
        Formula::Opposite(a) => {
            let x = part_of_opposite::<A>(*a, v);
            let p = part_of_opposite::<A>(*a, w);
            formulas_have_one_result::<A>(*a, x, p);
        },
    }
}

/// The bits without the sign are the exponent and the fraction.
pub(crate) proof fn lemma_size_bits(a: Double)
    ensures
        a.size_bits() == a.exponent() * 0x10_0000_0000_0000 + a.bits as int % 0x10_0000_0000_0000,
        0 <= a.exponent() < 2048,
        a.finite() ==> !a.nan() && a.size_bits() <= 0x7fef_ffff_ffff_ffff,
        !a.finite() ==> a.size_bits() >= 0x7ff0_0000_0000_0000,
{
}

/// Finite doubles lie between the two infinities.
pub proof fn finite_doubles_are_below_infinity(a: Double)
    requires
        a.finite(),
    ensures
        a.lt(infinity()),
        infinity().opposite().lt(a),
{
    lemma_size_bits(a);
    assert(a.size_bits() < 0x7ff0_0000_0000_0000);
}

/// Among finite doubles, more size bits are a greater magnitude.
proof fn lemma_magnitude_grows(a: Double, b: Double)
    requires
        a.finite(),
        b.finite(),
        a.size_bits() < b.size_bits(),
    ensures
        0 <= a.magnitude() < b.magnitude(),
{
    lemma_size_bits(a);
    lemma_size_bits(b);
    let p = pow2(a.shift()) as int;
    let q = pow2(b.shift()) as int;
    lemma_pow2_pos(a.shift());
    lemma_pow2_pos(b.shift());
    assert(a.exponent() <= b.exponent());
    if a.shift() == b.shift() {
        assert(a.significand() < b.significand());
        assert(0 <= a.significand() * p < b.significand() * p) by (nonlinear_arith)
            requires
                0 <= a.significand() < b.significand(),
                p > 0,
        ;
    } else {
        let d = (b.shift() - a.shift()) as nat;
        lemma_pow2_adds(d, a.shift());
        lemma_pow2_pos((d - 1) as nat);
        lemma_pow2_unfold(d);
        assert(0 <= a.significand() * p < b.significand() * q) by (nonlinear_arith)
            requires
                0 <= a.significand() < 0x20_0000_0000_0000,
                b.significand() >= 0x10_0000_0000_0000,
                q == pow2(d) * p,
                pow2(d) >= 2,
                p > 0,
        ;
    }
}

/// Finite doubles stand in the order of their values.
pub proof fn rank_orders_values(a: Double, b: Double)
    requires
        a.finite(),
        b.finite(),
    ensures
        a.lt(b) <==> a.value() < b.value(),
        a.le(b) <==> a.value() <= b.value(),
        a.same(b) <==> a.value() == b.value(),
{
    lemma_size_bits(a);
    lemma_size_bits(b);
    let o = zero();
    lemma_size_bits(o);
    assert(o.magnitude() == 0) by {
        lemma2_to64();
        assert(o.exponent() == 0);
        assert(o.significand() == 0);
    }
    if o.size_bits() < a.size_bits() {
        lemma_magnitude_grows(o, a);
    } else {
        assert(a.exponent() == 0 && a.significand() == 0);
        assert(a.magnitude() == 0) by {
            lemma2_to64();
        }
    }
    if o.size_bits() < b.size_bits() {
        lemma_magnitude_grows(o, b);
    } else {
        assert(b.exponent() == 0 && b.significand() == 0);
        assert(b.magnitude() == 0) by {
            lemma2_to64();
        }
    }
    if a.size_bits() < b.size_bits() {
        lemma_magnitude_grows(a, b);
    } else if b.size_bits() < a.size_bits() {
        lemma_magnitude_grows(b, a);
    } else {
        assert(a.exponent() == b.exponent());
        assert(a.magnitude() == b.magnitude());
    }
}

/// Nothing lies between a double below infinity and its successor.
pub proof fn successor_is_next(a: Double)
    requires
        !a.nan(),
        a != infinity(),
    ensures
        a.lt(a.successor()),
        a.successor().rank() == a.rank() + 1,
{
}

/// The predecessor of a successor is the double again, but for the sign of a zero.
pub proof fn predecessor_undoes_successor(a: Double)
    requires
        !a.nan(),
        a != infinity(),
    ensures
        a.successor().predecessor().same(a),
{
}

} // verus!
