//! Doubles by their bit pattern, and the tolerance within which two angles are the same.
use vstd::arithmetic::power2::{
    lemma2_to64, lemma2_to64_rest, lemma_pow2_adds, lemma_pow2_pos, lemma_pow2_strictly_increases,
    lemma_pow2_unfold, pow2,
};
use vstd::prelude::*;

verus! {

/// An IEEE 754 double, held by its bit pattern.
#[derive(Clone, Copy, Debug, PartialEq, Eq, Structural)]
pub struct Double {
    pub bits: u64,
}

/// Twice the significand of the double 1e-9, less one. The double's unit is `2^-82`, so the doubles
/// below it reach up to, and by the rule of ties to even include, this many halves of that unit.
pub const TOLERANCE_HALVES: u64 = 9671406556917033;

impl Double {
    pub open spec fn negative(self) -> bool {
        self.bits >= 0x8000_0000_0000_0000
    }

    /// The biased exponent.
    pub open spec fn exponent(self) -> int {
        (self.bits as int / 0x10_0000_0000_0000) % 2048
    }

    /// Neither infinite nor not-a-number.
    pub open spec fn finite(self) -> bool {
        self.exponent() != 2047
    }

    /// The significand as a whole number.
    pub open spec fn significand(self) -> int {
        let fraction = self.bits as int % 0x10_0000_0000_0000;
        if self.exponent() == 0 {
            fraction
        } else {
            0x10_0000_0000_0000 + fraction
        }
    }

    /// The power of two by which the significand counts units of `2^-1074`.
    pub open spec fn shift(self) -> nat {
        if self.exponent() == 0 {
            0
        } else {
            (self.exponent() - 1) as nat
        }
    }

    /// The size of a finite double, exactly, in units of `2^-1074`.
    pub open spec fn magnitude(self) -> int {
        self.significand() * pow2(self.shift())
    }

    /// The value of a finite double, exactly, in units of `2^-1074`.
    pub open spec fn value(self) -> int {
        if self.negative() {
            -self.magnitude()
        } else {
            self.magnitude()
        }
    }

    /// How far apart two finite doubles are, exactly, in units of `2^-1074`.
    pub open spec fn distance(self, other: Double) -> int {
        if self.value() >= other.value() {
            self.value() - other.value()
        } else {
            other.value() - self.value()
        }
    }

    /// The difference of the two, rounded to a double, is smaller than the double 1e-9. The
    /// difference rounds to a smaller double exactly when it is at most half a unit of that
    /// double's last place short of it.
    pub open spec fn near(self, other: Double) -> bool {
        &&& self.finite()
        &&& other.finite()
        &&& self.distance(other) <= TOLERANCE_HALVES * pow2(991)
    }

    /// Whether two doubles differ by less than 1e-9.
    pub fn is_near(self, other: Double) -> (res: bool)
        ensures
            res == self.near(other),
    {
        let a: Parts = self.parts();
        let b: Parts = other.parts();
        if a.exponent == 2047 || b.exponent == 2047 {
            return false;
        }
        let same_sign: bool = a.negative == b.negative;
        let res: bool = if a.shift >= b.shift {
            within(a.significand, a.shift, b.significand, b.shift, same_sign)
        } else {
            within(b.significand, b.shift, a.significand, a.shift, same_sign)
        };
        proof {
            lemma_pow2_pos(self.shift());
            lemma_pow2_pos(other.shift());
            assert(self.magnitude() >= 0) by (nonlinear_arith)
                requires
                    self.magnitude() == self.significand() * pow2(self.shift()),
                    self.significand() >= 0,
                    pow2(self.shift()) > 0,
            ;
            assert(other.magnitude() >= 0) by (nonlinear_arith)
                requires
                    other.magnitude() == other.significand() * pow2(other.shift()),
                    other.significand() >= 0,
                    pow2(other.shift()) > 0,
            ;
        }
        res
    }

    /// The fields of the bit pattern.
    fn parts(self) -> (res: Parts)
        ensures
            res.negative == self.negative(),
            res.exponent == self.exponent(),
            res.significand == self.significand(),
            res.shift == self.shift(),
            res.shift <= 2046,
            res.significand < 0x20_0000_0000_0000,
            res.shift >= 1 ==> res.significand >= 0x10_0000_0000_0000,
    {
        let exponent: u64 = (self.bits / 0x10_0000_0000_0000) % 2048;
        let fraction: u64 = self.bits % 0x10_0000_0000_0000;
        Parts {
            negative: self.bits >= 0x8000_0000_0000_0000,
            exponent,
            significand: if exponent == 0 {
                fraction
            } else {
                0x10_0000_0000_0000 + fraction
            },
            shift: if exponent == 0 {
                0
            } else {
                exponent - 1
            },
        }
    }
}

/// A copy of a list of doubles.
pub(crate) fn copy_doubles(v: &Vec<Double>) -> (res: Vec<Double>)
    ensures
        res@ == v@,
{
    let mut res: Vec<Double> = Vec::new();
    let mut i: usize = 0;
    while i < v.len()
        invariant
            i <= v.len(),
            res@ == v@.take(i as int),
        decreases v.len() - i,
    {
        assert(v@.take(i + 1) =~= v@.take(i as int).push(v@[i as int]));
        res.push(v[i]);
        i = i + 1;
    }
    assert(v@.take(v@.len() as int) =~= v@);
    res
}

/// How far a finite double is from a whole number, exactly, in units of `2^-1074`.
pub open spec fn off_whole(d: Double, n: int) -> int {
    let off = d.value() - n * pow2(1074);
    if off >= 0 {
        off
    } else {
        -off
    }
}

/// `d` is the double that a whole number rounds to: no other is nearer, of two that are equally
/// near it is the one with the even significand, and nothing rounds to a zero without a sign.
pub open spec fn rounds_to(n: int, d: Double) -> bool {
    &&& d.finite()
    &&& forall|e: Double| #[trigger]
        e.finite() ==> {
            &&& off_whole(d, n) <= off_whole(e, n)
            &&& off_whole(d, n) == off_whole(e, n) && d.value() != e.value()
                ==> d.significand() % 2 == 0
        }
    &&& n == 0 ==> d.bits == 0
}

/// The double that a whole number rounds to.
pub open spec fn nearest_double(n: int) -> Double {
    choose|d: Double| rounds_to(n, d)
}

/// A whole number that is a double's value rounds to a double of that value.
pub proof fn whole_doubles_are_exact(n: int, d: Double)
    requires
        d.finite(),
        d.value() == n * pow2(1074),
    ensures
        nearest_double(n).finite(),
        nearest_double(n).value() == n * pow2(1074),
{
    let w = if n == 0 {
        Double { bits: 0 }
    } else {
        d
    };
    if n == 0 {
        assert(0 * pow2(1074) == 0) by (nonlinear_arith);
        assert(w.significand() == 0);
        assert(w.value() == 0) by (nonlinear_arith)
            requires
                w.value() == w.significand() * pow2(w.shift()) || w.value() == -(w.significand()
                    * pow2(w.shift())),
                w.significand() == 0,
        ;
    }
    assert(rounds_to(n, w));
    let c = nearest_double(n);
    assert(rounds_to(n, c));
    assert(off_whole(c, n) <= off_whole(w, n));
}

/// The fields of a double.
struct Parts {
    negative: bool,
    exponent: u64,
    significand: u64,
    shift: u64,
}

/// How far apart two magnitudes of the same or of opposite sign are.
pub open spec fn apart(x: int, y: int, same_sign: bool) -> int {
    if !same_sign {
        x + y
    } else if x >= y {
        x - y
    } else {
        y - x
    }
}

/// `2^e`.
fn power_of_two(e: u64) -> (res: u128)
    requires
        e <= 100,
    ensures
        res == pow2(e as nat),
{
    let mut res: u128 = 1;
    let mut i: u64 = 0;
    proof {
        lemma2_to64();
        lemma_pow2_adds(64, 36);
        lemma2_to64_rest();
    }
    while i < e
        invariant
            i <= e <= 100,
            res == pow2(i as nat),
            pow2(100) == 0x10_0000_0000_0000_0000_0000_0000,
        decreases e - i,
    {
        proof {
            lemma_pow2_unfold((i + 1) as nat);
            if i + 1 < 100 {
                lemma_pow2_strictly_increases((i + 1) as nat, 100);
            }
        }
        res = res * 2;
        i = i + 1;
    }
    res
}

/// Multiplying both sides by a power of two keeps their order.
proof fn lemma_same_scale(x: int, y: int, p: int)
    requires
        p > 0,
    ensures
        x * p <= y * p <==> x <= y,
{
    assert(x <= y ==> x * p <= y * p) by (nonlinear_arith)
        requires
            p > 0,
    ;
    assert(x > y ==> x * p > y * p) by (nonlinear_arith)
        requires
            p > 0,
    ;
}

/// The distance of two numbers that share a scale.
proof fn lemma_apart_scale(x: int, y: int, p: int, same_sign: bool)
    requires
        p > 0,
    ensures
        apart(x * p, y * p, same_sign) == apart(x, y, same_sign) * p,
{
    lemma_same_scale(x, y, p);
    lemma_same_scale(y, x, p);
    assert((x + y) * p == x * p + y * p) by (nonlinear_arith);
    assert((x - y) * p == x * p - y * p) by (nonlinear_arith);
    assert((y - x) * p == y * p - x * p) by (nonlinear_arith);
}

/// Whether `mx * 2^sx` and `my * 2^sy`, of the same sign or of opposite signs, are within the
/// tolerance.
fn within(mx: u64, sx: u64, my: u64, sy: u64, same_sign: bool) -> (res: bool)
    requires
        sy <= sx <= 2046,
        mx < 0x20_0000_0000_0000,
        my < 0x20_0000_0000_0000,
        sx >= 1 ==> mx >= 0x10_0000_0000_0000,
    ensures
        res == (apart(mx * pow2(sx as nat), my * pow2(sy as nat), same_sign) <= TOLERANCE_HALVES
            * pow2(991)),
{
    let d: u64 = sx - sy;
    if d > 64 {
        proof {
            lemma_far(mx as int, sx as nat, my as int, sy as nat, same_sign);
        }
        return sx <= 991 || (sx == 992 && 2 * mx < TOLERANCE_HALVES);
    }
    let step: u128 = power_of_two(d);
    proof {
        lemma2_to64();
        lemma2_to64_rest();
        if d < 64 {
            lemma_pow2_strictly_increases(d as nat, 64);
        }
        assert(mx * step <= 0x20_0000_0000_0000 * 0x1_0000_0000_0000_0000) by (nonlinear_arith)
            requires
                mx <= 0x20_0000_0000_0000,
                step <= 0x1_0000_0000_0000_0000,
        ;
    }
    let x: u128 = (mx as u128) * step;
    let y: u128 = my as u128;
    let n: u128 = if !same_sign {
        x + y
    } else if x >= y {
        x - y
    } else {
        y - x
    };
    proof {
        let p = pow2(sy as nat);
        lemma_pow2_pos(sy as nat);
        lemma_pow2_adds(d as nat, sy as nat);
        assert(mx * pow2(sx as nat) == (mx * step) * p) by (nonlinear_arith)
            requires
                pow2(sx as nat) == step * p,
        ;
        lemma_apart_scale(mx * step, my as int, p as int, same_sign);
        assert(n == apart(mx * step, my as int, same_sign));
        assert(apart(mx * pow2(sx as nat), my * p, same_sign) == n * p);
    }
    if sy >= 991 {
        let j: u64 = sy - 991;
        proof {
            lemma_pow2_adds(j as nat, 991);
            lemma_pow2_pos(991);
            assert(n * pow2(sy as nat) == (n * pow2(j as nat)) * pow2(991)) by (nonlinear_arith)
                requires
                    pow2(sy as nat) == pow2(j as nat) * pow2(991),
            ;
            lemma_same_scale(n * pow2(j as nat), TOLERANCE_HALVES as int, pow2(991) as int);
        }
        if j >= 54 {
            proof {
                if j > 54 {
                    lemma_pow2_strictly_increases(54, j as nat);
                }
                assert(n >= 1 ==> n * pow2(j as nat) > TOLERANCE_HALVES) by (nonlinear_arith)
                    requires
                        pow2(j as nat) > TOLERANCE_HALVES,
                ;
                assert(n == 0 ==> n * pow2(j as nat) == 0) by (nonlinear_arith);
            }
            n == 0
        } else {
            let unit: u128 = power_of_two(j);
            proof {
                lemma_pow2_strictly_increases(j as nat, 54);
                lemma_pow2_pos(j as nat);
                assert((n * unit <= TOLERANCE_HALVES) == (n <= TOLERANCE_HALVES as u128 / unit))
                    by (nonlinear_arith)
                    requires
                        unit > 0,
                ;
            }
            n <= (TOLERANCE_HALVES as u128) / unit
        }
    } else {
        let j: u64 = 991 - sy;
        proof {
            lemma_pow2_adds(j as nat, sy as nat);
            lemma_pow2_pos(sy as nat);
            assert(TOLERANCE_HALVES * pow2(991) == (TOLERANCE_HALVES * pow2(j as nat)) * pow2(
                sy as nat,
            )) by (nonlinear_arith)
                requires
                    pow2(991) == pow2(j as nat) * pow2(sy as nat),
            ;
            lemma_same_scale(n as int, TOLERANCE_HALVES * pow2(j as nat), pow2(sy as nat) as int);
        }
        if j > 65 {
            proof {
                lemma_pow2_unfold(65);
                lemma_pow2_strictly_increases(65, j as nat);
                assert(TOLERANCE_HALVES * pow2(j as nat) >= 0x20_0000_0000_0000
                    * 0x2_0000_0000_0000_0000) by (nonlinear_arith)
                    requires
                        pow2(j as nat) >= 0x2_0000_0000_0000_0000,
                        TOLERANCE_HALVES >= 0x20_0000_0000_0000,
                ;
            }
            true
        } else {
            let unit: u128 = power_of_two(j);
            proof {
                lemma_pow2_unfold(65);
                if j < 65 {
                    lemma_pow2_strictly_increases(j as nat, 65);
                }
                assert(TOLERANCE_HALVES * unit <= 0x40_0000_0000_0000 * 0x2_0000_0000_0000_0000)
                    by (nonlinear_arith)
                    requires
                        unit <= 0x2_0000_0000_0000_0000,
                        TOLERANCE_HALVES <= 0x40_0000_0000_0000,
                ;
            }
            n <= (TOLERANCE_HALVES as u128) * unit
        }
    }
}

/// Where the scales are far apart, the smaller number only tips a tie, and there is none.
proof fn lemma_far(mx: int, sx: nat, my: int, sy: nat, same_sign: bool)
    requires
        sy + 64 < sx,
        0x10_0000_0000_0000 <= mx < 0x20_0000_0000_0000,
        0 <= my < 0x20_0000_0000_0000,
    ensures
        (apart(mx * pow2(sx), my * pow2(sy), same_sign) <= TOLERANCE_HALVES * pow2(991)) == (sx
            <= 991 || (sx == 992 && 2 * mx < TOLERANCE_HALVES)),
{
    lemma2_to64();
    lemma2_to64_rest();
    let p = pow2(sx);
    let small = my * pow2(sy);
    lemma_pow2_pos(sy);
    lemma_pow2_pos(sx);
    lemma_pow2_pos(991);
    // the smaller number is less than a two-thousandth of one unit of the larger one
    assert(0 <= small && 2048 * small < p) by {
        let d = (sx - sy) as nat;
        lemma_pow2_adds(d, sy);
        lemma_pow2_strictly_increases(64, d);
        assert(0 <= small && 2048 * small < p) by (nonlinear_arith)
            requires
                small == my * pow2(sy),
                0 <= my < 0x20_0000_0000_0000,
                p == pow2(d) * pow2(sy),
                pow2(d) > 0x1_0000_0000_0000_0000,
                pow2(sy) > 0,
        ;
    }
    let big = mx * p;
    assert(big >= 0x10_0000_0000_0000 * p && big <= (0x20_0000_0000_0000 - 1) * p)
        by (nonlinear_arith)
        requires
            big == mx * p,
            0x10_0000_0000_0000 <= mx <= 0x20_0000_0000_0000 - 1,
            p > 0,
    ;
    let dist = apart(big, small, same_sign);
    assert(big - small <= dist <= big + small);
    let bound = TOLERANCE_HALVES * pow2(991);
    if sx <= 991 {
        let u = (991 - sx) as nat;
        lemma_pow2_adds(u, sx);
        lemma_pow2_pos(u);
        assert(bound >= 0x20_0000_0000_0000 * p) by (nonlinear_arith)
            requires
                bound == TOLERANCE_HALVES * (pow2(u) * p),
                TOLERANCE_HALVES >= 0x20_0000_0000_0000,
                pow2(u) >= 1,
                p > 0,
        ;
    } else if sx == 992 {
        lemma_pow2_unfold(992);
        let q = pow2(991) as int;
        assert(p == 2 * q);
        assert(big == (2 * mx) * q) by (nonlinear_arith)
            requires
                big == mx * p,
                p == 2 * q,
        ;
        if 2 * mx < TOLERANCE_HALVES {
            assert(2 * mx + 1 <= TOLERANCE_HALVES);
            assert(big + q <= bound) by (nonlinear_arith)
                requires
                    big == (2 * mx) * q,
                    bound == TOLERANCE_HALVES * q,
                    2 * mx + 1 <= TOLERANCE_HALVES,
                    q > 0,
            ;
        } else {
            assert(2 * mx != TOLERANCE_HALVES);
            assert(2 * mx >= TOLERANCE_HALVES + 1);
            assert(big >= bound + q) by (nonlinear_arith)
                requires
                    big == (2 * mx) * q,
                    bound == TOLERANCE_HALVES * q,
                    2 * mx >= TOLERANCE_HALVES + 1,
                    q > 0,
            ;
        }
    } else {
        let u = (sx - 991) as nat;
        lemma_pow2_adds(u, 991);
        if u > 2 {
            lemma_pow2_strictly_increases(2, u);
        }
        let q = pow2(991) as int;
        assert(p >= 4 * q) by (nonlinear_arith)
            requires
                p == pow2(u) * q,
                pow2(u) >= 4,
                q > 0,
        ;
        assert(bound == TOLERANCE_HALVES * q);
    }
}

/// Nearness goes both ways.
pub proof fn near_is_symmetric(a: Double, b: Double)
    ensures
        a.near(b) == b.near(a),
{
}

/// A finite double is near itself.
pub proof fn near_is_reflexive(a: Double)
    requires
        a.finite(),
    ensures
        a.near(a),
{
    lemma_pow2_pos(991);
    assert(TOLERANCE_HALVES * pow2(991) >= 0) by (nonlinear_arith)
        requires
            pow2(991) > 0,
    ;
}

} // verus!
