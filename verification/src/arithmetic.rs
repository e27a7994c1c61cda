//! The arithmetic of doubles: each result is the double nearest to the exact
//! one.
use vstd::arithmetic::power2::*;
use vstd::prelude::*;

use crate::double::Double;
use crate::double::BINADE;
use crate::double::INFINITE;
use crate::double::NAN_BITS;
use crate::double::SIGN;
use crate::rounding::SHIFT;

verus! {

/// The exponent of the number one, in units of the smallest positive double.
pub const UNIT: i32 = 1074;

/// The number one, in units of the smallest positive double.
pub open spec fn one() -> int {
    pow2(UNIT as nat) as int
}

/// The double of the given sign that is nearest to `num / den`.
pub open spec fn rounded(negative: bool, num: int, den: int) -> Double {
    Double::signed(negative, choose|u: int| crate::rounding::nearest(num, den, u))
}

/// The double that is nearest to the square root of `n`.
pub open spec fn rounded_root(n: int) -> Double {
    Double::signed(false, choose|u: int| crate::rounding::nearest_root(n, u))
}

/// The result that is no number.
pub open spec fn not_a_number() -> Double {
    Double { bits: NAN_BITS }
}

impl Double {
    /// `self` with the other sign.
    pub open spec fn negated(self) -> Double {
        Double::signed(!self.is_negative(), self.magnitude())
    }

    /// Whether this is one of the two infinities.
    pub open spec fn is_infinite(self) -> bool {
        self.magnitude() == INFINITE
    }

    /// `self + other`.
    pub open spec fn sum(self, other: Double) -> Double {
        if self.is_nan() || other.is_nan() {
            not_a_number()
        } else if self.is_infinite() {
            if other.is_infinite() && self.is_negative() != other.is_negative() {
                not_a_number()
            } else {
                self
            }
        } else if other.is_infinite() {
            other
        } else {
            let x = self.value() + other.value();
            if x == 0 {
                Double::signed(self.is_negative() && other.is_negative(), 0)
            } else if x < 0 {
                rounded(true, -x, 1)
            } else {
                rounded(false, x, 1)
            }
        }
    }

    /// `self - other`.
    pub open spec fn difference(self, other: Double) -> Double {
        self.sum(other.negated())
    }

    /// `self * other`.
    pub open spec fn product(self, other: Double) -> Double {
        let negative = self.is_negative() != other.is_negative();
        if self.is_nan() || other.is_nan() {
            not_a_number()
        } else if self.is_infinite() || other.is_infinite() {
            if self.magnitude() == 0 || other.magnitude() == 0 {
                not_a_number()
            } else {
                Double::signed(negative, INFINITE as int)
            }
        } else {
            rounded(
                negative,
                crate::double::size(self.magnitude()) * crate::double::size(other.magnitude()),
                one(),
            )
        }
    }

    /// `self / other`.
    pub open spec fn quotient(self, other: Double) -> Double {
        let negative = self.is_negative() != other.is_negative();
        if self.is_nan() || other.is_nan() {
            not_a_number()
        } else if self.is_infinite() {
            if other.is_infinite() {
                not_a_number()
            } else {
                Double::signed(negative, INFINITE as int)
            }
        } else if other.is_infinite() {
            Double::signed(negative, 0)
        } else if other.magnitude() == 0 {
            if self.magnitude() == 0 {
                not_a_number()
            } else {
                Double::signed(negative, INFINITE as int)
            }
        } else {
            rounded(
                negative,
                crate::double::size(self.magnitude()) * one(),
                crate::double::size(other.magnitude()),
            )
        }
    }

    /// The square root of `self`.
    pub open spec fn root(self) -> Double {
        if self.is_nan() {
            not_a_number()
        } else if self.magnitude() == 0 {
            self
        } else if self.is_negative() {
            not_a_number()
        } else if self.is_infinite() {
            self
        } else {
            rounded_root(crate::double::size(self.magnitude()) * one())
        }
    }

    /// The double nearest to the whole number `n`.
    pub open spec fn whole(n: int) -> Double {
        rounded(false, n * one(), 1)
    }
}

/// Rounding a ratio gives the sign asked for and the nearest magnitude.
pub proof fn lemma_rounded(negative: bool, num: int, den: int)
    ensures
        crate::rounding::nearest(num, den, rounded(negative, num, den).magnitude()),
        rounded(negative, num, den).is_negative() == negative,
        !rounded(negative, num, den).is_nan(),
{
    crate::rounding::lemma_nearest_exists(num, den);
}

/// The sum of two finite numbers is a number, on the same side of zero as the
/// exact sum.
pub proof fn lemma_finite_sum(a: Double, b: Double)
    requires
        a.is_finite(),
        b.is_finite(),
    ensures
        ({
            let x = a.value() + b.value();
            let r = a.sum(b);
            &&& !r.is_nan()
            &&& x > 0 ==> !r.is_negative() && crate::rounding::nearest(x, 1, r.magnitude())
            &&& x < 0 ==> r.is_negative() && crate::rounding::nearest(-x, 1, r.magnitude())
            &&& x == 0 ==> r.magnitude() == 0
            &&& !r.is_negative() ==> r.value() >= 0
            &&& r.is_negative() ==> r.value() <= 0
        }),
{
    let x = a.value() + b.value();
    if x > 0 {
        lemma_rounded(false, x, 1);
    } else if x < 0 {
        lemma_rounded(true, -x, 1);
    }
    crate::double::lemma_magnitude_order(a.sum(b).magnitude(), 0);
}

/// Adding the same number keeps the order of two numbers, for all the
/// rounding.
pub proof fn law_sums_keep_the_order(a: Double, b: Double, c: Double)
    requires
        a.at_most(b),
        c.is_finite(),
    ensures
        a.sum(c).at_most(b.sum(c)),
{
    let (p, q) = (a.sum(c), b.sum(c));
    let bound = INFINITE as int;
    crate::double::lemma_magnitude_order(a.magnitude(), bound);
    crate::double::lemma_magnitude_order(b.magnitude(), bound);
    crate::double::lemma_magnitude_order(a.magnitude(), 0);
    crate::double::lemma_magnitude_order(b.magnitude(), 0);
    if a.is_finite() {
        lemma_finite_sum(a, c);
    }
    if b.is_finite() {
        lemma_finite_sum(b, c);
    }
    crate::double::lemma_magnitude_order(p.magnitude(), bound);
    crate::double::lemma_magnitude_order(q.magnitude(), bound);
    if a.is_finite() && b.is_finite() {
        let x = a.value() + c.value();
        let y = b.value() + c.value();
        if x > 0 {
            crate::rounding::lemma_nearest_monotone(x, y, p.magnitude(), q.magnitude());
        } else if y < 0 {
            crate::rounding::lemma_nearest_monotone(-y, -x, q.magnitude(), p.magnitude());
        }
        crate::double::lemma_magnitude_order(p.magnitude(), q.magnitude());
    }
}

/// Subtracting the same number keeps the order of two numbers.
pub proof fn law_differences_keep_the_order(a: Double, b: Double, c: Double)
    requires
        a.at_most(b),
        c.is_finite(),
    ensures
        a.difference(c).at_most(b.difference(c)),
{
    law_sums_keep_the_order(a, b, c.negated());
}

/// Of two numbers, subtracting the larger one gives the smaller difference.
pub proof fn law_subtracting_more_gives_less(a: Double, c: Double, d: Double)
    requires
        !a.is_nan(),
        c.is_finite(),
        d.is_finite(),
        c.at_most(d),
    ensures
        a.difference(d).at_most(a.difference(c)),
{
    crate::double::lemma_magnitude_order(a.magnitude(), 0);
    if a.is_finite() {
        let (m, n) = (c.negated(), d.negated());
        law_sums_keep_the_order(n, m, a);
        assert(n.sum(a) == a.sum(n));
        assert(m.sum(a) == a.sum(m));
    }
}

/// A finite difference is within half a gap of the exact one.
pub proof fn law_differences_are_accurate(a: Double, c: Double)
    requires
        a.is_finite(),
        c.is_finite(),
        a.difference(c).is_finite(),
    ensures
        ({
            let gap = crate::double::gap(a.difference(c).magnitude());
            -gap <= 2 * (a.difference(c).value() - (a.value() - c.value())) <= gap
        }),
{
    let u = a.difference(c).magnitude();
    lemma_finite_sum(a, c.negated());
    crate::double::lemma_size_step(u);
    assert(1 * crate::rounding::twice_midpoint(u) == crate::rounding::twice_midpoint(u));
    if u > 0 {
        crate::double::lemma_size_step(u - 1);
        crate::double::lemma_gap(u);
        assert(1 * crate::rounding::twice_midpoint(u - 1) == crate::rounding::twice_midpoint(
            u - 1,
        ));
    }
}

/// A finite sum is within half a gap of the exact one.
pub proof fn law_sums_are_accurate(a: Double, b: Double)
    requires
        a.is_finite(),
        b.is_finite(),
        a.sum(b).is_finite(),
    ensures
        ({
            let gap = crate::double::gap(a.sum(b).magnitude());
            -gap <= 2 * (a.sum(b).value() - (a.value() + b.value())) <= gap
        }),
{
    assert(b.negated().negated() == b);
    law_differences_are_accurate(a, b.negated());
}

/// A finite product is within half a gap of the exact one.
pub proof fn law_products_are_accurate(a: Double, b: Double)
    requires
        a.is_finite(),
        b.is_finite(),
        a.product(b).is_finite(),
    ensures
        ({
            let r = a.product(b);
            let gap = crate::double::gap(r.magnitude());
            -(one() * gap) <= 2 * (one() * r.value() - a.value() * b.value()) <= one() * gap
        }),
{
    let (x, y) = (crate::double::size(a.magnitude()), crate::double::size(b.magnitude()));
    let r = a.product(b);
    let negative = a.is_negative() != b.is_negative();
    lemma_pow2_pos(UNIT as nat);
    crate::double::lemma_magnitude_order(a.magnitude(), b.magnitude());
    lemma_rounded(negative, x * y, one());
    assert(x * y >= 0) by (nonlinear_arith)
        requires
            x >= 0,
            y >= 0,
    ;
    let u = r.magnitude();
    crate::rounding::lemma_nearest_error(x * y, one(), u);
    let (z, g, k) = (crate::double::size(u), crate::double::gap(u), one());
    assert(k * (2 * z - g) == 2 * (k * z) - k * g) by (nonlinear_arith);
    assert(k * (2 * z + g) == 2 * (k * z) + k * g) by (nonlinear_arith);
    assert(k * (-z) == -(k * z)) by (nonlinear_arith);
    assert((-x) * y == -(x * y) && x * (-y) == -(x * y) && (-x) * (-y) == x * y)
        by (nonlinear_arith);
}

/// A finite quotient is within half a gap of the exact one.
pub proof fn law_quotients_are_accurate(a: Double, b: Double)
    requires
        a.is_finite(),
        b.is_finite(),
        b.magnitude() > 0,
        a.quotient(b).is_finite(),
    ensures
        ({
            let r = a.quotient(b);
            let gap = crate::double::gap(r.magnitude());
            let size = crate::double::size(b.magnitude());
            -(size * gap) <= 2 * (b.value() * r.value() - one() * a.value()) <= size * gap
        }),
{
    let (x, y) = (crate::double::size(a.magnitude()), crate::double::size(b.magnitude()));
    let r = a.quotient(b);
    let negative = a.is_negative() != b.is_negative();
    lemma_pow2_pos(UNIT as nat);
    crate::double::lemma_magnitude_order(a.magnitude(), 0);
    crate::double::lemma_magnitude_order(b.magnitude(), 0);
    lemma_rounded(negative, x * one(), y);
    let k = one();
    assert(x * k >= 0) by (nonlinear_arith)
        requires
            x >= 0,
            k > 0,
    ;
    let u = r.magnitude();
    crate::rounding::lemma_nearest_error(x * k, y, u);
    let (z, g) = (crate::double::size(u), crate::double::gap(u));
    assert(y * (2 * z - g) == 2 * (y * z) - y * g) by (nonlinear_arith);
    assert(y * (2 * z + g) == 2 * (y * z) + y * g) by (nonlinear_arith);
    assert((-y) * z == -(y * z) && y * (-z) == -(y * z) && (-y) * (-z) == y * z)
        by (nonlinear_arith);
    assert(k * x == x * k && k * (-x) == -(x * k)) by (nonlinear_arith);
}

/// The root of a finite positive number is within half a gap of the exact one.
pub proof fn law_roots_are_accurate(a: Double)
    requires
        a.is_finite(),
        !a.is_negative(),
        a.magnitude() > 0,
    ensures
        a.root().is_finite(),
        ({
            let (r, g) = (a.root().value(), crate::double::gap(a.root().magnitude()));
            &&& 0 < g <= r
            &&& (2 * r - g) * (2 * r - g) <= 4 * (one() * a.value()) <= (2 * r + g) * (2 * r + g)
        }),
{
    crate::bounds::lemma_root(a);
    let n = crate::double::size(a.magnitude()) * one();
    crate::double::lemma_magnitude_order(a.magnitude(), INFINITE as int);
    crate::double::lemma_magnitude_order(a.magnitude(), 0);
    crate::bounds::lemma_infinite();
    let (x, k) = (crate::double::size(a.magnitude()), one());
    lemma_pow2_pos(1074);
    assert(n >= 0 && k * x == n) by (nonlinear_arith)
        requires
            n == x * k,
            x >= 0,
            k > 0,
    ;
    let u = a.root().magnitude();
    if u == INFINITE {
        let p = pow2(1586) as int;
        lemma_pow2_pos(1586);
        lemma_pow2_adds(1586, 1586);
        lemma_pow2_adds(2098, 1074);
        assert(n < p * p) by (nonlinear_arith)
            requires
                n == x * k,
                x < pow2(2098),
                k == pow2(1074),
                p * p == pow2(2098) * pow2(1074),
                k > 0,
        ;
        crate::double::lemma_size_step(u - 1);
        crate::double::lemma_gap(u - 1);
        let t = crate::rounding::twice_midpoint(u - 1);
        lemma_pow2_adds(1586, 1);
        lemma2_to64();
        lemma_pow2_strictly_increases(1587, 2098);
        assert(t >= 2 * p);
        assert(t * t >= 4 * (p * p)) by (nonlinear_arith)
            requires
                t >= 2 * p,
                p > 0,
        ;
    }
    crate::rounding::lemma_root_error(n, u);
}

/// Multiplying by a positive number keeps the order of numbers that are not
/// negative.
pub proof fn law_products_keep_the_order(a: Double, b: Double, c: Double)
    requires
        Double::zero().at_most(a),
        a.at_most(b),
        c.is_finite(),
        Double::zero().less(c),
    ensures
        Double::zero().at_most(a.product(c)),
        a.product(c).at_most(b.product(c)),
{
    let (x, y) = (crate::double::size(a.magnitude()), crate::double::size(b.magnitude()));
    let z = crate::double::size(c.magnitude());
    lemma_pow2_pos(UNIT as nat);
    crate::double::lemma_magnitude_order(a.magnitude(), 0);
    crate::double::lemma_magnitude_order(b.magnitude(), 0);
    crate::double::lemma_magnitude_order(c.magnitude(), 0);
    crate::double::lemma_magnitude_order(a.magnitude(), b.magnitude());
    let (p, q) = (a.product(c), b.product(c));
    if a.is_finite() {
        lemma_rounded(a.is_negative() != c.is_negative(), x * z, one());
        crate::double::lemma_magnitude_order(p.magnitude(), 0);
        if x == 0 {
            let k = one();
            assert(x * z <= k * crate::double::size(0)) by (nonlinear_arith)
                requires
                    x == 0,
                    crate::double::size(0) == 0,
            ;
            crate::rounding::lemma_nearest_bounds(x * z, k, p.magnitude(), 0);
        }
        crate::double::lemma_magnitude_order(p.magnitude(), INFINITE as int);
        if b.is_finite() {
            lemma_rounded(b.is_negative() != c.is_negative(), y * z, one());
            assert(x * z <= y * z) by (nonlinear_arith)
                requires
                    x <= y,
                    z > 0,
            ;
            crate::rounding::lemma_ratios_monotone(
                x * z,
                y * z,
                one(),
                p.magnitude(),
                q.magnitude(),
            );
            crate::double::lemma_magnitude_order(p.magnitude(), q.magnitude());
            crate::double::lemma_magnitude_order(q.magnitude(), 0);
        }
    } else {
        crate::double::lemma_magnitude_order(b.magnitude(), INFINITE as int);
    }
}

/// The operations on finite numbers give the exact result, rounded once: the
/// nearest magnitude (see [`crate::rounding::law_rounding_goes_to_the_nearest`])
/// with the sign of the exact result.
pub proof fn law_operations_round_once(a: Double, b: Double)
    requires
        a.is_finite(),
        b.is_finite(),
    ensures
        ({
            let x = a.value() + b.value();
            let r = a.sum(b);
            &&& !r.is_nan()
            &&& x > 0 ==> !r.is_negative() && crate::rounding::nearest(x, 1, r.magnitude())
            &&& x < 0 ==> r.is_negative() && crate::rounding::nearest(-x, 1, r.magnitude())
            &&& x == 0 ==> r.value() == 0
        }),
        ({
            let x = a.value() - b.value();
            let r = a.difference(b);
            &&& !r.is_nan()
            &&& x > 0 ==> !r.is_negative() && crate::rounding::nearest(x, 1, r.magnitude())
            &&& x < 0 ==> r.is_negative() && crate::rounding::nearest(-x, 1, r.magnitude())
            &&& x == 0 ==> r.value() == 0
        }),
        ({
            let (x, y) = (crate::double::size(a.magnitude()), crate::double::size(b.magnitude()));
            let (p, q) = (a.product(b), a.quotient(b));
            &&& !p.is_nan()
            &&& p.is_negative() == (a.is_negative() != b.is_negative())
            &&& crate::rounding::nearest(x * y, one(), p.magnitude())
            &&& b.magnitude() > 0 ==> {
                &&& !q.is_nan()
                &&& q.is_negative() == (a.is_negative() != b.is_negative())
                &&& crate::rounding::nearest(x * one(), y, q.magnitude())
            }
        }),
        a.magnitude() > 0 && !a.is_negative() ==> {
            &&& !a.root().is_nan()
            &&& !a.root().is_negative()
            &&& crate::rounding::nearest_root(
                crate::double::size(a.magnitude()) * one(),
                a.root().magnitude(),
            )
        },
{
    let (x, y) = (crate::double::size(a.magnitude()), crate::double::size(b.magnitude()));
    lemma_finite_sum(a, b);
    lemma_finite_sum(a, b.negated());
    lemma_rounded(a.is_negative() != b.is_negative(), x * y, one());
    lemma_rounded(a.is_negative() != b.is_negative(), x * one(), y);
    crate::double::lemma_magnitude_order(0, 0);
    if a.magnitude() > 0 && !a.is_negative() {
        crate::bounds::lemma_root(a);
    }
}

/// What is no number spreads, and so do infinities where they can: an infinite
/// operand gives an infinite result of the sign that the operation asks for,
/// nothing divided by it is more than zero, and what it leaves open is no
/// number.
pub proof fn law_special_operands(a: Double, b: Double)
    ensures
        a.is_nan() || b.is_nan() ==> {
            &&& a.sum(b).is_nan()
            &&& a.difference(b).is_nan()
            &&& a.product(b).is_nan()
            &&& a.quotient(b).is_nan()
        },
        a.is_nan() ==> a.root().is_nan(),
        !a.is_nan() && a.is_negative() && a.magnitude() > 0 ==> a.root().is_nan(),
        a.magnitude() == 0 ==> a.root() == a,
        a.is_infinite() && !a.is_negative() ==> a.root() == a,
        a.is_infinite() && b.is_finite() ==> {
            &&& a.sum(b) == a
            &&& b.sum(a) == a
            &&& a.difference(b) == a
            &&& b.difference(a) == a.negated()
            &&& a.quotient(b).is_infinite()
            &&& a.quotient(b).is_negative() == (a.is_negative() != b.is_negative())
            &&& b.quotient(a).value() == 0
            &&& b.magnitude() == 0 ==> a.product(b).is_nan() && b.product(a).is_nan()
            &&& b.magnitude() > 0 ==> {
                &&& a.product(b).is_infinite()
                &&& a.product(b).is_negative() == (a.is_negative() != b.is_negative())
                &&& b.product(a) == a.product(b)
            }
        },
        a.is_infinite() && b.is_infinite() ==> {
            &&& a.quotient(b).is_nan()
            &&& a.product(b).is_infinite()
            &&& a.product(b).is_negative() == (a.is_negative() != b.is_negative())
            &&& a == b ==> a.sum(b) == a && a.difference(b).is_nan()
            &&& a != b ==> a.sum(b).is_nan() && a.difference(b) == a
        },
        a.is_finite() && a.magnitude() > 0 && b.magnitude() == 0 ==> {
            &&& a.quotient(b).is_infinite()
            &&& a.quotient(b).is_negative() == (a.is_negative() != b.is_negative())
        },
        a.magnitude() == 0 && b.magnitude() == 0 ==> a.quotient(b).is_nan(),
{
    crate::double::lemma_magnitude_order(0, 0);
}

/// Subtracting zero changes nothing.
pub proof fn law_differences_from_zero_are_exact(a: Double)
    requires
        !a.is_nan(),
    ensures
        !a.difference(Double::zero()).is_nan(),
        a.difference(Double::zero()).value() == a.value(),
{
    let m = a.magnitude();
    let r = a.difference(Double::zero());
    crate::double::lemma_magnitude_order(m, 0);
    if a.is_finite() {
        lemma_finite_sum(a, Double::zero().negated());
        assert(1 * crate::double::size(m) == crate::double::size(m));
        if m > 0 {
            crate::rounding::lemma_nearest_bounds(
                crate::double::size(m),
                1,
                r.magnitude(),
                m,
            );
        }
    }
}

/// A difference never passes a double: it is no less than every double that is
/// no larger than the exact difference, and the other way round.
pub proof fn law_differences_keep_bounds(a: Double, c: Double, t: Double)
    requires
        a.is_finite(),
        c.is_finite(),
        !t.is_nan(),
    ensures
        t.value() <= a.value() - c.value() ==> t.at_most(a.difference(c)),
        a.value() - c.value() <= t.value() ==> a.difference(c).at_most(t),
{
    let x = a.value() - c.value();
    let r = a.difference(c);
    let (u, v) = (r.magnitude(), t.magnitude());
    lemma_finite_sum(a, c.negated());
    crate::double::lemma_magnitude_order(u, v);
    assert(1 * crate::double::size(v) == crate::double::size(v));
    if x > 0 {
        crate::rounding::lemma_nearest_bounds(x, 1, u, v);
    } else if x < 0 {
        crate::rounding::lemma_nearest_bounds(-x, 1, u, v);
    }
}

/// A magnitude that is nearest to what a bracket holds is nearest to the
/// bracketed ratio.
proof fn lemma_bracketed(num: int, den: int, s: int, k: int, exact: bool, u: int)
    requires
        den > 0,
        u <= INFINITE,
        crate::rounding::rounds(s, k, exact, u),
        ({
            let x = num * pow2(SHIFT as nat);
            let p = pow2((k + SHIFT) as nat) * den;
            if exact {
                x == s * p
            } else {
                s * p < x < (s + 1) * p
            }
        }),
    ensures
        crate::rounding::nearest(num, den, u),
        rounded(true, num, den) == Double::signed(true, u),
        rounded(false, num, den) == Double::signed(false, u),
{
    let c = pow2(SHIFT as nat) as int;
    let p = pow2((k + SHIFT) as nat) as int;
    let x = num * c;
    lemma_pow2_pos(SHIFT as nat);
    if u > 0 {
        let m = crate::rounding::twice_midpoint(u - 1);
        lemma_transfer(m, num, den, s, p, c, exact);
    }
    if u < INFINITE {
        let m = crate::rounding::twice_midpoint(u);
        lemma_transfer(m, num, den, s, p, c, exact);
    }
    assert(crate::rounding::nearest(num, den, u));
    let v = choose|v: int| crate::rounding::nearest(num, den, v);
    crate::rounding::lemma_nearest_unique(num, den, u, v);
}

proof fn lemma_transfer(m: int, num: int, den: int, s: int, p: int, c: int, exact: bool)
    requires
        den > 0,
        c > 0,
        exact ==> num * c == s * (p * den),
        !exact ==> s * (p * den) < num * c < (s + 1) * (p * den),
    ensures
        m * c < 2 * s * p ==> den * m < 2 * num,
        !exact && m * c == 2 * s * p ==> den * m < 2 * num,
        exact && m * c == 2 * s * p ==> den * m == 2 * num,
        exact && 2 * s * p < m * c ==> 2 * num < den * m,
        !exact && 2 * (s + 1) * p <= m * c ==> 2 * num < den * m,
{
    let a = den * m;
    let b = 2 * num;
    assert(a * c == den * (m * c)) by (nonlinear_arith)
        requires
            a == den * m,
    ;
    assert(b * c == 2 * (num * c)) by (nonlinear_arith)
        requires
            b == 2 * num,
    ;
    assert(den * (2 * s * p) == 2 * (s * (p * den))) by (nonlinear_arith);
    assert(den * (2 * (s + 1) * p) == 2 * ((s + 1) * (p * den))) by (nonlinear_arith);
    lemma_times(m * c, 2 * s * p, den);
    lemma_times(m * c, 2 * (s + 1) * p, den);
    lemma_cancel(a, b, c);
}

proof fn lemma_times(x: int, y: int, d: int)
    requires
        d > 0,
    ensures
        x < y ==> d * x < d * y,
        y < x ==> d * y < d * x,
        d * x == x * d,
        d * y == y * d,
{
    assert(d * x == x * d && d * y == y * d) by (nonlinear_arith);
    assert(x < y ==> d * x < d * y) by (nonlinear_arith)
        requires
            d > 0,
    ;
    assert(y < x ==> d * y < d * x) by (nonlinear_arith)
        requires
            d > 0,
    ;
}

proof fn lemma_cancel(a: int, b: int, c: int)
    requires
        c > 0,
    ensures
        a * c < b * c ==> a < b,
        b * c < a * c ==> b < a,
        a * c == b * c ==> a == b,
{
    if a < b {
        assert(a * c < b * c) by (nonlinear_arith)
            requires
                a < b,
                c > 0,
        ;
    } else if b < a {
        assert(b * c < a * c) by (nonlinear_arith)
            requires
                b < a,
                c > 0,
        ;
    }
}

/// The significand and the exponent of a finite magnitude.
fn unpack(u: u64) -> (r: (u128, i32))
    requires
        u < INFINITE,
    ensures
        crate::double::size(u as int) == r.0 * pow2(r.1 as nat),
        r.0 < 2 * BINADE,
        0 <= r.1 <= 2045,
        r.1 > 0 ==> r.0 >= BINADE,
        r.0 == 0 <==> u == 0,
        r.1 == if u < BINADE {
            0
        } else {
            u as int / BINADE as int - 1
        },
{
    proof {
        lemma2_to64();
        assert(pow2(0) == 1);
        assert(u * 1 == u);
    }
    if u < BINADE {
        (u as u128, 0)
    } else {
        let e: u64 = u / BINADE;
        (BINADE as u128 + (u % BINADE) as u128, e as i32 - 1)
    }
}

/// Adding a number below a quarter of the gap changes nothing.
proof fn lemma_absorbed(u: int, x: int, y: int)
    requires
        BINADE <= u < INFINITE,
        x == crate::double::size(u) + y || x == crate::double::size(u) - y,
        0 <= y,
        4 * y < crate::double::gap(u),
        u >= 2 * BINADE,
    ensures
        crate::rounding::nearest(x, 1, u),
        x > 0,
        rounded(true, x, 1) == Double::signed(true, u),
        rounded(false, x, 1) == Double::signed(false, u),
{
    let w = BINADE as int;
    crate::double::lemma_size_step(u);
    crate::double::lemma_size_step(u - 1);
    let e = (u / w - 1) as nat;
    assert(crate::double::gap(u) <= 2 * crate::double::gap(u - 1)) by {
        lemma_pow2_unfold(e);
        assert((u - 1) / w == u / w || (u - 1) / w == u / w - 1);
    }
    assert(1 * crate::rounding::twice_midpoint(u - 1) == crate::rounding::twice_midpoint(u - 1));
    assert(1 * crate::rounding::twice_midpoint(u) == crate::rounding::twice_midpoint(u));
    assert(crate::rounding::nearest(x, 1, u));
    let v = choose|v: int| crate::rounding::nearest(x, 1, v);
    crate::rounding::lemma_nearest_unique(x, 1, u, v);
    crate::double::lemma_magnitude_order(u - 1, u);
}

impl Double {
    /// `self` with the other sign.
    pub fn neg(self) -> (r: Double)
        ensures
            r == self.negated(),
    {
        Double::with_sign(!(self.bits >= SIGN), self.magnitude_bits())
    }

    /// `self + other`.
    pub fn add(self, other: Double) -> (r: Double)
        ensures
            r == self.sum(other),
    {
        if self.nan() || other.nan() {
            return Double { bits: NAN_BITS };
        }
        let a: u64 = self.magnitude_bits();
        let b: u64 = other.magnitude_bits();
        let left: bool = self.bits >= SIGN;
        let right: bool = other.bits >= SIGN;
        if a == INFINITE {
            if b == INFINITE && left != right {
                return Double { bits: NAN_BITS };
            }
            return self;
        }
        if b == INFINITE {
            return other;
        }
        if a >= b {
            add_ordered(left, a, right, b)
        } else {
            add_ordered(right, b, left, a)
        }
    }

    /// `self - other`.
    pub fn sub(self, other: Double) -> (r: Double)
        ensures
            r == self.difference(other),
    {
        self.add(other.neg())
    }
}

/// The sum of two finite numbers, the larger magnitude first.
fn add_ordered(left: bool, a: u64, right: bool, b: u64) -> (r: Double)
    requires
        b <= a < INFINITE,
    ensures
        r == Double::signed(left, a as int).sum(Double::signed(right, b as int)),
        r == Double::signed(right, b as int).sum(Double::signed(left, a as int)),
{
    let (m, e) = unpack(a);
    let (n, f) = unpack(b);
    let ghost x = crate::double::size(a as int);
    let ghost y = crate::double::size(b as int);
    proof {
        crate::double::lemma_magnitude_order(a as int, b as int);
        if a >= BINADE && b >= BINADE {
            vstd::arithmetic::div_mod::lemma_div_is_ordered(b as int, a as int, BINADE as int);
        }
    }
    let d: i32 = e - f;
    if d > 64 {
        proof {
            crate::rounding::lemma_pow2_128();
            lemma_pow2_adds((f + 55) as nat, (e - f - 55) as nat);
            lemma_pow2_adds(f as nat, 55);
            lemma_pow2_pos((e - f - 55) as nat);
            lemma2_to64_rest();
            lemma_pow2_pos(f as nat);
            let pe = pow2(e as nat) as int;
            let pf = pow2(f as nat) as int;
            assert(4 * y < pe) by (nonlinear_arith)
                requires
                    y == n * pf,
                    n < 0x20_0000_0000_0000,
                    pf > 0,
                    pe == (pf * 0x80_0000_0000_0000) * pow2((e - f - 55) as nat),
                    pow2((e - f - 55) as nat) >= 1,
            ;
            lemma_absorbed(a as int, x + y, y);
            lemma_absorbed(a as int, x - y, y);
        }
        return Double::with_sign(left, a);
    }
    proof {
        lemma_aligned(m as int, e as nat, n as int, f as nat);
    }
    let big: u128 = crate::rounding::scale_up(m, d as u32);
    proof {
        lemma_cancel(n as int, big as int, pow2(f as nat) as int);
    }
    if left == right {
        let s: u128 = big + n;
        if s == 0 {
            proof {
                assert(0 * pow2(f as nat) == 0);
            }
            return Double::with_sign(left, 0);
        }
        proof {
            lemma_times(0, s as int, pow2(f as nat) as int);
        }
        let u: u64 = crate::rounding::round(s, f, true);
        proof {
            lemma_whole(x + y, s as int, f as int, u as int);
        }
        Double::with_sign(left, u)
    } else {
        let s: u128 = big - n;
        if s == 0 {
            proof {
                assert(0 * pow2(f as nat) == 0);
            }
            return Double { bits: 0 };
        }
        proof {
            lemma_times(0, s as int, pow2(f as nat) as int);
        }
        let u: u64 = crate::rounding::round(s, f, true);
        proof {
            lemma_whole(x - y, s as int, f as int, u as int);
        }
        Double::with_sign(left, u)
    }
}

/// Two numbers over the smaller one's exponent.
proof fn lemma_aligned(m: int, e: nat, n: int, f: nat)
    requires
        0 <= m < 2 * BINADE,
        0 <= n < 2 * BINADE,
        f <= e <= f + 64,
    ensures
        m * pow2((e - f) as nat) < 0x80_0000_0000_0000_0000_0000_0000_0000,
        m * pow2(e) == (m * pow2((e - f) as nat)) * pow2(f),
        m * pow2(e) + n * pow2(f) == (m * pow2((e - f) as nat) + n) * pow2(f),
        m * pow2(e) - n * pow2(f) == (m * pow2((e - f) as nat) - n) * pow2(f),
        pow2(f) > 0,
{
    let d = (e - f) as nat;
    let pd = pow2(d) as int;
    let pf = pow2(f) as int;
    lemma_pow2_pos(f);
    crate::rounding::lemma_pow2_128();
    lemma_pow2_adds(d, f);
    if d < 64 {
        lemma_pow2_strictly_increases(d, 64);
    }
    assert(m * pd < 0x80_0000_0000_0000_0000_0000_0000_0000) by (nonlinear_arith)
        requires
            0 <= m < 0x20_0000_0000_0000,
            0 <= pd <= 0x1_0000_0000_0000_0000,
    ;
    assert(m * (pd * pf) == (m * pd) * pf) by (nonlinear_arith);
    assert((m * pd) * pf + n * pf == (m * pd + n) * pf) by (nonlinear_arith);
    assert((m * pd) * pf - n * pf == (m * pd - n) * pf) by (nonlinear_arith);
}

/// What `round` finds for a whole number is nearest to it.
proof fn lemma_whole(x: int, s: int, k: int, u: int)
    requires
        k >= 0,
        x == s * pow2(k as nat),
        u <= INFINITE,
        crate::rounding::rounds(s, k, true, u),
    ensures
        crate::rounding::nearest(x, 1, u),
        rounded(true, x, 1) == Double::signed(true, u),
        rounded(false, x, 1) == Double::signed(false, u),
{
    let c = pow2(SHIFT as nat) as int;
    let p = pow2((k + SHIFT) as nat) as int;
    lemma_pow2_adds(k as nat, SHIFT as nat);
    assert(x * c == s * (p * 1)) by (nonlinear_arith)
        requires
            x == s * pow2(k as nat),
            p == pow2(k as nat) * c,
    ;
    lemma_bracketed(x, 1, s, k, true, u);
}

impl Double {
    /// `self * other`.
    pub fn mul(self, other: Double) -> (r: Double)
        ensures
            r == self.product(other),
    {
        let negative: bool = (self.bits >= SIGN) != (other.bits >= SIGN);
        let a: u64 = self.magnitude_bits();
        let b: u64 = other.magnitude_bits();
        if a > INFINITE || b > INFINITE {
            return Double { bits: NAN_BITS };
        }
        if a == INFINITE || b == INFINITE {
            if a == 0 || b == 0 {
                return Double { bits: NAN_BITS };
            }
            return Double::with_sign(negative, INFINITE);
        }
        let (m, e) = unpack(a);
        let (n, f) = unpack(b);
        proof {
            assert(m * n < 0x400_0000_0000_0000_0000_0000_0000) by (nonlinear_arith)
                requires
                    0 <= m < 0x20_0000_0000_0000,
                    0 <= n < 0x20_0000_0000_0000,
            ;
        }
        let s: u128 = m * n;
        let k: i32 = e + f - UNIT;
        let u: u64 = crate::rounding::round(s, k, true);
        proof {
            let c = pow2(SHIFT as nat) as int;
            let num = crate::double::size(a as int) * crate::double::size(b as int);
            lemma_pow2_pos(UNIT as nat);
            lemma_pow2_adds(e as nat, f as nat);
            lemma_pow2_adds((e + f) as nat, SHIFT as nat);
            lemma_pow2_adds((k + SHIFT) as nat, UNIT as nat);
            let p = pow2((k + SHIFT) as nat) as int;
            let ef = pow2((e + f) as nat) as int;
            assert(num == s * ef) by (nonlinear_arith)
                requires
                    num == (m * pow2(e as nat)) * (n * pow2(f as nat)),
                    pow2(e as nat) * pow2(f as nat) == ef,
                    s == m * n,
            ;
            assert(num * c == s * (p * one())) by (nonlinear_arith)
                requires
                    num == s * ef,
                    p * one() == ef * c,
            ;
            lemma_bracketed(num, one(), s as int, k as int, true, u as int);
        }
        Double::with_sign(negative, u)
    }

    /// `self / other`.
    pub fn div(self, other: Double) -> (r: Double)
        ensures
            r == self.quotient(other),
    {
        let negative: bool = (self.bits >= SIGN) != (other.bits >= SIGN);
        let a: u64 = self.magnitude_bits();
        let b: u64 = other.magnitude_bits();
        if a > INFINITE || b > INFINITE {
            return Double { bits: NAN_BITS };
        }
        if a == INFINITE {
            if b == INFINITE {
                return Double { bits: NAN_BITS };
            }
            return Double::with_sign(negative, INFINITE);
        }
        if b == INFINITE {
            return Double::with_sign(negative, 0);
        }
        if b == 0 {
            if a == 0 {
                return Double { bits: NAN_BITS };
            }
            return Double::with_sign(negative, INFINITE);
        }
        let (m, e) = unpack(a);
        let (n, f) = unpack(b);
        let (big, t) = lift(m, 60);
        let q: u128 = big / n;
        let exact: bool = big % n == 0;
        let k: i32 = e - t - f + UNIT;
        proof {
            lemma_division(m as int, big as int, n as int);
        }
        let u: u64 = crate::rounding::round(q, k, exact);
        proof {
            let num = crate::double::size(a as int) * one();
            let den = crate::double::size(b as int);
            crate::double::lemma_magnitude_order(0, b as int);
            lemma_ratio(m as int, e as int, n as int, f as int, t as int, big as int, q as int);
            lemma_bracketed(num, den, q as int, k as int, exact, u as int);
        }
        Double::with_sign(negative, u)
    }

    /// The square root of `self`.
    pub fn sqrt(self) -> (r: Double)
        ensures
            r == self.root(),
    {
        if self.nan() {
            return Double { bits: NAN_BITS };
        }
        let a: u64 = self.magnitude_bits();
        if a == 0 {
            return self;
        }
        if self.bits >= SIGN {
            return Double { bits: NAN_BITS };
        }
        if a == INFINITE {
            return self;
        }
        let (m, e) = unpack(a);
        let odd: bool = (e + digit_gap(m)) % 2 != 0;
        let (big, t) = lift(m, if odd {
            59
        } else {
            58
        });
        let k: i32 = (e + UNIT - t) / 2;
        let s: u128 = whole_root(big);
        let exact: bool = s * s == big;
        proof {
            lemma_root_bound(s as int, big as int);
        }
        let u: u64 = crate::rounding::round(s, k, exact);
        proof {
            let n = crate::double::size(a as int) * one();
            lemma_root_scale(m as int, e as int, t as int, k as int, big as int);
            lemma_bracketed_root(n, s as int, k as int, exact, u as int, big as int);
        }
        Double::with_sign(false, u)
    }

    /// The double nearest to `n`.
    pub fn from_count(n: usize) -> (r: Double)
        ensures
            r == Double::whole(n as int),
    {
        let u: u64 = crate::rounding::round(n as u128, UNIT, true);
        proof {
            lemma_whole(n * one(), n as int, UNIT as int, u as int);
        }
        Double::with_sign(false, u)
    }
}

/// How many digits a significand lacks.
fn digit_gap(m: u128) -> (l: i32)
    requires
        m < 2 * BINADE,
    ensures
        0 <= l <= 53,
        m * pow2(l as nat) < 2 * BINADE,
        m > 0 ==> m * pow2(l as nat) >= BINADE,
        l == missing(m as int),
{
    let n: u32 = crate::rounding::digits(m);
    proof {
        lemma_missing(m as int, n as nat);
    }
    53 - n as i32
}

/// How many digits a significand lacks.
spec fn missing(m: int) -> int {
    53 - choose|n: nat| has_digits(m, n)
}

spec fn has_digits(m: int, n: nat) -> bool {
    &&& m < pow2(n)
    &&& m > 0 ==> n > 0 && pow2((n - 1) as nat) <= m
    &&& m == 0 ==> n == 0
}

proof fn lemma_missing(m: int, n: nat)
    requires
        0 <= m < 2 * BINADE,
        has_digits(m, n),
    ensures
        n <= 53,
        missing(m) == 53 - n,
        m * pow2((53 - n) as nat) < 2 * BINADE,
        m > 0 ==> m * pow2((53 - n) as nat) >= BINADE,
{
    crate::rounding::lemma_pow2_128();
    if n > 53 {
        if n > 54 {
            lemma_pow2_strictly_increases(53, (n - 1) as nat);
        }
        assert(false);
    }
    let v = choose|v: nat| has_digits(m, v);
    if m > 0 {
        if v < n {
            if v < n - 1 {
                lemma_pow2_strictly_increases(v, (n - 1) as nat);
            }
        } else if n < v {
            if n < v - 1 {
                lemma_pow2_strictly_increases(n, (v - 1) as nat);
            }
        }
        let l = (53 - n) as nat;
        lemma_pow2_pos(l);
        lemma_pow2_adds(n, l);
        lemma_pow2_adds((n - 1) as nat, l);
        let pl = pow2(l) as int;
        let pn = pow2(n) as int;
        let ph = pow2((n - 1) as nat) as int;
        assert(m * pl < pn * pl) by (nonlinear_arith)
            requires
                m < pn,
                pl > 0,
        ;
        assert(m * pl >= ph * pl) by (nonlinear_arith)
            requires
                m >= ph,
                pl > 0,
        ;
    } else {
        assert(0 * pow2((53 - n) as nat) == 0);
    }
}

/// A significand, brought to full length and moved up by `j` more digits;
/// and how far it was moved in all.
fn lift(m: u128, j: i32) -> (r: (u128, i32))
    requires
        m < 2 * BINADE,
        58 <= j <= 60,
    ensures
        r.1 == missing(m as int) + j,
        j <= r.1 <= 53 + j,
        r.0 == m * pow2(r.1 as nat),
        r.0 < 0x2_0000_0000_0000_0000_0000_0000_0000,
        j < 60 ==> r.0 < 0x1_0000_0000_0000_0000_0000_0000_0000,
        m > 0 ==> r.0 >= 0x4000_0000_0000_0000_0000_0000_0000,
        m > 0 && j == 60 ==> r.0 >= 0x1_0000_0000_0000_0000_0000_0000_0000,
{
    let l: i32 = digit_gap(m);
    proof {
        let pl = pow2(l as nat) as int;
        let pj = pow2(j as nat) as int;
        let x = m * pl;
        lemma_pow2_adds(l as nat, j as nat);
        lemma2_to64_rest();
        assert(m * (pl * pj) == x * pj) by (nonlinear_arith)
            requires
                x == m * pl,
        ;
        assert(x * pj < 0x20_0000_0000_0000 * pj) by (nonlinear_arith)
            requires
                x < 0x20_0000_0000_0000,
                pj > 0,
        ;
        if m > 0 {
            assert(x * pj >= 0x10_0000_0000_0000 * pj) by (nonlinear_arith)
                requires
                    x >= 0x10_0000_0000_0000,
                    pj > 0,
            ;
        }
    }
    (crate::rounding::scale_up(m, (l + j) as u32), l + j)
}

proof fn lemma_division(m: int, big: int, n: int)
    requires
        0 < n < 2 * BINADE,
        0 <= big < 0x2_0000_0000_0000_0000_0000_0000_0000,
        m > 0 ==> big >= 0x1_0000_0000_0000_0000_0000_0000_0000,
        m == 0 ==> big == 0,
        m >= 0,
    ensures
        (big / n) * n <= big < (big / n + 1) * n,
        big % n == 0 <==> big == (big / n) * n,
        0 <= big / n <= big,
        big % n != 0 ==> big / n >= 0x40_0000_0000_0000,
{
    let q = big / n;
    vstd::arithmetic::div_mod::lemma_fundamental_div_mod(big, n);
    vstd::arithmetic::div_mod::lemma_mod_bound(big, n);
    vstd::arithmetic::div_mod::lemma_div_pos_is_pos(big, n);
    assert(n * q == q * n) by (nonlinear_arith);
    assert((q + 1) * n == q * n + n) by (nonlinear_arith);
    assert(q <= q * n) by (nonlinear_arith)
        requires
            q >= 0,
            n >= 1,
    ;
    if m > 0 {
        assert(q >= 0x40_0000_0000_0000) by (nonlinear_arith)
            requires
                (q + 1) * n > 0x1_0000_0000_0000_0000_0000_0000_0000,
                0 < n < 0x20_0000_0000_0000,
        ;
    } else {
        assert(0int % n == 0) by {
            vstd::arithmetic::div_mod::lemma_small_mod(0, n as nat);
        }
    }
}

proof fn lemma_ratio(m: int, e: int, n: int, f: int, t: int, big: int, q: int)
    requires
        0 <= e,
        0 <= f <= 2045,
        0 <= t <= 113,
        0 < n,
        big == m * pow2(t as nat),
        q * n <= big < (q + 1) * n,
    ensures
        ({
            let x = (m * pow2(e as nat)) * one() * pow2(SHIFT as nat);
            let p = pow2((e - t - f + UNIT + SHIFT) as nat) * (n * pow2(f as nat));
            &&& big == q * n ==> x == q * p
            &&& big != q * n ==> q * p < x < (q + 1) * p
        }),
{
    let c = pow2(SHIFT as nat) as int;
    let g = (e - t + UNIT + SHIFT) as nat;
    let pg = pow2(g) as int;
    let pe = pow2(e as nat) as int;
    let pt = pow2(t as nat) as int;
    let h = (e - t - f + UNIT + SHIFT) as nat;
    let ph = pow2(h) as int;
    let pf = pow2(f as nat) as int;
    lemma_pow2_pos(g);
    lemma_pow2_adds(h, f as nat);
    lemma_pow2_adds(t as nat, g);
    lemma_pow2_adds(e as nat, UNIT as nat);
    lemma_pow2_adds((e + UNIT) as nat, SHIFT as nat);
    let x = (m * pe) * one() * c;
    let p = ph * (n * pf);
    assert(x == big * pg) by (nonlinear_arith)
        requires
            x == (m * pe) * one() * c,
            big == m * pt,
            pt * pg == (pe * one()) * c,
    ;
    assert(p == n * pg) by (nonlinear_arith)
        requires
            p == ph * (n * pf),
            ph * pf == pg,
    ;
    assert(q * p == (q * n) * pg) by (nonlinear_arith)
        requires
            p == n * pg,
    ;
    assert((q + 1) * p == ((q + 1) * n) * pg) by (nonlinear_arith)
        requires
            p == n * pg,
    ;
    lemma_times(q * n, big, pg);
    lemma_times(big, (q + 1) * n, pg);
}

/// The whole part of the square root.
fn whole_root(x: u128) -> (s: u128)
    requires
        x < 0x1_0000_0000_0000_0000_0000_0000_0000,
    ensures
        s * s <= x < (s + 1) * (s + 1),
        s < 0x100_0000_0000_0000,
{
    let mut s: u128 = 0;
    let mut b: u128 = 0x100_0000_0000_0000;
    proof {
        assert(0 * 0 == 0);
        assert((0 + b) * (0 + b) == 0x1_0000_0000_0000_0000_0000_0000_0000) by (nonlinear_arith)
            requires
                b == 0x100_0000_0000_0000,
        ;
    }
    let mut i: u32 = 56;
    proof {
        lemma2_to64_rest();
    }
    while b > 1
        invariant
            i <= 56,
            b == pow2(i as nat),
            b <= 0x100_0000_0000_0000,
            s + b <= 0x100_0000_0000_0000,
            s * s <= x < (s + b) * (s + b),
        decreases b,
    {
        proof {
            lemma2_to64();
            if i == 0 {
                assert(false);
            }
            lemma_pow2_unfold(i as nat);
        }
        b = b / 2;
        i = i - 1;
        let c: u128 = s + b;
        proof {
            assert(c * c < 0x1_0000_0000_0000_0000_0000_0000_0000) by (nonlinear_arith)
                requires
                    0 <= c < 0x100_0000_0000_0000,
            ;
        }
        if c * c <= x {
            s = c;
        }
    }
    proof {
        lemma_pow2_pos(i as nat);
    }
    s
}

proof fn lemma_root_bound(s: int, big: int)
    requires
        0 <= s,
        0x4000_0000_0000_0000_0000_0000_0000 <= big < (s + 1) * (s + 1),
    ensures
        s >= 0x40_0000_0000_0000,
{
    assert(s >= 0x40_0000_0000_0000) by (nonlinear_arith)
        requires
            0 <= s,
            0x4000_0000_0000_0000_0000_0000_0000 < (s + 1) * (s + 1),
    ;
}

proof fn lemma_root_scale(m: int, e: int, t: int, k: int, big: int)
    requires
        0 <= t,
        0 <= e,
        0 <= k,
        2 * k == e + UNIT - t,
        big == m * pow2(t as nat),
    ensures
        (m * pow2(e as nat)) * one() == big * (pow2(k as nat) * pow2(k as nat)),
{
    lemma_pow2_adds(k as nat, k as nat);
    lemma_pow2_adds(t as nat, (2 * k) as nat);
    lemma_pow2_adds(e as nat, UNIT as nat);
    let pe = pow2(e as nat) as int;
    let pt = pow2(t as nat) as int;
    let pk = pow2((2 * k) as nat) as int;
    assert((m * pe) * one() == (m * pt) * pk) by (nonlinear_arith)
        requires
            pe * one() == pt * pk,
    ;
}

/// A magnitude that is nearest to what a bracket holds is nearest to the
/// bracketed square root.
proof fn lemma_bracketed_root(n: int, s: int, k: int, exact: bool, u: int, big: int)
    requires
        k >= 0,
        s >= 0,
        u <= INFINITE,
        crate::rounding::rounds(s, k, exact, u),
        n == big * (pow2(k as nat) * pow2(k as nat)),
        s * s <= big < (s + 1) * (s + 1),
        exact <==> s * s == big,
    ensures
        rounded_root(n) == Double::signed(false, u),
{
    let pk = pow2(k as nat) as int;
    lemma_pow2_pos(k as nat);
    lemma_pow2_pos(SHIFT as nat);
    lemma_pow2_adds(k as nat, SHIFT as nat);
    if u > 0 {
        crate::rounding::lemma_midpoints_increase(u - 1, u);
        lemma_transfer_root(crate::rounding::twice_midpoint(u - 1), n, s, pk, big);
    }
    if u < INFINITE {
        crate::rounding::lemma_midpoints_increase(u, u + 1);
        lemma_transfer_root(crate::rounding::twice_midpoint(u), n, s, pk, big);
    }
    assert(crate::rounding::nearest_root(n, u));
    let v = choose|v: int| crate::rounding::nearest_root(n, v);
    crate::rounding::lemma_nearest_root_unique(n, u, v);
}

proof fn lemma_transfer_root(m: int, n: int, s: int, pk: int, big: int)
    requires
        m > 0,
        s >= 0,
        pk > 0,
        n == big * (pk * pk),
        s * s <= big < (s + 1) * (s + 1),
    ensures
        ({
            let c = pow2(SHIFT as nat);
            let p = pk * c;
            &&& m * c < 2 * s * p ==> m * m < 4 * n
            &&& m * c == 2 * s * p && s * s < big ==> m * m < 4 * n
            &&& m * c == 2 * s * p && s * s == big ==> m * m == 4 * n
            &&& 2 * s * p < m * c && s * s == big ==> 4 * n < m * m
            &&& 2 * (s + 1) * p <= m * c ==> 4 * n < m * m
        }),
{
    let c = pow2(SHIFT as nat) as int;
    let p = pk * c;
    lemma_pow2_pos(SHIFT as nat);
    let a = 2 * s * pk;
    let b = 2 * (s + 1) * pk;
    assert(2 * s * p == a * c) by (nonlinear_arith)
        requires
            p == pk * c,
            a == 2 * s * pk,
    ;
    assert(2 * (s + 1) * p == b * c) by (nonlinear_arith)
        requires
            p == pk * c,
            b == 2 * (s + 1) * pk,
    ;
    lemma_cancel(m, a, c);
    lemma_cancel(b, m, c);
    let w = pk * pk;
    assert(w > 0) by (nonlinear_arith)
        requires
            w == pk * pk,
            pk > 0,
    ;
    assert(a * a == 4 * ((s * s) * w)) by (nonlinear_arith)
        requires
            a == 2 * s * pk,
            w == pk * pk,
    ;
    assert(b * b == 4 * (((s + 1) * (s + 1)) * w)) by (nonlinear_arith)
        requires
            b == 2 * (s + 1) * pk,
            w == pk * pk,
    ;
    lemma_times(s * s, big, w);
    lemma_times(big, (s + 1) * (s + 1), w);
    assert(a >= 0) by (nonlinear_arith)
        requires
            a == 2 * s * pk,
            s >= 0,
            pk > 0,
    ;
    assert(m < a ==> m * m < a * a) by (nonlinear_arith)
        requires
            m > 0,
    ;
    assert(a < m ==> a * a < m * m) by (nonlinear_arith)
        requires
            a >= 0,
    ;
    assert(b > 0) by (nonlinear_arith)
        requires
            b == 2 * (s + 1) * pk,
            s >= 0,
            pk > 0,
    ;
    assert(b <= m ==> b * b <= m * m) by (nonlinear_arith)
        requires
            b > 0,
    ;
}

} // verus!
