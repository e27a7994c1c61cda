//! How large the numbers of a fit can get: a cloud within a bound gets a
//! capsule with finite ends.
use vstd::arithmetic::power2::*;
use vstd::prelude::*;

use crate::double::Double;
use crate::double::BINADE;
use crate::double::HALF;
use crate::double::INFINITE;
use crate::double::ONE;
use crate::double::QUARTER;
use crate::double::THREE_QUARTERS;
use crate::double::TWO;
use crate::fit::Eigen;
use crate::fit::Extent;
use crate::fit::DEGENERATE;
use crate::geometry::Capsule;
use crate::geometry::Matrix;
use crate::geometry::Vector;

verus! {

/// The exponent of the largest coordinate that a bounded cloud has, in units
/// of the smallest positive double: two to the 900th.
pub const REACH: u32 = 1974;

/// Whether a number lies within two to the `k`th of zero, in units of the
/// smallest positive double.
pub open spec fn is_bounded(a: Double, k: nat) -> bool {
    &&& !a.is_nan()
    &&& crate::double::size(a.magnitude()) <= pow2(k)
}

/// Whether the coordinates lie within two to the `k`th of zero.
pub open spec fn all_bounded(v: Vector, k: nat) -> bool {
    is_bounded(v.x, k) && is_bounded(v.y, k) && is_bounded(v.z, k)
}

/// The infinity counts as the power of two after the largest double.
pub proof fn lemma_infinite()
    ensures
        crate::double::size(INFINITE as int) == pow2(2098),
{
    let w = BINADE as int;
    crate::rounding::lemma_pow2_128();
    lemma_pow2_adds(52, 2046);
    assert(INFINITE as int / w == 2047 && INFINITE as int % w == 0);
}

/// A bounded number is finite, and negating it changes nothing.
pub proof fn lemma_bounded(a: Double, k: nat)
    requires
        is_bounded(a, k),
        k <= 2097,
    ensures
        a.is_finite(),
        is_bounded(a.negated(), k),
        a.negated().is_finite(),
        a.negated().value() == -a.value(),
        -pow2(k) <= a.value() <= pow2(k),
        crate::double::size(a.magnitude()) >= 0,
{
    lemma_infinite();
    lemma_pow2_strictly_increases(k, 2098);
    crate::double::lemma_magnitude_order(a.magnitude(), INFINITE as int);
}

/// A larger bound is a bound too.
pub proof fn lemma_looser(a: Double, k: nat, m: nat)
    requires
        is_bounded(a, k),
        k <= m,
    ensures
        is_bounded(a, m),
{
    if k < m {
        lemma_pow2_strictly_increases(k, m);
    }
}

/// Up to twice two to the 52nd of any power of two there is a magnitude for
/// each.
pub proof fn lemma_representable(q: int, e: nat) -> (u: int)
    requires
        0 <= q <= 2 * BINADE,
    ensures
        0 <= u,
        crate::double::size(u) == q * pow2(e),
    decreases e,
{
    if q >= BINADE || e == 0 {
        crate::rounding::lemma_pack(e, q);
        assert(e * BINADE >= 0) by (nonlinear_arith);
        e * BINADE + q
    } else {
        lemma_pow2_unfold(e);
        assert((2 * q) * pow2((e - 1) as nat) == q * pow2(e)) by (nonlinear_arith)
            requires
                pow2(e) == 2 * pow2((e - 1) as nat),
        ;
        lemma_representable(2 * q, (e - 1) as nat)
    }
}

/// Rounding stays within a bound that is representable.
pub proof fn lemma_rounds_within(num: int, den: int, u: int, q: int, e: nat)
    requires
        den > 0,
        crate::rounding::nearest(num, den, u),
        0 <= q <= 2 * BINADE,
        q * pow2(e) < pow2(2098),
        num <= den * (q * pow2(e)),
    ensures
        crate::double::size(u) <= q * pow2(e),
        u < INFINITE,
{
    let v = lemma_representable(q, e);
    lemma_infinite();
    crate::double::lemma_magnitude_order(v, INFINITE as int);
    crate::rounding::lemma_nearest_bounds(num, den, u, v);
    crate::double::lemma_magnitude_order(u, v);
}

/// A sum is within a representable bound that the exact one is within.
pub proof fn lemma_sum_within(a: Double, b: Double, q: int, e: nat)
    requires
        a.is_finite(),
        b.is_finite(),
        0 <= q <= 2 * BINADE,
        q * pow2(e) < pow2(2098),
        crate::double::size(a.magnitude()) + crate::double::size(b.magnitude()) <= q * pow2(e),
    ensures
        !a.sum(b).is_nan(),
        crate::double::size(a.sum(b).magnitude()) <= q * pow2(e),
{
    let x = a.value() + b.value();
    let u = a.sum(b).magnitude();
    crate::arithmetic::lemma_finite_sum(a, b);
    crate::double::lemma_magnitude_order(a.magnitude(), b.magnitude());
    let t = q * pow2(e);
    assert(1 * t == t);
    if x > 0 {
        lemma_rounds_within(x, 1, u, q, e);
    } else if x < 0 {
        lemma_rounds_within(-x, 1, u, q, e);
    }
}

pub proof fn lemma_sum(a: Double, b: Double, k: nat)
    requires
        is_bounded(a, k),
        is_bounded(b, k),
        k < 2097,
    ensures
        is_bounded(a.sum(b), k + 1),
        is_bounded(a.difference(b), k + 1),
{
    lemma_bounded(a, k);
    lemma_bounded(b, k);
    lemma_pow2_unfold((k + 1) as nat);
    lemma_pow2_strictly_increases((k + 1) as nat, 2098);
    let t = pow2((k + 1) as nat);
    assert(1 * t == t);
    lemma_sum_within(a, b, 1, (k + 1) as nat);
    lemma_sum_within(a, b.negated(), 1, (k + 1) as nat);
}

pub proof fn lemma_product(a: Double, j: nat, b: Double, k: nat, m: nat)
    requires
        is_bounded(a, j),
        is_bounded(b, k),
        j <= 2097,
        k <= 2097,
        m <= 2097,
        j + k == m + 1074,
    ensures
        is_bounded(a.product(b), m),
{
    lemma_bounded(a, j);
    lemma_bounded(b, k);
    let one = crate::arithmetic::one();
    let (x, y) = (crate::double::size(a.magnitude()), crate::double::size(b.magnitude()));
    let (p, q) = (pow2(j) as int, pow2(k) as int);
    assert(x * y <= p * q) by (nonlinear_arith)
        requires
            0 <= x <= p,
            0 <= y <= q,
    ;
    lemma_pow2_adds(j, k);
    lemma_pow2_adds(1074, m);
    lemma_pow2_pos(1074);
    lemma_pow2_strictly_increases(m, 2098);
    let t = pow2(m);
    assert(1 * t == t);
    let negative = a.is_negative() != b.is_negative();
    crate::arithmetic::lemma_rounded(negative, x * y, one);
    lemma_rounds_within(x * y, one, a.product(b).magnitude(), 1, m);
}

/// The sizes of the numbers that a fit multiplies and divides by.
pub proof fn lemma_constants()
    ensures
        crate::double::size(ONE as int) == pow2(1074),
        crate::double::size(TWO as int) == pow2(1075),
        crate::double::size(HALF as int) == pow2(1073),
        pow2(1074) == 2 * pow2(1073),
        crate::double::size(QUARTER as int) <= pow2(1074),
        crate::double::size(THREE_QUARTERS as int) <= pow2(1074),
        crate::double::size(DEGENERATE as int) > 0,
        pow2(1075) == 2 * pow2(1074),
        pow2(1074) > 0,
{
    let w = BINADE as int;
    crate::rounding::lemma_pow2_128();
    lemma_pow2_adds(52, 1021);
    lemma_pow2_adds(52, 1022);
    lemma_pow2_adds(52, 1023);
    lemma_pow2_unfold(1074);
    assert(HALF as int / w == 1022 && HALF as int % w == 0);
    lemma_pow2_unfold(1075);
    lemma_pow2_pos(1074);
    assert(ONE as int / w == 1023 && ONE as int % w == 0);
    assert(TWO as int / w == 1024 && TWO as int % w == 0);
    crate::double::lemma_magnitude_order(QUARTER as int, ONE as int);
    crate::double::lemma_magnitude_order(THREE_QUARTERS as int, ONE as int);
    crate::double::lemma_magnitude_order(DEGENERATE as int, 0);
}

pub proof fn lemma_halved(a: Double, k: nat)
    requires
        is_bounded(a, k),
        k <= 2097,
    ensures
        is_bounded(a.quotient(Double { bits: TWO }), k),
{
    lemma_bounded(a, k);
    lemma_constants();
    lemma_pow2_strictly_increases(k, 2098);
    let one = crate::arithmetic::one();
    let two = crate::double::size(TWO as int);
    let x = crate::double::size(a.magnitude());
    let t = pow2(k) as int;
    assert(x * one <= two * t) by (nonlinear_arith)
        requires
            0 <= x <= t,
            two == 2 * one,
            one > 0,
    ;
    assert(1 * t == t);
    crate::arithmetic::lemma_rounded(a.is_negative(), x * one, two);
    lemma_rounds_within(
        x * one,
        two,
        a.quotient(Double { bits: TWO }).magnitude(),
        1,
        k,
    );
}

proof fn lemma_vector_sum(a: Vector, b: Vector, k: nat)
    requires
        all_bounded(a, k),
        all_bounded(b, k),
        k < 2097,
    ensures
        all_bounded(a.sum(b), k + 1),
        all_bounded(a.difference(b), k + 1),
{
    lemma_sum(a.x, b.x, k);
    lemma_sum(a.y, b.y, k);
    lemma_sum(a.z, b.z, k);
}

/// Scaling a direction whose coordinates are at most two.
proof fn lemma_vector_scaled(a: Vector, t: Double, k: nat)
    requires
        all_bounded(a, 1075),
        is_bounded(t, k),
        k < 2097,
    ensures
        all_bounded(a.scaled(t), k + 1),
{
    lemma_product(a.x, 1075, t, k, (k + 1) as nat);
    lemma_product(a.y, 1075, t, k, (k + 1) as nat);
    lemma_product(a.z, 1075, t, k, (k + 1) as nat);
}

proof fn lemma_inner(d: Vector, axis: Vector, k: nat)
    requires
        all_bounded(d, k),
        all_bounded(axis, 1075),
        k < 2094,
    ensures
        is_bounded(d.inner(axis), k + 3),
{
    lemma_product(d.x, k, axis.x, 1075, (k + 1) as nat);
    lemma_product(d.y, k, axis.y, 1075, (k + 1) as nat);
    lemma_product(d.z, k, axis.z, 1075, (k + 1) as nat);
    lemma_sum(d.x.product(axis.x), d.y.product(axis.y), (k + 1) as nat);
    lemma_looser(d.z.product(axis.z), (k + 1) as nat, (k + 2) as nat);
    lemma_sum(
        d.x.product(axis.x).sum(d.y.product(axis.y)),
        d.z.product(axis.z),
        (k + 2) as nat,
    );
}

/// Whether this is a number with no minus sign.
pub open spec fn is_plain(a: Double) -> bool {
    !a.is_nan() && !a.is_negative()
}

/// A sum of numbers without a minus sign is one, and no less than either.
pub proof fn lemma_plain_sum(a: Double, b: Double)
    requires
        is_plain(a),
        is_plain(b),
    ensures
        is_plain(a.sum(b)),
        a.value() <= a.sum(b).value(),
        b.value() <= a.sum(b).value(),
        a.is_infinite() || b.is_infinite() ==> a.sum(b).is_infinite(),
{
    let (x, y) = (a.magnitude(), b.magnitude());
    crate::double::lemma_magnitude_order(x, INFINITE as int);
    crate::double::lemma_magnitude_order(y, INFINITE as int);
    if a.is_finite() && b.is_finite() {
        let u = a.sum(b).magnitude();
        let t = a.value() + b.value();
        crate::arithmetic::lemma_finite_sum(a, b);
        if t > 0 {
            assert(1 * crate::double::size(x) == crate::double::size(x));
            assert(1 * crate::double::size(y) == crate::double::size(y));
            crate::rounding::lemma_nearest_bounds(t, 1, u, x);
            crate::rounding::lemma_nearest_bounds(t, 1, u, y);
            crate::double::lemma_magnitude_order(u, x);
            crate::double::lemma_magnitude_order(u, y);
        } else {
            crate::double::lemma_magnitude_order(x, y);
        }
    }
}

/// The square of a finite number: at least two thirds of the exact one, unless
/// that is too small or too large for a double.
pub proof fn lemma_squared(a: Double)
    requires
        a.is_finite(),
    ensures
        is_plain(a.product(a)),
        a.product(a).is_infinite() || ({
            let x = crate::double::size(a.magnitude());
            let one = crate::arithmetic::one();
            2 * (x * x) <= one || 2 * (x * x) <= 3 * (one * a.product(a).value())
        }),
{
    let one = crate::arithmetic::one();
    let x = crate::double::size(a.magnitude());
    let p = a.product(a);
    lemma_pow2_pos(1074);
    crate::arithmetic::lemma_rounded(false, x * x, one);
    assert(x * x >= 0) by (nonlinear_arith);
    if !p.is_infinite() {
        let u = p.magnitude();
        crate::rounding::lemma_nearest_error(x * x, one, u);
        let (y, g) = (crate::double::size(u), crate::double::gap(u));
        if u == 0 {
            assert(one * 1 == one);
        } else {
            crate::double::lemma_gap(u);
            assert(one * (2 * y + g) <= 3 * (one * y)) by (nonlinear_arith)
                requires
                    one > 0,
                    g <= y,
            ;
        }
    }
}

/// The length of a direction whose square is not degenerate is positive, and
/// no coordinate is more than twice as large.
proof fn lemma_length(v: Vector)
    requires
        v.is_finite(),
        !v.inner(v).less(Double { bits: DEGENERATE }),
    ensures
        is_plain(v.length()),
        v.length().magnitude() > 0,
        v.length().is_infinite() || {
            &&& crate::double::size(v.x.magnitude()) <= 2 * v.length().value()
            &&& crate::double::size(v.y.magnitude()) <= 2 * v.length().value()
            &&& crate::double::size(v.z.magnitude()) <= 2 * v.length().value()
        },
{
    let i = v.inner(v);
    let (a, b, c) = (v.x.product(v.x), v.y.product(v.y), v.z.product(v.z));
    lemma_squared(v.x);
    lemma_squared(v.y);
    lemma_squared(v.z);
    lemma_plain_sum(a, b);
    lemma_plain_sum(a.sum(b), c);
    lemma_constants();
    crate::double::lemma_magnitude_order(i.magnitude(), 0);
    if !i.is_infinite() {
        let l = v.length();
        lemma_root(i);
        if !l.is_infinite() {
            lemma_coordinate(v.x, a, i, l);
            lemma_coordinate(v.y, b, i, l);
            lemma_coordinate(v.z, c, i, l);
        }
    }
}

/// The root of a positive number is positive and nearest to the exact one.
pub proof fn lemma_root(i: Double)
    requires
        is_plain(i),
        0 < i.magnitude() < INFINITE,
    ensures
        is_plain(i.root()),
        i.root().magnitude() > 0,
        crate::rounding::nearest_root(
            crate::double::size(i.magnitude()) * crate::arithmetic::one(),
            i.root().magnitude(),
        ),
{
    let n = crate::double::size(i.magnitude()) * crate::arithmetic::one();
    lemma_pow2_pos(1074);
    crate::double::lemma_magnitude_order(i.magnitude(), 0);
    let one = crate::arithmetic::one();
    assert(n >= one) by (nonlinear_arith)
        requires
            n == crate::double::size(i.magnitude()) * one,
            crate::double::size(i.magnitude()) >= 1,
            one > 0,
    ;
    crate::rounding::lemma_nearest_root_exists(n);
    let u = choose|u: int| crate::rounding::nearest_root(n, u);
    if u == 0 {
        assert(crate::rounding::twice_midpoint(0) == 1);
        lemma_constants();
    }
}

proof fn lemma_coordinate(x: Double, p: Double, i: Double, l: Double)
    requires
        x.is_finite(),
        p == x.product(x),
        is_plain(p),
        is_plain(i),
        0 < i.magnitude() < INFINITE,
        p.value() <= i.value(),
        l == i.root(),
        !l.is_infinite(),
    ensures
        crate::double::size(x.magnitude()) <= 2 * l.value(),
{
    let one = crate::arithmetic::one();
    let s = crate::double::size(x.magnitude());
    let t = crate::double::size(i.magnitude());
    let u = l.magnitude();
    lemma_pow2_pos(1074);
    lemma_squared(x);
    lemma_root(i);
    crate::double::lemma_magnitude_order(i.magnitude(), 0);
    crate::double::lemma_magnitude_order(x.magnitude(), 0);
    crate::double::lemma_magnitude_order(p.magnitude(), INFINITE as int);
    crate::double::lemma_magnitude_order(i.magnitude(), INFINITE as int);
    let n = t * one;
    assert(n >= one) by (nonlinear_arith)
        requires
            n == t * one,
            t >= 1,
            one > 0,
    ;
    crate::rounding::lemma_root_error(n, u);
    let (y, g) = (crate::double::size(u), crate::double::gap(u));
    assert((2 * y + g) * (2 * y + g) <= 9 * (y * y)) by (nonlinear_arith)
        requires
            0 < g <= y,
    ;
    let q = p.value();
    assert(one * q <= n) by (nonlinear_arith)
        requires
            n == t * one,
            q <= t,
            one > 0,
    ;
    assert(2 * (s * s) <= 3 * n);
    assert(s <= 2 * y) by (nonlinear_arith)
        requires
            2 * (s * s) <= 3 * n,
            4 * n <= 9 * (y * y),
            s >= 0,
            y > 0,
    ;
}

/// The axis of a fit has coordinates of at most two, whatever finite
/// eigenvectors it is taken from.
pub proof fn lemma_axis(eigen: Eigen)
    requires
        crate::fit::dominant(eigen).is_finite(),
    ensures
        all_bounded(crate::fit::axis_of(eigen), 1075),
{
    let v = crate::fit::dominant(eigen);
    lemma_constants();
    crate::double::lemma_magnitude_order(0, ONE as int);
    lemma_pow2_pos(1075);
    if !v.inner(v).less(Double { bits: DEGENERATE }) {
        lemma_length(v);
        lemma_part(v.x, v.length());
        lemma_part(v.y, v.length());
        lemma_part(v.z, v.length());
    }
}

proof fn lemma_part(x: Double, l: Double)
    requires
        x.is_finite(),
        is_plain(l),
        l.magnitude() > 0,
        l.is_infinite() || crate::double::size(x.magnitude()) <= 2 * l.value(),
    ensures
        is_bounded(x.quotient(l), 1075),
{
    lemma_constants();
    lemma_pow2_pos(1075);
    crate::double::lemma_magnitude_order(0, l.magnitude());
    if !l.is_infinite() {
        let one = crate::arithmetic::one();
        let (s, y) = (crate::double::size(x.magnitude()), crate::double::size(l.magnitude()));
        let t = pow2(1075) as int;
        assert(s * one <= y * t) by (nonlinear_arith)
            requires
                s <= 2 * y,
                t == 2 * one,
                one > 0,
        ;
        assert(1 * t == t);
        lemma_pow2_strictly_increases(1075, 2098);
        crate::arithmetic::lemma_rounded(x.is_negative(), s * one, y);
        lemma_rounds_within(s * one, y, x.quotient(l).magnitude(), 1, 1075);
    }
}

/// Whether every point of a cloud is bounded and there are few enough to be
/// counted exactly.
pub open spec fn is_compact(points: Seq<Vector>) -> bool {
    &&& points.len() <= 2 * BINADE
    &&& forall|i: int| 0 <= i < points.len() ==> all_bounded(#[trigger] points[i], REACH as nat)
}

/// Whether a coordinate is within `n` times the bound.
spec fn is_summed(a: Double, n: int) -> bool {
    &&& !a.is_nan()
    &&& crate::double::size(a.magnitude()) <= n * pow2(REACH as nat)
}

proof fn lemma_room(n: int)
    requires
        0 <= n <= 2 * BINADE,
    ensures
        n * pow2(REACH as nat) < pow2(2098),
{
    let p = pow2(REACH as nat) as int;
    crate::rounding::lemma_pow2_128();
    lemma2_to64_rest();
    lemma_pow2_adds(53, REACH as nat);
    lemma_pow2_strictly_increases(53 + REACH as nat, 2098);
    lemma_pow2_pos(REACH as nat);
    lemma2_to64();
    assert(pow2(53) == 2 * BINADE);
    assert(n * p <= pow2(53) * p) by (nonlinear_arith)
        requires
            n <= pow2(53),
            p > 0,
    ;
}

proof fn lemma_summed(a: Double, n: int)
    requires
        is_summed(a, n),
        0 <= n <= 2 * BINADE,
    ensures
        a.is_finite(),
{
    lemma_room(n);
    lemma_infinite();
    crate::double::lemma_magnitude_order(a.magnitude(), INFINITE as int);
}

proof fn lemma_one_more(a: Double, b: Double, n: int)
    requires
        is_summed(a, n),
        is_bounded(b, REACH as nat),
        0 <= n < 2 * BINADE,
    ensures
        is_summed(a.sum(b), n + 1),
{
    let p = pow2(REACH as nat) as int;
    lemma_summed(a, n);
    lemma_bounded(b, REACH as nat);
    lemma_room(n + 1);
    assert((n + 1) * p == n * p + p) by (nonlinear_arith);
    lemma_sum_within(a, b, n + 1, REACH as nat);
}

proof fn lemma_total(points: Seq<Vector>)
    requires
        is_compact(points),
    ensures
        is_summed(crate::fit::total(points).x, points.len() as int),
        is_summed(crate::fit::total(points).y, points.len() as int),
        is_summed(crate::fit::total(points).z, points.len() as int),
    decreases points.len(),
{
    if points.len() == 0 {
        assert(0 * pow2(REACH as nat) == 0);
        assert(crate::double::size(0) == 0);
    } else {
        let rest = points.drop_last();
        let n = rest.len() as int;
        assert forall|i: int| 0 <= i < rest.len() implies all_bounded(
            #[trigger] rest[i],
            REACH as nat,
        ) by {
            assert(rest[i] == points[i]);
        }
        lemma_total(rest);
        let (t, p) = (crate::fit::total(rest), points[points.len() - 1]);
        assert(all_bounded(p, REACH as nat));
        lemma_one_more(t.x, p.x, n);
        lemma_one_more(t.y, p.y, n);
        lemma_one_more(t.z, p.z, n);
    }
}

/// The double of a count is the count itself.
pub proof fn lemma_whole(n: int)
    requires
        0 < n <= 2 * BINADE,
    ensures
        Double::whole(n).is_finite(),
        !Double::whole(n).is_negative(),
        Double::whole(n).value() == n * crate::arithmetic::one(),
        crate::double::size(Double::whole(n).magnitude()) == n * crate::arithmetic::one(),
{
    let one = crate::arithmetic::one();
    let v = lemma_representable(n, 1074);
    let num = n * one;
    lemma_pow2_pos(1074);
    crate::arithmetic::lemma_rounded(false, num, 1);
    lemma_infinite();
    lemma_pow2_adds(53, 1074);
    lemma_pow2_strictly_increases(1127, 2098);
    lemma2_to64_rest();
    assert(num <= pow2(53) * one) by (nonlinear_arith)
        requires
            num == n * one,
            n <= pow2(53),
            one > 0,
    ;
    crate::double::lemma_magnitude_order(v, INFINITE as int);
    assert(1 * crate::double::size(v) == crate::double::size(v));
    crate::rounding::lemma_nearest_bounds(num, 1, Double::whole(n).magnitude(), v);
}

proof fn lemma_mean(a: Double, n: int)
    requires
        is_summed(a, n),
        0 < n <= 2 * BINADE,
    ensures
        is_bounded(a.quotient(Double::whole(n)), REACH as nat),
{
    let one = crate::arithmetic::one();
    let whole = Double::whole(n);
    lemma_pow2_pos(1074);
    lemma_summed(a, n);
    let v = lemma_representable(n, 1074);
    let num = n * one;
    crate::arithmetic::lemma_rounded(false, num, 1);
    let u = whole.magnitude();
    lemma_infinite();
    lemma_pow2_adds(53, 1074);
    lemma_pow2_strictly_increases(1127, 2098);
    lemma2_to64_rest();
    assert(num <= pow2(53) * one) by (nonlinear_arith)
        requires
            num == n * one,
            n <= pow2(53),
            one > 0,
    ;
    crate::double::lemma_magnitude_order(v, INFINITE as int);
    assert(1 * crate::double::size(v) == crate::double::size(v));
    crate::rounding::lemma_nearest_bounds(num, 1, u, v);
    assert(u == v);
    assert(num > 0) by (nonlinear_arith)
        requires
            num == n * one,
            n > 0,
            one > 0,
    ;
    crate::double::lemma_magnitude_order(u, 0);
    let x = crate::double::size(a.magnitude());
    let t = pow2(REACH as nat) as int;
    assert(x * one <= num * t) by (nonlinear_arith)
        requires
            x <= n * t,
            num == n * one,
            one > 0,
    ;
    assert(1 * t == t);
    lemma_pow2_strictly_increases(REACH as nat, 2098);
    crate::arithmetic::lemma_rounded(a.is_negative(), x * one, num);
    lemma_rounds_within(x * one, num, a.quotient(whole).magnitude(), 1, REACH as nat);
}

proof fn lemma_centroid(points: Seq<Vector>)
    requires
        is_compact(points),
        points.len() > 0,
    ensures
        all_bounded(crate::fit::centroid_of(points), REACH as nat),
{
    let n = points.len() as int;
    let t = crate::fit::total(points);
    lemma_total(points);
    lemma_mean(t.x, n);
    lemma_mean(t.y, n);
    lemma_mean(t.z, n);
}

/// The extent of a bounded cloud is bounded.
proof fn lemma_extent(points: Seq<Vector>, center: Vector, axis: Vector)
    requires
        is_compact(points),
        all_bounded(center, REACH as nat),
        all_bounded(axis, 1075),
    ensures
        ({
            let e = crate::fit::extent_of(points, center, axis);
            let k = (REACH + 4) as nat;
            &&& if points.len() == 0 {
                e.low == (Double { bits: INFINITE }) && e.high == Double::signed(
                    true,
                    INFINITE as int,
                )
            } else {
                is_bounded(e.low, k) && is_bounded(e.high, k)
            }
            &&& !e.girth.is_nan()
            &&& e.girth.value() >= 0
        }),
    decreases points.len(),
{
    let k = (REACH + 4) as nat;
    crate::double::lemma_magnitude_order(0, INFINITE as int);
    if points.len() > 0 {
        let rest = points.drop_last();
        assert forall|i: int| 0 <= i < rest.len() implies all_bounded(
            #[trigger] rest[i],
            REACH as nat,
        ) by {
            assert(rest[i] == points[i]);
        }
        lemma_extent(rest, center, axis);
        let p = points[points.len() - 1];
        assert(all_bounded(p, REACH as nat));
        lemma_reach(p, center, axis, REACH as nat);
        lemma_bounded(p.difference(center).inner(axis), k);
        lemma_infinite();
        lemma_pow2_strictly_increases(k, 2098);
    }
}

/// Where a bounded point lies along an axis is bounded, and how far from it is
/// a number and not negative.
pub proof fn lemma_reach(p: Vector, center: Vector, axis: Vector, e: nat)
    requires
        all_bounded(p, e),
        all_bounded(center, e),
        all_bounded(axis, 1075),
        e <= REACH,
    ensures
        ({
            let d = p.difference(center);
            let t = d.inner(axis);
            let off = d.difference(axis.scaled(t));
            &&& is_bounded(t, e + 4)
            &&& is_plain(off.length())
            &&& off.length().value() >= 0
        }),
{
    let k = e + 4;
    let d = p.difference(center);
    let t = d.inner(axis);
    lemma_vector_sum(p, center, e);
    lemma_inner(d, axis, e + 1);
    lemma_bounded(t, k);
    lemma_vector_scaled(axis, t, k);
    let off = d.difference(axis.scaled(t));
    lemma_looser(d.x, e + 1, e + 5);
    lemma_looser(d.y, e + 1, e + 5);
    lemma_looser(d.z, e + 1, e + 5);
    lemma_vector_sum(d, axis.scaled(t), e + 5);
    lemma_bounded(off.x, e + 6);
    lemma_bounded(off.y, e + 6);
    lemma_bounded(off.z, e + 6);
    lemma_plain_length(off);
}

/// The length of a finite direction is a number and not negative.
proof fn lemma_plain_length(v: Vector)
    requires
        v.is_finite(),
    ensures
        is_plain(v.length()),
        v.length().value() >= 0,
{
    let i = v.inner(v);
    let (a, b, c) = (v.x.product(v.x), v.y.product(v.y), v.z.product(v.z));
    lemma_squared(v.x);
    lemma_squared(v.y);
    lemma_squared(v.z);
    lemma_plain_sum(a, b);
    lemma_plain_sum(a.sum(b), c);
    if 0 < i.magnitude() < INFINITE {
        lemma_root(i);
    }
    crate::double::lemma_magnitude_order(v.length().magnitude(), 0);
}

/// The ends of a candidate are bounded.
proof fn lemma_segment(center: Vector, axis: Vector, extent: Extent, j: int)
    requires
        all_bounded(center, REACH as nat),
        all_bounded(axis, 1075),
        is_bounded(extent.low, (REACH + 4) as nat),
        is_bounded(extent.high, (REACH + 4) as nat),
        !extent.girth.is_nan(),
        extent.girth.value() >= 0,
    ensures
        ({
            let ends = crate::fit::segment(center, axis, extent, crate::fit::fraction(j));
            ends.0.is_finite() && ends.1.is_finite()
        }),
{
    let k = (REACH + 4) as nat;
    let two = Double { bits: TWO };
    let part = crate::fit::fraction(j);
    let sum = extent.low.sum(extent.high);
    let mid = sum.quotient(two);
    let reach = extent.high.difference(extent.low).quotient(two);
    let shrink = extent.girth.lesser(reach);
    lemma_sum(extent.low, extent.high, k);
    lemma_sum(extent.high, extent.low, k);
    lemma_halved(sum, k + 1);
    lemma_halved(extent.high.difference(extent.low), k + 1);
    lemma_bounded(reach, k + 1);
    lemma_infinite();
    crate::double::lemma_magnitude_order(extent.girth.magnitude(), 0);
    crate::double::lemma_magnitude_order(reach.magnitude(), 0);
    assert(is_bounded(shrink, k + 1));
    lemma_constants();
    crate::double::lemma_magnitude_order(0, ONE as int);
    assert(is_bounded(part, 1074));
    lemma_product(shrink, k + 1, part, 1074, k + 1);
    let half = reach.difference(shrink.product(part));
    lemma_sum(reach, shrink.product(part), k + 1);
    lemma_looser(mid, k + 1, k + 2);
    lemma_sum(mid, half, k + 2);
    lemma_vector_scaled(axis, mid.difference(half), k + 3);
    lemma_vector_scaled(axis, mid.sum(half), k + 3);
    lemma_looser(center.x, REACH as nat, k + 4);
    lemma_looser(center.y, REACH as nat, k + 4);
    lemma_looser(center.z, REACH as nat, k + 4);
    lemma_vector_sum(center, axis.scaled(mid.difference(half)), k + 4);
    lemma_vector_sum(center, axis.scaled(mid.sum(half)), k + 4);
    let a = center.sum(axis.scaled(mid.difference(half)));
    let b = center.sum(axis.scaled(mid.sum(half)));
    lemma_bounded(a.x, k + 5);
    lemma_bounded(a.y, k + 5);
    lemma_bounded(a.z, k + 5);
    lemma_bounded(b.x, k + 5);
    lemma_bounded(b.y, k + 5);
    lemma_bounded(b.z, k + 5);
}

proof fn lemma_widest(measures: Seq<Double>)
    requires
        forall|i: int| 0 <= i < measures.len() ==> (#[trigger] measures[i]).is_finite(),
    ensures
        crate::fit::widest(measures).is_finite(),
    decreases measures.len(),
{
    if measures.len() > 0 {
        let rest = measures.drop_last();
        assert forall|i: int| 0 <= i < rest.len() implies (#[trigger] rest[i]).is_finite() by {
            assert(rest[i] == measures[i]);
        }
        lemma_widest(rest);
        assert(measures[measures.len() - 1].is_finite());
    }
}

/// A bounded cloud gets a finite capsule: where the coordinates of the points
/// lie within two to the 900th, and the handed-in functions answer with finite
/// numbers, the ends of a fitted capsule and its radius are finite.
pub proof fn law_bounded_clouds_get_finite_capsules<
    E: Fn(Matrix) -> Eigen,
    D: Fn(Vector, Vector, Vector) -> Double,
>(points: Seq<Vector>, eigen: E, distance: D, c: Capsule)
    requires
        points.len() > 0,
        is_compact(points),
        forall|m: Matrix, e: Eigen| #[trigger]
            call_ensures(eigen, (m,), e) ==> {
                &&& e.vectors.first.is_finite()
                &&& e.vectors.second.is_finite()
                &&& e.vectors.third.is_finite()
            },
        forall|p: Vector, a: Vector, b: Vector, d: Double| #[trigger]
            call_ensures(distance, (p, a, b), d) && p.is_finite() && a.is_finite()
                && b.is_finite() ==> d.is_finite(),
        crate::fit::fitted(points, eigen, distance, c),
    ensures
        c.a.is_finite(),
        c.b.is_finite(),
        c.radius.is_finite(),
        crate::hull::all_finite(points),
{
    let (answer, measures, j) = choose|answer: Eigen, measures: Seq<Seq<Double>>, j: int|
        crate::fit::fitted_by(points, eigen, distance, c, answer, measures, j);
    let axis = crate::fit::axis_of(answer);
    let center = crate::fit::centroid_of(points);
    assert(call_ensures(eigen, (crate::fit::covariance_of(points),), answer));
    lemma_axis(answer);
    lemma_centroid(points);
    lemma_extent(points, center, axis);
    lemma_segment(center, axis, crate::fit::extent_of(points, center, axis), j);
    assert forall|i: int| 0 <= i < points.len() implies (#[trigger] points[i]).is_finite() by {
        assert(all_bounded(points[i], REACH as nat));
        lemma_bounded(points[i].x, REACH as nat);
        lemma_bounded(points[i].y, REACH as nat);
        lemma_bounded(points[i].z, REACH as nat);
    }
    let row = measures[j];
    assert forall|i: int| 0 <= i < row.len() implies (#[trigger] row[i]).is_finite() by {
        assert(points[i].is_finite());
        assert(call_ensures(distance, (points[i], c.a, c.b), measures[j][i]));
    }
    lemma_widest(row);
}

} // verus!
