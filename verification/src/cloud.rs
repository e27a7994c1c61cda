//! What is computed of a cloud of points, held against the exact numbers: its
//! centroid is the mean, its covariance holds the second moments, its extent
//! covers every point.
//!
//! `k` is the exponent of a power of two that no coordinate exceeds, in units
//! of the smallest positive double.
use vstd::arithmetic::power2::*;
use vstd::prelude::*;

use crate::double::Double;
use crate::double::BINADE;
use crate::double::INFINITE;
use crate::geometry::Matrix;
use crate::geometry::Vector;

verus! {

/// A coordinate by its number.
pub open spec fn coord(v: Vector, i: int) -> Double {
    if i == 0 {
        v.x
    } else if i == 1 {
        v.y
    } else {
        v.z
    }
}

/// An entry of a matrix by its row and column.
pub open spec fn entry(m: Matrix, i: int, j: int) -> Double {
    coord(
        if j == 0 {
            m.first
        } else if j == 1 {
            m.second
        } else {
            m.third
        },
        i,
    )
}

/// The exact sum of a coordinate.
pub open spec fn exact_sum(points: Seq<Vector>, i: int) -> int
    decreases points.len(),
{
    if points.len() == 0 {
        0
    } else {
        exact_sum(points.drop_last(), i) + coord(points.last(), i).value()
    }
}

/// The exact sum of the products of two coordinates' offsets from a center.
pub open spec fn exact_moment(points: Seq<Vector>, center: Vector, i: int, j: int) -> int
    decreases points.len(),
{
    if points.len() == 0 {
        0
    } else {
        exact_moment(points.drop_last(), center, i, j) + (coord(points.last(), i).value() - coord(
            center,
            i,
        ).value()) * (coord(points.last(), j).value() - coord(center, j).value())
    }
}

/// Whether every coordinate of every point is within two to the `k`th of zero.
pub open spec fn all_within(points: Seq<Vector>, k: nat) -> bool {
    forall|p: int, i: int|
        0 <= p < points.len() && 0 <= i < 3 ==> crate::bounds::is_bounded(
            #[trigger] coord(points[p], i),
            k,
        )
}

/// How far apart doubles lie, times two to the 52nd, up to a size.
pub proof fn lemma_gap_to(u: int, most: int)
    requires
        0 <= u,
        crate::double::size(u) <= most,
    ensures
        BINADE * crate::double::gap(u) <= most + BINADE,
        crate::double::gap(u) > 0,
{
    crate::double::lemma_size_step(u);
    crate::double::lemma_magnitude_order(u, 0);
    if u > 0 {
        crate::double::lemma_gap(u);
    }
}

/// A sum of terms so far, held against the exact one.
spec fn is_gathered(a: Double, exact: int, n: int, most: int) -> bool {
    &&& !a.is_nan()
    &&& crate::double::size(a.magnitude()) <= n * most
    &&& -(n * (n * most + BINADE)) <= 2 * BINADE * (a.value() - exact) <= n * (n * most + BINADE)
}

proof fn lemma_gather(a: Double, exact: int, b: Double, n: int, k: nat)
    requires
        is_gathered(a, exact, n, pow2(k) as int),
        crate::bounds::is_bounded(b, k),
        0 <= n < 2 * BINADE,
        k + 53 <= 2097,
    ensures
        is_gathered(a.sum(b), exact + b.value(), n + 1, pow2(k) as int),
{
    let most = pow2(k) as int;
    let s = a.sum(b);
    lemma_pow2_pos(k);
    lemma_room(n, k);
    lemma_room(n + 1, k);
    crate::bounds::lemma_bounded(b, k);
    crate::bounds::lemma_infinite();
    crate::double::lemma_magnitude_order(a.magnitude(), INFINITE as int);
    assert((n + 1) * most == n * most + most) by (nonlinear_arith);
    crate::bounds::lemma_sum_within(a, b, n + 1, k);
    crate::double::lemma_magnitude_order(s.magnitude(), INFINITE as int);
    crate::arithmetic::law_sums_are_accurate(a, b);
    let top = (n + 1) * most;
    lemma_gap_to(s.magnitude(), top);
    let e = s.value() - (a.value() + b.value());
    let g = crate::double::gap(s.magnitude());
    let w = BINADE as int;
    assert(-(w * g) <= 2 * w * e <= w * g) by (nonlinear_arith)
        requires
            -g <= 2 * e <= g,
            w > 0,
    ;
    let x = n * (n * most + BINADE);
    assert((n + 1) * (top + BINADE) >= x + top + BINADE) by (nonlinear_arith)
        requires
            x == n * (n * most + BINADE),
            top == (n + 1) * most,
            most > 0,
            n >= 0,
    ;
    assert(2 * BINADE * (s.value() - (exact + b.value())) == 2 * BINADE * (a.value() - exact) + 2
        * BINADE * e) by (nonlinear_arith)
        requires
            e == s.value() - (a.value() + b.value()),
    ;
}

proof fn lemma_room(n: int, k: nat)
    requires
        0 <= n <= 2 * BINADE,
        k + 53 <= 2097,
    ensures
        0 <= n * pow2(k) < pow2(2098),
{
    let p = pow2(k) as int;
    lemma2_to64_rest();
    assert(pow2(53) == 2 * BINADE);
    lemma_pow2_adds(53, k);
    lemma_pow2_strictly_increases(53 + k, 2098);
    lemma_pow2_pos(k);
    assert(0 <= n * p <= pow2(53) * p) by (nonlinear_arith)
        requires
            0 <= n <= pow2(53),
            p > 0,
    ;
}

/// Dividing a gathered sum by the count.
proof fn lemma_averaged(a: Double, exact: int, n: int, k: nat)
    requires
        is_gathered(a, exact, n, pow2(k) as int),
        0 < n <= 2 * BINADE,
        k + 53 <= 2097,
    ensures
        ({
            let q = a.quotient(Double::whole(n));
            let most = pow2(k) as int;
            &&& crate::bounds::is_bounded(q, k)
            &&& -(n * ((n + 1) * most + 2 * BINADE)) <= 2 * BINADE * (n * q.value() - exact) <= n
                * ((n + 1) * most + 2 * BINADE)
        }),
{
    let one = crate::arithmetic::one();
    let most = pow2(k) as int;
    let whole = Double::whole(n);
    let q = a.quotient(whole);
    lemma_pow2_pos(1074);
    lemma_pow2_pos(k);
    lemma_room(n, k);
    crate::bounds::lemma_infinite();
    crate::double::lemma_magnitude_order(a.magnitude(), INFINITE as int);
    crate::double::lemma_magnitude_order(a.magnitude(), 0);
    crate::bounds::lemma_whole(n);
    let num = n * one;
    assert(num > 0) by (nonlinear_arith)
        requires
            num == n * one,
            n > 0,
            one > 0,
    ;
    crate::double::lemma_magnitude_order(whole.magnitude(), 0);
    let x = crate::double::size(a.magnitude());
    assert(x * one <= num * most) by (nonlinear_arith)
        requires
            x <= n * most,
            num == n * one,
            one > 0,
    ;
    assert(1 * most == most);
    lemma_pow2_strictly_increases(k, 2098);
    crate::arithmetic::lemma_rounded(a.is_negative(), x * one, num);
    let u = q.magnitude();
    crate::bounds::lemma_rounds_within(x * one, num, u, 1, k);
    assert(x * one >= 0) by (nonlinear_arith)
        requires
            x >= 0,
            one > 0,
    ;
    crate::rounding::lemma_nearest_error(x * one, num, u);
    let (z, g) = (crate::double::size(u), crate::double::gap(u));
    lemma_gap_to(u, most);
    // Both sides hold the unit as a factor.
    assert(num * (2 * z - g) == one * (2 * (n * z) - n * g)) by (nonlinear_arith)
        requires
            num == n * one,
    ;
    assert(num * (2 * z + g) == one * (2 * (n * z) + n * g)) by (nonlinear_arith)
        requires
            num == n * one,
    ;
    assert(2 * (x * one) == one * (2 * x)) by (nonlinear_arith);
    lemma_cancel(one, 2 * (n * z) - n * g, 2 * x);
    lemma_cancel(one, 2 * x, 2 * (n * z) + n * g);
    let e = n * q.value() - a.value();
    assert(n * (-z) == -(n * z)) by (nonlinear_arith);
    assert(-(n * g) <= 2 * e <= n * g);
    let b = BINADE as int;
    let h = most + b;
    assert(b * (n * g) <= n * h) by (nonlinear_arith)
        requires
            b * g <= h,
            n > 0,
    ;
    assert(b * (2 * e) <= b * (n * g) && b * (-(n * g)) <= b * (2 * e)) by (nonlinear_arith)
        requires
            -(n * g) <= 2 * e <= n * g,
            b > 0,
    ;
    assert(b * (-(n * g)) == -(b * (n * g)) && b * (2 * e) == 2 * b * e) by (nonlinear_arith);
    assert(n * (n * most + b) + n * h == n * ((n + 1) * most + 2 * b)) by (nonlinear_arith)
        requires
            h == most + b,
    ;
    assert(2 * b * (n * q.value() - exact) == 2 * b * e + 2 * b * (a.value() - exact))
        by (nonlinear_arith)
        requires
            e == n * q.value() - a.value(),
    ;
}

proof fn lemma_cancel(one: int, a: int, b: int)
    by (nonlinear_arith)
    requires
        one > 0,
        one * a <= one * b,
    ensures
        a <= b,
{
}

/// Nothing gathered is zero.
proof fn lemma_nothing(n: int, most: int)
    requires
        n == 0,
    ensures
        is_gathered(Double::zero(), 0, n, most),
{
    assert(n * most == 0 && n * (n * most + BINADE) == 0) by (nonlinear_arith)
        requires
            n == 0,
    ;
    assert(crate::double::size(0) == 0);
    assert(Double::zero().value() == 0);
    let (w, v) = (2 * BINADE as int, Double::zero().value() - 0);
    assert(w * v == 0) by (nonlinear_arith)
        requires
            v == 0,
    ;
}

proof fn lemma_total_gathered(points: Seq<Vector>, i: int, k: nat)
    requires
        all_within(points, k),
        points.len() <= 2 * BINADE,
        0 <= i < 3,
        k + 53 <= 2097,
    ensures
        is_gathered(
            coord(crate::fit::total(points), i),
            exact_sum(points, i),
            points.len() as int,
            pow2(k) as int,
        ),
    decreases points.len(),
{
    if points.len() == 0 {
        lemma_nothing(points.len() as int, pow2(k) as int);
    } else {
        let rest = points.drop_last();
        assert forall|p: int, c: int|
            0 <= p < rest.len() && 0 <= c < 3 implies crate::bounds::is_bounded(
            #[trigger] coord(rest[p], c),
            k,
        ) by {
            assert(crate::bounds::is_bounded(coord(points[p], c), k));
        }
        lemma_total_gathered(rest, i, k);
        assert(crate::bounds::is_bounded(coord(points[points.len() - 1], i), k));
        lemma_gather(
            coord(crate::fit::total(rest), i),
            exact_sum(rest, i),
            coord(points.last(), i),
            rest.len() as int,
            k,
        );
    }
}

/// The centroid is the mean of all points, up to rounding: times their number
/// it misses the exact sum of each coordinate by no more than the rounding of
/// as many sums.
pub proof fn law_centroids_are_means(points: Seq<Vector>, i: int, k: nat)
    requires
        0 < points.len() <= 2 * BINADE,
        all_within(points, k),
        0 <= i < 3,
        k + 53 <= 2097,
    ensures
        ({
            let n = points.len() as int;
            let c = coord(crate::fit::centroid_of(points), i);
            let off = n * ((n + 1) * pow2(k) + 2 * BINADE);
            &&& crate::bounds::is_bounded(c, k)
            &&& -off <= 2 * BINADE * (n * c.value() - exact_sum(points, i)) <= off
        }),
{
    let n = points.len() as int;
    lemma_total_gathered(points, i, k);
    lemma_averaged(
        coord(crate::fit::total(points), i),
        exact_sum(points, i),
        n,
        k,
    );
}

/// The sum of the rounded products of two coordinates' offsets.
spec fn product_sum(points: Seq<Vector>, center: Vector, i: int, j: int) -> int
    decreases points.len(),
{
    if points.len() == 0 {
        0
    } else {
        let d = points.last().difference(center);
        product_sum(points.drop_last(), center, i, j) + coord(d, i).product(coord(d, j)).value()
    }
}

/// By how much one product of two offsets is off.
spec fn term_off(k: nat) -> int {
    crate::arithmetic::one() * (pow2((2 * k - 1072) as nat) + BINADE) + (pow2(k + 1) + BINADE)
        * pow2(k + 2)
}

/// A rounded offset, held against the exact one.
pub proof fn lemma_offset(p: Double, c: Double, k: nat)
    requires
        crate::bounds::is_bounded(p, k),
        crate::bounds::is_bounded(c, k),
        k < 2097,
    ensures
        ({
            let d = p.difference(c);
            let o = p.value() - c.value();
            let h = pow2(k + 1) as int;
            &&& crate::bounds::is_bounded(d, k + 1)
            &&& -h <= d.value() <= h
            &&& -h <= o <= h
            &&& -(h + BINADE) <= 2 * BINADE * (d.value() - o) <= h + BINADE
        }),
{
    let d = p.difference(c);
    let h = pow2(k + 1) as int;
    crate::bounds::lemma_sum(p, c, k);
    crate::bounds::lemma_bounded(p, k);
    crate::bounds::lemma_bounded(c, k);
    crate::bounds::lemma_bounded(d, k + 1);
    lemma_pow2_unfold(k + 1);
    crate::arithmetic::law_differences_are_accurate(p, c);
    lemma_gap_to(d.magnitude(), h);
    let (w, g) = (BINADE as int, crate::double::gap(d.magnitude()));
    let e = d.value() - (p.value() - c.value());
    assert(-(w * g) <= 2 * w * e <= w * g) by (nonlinear_arith)
        requires
            -g <= 2 * e <= g,
            w > 0,
    ;
}

proof fn lemma_term(p: Double, c: Double, q: Double, b: Double, k: nat)
    requires
        crate::bounds::is_bounded(p, k),
        crate::bounds::is_bounded(c, k),
        crate::bounds::is_bounded(q, k),
        crate::bounds::is_bounded(b, k),
        536 <= k <= 1558,
    ensures
        ({
            let a = p.difference(c).product(q.difference(b));
            let exact = (p.value() - c.value()) * (q.value() - b.value());
            &&& crate::bounds::is_bounded(a, (2 * k - 1072) as nat)
            &&& -term_off(k) <= 2 * BINADE * (crate::arithmetic::one() * a.value() - exact)
                <= term_off(k)
        }),
{
    let one = crate::arithmetic::one();
    let m = (2 * k - 1072) as nat;
    let (d, e) = (p.difference(c), q.difference(b));
    let (x, y) = (p.value() - c.value(), q.value() - b.value());
    let (u, v) = (d.value(), e.value());
    let a = d.product(e);
    let h = pow2(k + 1) as int;
    let w = BINADE as int;
    lemma_pow2_pos(1074);
    lemma_pow2_pos(k + 1);
    lemma_offset(p, c, k);
    lemma_offset(q, b, k);
    crate::bounds::lemma_bounded(d, k + 1);
    crate::bounds::lemma_bounded(e, k + 1);
    crate::bounds::lemma_product(d, k + 1, e, k + 1, m);
    crate::bounds::lemma_bounded(a, m);
    crate::arithmetic::law_products_are_accurate(d, e);
    let top = pow2(m) as int;
    lemma_gap_to(a.magnitude(), top);
    let g = crate::double::gap(a.magnitude());
    let f = one * a.value() - u * v;
    assert(-(one * (top + w)) <= 2 * w * f <= one * (top + w)) by (nonlinear_arith)
        requires
            -(one * g) <= 2 * f <= one * g,
            w * g <= top + w,
            one > 0,
            w > 0,
    ;
    let (r, s) = (u - x, v - y);
    let t = h + w;
    assert(u * v - x * y == r * v + x * s) by (nonlinear_arith)
        requires
            r == u - x,
            s == v - y,
    ;
    let (i, j) = (2 * w * r, 2 * w * s);
    assert(-(t * h) <= i * v <= t * h) by (nonlinear_arith)
        requires
            -t <= i <= t,
            -h <= v <= h,
    ;
    assert(-(t * h) <= x * j <= t * h) by (nonlinear_arith)
        requires
            -t <= j <= t,
            -h <= x <= h,
    ;
    assert(2 * w * (r * v + x * s) == i * v + x * j) by (nonlinear_arith)
        requires
            i == 2 * w * r,
            j == 2 * w * s,
    ;
    lemma_pow2_unfold(k + 2);
    assert(t * (2 * h) == 2 * (t * h)) by (nonlinear_arith);
    assert(2 * w * (one * a.value() - x * y) == 2 * w * f + 2 * w * (u * v - x * y))
        by (nonlinear_arith)
        requires
            f == one * a.value() - u * v,
    ;
}

proof fn lemma_product_sum(points: Seq<Vector>, center: Vector, i: int, j: int, k: nat)
    requires
        all_within(points, k),
        crate::bounds::is_bounded(coord(center, i), k),
        crate::bounds::is_bounded(coord(center, j), k),
        points.len() <= 2 * BINADE,
        0 <= i < 3,
        0 <= j < 3,
        536 <= k <= 1558,
    ensures
        is_gathered(
            entry(crate::fit::scatter(points, center), i, j),
            product_sum(points, center, i, j),
            points.len() as int,
            pow2((2 * k - 1072) as nat) as int,
        ),
        ({
            let n = points.len() as int;
            -(n * term_off(k)) <= 2 * BINADE * (crate::arithmetic::one() * product_sum(
                points,
                center,
                i,
                j,
            ) - exact_moment(points, center, i, j)) <= n * term_off(k)
        }),
    decreases points.len(),
{
    let one = crate::arithmetic::one();
    let n = points.len() as int;
    let off = term_off(k);
    if n == 0 {
        lemma_nothing(n, pow2((2 * k - 1072) as nat) as int);
        assert(n * off == 0) by (nonlinear_arith)
            requires
                n == 0,
        ;
        assert(one * 0 == 0);
        assert(2 * BINADE * 0 == 0);
    } else {
        let rest = points.drop_last();
        assert forall|p: int, c: int|
            0 <= p < rest.len() && 0 <= c < 3 implies crate::bounds::is_bounded(
            #[trigger] coord(rest[p], c),
            k,
        ) by {
            assert(crate::bounds::is_bounded(coord(points[p], c), k));
        }
        lemma_product_sum(rest, center, i, j, k);
        let p = points[n - 1];
        assert(crate::bounds::is_bounded(coord(p, i), k));
        assert(crate::bounds::is_bounded(coord(p, j), k));
        lemma_term(coord(p, i), coord(center, i), coord(p, j), coord(center, j), k);
        let d = p.difference(center);
        let a = coord(d, i).product(coord(d, j));
        assert(coord(d, i) == coord(p, i).difference(coord(center, i)));
        assert(coord(d, j) == coord(p, j).difference(coord(center, j)));
        lemma_gather(
            entry(crate::fit::scatter(rest, center), i, j),
            product_sum(rest, center, i, j),
            a,
            n - 1,
            (2 * k - 1072) as nat,
        );
        lemma_entry(crate::fit::scatter(rest, center), d, i, j);
        let (x, y) = (product_sum(rest, center, i, j), exact_moment(rest, center, i, j));
        let z = (coord(p, i).value() - coord(center, i).value()) * (coord(p, j).value() - coord(
            center,
            j,
        ).value());
        assert(one * (x + a.value()) == one * x + one * a.value()) by (nonlinear_arith);
        let (b, c) = (one * x - y, one * a.value() - z);
        let w = 2 * BINADE as int;
        assert(w * (b + c) == w * b + w * c) by (nonlinear_arith);
        assert(n * off == (n - 1) * off + off) by (nonlinear_arith);
    }
}

proof fn lemma_entry(m: Matrix, d: Vector, i: int, j: int)
    requires
        0 <= i < 3,
        0 <= j < 3,
    ensures
        entry(m.sum(Matrix::outer(d)), i, j) == entry(m, i, j).sum(
            coord(d, i).product(coord(d, j)),
        ),
{
}

/// The covariance holds the second moments of all points about their centroid,
/// up to rounding: times their number, each entry misses the exact sum of the
/// products of two coordinates' offsets by no more than the rounding of as many
/// products and sums.
pub proof fn law_covariances_hold_the_second_moments(
    points: Seq<Vector>,
    i: int,
    j: int,
    k: nat,
)
    requires
        0 < points.len() <= 2 * BINADE,
        all_within(points, k),
        0 <= i < 3,
        0 <= j < 3,
        536 <= k <= 1558,
    ensures
        ({
            let n = points.len() as int;
            let one = crate::arithmetic::one();
            let m = entry(crate::fit::covariance_of(points), i, j);
            let off = n * (one * ((n + 2) * pow2((2 * k - 1072) as nat) + 3 * BINADE) + (pow2(
                k + 1,
            ) + BINADE) * pow2(k + 2));
            -off <= 2 * BINADE * (one * (n * m.value()) - exact_moment(
                points,
                crate::fit::centroid_of(points),
                i,
                j,
            )) <= off
        }),
{
    let n = points.len() as int;
    let one = crate::arithmetic::one();
    let center = crate::fit::centroid_of(points);
    let mk = (2 * k - 1072) as nat;
    let top = pow2(mk) as int;
    let w = BINADE as int;
    lemma_pow2_pos(1074);
    law_centroids_are_means(points, i, k);
    law_centroids_are_means(points, j, k);
    lemma_product_sum(points, center, i, j, k);
    let acc = entry(crate::fit::scatter(points, center), i, j);
    let sum = product_sum(points, center, i, j);
    lemma_averaged(acc, sum, n, mk);
    let m = acc.quotient(Double::whole(n));
    assert(entry(crate::fit::covariance_of(points), i, j) == m);
    let e = n * m.value() - sum;
    let h = n * ((n + 1) * top + 2 * w);
    assert(-(one * h) <= 2 * w * (one * e) <= one * h) by (nonlinear_arith)
        requires
            -h <= 2 * w * e <= h,
            one > 0,
    ;
    let exact = exact_moment(points, center, i, j);
    let f = one * sum - exact;
    assert(one * (n * m.value()) - exact == one * e + f) by (nonlinear_arith)
        requires
            e == n * m.value() - sum,
            f == one * sum - exact,
    ;
    let v = 2 * w;
    assert(v * (one * e + f) == v * (one * e) + v * f) by (nonlinear_arith);
    let (r, s) = ((n + 1) * top + 2 * w, (pow2(k + 1) + w) * pow2(k + 2));
    let t = one * (top + w) + s;
    assert(one * (n * r) + n * t == n * (one * r + t)) by (nonlinear_arith);
    assert(one * r + one * (top + w) == one * ((n + 2) * top + 3 * w)) by (nonlinear_arith)
        requires
            r == (n + 1) * top + 2 * w,
    ;
}

/// Where a point lies along the axis, from `center`: the products of their
/// coordinates, added up from the first.
#[verifier::opaque]
pub open spec fn reach_along(p: Vector, center: Vector, axis: Vector) -> Double {
    let x = p.x.difference(center.x).product(axis.x);
    let y = p.y.difference(center.y).product(axis.y);
    let z = p.z.difference(center.z).product(axis.z);
    x.sum(y).sum(z)
}

/// How far a point lies from the axis through `center`: the root of the squares
/// of what is left of its offset without the part along the axis.
#[verifier::opaque]
pub open spec fn reach_across(p: Vector, center: Vector, axis: Vector) -> Double {
    let t = reach_along(p, center, axis);
    let x = p.x.difference(center.x).difference(axis.x.product(t));
    let y = p.y.difference(center.y).difference(axis.y.product(t));
    let z = p.z.difference(center.z).difference(axis.z.product(t));
    x.product(x).sum(y.product(y)).sum(z.product(z)).root()
}

/// Whether where the points lie is given by numbers, as it is for bounded
/// clouds.
pub open spec fn has_reach(points: Seq<Vector>, center: Vector, axis: Vector) -> bool {
    forall|p: int|
        0 <= p < points.len() ==> {
            &&& !reach_along(#[trigger] points[p], center, axis).is_nan()
            &&& Double::zero().at_most(reach_across(points[p], center, axis))
        }
}

proof fn lemma_extent_step(points: Seq<Vector>, center: Vector, axis: Vector)
    requires
        points.len() > 0,
    ensures
        ({
            let e = crate::fit::extent_of(points, center, axis);
            let f = crate::fit::extent_of(points.drop_last(), center, axis);
            &&& e.low == f.low.lesser(reach_along(points.last(), center, axis))
            &&& e.high == f.high.greater(reach_along(points.last(), center, axis))
            &&& e.girth == f.girth.greater(reach_across(points.last(), center, axis))
        }),
{
    reveal(reach_along);
    reveal(reach_across);
}

proof fn lemma_extent_start(points: Seq<Vector>, center: Vector, axis: Vector)
    requires
        points.len() == 0,
    ensures
        ({
            let e = crate::fit::extent_of(points, center, axis);
            &&& e.low == (Double { bits: INFINITE })
            &&& e.high == Double::signed(true, INFINITE as int)
            &&& e.girth == Double::zero()
        }),
{
}

/// Whether an extent covers the points and no more: no point lies below its low
/// or above its high along the axis, none is farther from the axis than its
/// girth, and each of the three is that of some point.
pub open spec fn covers(
    points: Seq<Vector>,
    center: Vector,
    axis: Vector,
    e: crate::fit::Extent,
) -> bool {
    &&& forall|p: int|
        0 <= p < points.len() ==> {
            let t = reach_along(#[trigger] points[p], center, axis);
            &&& e.low.at_most(t)
            &&& t.at_most(e.high)
            &&& reach_across(points[p], center, axis).at_most(e.girth)
        }
    &&& exists|p: int|
        0 <= p < points.len() && reach_along(#[trigger] points[p], center, axis).value()
            == e.low.value()
    &&& exists|p: int|
        0 <= p < points.len() && reach_along(#[trigger] points[p], center, axis).value()
            == e.high.value()
    &&& exists|p: int|
        0 <= p < points.len() && reach_across(#[trigger] points[p], center, axis).value()
            == e.girth.value()
}

/// The extent of a cloud covers it: no point lies below its low or above its
/// high along the axis, none is farther from the axis than its girth, and each
/// of the three is that of some point.
pub proof fn law_extents_cover_the_cloud(points: Seq<Vector>, center: Vector, axis: Vector)
    requires
        points.len() > 0,
        has_reach(points, center, axis),
    ensures
        covers(points, center, axis, crate::fit::extent_of(points, center, axis)),
    decreases points.len(),
{
    let e = crate::fit::extent_of(points, center, axis);
    let last = points.len() - 1;
    let rest = points.drop_last();
    let f = crate::fit::extent_of(rest, center, axis);
    let t = reach_along(points[last], center, axis);
    let r = reach_across(points[last], center, axis);
    assert(!t.is_nan() && Double::zero().at_most(r));
    lemma_extent_step(points, center, axis);
    let bound = INFINITE as int;
    crate::double::lemma_magnitude_order(t.magnitude(), bound);
    crate::double::lemma_magnitude_order(bound, 0);
    if rest.len() == 0 {
        lemma_extent_start(rest, center, axis);
        assert(reach_along(points[last], center, axis).value() == e.low.value());
        assert(reach_along(points[last], center, axis).value() == e.high.value());
        assert(reach_across(points[last], center, axis).value() == e.girth.value());
    } else {
        assert forall|p: int| 0 <= p < rest.len() implies {
            &&& !reach_along(#[trigger] rest[p], center, axis).is_nan()
            &&& Double::zero().at_most(reach_across(rest[p], center, axis))
        } by {
            assert(rest[p] == points[p]);
        }
        law_extents_cover_the_cloud(rest, center, axis);
        let a = choose|p: int|
            0 <= p < rest.len() && reach_along(#[trigger] rest[p], center, axis).value()
                == f.low.value();
        let b = choose|p: int|
            0 <= p < rest.len() && reach_along(#[trigger] rest[p], center, axis).value()
                == f.high.value();
        let c = choose|p: int|
            0 <= p < rest.len() && reach_across(#[trigger] rest[p], center, axis).value()
                == f.girth.value();
        assert(rest[a] == points[a] && rest[b] == points[b] && rest[c] == points[c]);
        assert(f.low.at_most(reach_along(rest[0], center, axis)));
        assert forall|p: int| 0 <= p < points.len() implies {
            let t = reach_along(#[trigger] points[p], center, axis);
            &&& e.low.at_most(t)
            &&& t.at_most(e.high)
            &&& reach_across(points[p], center, axis).at_most(e.girth)
        } by {
            if p < last {
                assert(rest[p] == points[p]);
            }
        }
        if e.low == f.low {
            assert(reach_along(points[a], center, axis).value() == e.low.value());
        } else {
            assert(reach_along(points[last], center, axis).value() == e.low.value());
        }
        if e.high == f.high {
            assert(reach_along(points[b], center, axis).value() == e.high.value());
        } else {
            assert(reach_along(points[last], center, axis).value() == e.high.value());
        }
        if e.girth == f.girth {
            assert(reach_across(points[c], center, axis).value() == e.girth.value());
        } else {
            assert(reach_across(points[last], center, axis).value() == e.girth.value());
        }
    }
}

/// Where the points of a bounded cloud lie is given by numbers, and along the
/// axis they are bounded too.
pub proof fn law_bounded_clouds_have_reach(
    points: Seq<Vector>,
    center: Vector,
    axis: Vector,
    k: nat,
)
    requires
        all_within(points, k),
        crate::bounds::all_bounded(center, k),
        crate::bounds::all_bounded(axis, 1075),
        k <= crate::bounds::REACH,
    ensures
        has_reach(points, center, axis),
        forall|p: int|
            0 <= p < points.len() ==> crate::bounds::is_bounded(
                reach_along(#[trigger] points[p], center, axis),
                k + 4,
            ),
{
    assert forall|p: int| 0 <= p < points.len() implies {
        &&& !reach_along(#[trigger] points[p], center, axis).is_nan()
        &&& Double::zero().at_most(reach_across(points[p], center, axis))
        &&& crate::bounds::is_bounded(reach_along(points[p], center, axis), k + 4)
    } by {
        let v = points[p];
        assert(crate::bounds::is_bounded(coord(v, 0), k));
        assert(crate::bounds::is_bounded(coord(v, 1), k));
        assert(crate::bounds::is_bounded(coord(v, 2), k));
        lemma_bounded_reach(v, center, axis, k);
    }
}

proof fn lemma_bounded_reach(p: Vector, center: Vector, axis: Vector, k: nat)
    requires
        crate::bounds::all_bounded(p, k),
        crate::bounds::all_bounded(center, k),
        crate::bounds::all_bounded(axis, 1075),
        k <= crate::bounds::REACH,
    ensures
        crate::bounds::is_bounded(reach_along(p, center, axis), k + 4),
        !reach_along(p, center, axis).is_nan(),
        Double::zero().at_most(reach_across(p, center, axis)),
{
    reveal(reach_along);
    reveal(reach_across);
    crate::bounds::lemma_reach(p, center, axis, k);
}

} // verus!
