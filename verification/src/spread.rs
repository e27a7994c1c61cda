//! What the axis of a fit is for: of all directions it is the one along which
//! the points spread most.
//!
//! Lengths are whole numbers of the smallest positive double, and a direction
//! is any whole-number vector: nothing here depends on its length.
use vstd::arithmetic::power2::*;
use vstd::prelude::*;

use crate::double::Double;
use crate::double::BINADE;
use crate::fit::Eigen;
use crate::fit::DEGENERATE;
use crate::geometry::Matrix;
use crate::geometry::Vector;
use crate::hull::Spot;

verus! {

/// The scalar product.
pub open spec fn dot(u: Spot, v: Spot) -> int {
    u.x * v.x + u.y * v.y + u.z * v.z
}

/// The sum of the squared offsets of the points from `center`, along `d`.
pub open spec fn spread(points: Seq<Vector>, center: Spot, d: Spot) -> int
    decreases points.len(),
{
    if points.len() == 0 {
        0
    } else {
        let along = dot(Spot::of(points.last()).minus(center), d);
        spread(points.drop_last(), center, d) + along * along
    }
}

/// The sum of the squared distances of the points from `center`.
pub open spec fn scatter(points: Seq<Vector>, center: Spot) -> int
    decreases points.len(),
{
    if points.len() == 0 {
        0
    } else {
        scatter(points.drop_last(), center) + Spot::of(points.last()).minus(center).square()
    }
}

proof fn lemma_square(x: int)
    by (nonlinear_arith)
    ensures
        x * x >= 0,
{
}

proof fn lemma_product_square(x: int, y: int)
    by (nonlinear_arith)
    ensures
        (x * y) * (x * y) == (x * x) * (y * y),
{
}

proof fn lemma_twice(x: int, y: int)
    ensures
        2 * (x * y) <= x * x + y * y,
{
    lemma_square(x - y);
    assert((x - y) * (x - y) == x * x - 2 * (x * y) + y * y) by (nonlinear_arith);
}

/// The mixed part of a squared scalar product.
proof fn lemma_mixed(a: int, p: int, b: int, q: int)
    ensures
        2 * ((a * p) * (b * q)) <= (a * a) * (q * q) + (b * b) * (p * p),
{
    lemma_twice(a * q, b * p);
    assert((a * p) * (b * q) == (a * q) * (b * p)) by (nonlinear_arith);
    lemma_product_square(a, q);
    lemma_product_square(b, p);
}

/// A scalar product is at most the product of the lengths.
proof fn lemma_cauchy(u: Spot, v: Spot)
    ensures
        dot(u, v) * dot(u, v) <= u.square() * v.square(),
{
    let (a, b, c) = (u.x * v.x, u.y * v.y, u.z * v.z);
    assert((a + b + c) * (a + b + c) == a * a + b * b + c * c + 2 * (a * b) + 2 * (a * c) + 2 * (b
        * c)) by (nonlinear_arith);
    lemma_product_square(u.x, v.x);
    lemma_product_square(u.y, v.y);
    lemma_product_square(u.z, v.z);
    lemma_mixed(u.x, v.x, u.y, v.y);
    lemma_mixed(u.x, v.x, u.z, v.z);
    lemma_mixed(u.y, v.y, u.z, v.z);
    let (x, y, z) = (u.x * u.x, u.y * u.y, u.z * u.z);
    let (p, q, r) = (v.x * v.x, v.y * v.y, v.z * v.z);
    let s = p + q + r;
    assert((x + y + z) * s == x * s + y * s + z * s) by (nonlinear_arith);
    lemma_three(x, p, q, r);
    lemma_three(y, p, q, r);
    lemma_three(z, p, q, r);
}

proof fn lemma_three(k: int, p: int, q: int, r: int)
    by (nonlinear_arith)
    ensures
        k * (p + q + r) == k * p + k * q + k * r,
{
}

proof fn lemma_scaled(a: int, b: int, k: int)
    by (nonlinear_arith)
    requires
        a <= b,
        k >= 0,
    ensures
        k * a <= k * b,
{
}

/// No direction spreads the points more than they are scattered.
proof fn lemma_spread_bound(points: Seq<Vector>, center: Spot, d: Spot)
    ensures
        0 <= spread(points, center, d) <= scatter(points, center) * d.square(),
        scatter(points, center) >= 0,
    decreases points.len(),
{
    let n = d.square();
    if points.len() == 0 {
        assert(0 * n == 0);
    } else {
        let rest = points.drop_last();
        lemma_spread_bound(rest, center, d);
        let o = Spot::of(points.last()).minus(center);
        lemma_cauchy(o, d);
        lemma_square(dot(o, d));
        lemma_square(o.x);
        lemma_square(o.y);
        lemma_square(o.z);
        let (s, t) = (scatter(rest, center), o.square());
        assert((s + t) * n == s * n + t * n) by (nonlinear_arith);
    }
}

/// A longer direction spreads the points as its square is larger.
proof fn lemma_spread_scaled(points: Seq<Vector>, center: Spot, d: Spot, k: int)
    ensures
        spread(points, center, d.times(k)) == (k * k) * spread(points, center, d),
    decreases points.len(),
{
    let kk = k * k;
    if points.len() == 0 {
        assert(kk * 0 == 0);
    } else {
        let rest = points.drop_last();
        lemma_spread_scaled(rest, center, d, k);
        let o = Spot::of(points.last()).minus(center);
        assert(o.x * (k * d.x) == k * (o.x * d.x)) by (nonlinear_arith);
        assert(o.y * (k * d.y) == k * (o.y * d.y)) by (nonlinear_arith);
        assert(o.z * (k * d.z) == k * (o.z * d.z)) by (nonlinear_arith);
        lemma_three(k, o.x * d.x, o.y * d.y, o.z * d.z);
        let a = dot(o, d);
        assert(dot(o, d.times(k)) == k * a);
        lemma_product_square(k, a);
        let s = spread(rest, center, d);
        assert(kk * (s + a * a) == kk * s + kk * (a * a)) by (nonlinear_arith);
    }
}

/// The spread along a sum of directions.
proof fn lemma_spread_split(points: Seq<Vector>, center: Spot, u: Spot, v: Spot, k: int)
    requires
        k >= 0,
    ensures
        k * spread(points, center, u.plus(v)) <= (k + 1) * spread(points, center, u) + (k * (k
            + 1)) * spread(points, center, v),
    decreases points.len(),
{
    let (l, m) = (k + 1, k * (k + 1));
    if points.len() == 0 {
        assert(k * 0 == 0 && l * 0 == 0 && m * 0 == 0);
    } else {
        let rest = points.drop_last();
        lemma_spread_split(rest, center, u, v, k);
        let o = Spot::of(points.last()).minus(center);
        let (a, b) = (dot(o, u), dot(o, v));
        assert(o.x * (u.x + v.x) == o.x * u.x + o.x * v.x) by (nonlinear_arith);
        assert(o.y * (u.y + v.y) == o.y * u.y + o.y * v.y) by (nonlinear_arith);
        assert(o.z * (u.z + v.z) == o.z * u.z + o.z * v.z) by (nonlinear_arith);
        assert(dot(o, u.plus(v)) == a + b);
        lemma_split_square(a, b, k);
        let (p, q, r) = (
            spread(rest, center, u.plus(v)),
            spread(rest, center, u),
            spread(rest, center, v),
        );
        let (x, y, z) = ((a + b) * (a + b), a * a, b * b);
        assert(k * (p + x) == k * p + k * x) by (nonlinear_arith);
        assert(l * (q + y) == l * q + l * y) by (nonlinear_arith);
        assert(m * (r + z) == m * r + m * z) by (nonlinear_arith);
    }
}

proof fn lemma_split_square(a: int, b: int, k: int)
    requires
        k >= 0,
    ensures
        k * ((a + b) * (a + b)) <= (k + 1) * (a * a) + (k * (k + 1)) * (b * b),
{
    let c = k * b;
    lemma_twice(a, c);
    let (x, y, z) = (a * a, a * b, b * b);
    assert((a + b) * (a + b) == x + 2 * y + z) by (nonlinear_arith)
        requires
            x == a * a,
            y == a * b,
            z == b * b,
    ;
    assert(k * (x + 2 * y + z) == k * x + 2 * (k * y) + k * z) by (nonlinear_arith);
    assert(a * c == k * y) by (nonlinear_arith)
        requires
            c == k * b,
            y == a * b,
    ;
    lemma_product_square(k, b);
    assert((k * (k + 1)) * z == (k * k) * z + k * z) by (nonlinear_arith);
    assert((k + 1) * x == k * x + x) by (nonlinear_arith);
}

/// The square of the component along an eigenvector.
pub open spec fn share(v: Vector, d: Spot) -> int {
    dot(Spot::of(v), d) * dot(Spot::of(v), d)
}

/// Whether an eigenvector is of unit length to within `skew`, and the points
/// spread along it as its eigenvalue says, to within `slack`.
pub open spec fn fits_vector(
    points: Seq<Vector>,
    center: Spot,
    value: Double,
    v: Vector,
    slack: int,
    skew: int,
) -> bool {
    let one = crate::arithmetic::one();
    let n = Spot::of(v).square();
    &&& !value.is_nan()
    &&& v.is_finite()
    &&& one * one - skew <= n <= one * one + skew
    &&& (points.len() * value.value() * (one * one)) * n <= one * spread(
        points,
        center,
        Spot::of(v),
    ) + slack * n
}

/// Whether eigenvalues and eigenvectors are those of the scatter of the points
/// about `center`: the points spread along every direction by the eigenvalues
/// times the squared components along the eigenvectors, to within `slack`; and
/// the eigenvectors are of unit length and at right angles, to within `skew`.
/// Both are relative to the square of the direction, and hold all that
/// rounding the covariance and taking it apart lost.
pub open spec fn decomposes(
    points: Seq<Vector>,
    center: Spot,
    eigen: Eigen,
    slack: int,
    skew: int,
) -> bool {
    let one = crate::arithmetic::one();
    &&& slack >= 0
    &&& skew >= 0
    &&& fits_vector(points, center, eigen.values.x, eigen.vectors.first, slack, skew)
    &&& fits_vector(points, center, eigen.values.y, eigen.vectors.second, slack, skew)
    &&& fits_vector(points, center, eigen.values.z, eigen.vectors.third, slack, skew)
    &&& forall|d: Spot|
        {
            &&& one * #[trigger] spread(points, center, d) <= points.len() * (
            eigen.values.x.value() * share(eigen.vectors.first, d) + eigen.values.y.value() * share(
                eigen.vectors.second,
                d,
            ) + eigen.values.z.value() * share(eigen.vectors.third, d)) + slack * d.square()
            &&& share(eigen.vectors.first, d) + share(eigen.vectors.second, d) + share(
                eigen.vectors.third,
                d,
            ) <= (one * one + skew) * d.square()
        }
}

/// The eigenvalue of the dominant eigenvector.
pub open spec fn largest(eigen: Eigen) -> Double {
    let (x, y, z) = (eigen.values.x.rank(), eigen.values.y.rank(), eigen.values.z.rank());
    if z >= x && z >= y {
        eigen.values.z
    } else if y >= x {
        eigen.values.y
    } else {
        eigen.values.x
    }
}

/// What a decomposition that is `slack` and `skew` off may cost: how much more
/// another direction may spread the points, relative to its square.
pub open spec fn loss(points: Seq<Vector>, eigen: Eigen, slack: int, skew: int) -> int {
    let top = largest(eigen).value();
    2 * slack + if top > 0 {
        points.len() * top * skew
    } else {
        0
    }
}

proof fn lemma_rank(a: Double, b: Double)
    requires
        !a.is_nan(),
        !b.is_nan(),
        a.rank() <= b.rank(),
    ensures
        a.value() <= b.value(),
{
    crate::double::lemma_magnitude_order(a.magnitude(), b.magnitude());
}

/// No direction spreads the points more than the dominant eigenvector, beyond
/// what the decomposition lost.
pub proof fn law_the_dominant_eigenvector_spreads_most(
    points: Seq<Vector>,
    center: Spot,
    eigen: Eigen,
    slack: int,
    skew: int,
    d: Spot,
)
    requires
        decomposes(points, center, eigen, slack, skew),
    ensures
        ({
            let one = crate::arithmetic::one();
            let v = Spot::of(crate::fit::dominant(eigen));
            (one * spread(points, center, d)) * v.square() <= (one * spread(points, center, v)
                + loss(points, eigen, slack, skew) * v.square()) * d.square()
        }),
{
    let one = crate::arithmetic::one();
    let v = Spot::of(crate::fit::dominant(eigen));
    let top = largest(eigen).value();
    let count = points.len() as int;
    let (n, m) = (v.square(), d.square());
    let (p, q, r) = (
        share(eigen.vectors.first, d),
        share(eigen.vectors.second, d),
        share(eigen.vectors.third, d),
    );
    let (a, b, c) = (
        eigen.values.x.value(),
        eigen.values.y.value(),
        eigen.values.z.value(),
    );
    let x = one * spread(points, center, d);
    let y = one * spread(points, center, v);
    lemma_pow2_pos(1074);
    lemma_rank_largest(eigen);
    lemma_square(dot(Spot::of(eigen.vectors.first), d));
    lemma_square(dot(Spot::of(eigen.vectors.second), d));
    lemma_square(dot(Spot::of(eigen.vectors.third), d));
    lemma_square(d.x);
    lemma_square(d.y);
    lemma_square(d.z);
    lemma_square(v.x);
    lemma_square(v.y);
    lemma_square(v.z);
    lemma_spread_bound(points, center, d);
    lemma_spread_bound(points, center, v);
    lemma_scaled(0, spread(points, center, v), one);
    assert(one * 0 == 0);
    assert(x <= count * (a * p + b * q + c * r) + slack * m);
    assert(p + q + r <= (one * one + skew) * m);
    lemma_scaled(a, top, p);
    lemma_scaled(b, top, q);
    lemma_scaled(c, top, r);
    assert(p * a == a * p && q * b == b * q && r * c == c * r) by (nonlinear_arith);
    assert(p * top + q * top + r * top == top * (p + q + r)) by (nonlinear_arith);
    lemma_scaled(a * p + b * q + c * r, top * (p + q + r), count);
    let w = p + q + r;
    if top > 0 {
        let one2 = one * one;
        lemma_scaled(w, (one2 + skew) * m, top);
        lemma_scaled(top * w, top * ((one2 + skew) * m), count);
        lemma_expand(count, top, one2, skew, m);
        let (g, h) = (count * top * one2, count * top * skew);
        assert(x <= g * m + h * m + slack * m);
        assert(g * m + h * m + slack * m == (g + h + slack) * m) by (nonlinear_arith);
        lemma_scaled(x, (g + h + slack) * m, n);
        assert(g * n <= y + slack * n);
        lemma_scaled(g * n, y + slack * n, m);
        lemma_finish(x, g, h, slack, n, m, y);
    } else {
        lemma_below(count, top, w);
        lemma_scaled(x, slack * m, n);
        lemma_finish_small(x, slack, n, m, y);
    }
}

proof fn lemma_rank_largest(eigen: Eigen)
    requires
        !eigen.values.x.is_nan(),
        !eigen.values.y.is_nan(),
        !eigen.values.z.is_nan(),
    ensures
        eigen.values.x.value() <= largest(eigen).value(),
        eigen.values.y.value() <= largest(eigen).value(),
        eigen.values.z.value() <= largest(eigen).value(),
{
    lemma_rank(eigen.values.x, largest(eigen));
    lemma_rank(eigen.values.y, largest(eigen));
    lemma_rank(eigen.values.z, largest(eigen));
}

proof fn lemma_expand(count: int, top: int, a: int, b: int, m: int)
    ensures
        count * (top * ((a + b) * m)) == (count * top * a) * m + (count * top * b) * m,
{
    assert((a + b) * m == a * m + b * m) by (nonlinear_arith);
    let (x, y) = (a * m, b * m);
    assert(top * (x + y) == top * x + top * y) by (nonlinear_arith);
    let (p, q) = (top * x, top * y);
    assert(count * (p + q) == count * p + count * q) by (nonlinear_arith);
    assert(count * (top * (a * m)) == (count * top * a) * m) by (nonlinear_arith);
    assert(count * (top * (b * m)) == (count * top * b) * m) by (nonlinear_arith);
}

proof fn lemma_below(count: int, top: int, w: int)
    by (nonlinear_arith)
    requires
        count >= 0,
        top <= 0,
        w >= 0,
    ensures
        count * (top * w) <= 0,
{
}

proof fn lemma_finish(x: int, g: int, h: int, slack: int, n: int, m: int, y: int)
    requires
        n * x <= n * ((g + h + slack) * m),
        m * (g * n) <= m * (y + slack * n),
    ensures
        x * n <= (y + (2 * slack + h) * n) * m,
{
    assert(n * x == x * n) by (nonlinear_arith);
    assert(n * ((g + h + slack) * m) == (n * (g + h + slack)) * m) by (nonlinear_arith);
    assert(n * (g + h + slack) == g * n + h * n + slack * n) by (nonlinear_arith);
    let (a, b, c) = (g * n, h * n, slack * n);
    assert((a + b + c) * m == m * a + b * m + c * m) by (nonlinear_arith);
    assert(m * (y + c) == y * m + c * m) by (nonlinear_arith);
    assert((2 * slack + h) * n == 2 * c + b) by (nonlinear_arith)
        requires
            c == slack * n,
            b == h * n,
    ;
    assert((y + (2 * c + b)) * m == y * m + 2 * (c * m) + b * m) by (nonlinear_arith);
}

proof fn lemma_finish_small(x: int, slack: int, n: int, m: int, y: int)
    requires
        n * x <= n * (slack * m),
        slack >= 0,
        n >= 0,
        m >= 0,
        y >= 0,
    ensures
        x * n <= (y + (2 * slack + 0) * n) * m,
{
    assert(n * x == x * n) by (nonlinear_arith);
    let c = slack * n;
    assert(n * (slack * m) == (slack * n) * m) by (nonlinear_arith);
    assert((2 * slack + 0) * n == 2 * c) by (nonlinear_arith)
        requires
            c == slack * n,
    ;
    assert(c >= 0) by (nonlinear_arith)
        requires
            c == slack * n,
            slack >= 0,
            n >= 0,
    ;
    lemma_scaled(c, y + 2 * c, m);
    assert(m * c == c * m && m * (y + 2 * c) == (y + 2 * c) * m) by (nonlinear_arith);
}

/// What the numbers near one are rounded to, at most: two to the -48th.
pub open spec fn grain() -> int {
    pow2(1026) as int
}

proof fn lemma_grain()
    ensures
        grain() > 0,
        crate::arithmetic::one() == 0x1_0000_0000_0000 * grain(),
        pow2(1075) == 2 * crate::arithmetic::one(),
        pow2(1076) == 4 * crate::arithmetic::one(),
        pow2(1078) == 16 * crate::arithmetic::one(),
        grain() >= BINADE,
{
    lemma2_to64();
    lemma2_to64_rest();
    lemma_pow2_adds(48, 1026);
    lemma_pow2_pos(1026);
    lemma_pow2_adds(1, 1074);
    lemma_pow2_adds(2, 1074);
    lemma_pow2_adds(4, 1074);
    lemma_pow2_strictly_increases(52, 1026);
    assert(pow2(52) == BINADE);
}

/// Below sixteen the doubles lie no farther apart than the grain.
proof fn lemma_fine(u: int)
    requires
        0 <= u,
        crate::double::size(u) <= pow2(1078),
    ensures
        0 < crate::double::gap(u) <= grain(),
{
    lemma_grain();
    crate::double::lemma_size_step(u);
    if u > 0 {
        crate::double::lemma_gap(u);
    }
}

proof fn lemma_near_two(x: int, one: int)
    requires
        x * x <= 2 * (one * one),
        one > 0,
    ensures
        -(2 * one) <= x <= 2 * one,
{
    if x > 2 * one || x < -(2 * one) {
        assert(x * x > 2 * (one * one)) by (nonlinear_arith)
            requires
                x > 2 * one || x < -(2 * one),
                one > 0,
        ;
    }
}

/// How far a square near one is off.
proof fn lemma_near_square(x: Double)
    requires
        x.is_finite(),
        x.value() * x.value() <= 2 * (crate::arithmetic::one() * crate::arithmetic::one()),
    ensures
        ({
            let one = crate::arithmetic::one();
            let p = x.product(x);
            &&& crate::bounds::is_plain(p)
            &&& crate::bounds::is_bounded(p, 1076)
            &&& -(one * grain()) <= 2 * (one * p.value() - x.value() * x.value()) <= one * grain()
        }),
{
    let one = crate::arithmetic::one();
    let p = x.product(x);
    let s = crate::double::size(x.magnitude());
    lemma_grain();
    crate::double::lemma_magnitude_order(x.magnitude(), 0);
    lemma_near_two(x.value(), one);
    assert(s * s == x.value() * x.value()) by (nonlinear_arith)
        requires
            s == x.value() || s == -x.value(),
    ;
    crate::bounds::lemma_product(x, 1075, x, 1075, 1076);
    crate::bounds::lemma_bounded(p, 1076);
    crate::bounds::lemma_squared(x);
    crate::arithmetic::lemma_rounded(false, s * s, one);
    lemma_square(s);
    let u = p.magnitude();
    crate::rounding::lemma_nearest_error(s * s, one, u);
    lemma_fine(u);
    let (y, g) = (crate::double::size(u), crate::double::gap(u));
    assert(one * (2 * y + g) == 2 * (one * y) + one * g) by (nonlinear_arith);
    assert(one * (2 * y - g) == 2 * (one * y) - one * g) by (nonlinear_arith);
    lemma_scaled(g, grain(), one);
}

/// How far a sum near one is off.
proof fn lemma_near_sum(a: Double, b: Double, k: nat)
    requires
        crate::bounds::is_plain(a),
        crate::bounds::is_plain(b),
        crate::bounds::is_bounded(a, k),
        crate::bounds::is_bounded(b, k),
        k < 1078,
    ensures
        crate::bounds::is_plain(a.sum(b)),
        crate::bounds::is_bounded(a.sum(b), k + 1),
        a.sum(b).is_finite(),
        -grain() <= 2 * (a.sum(b).value() - (a.value() + b.value())) <= grain(),
{
    crate::bounds::lemma_sum(a, b, k);
    crate::bounds::lemma_bounded(a, k);
    crate::bounds::lemma_bounded(b, k);
    crate::bounds::lemma_bounded(a.sum(b), k + 1);
    crate::bounds::lemma_plain_sum(a, b);
    assert(b.negated().negated() == b);
    crate::arithmetic::law_differences_are_accurate(a, b.negated());
    if k + 1 < 1078 {
        lemma_pow2_strictly_increases(k + 1, 1078);
    }
    lemma_fine(a.sum(b).magnitude());
}

/// How far the squared length of a direction near unit length is off.
proof fn lemma_near_inner(v: Vector)
    requires
        v.is_finite(),
        Spot::of(v).square() <= 2 * (crate::arithmetic::one() * crate::arithmetic::one()),
    ensures
        ({
            let one = crate::arithmetic::one();
            let i = v.inner(v);
            let n = Spot::of(v).square();
            &&& crate::bounds::is_plain(i)
            &&& i.is_finite()
            &&& -5 * (one * grain()) <= 2 * (one * i.value() - n) <= 5 * (one * grain())
        }),
{
    let one = crate::arithmetic::one();
    let i = v.inner(v);
    let (a, b, c) = (v.x.product(v.x), v.y.product(v.y), v.z.product(v.z));
    let (x, y, z) = (v.x.value(), v.y.value(), v.z.value());
    lemma_grain();
    lemma_square(x);
    lemma_square(y);
    lemma_square(z);
    lemma_near_square(v.x);
    lemma_near_square(v.y);
    lemma_near_square(v.z);
    lemma_near_sum(a, b, 1076);
    let s = a.sum(b);
    lemma_pow2_strictly_increases(1076, 1077);
    lemma_near_sum(s, c, 1077);
    let (p, q, r, t, w) = (a.value(), b.value(), c.value(), s.value(), i.value());
    lemma_three(one, p, q, r);
    let e = w - (p + q + r);
    assert(-2 * grain() <= 2 * e <= 2 * grain());
    lemma_scaled(e, grain(), one);
    lemma_scaled(-grain(), e, one);
    assert(one * (-grain()) == -(one * grain())) by (nonlinear_arith);
    assert(one * e == one * w - one * (p + q + r)) by (nonlinear_arith)
        requires
            e == w - (p + q + r),
    ;
}

/// Whether a direction is of unit length, to within a quarter of its square.
pub open spec fn is_near_unit(v: Vector) -> bool {
    let one = crate::arithmetic::one();
    &&& v.is_finite()
    &&& 3 * (one * one) <= 4 * Spot::of(v).square() <= 5 * (one * one)
}

/// How far the length of a direction near unit length is off.
proof fn lemma_near_length(v: Vector)
    requires
        is_near_unit(v),
    ensures
        ({
            let one = crate::arithmetic::one();
            let l = v.length();
            let n = Spot::of(v).square();
            &&& !v.inner(v).less(Double { bits: DEGENERATE })
            &&& crate::bounds::is_plain(l)
            &&& l.is_finite()
            &&& 0 < l.value() <= 2 * one
            &&& -8 * (one * grain()) <= l.value() * l.value() - n <= 8 * (one * grain())
        }),
{
    let one = crate::arithmetic::one();
    let n = Spot::of(v).square();
    let i = v.inner(v);
    let l = v.length();
    let g = grain();
    lemma_grain();
    lemma_square(one);
    lemma_near_inner(v);
    let w = i.value();
    assert(one * one == 0x1_0000_0000_0000 * (one * g)) by (nonlinear_arith)
        requires
            one == 0x1_0000_0000_0000 * g,
    ;
    assert(one * g > 0) by (nonlinear_arith)
        requires
            one > 0,
            g > 0,
    ;
    assert(2 * (one * w) >= one * one);
    assert(2 * w >= one) by (nonlinear_arith)
        requires
            2 * (one * w) >= one * one,
            one > 0,
    ;
    crate::bounds::lemma_constants();
    crate::double::lemma_magnitude_order(DEGENERATE as int, crate::double::HALF as int);
    crate::double::lemma_magnitude_order(i.magnitude(), 0);
    crate::bounds::lemma_root(i);
    let m = w * one;
    let u = l.magnitude();
    let two = crate::double::size(crate::double::TWO as int);
    assert(two * two == 4 * (one * one)) by (nonlinear_arith)
        requires
            two == 2 * one,
    ;
    assert(m == one * w) by (nonlinear_arith)
        requires
            m == w * one,
    ;
    assert(m <= two * two);
    crate::rounding::lemma_root_bound(m, u, crate::double::TWO as int);
    crate::double::lemma_magnitude_order(u, crate::double::TWO as int);
    crate::double::lemma_magnitude_order(u, 0);
    crate::rounding::lemma_root_error(m, u);
    lemma_fine(u);
    let (y, e) = (crate::double::size(u), crate::double::gap(u));
    lemma_root_square(y, e, m, one, g);
}

proof fn lemma_root_square(y: int, e: int, m: int, one: int, g: int)
    requires
        0 < e <= g,
        0 < y <= 2 * one,
        g <= one,
        (2 * y - e) * (2 * y - e) <= 4 * m <= (2 * y + e) * (2 * y + e),
    ensures
        -3 * (one * g) <= y * y - m <= 3 * (one * g),
{
    assert((2 * y - e) * (2 * y - e) == 4 * (y * y) - 4 * (y * e) + e * e) by (nonlinear_arith);
    assert((2 * y + e) * (2 * y + e) == 4 * (y * y) + 4 * (y * e) + e * e) by (nonlinear_arith);
    lemma_square(e);
    assert(y * e <= 2 * (one * g)) by (nonlinear_arith)
        requires
            0 < e <= g,
            0 < y <= 2 * one,
    ;
    assert(e * e <= one * g) by (nonlinear_arith)
        requires
            0 < e <= g,
            g <= one,
    ;
    assert(one * g > 0) by (nonlinear_arith)
        requires
            0 < g <= one,
    ;
}

/// How far a coordinate divided by the length is off.
proof fn lemma_near_part(x: Double, l: Double)
    requires
        x.is_finite(),
        crate::bounds::is_plain(l),
        l.is_finite(),
        l.value() > 0,
        crate::bounds::is_bounded(x.quotient(l), 1075),
    ensures
        ({
            let one = crate::arithmetic::one();
            let y = l.value();
            -(y * grain()) <= 2 * (y * x.quotient(l).value() - one * x.value()) <= y * grain()
        }),
{
    let one = crate::arithmetic::one();
    let a = x.quotient(l);
    let (s, y) = (crate::double::size(x.magnitude()), l.value());
    lemma_grain();
    crate::double::lemma_magnitude_order(l.magnitude(), 0);
    crate::double::lemma_magnitude_order(x.magnitude(), 0);
    crate::bounds::lemma_bounded(a, 1075);
    crate::arithmetic::lemma_rounded(x.is_negative(), s * one, y);
    assert(s * one >= 0) by (nonlinear_arith)
        requires
            s >= 0,
            one > 0,
    ;
    let u = a.magnitude();
    crate::rounding::lemma_nearest_error(s * one, y, u);
    lemma_pow2_strictly_increases(1075, 1078);
    lemma_fine(u);
    let (z, g) = (crate::double::size(u), crate::double::gap(u));
    assert(y * (2 * z + g) == 2 * (y * z) + y * g) by (nonlinear_arith);
    assert(y * (2 * z - g) == 2 * (y * z) - y * g) by (nonlinear_arith);
    lemma_scaled(g, grain(), y);
    assert(s * one == one * s) by (nonlinear_arith);
    assert(y * (-z) == -(y * z)) by (nonlinear_arith);
    assert(one * (-s) == -(one * s)) by (nonlinear_arith);
}

/// What the axis misses the direction that it is taken from by, times the
/// length of that direction.
spec fn tilt(eigen: Eigen) -> Spot {
    let v = crate::fit::dominant(eigen);
    Spot::of(crate::fit::axis_of(eigen)).times(v.length().value()).minus(
        Spot::of(v).times(crate::arithmetic::one()),
    )
}

/// No coordinate of the tilt is more than half the grain, relative to the
/// length.
proof fn lemma_tilt(eigen: Eigen)
    requires
        is_near_unit(crate::fit::dominant(eigen)),
    ensures
        ({
            let y = crate::fit::dominant(eigen).length().value();
            let t = tilt(eigen);
            &&& -(y * grain()) <= 2 * t.x <= y * grain()
            &&& -(y * grain()) <= 2 * t.y <= y * grain()
            &&& -(y * grain()) <= 2 * t.z <= y * grain()
        }),
{
    let v = crate::fit::dominant(eigen);
    let l = v.length();
    lemma_near_length(v);
    crate::bounds::lemma_axis(eigen);
    lemma_near_part(v.x, l);
    lemma_near_part(v.y, l);
    lemma_near_part(v.z, l);
}

/// One coordinate of the axis, squared.
proof fn lemma_tilted(one: int, g: int, y: int, a: int, v: int, t: int)
    requires
        one > 0,
        g > 0,
        0 < y <= 2 * one,
        3 * g <= one,
        y * a == one * v + t,
        -(y * g) <= 2 * t <= y * g,
        v * v <= 2 * (one * one),
    ensures
        ({
            let step = (one * one) * (one * g);
            -5 * step <= (y * y) * (a * a) - (one * one) * (v * v) <= 5 * step
        }),
        4 * (t * t) <= (y * y) * (g * g),
{
    let step = (one * one) * (one * g);
    let w = one * v;
    lemma_product_square(y, a);
    lemma_product_square(one, v);
    assert((w + t) * (w + t) == w * w + 2 * (w * t) + t * t) by (nonlinear_arith);
    let h = y * g;
    assert(0 < h <= 2 * (one * g)) by (nonlinear_arith)
        requires
            h == y * g,
            0 < y <= 2 * one,
            g > 0,
    ;
    let b = one * g;
    assert(-b <= t <= b);
    lemma_near_two(v, one);
    let d = 2 * (one * one);
    assert(-d <= w <= d) by (nonlinear_arith)
        requires
            -(2 * one) <= v <= 2 * one,
            w == one * v,
            d == 2 * (one * one),
            one > 0,
    ;
    assert(-(d * b) <= w * t <= d * b) by (nonlinear_arith)
        requires
            -d <= w <= d,
            -b <= t <= b,
    ;
    assert(d * b == 2 * step) by (nonlinear_arith)
        requires
            d == 2 * (one * one),
            step == (one * one) * b,
    ;
    lemma_square(t);
    assert(t * t <= b * b) by (nonlinear_arith)
        requires
            -b <= t <= b,
    ;
    assert(b * b == (one * one) * (g * g)) by {
        lemma_product_square(one, g);
    }
    lemma_square(one);
    assert(g * g <= one * g) by (nonlinear_arith)
        requires
            0 < g,
            3 * g <= one,
    ;
    lemma_scaled(g * g, one * g, one * one);
    assert(4 * (t * t) <= h * h) by (nonlinear_arith)
        requires
            -h <= 2 * t <= h,
    ;
    lemma_product_square(y, g);
}

/// The axis is of unit length, up to rounding: its square is off by no more
/// than two to the -40th.
pub proof fn law_axes_have_unit_length(eigen: Eigen)
    requires
        is_near_unit(crate::fit::dominant(eigen)),
    ensures
        ({
            let square = crate::arithmetic::one() * crate::arithmetic::one();
            let a = Spot::of(crate::fit::axis_of(eigen)).square();
            -square <= 0x100_0000_0000 * (a - square) <= square
        }),
{
    let one = crate::arithmetic::one();
    let g = grain();
    let d = crate::fit::dominant(eigen);
    let (v, a, t) = (Spot::of(d), Spot::of(crate::fit::axis_of(eigen)), tilt(eigen));
    let y = d.length().value();
    lemma_grain();
    lemma_near_length(d);
    lemma_tilt(eigen);
    lemma_square(v.x);
    lemma_square(v.y);
    lemma_square(v.z);
    lemma_square(one);
    lemma_tilted(one, g, y, a.x, v.x, t.x);
    lemma_tilted(one, g, y, a.y, v.y, t.y);
    lemma_tilted(one, g, y, a.z, v.z, t.z);
    let (yy, uu) = (y * y, one * one);
    lemma_three(yy, a.x * a.x, a.y * a.y, a.z * a.z);
    lemma_three(uu, v.x * v.x, v.y * v.y, v.z * v.z);
    let (s, n) = (a.square(), v.square());
    let b = one * g;
    let step = uu * b;
    assert(-15 * step <= yy * s - uu * n <= 15 * step);
    lemma_scaled(yy - n, 8 * b, uu);
    lemma_scaled(-8 * b, yy - n, uu);
    assert(uu * (yy - n) == uu * yy - uu * n) by (nonlinear_arith);
    assert(uu * (8 * b) == 8 * step && uu * (-8 * b) == -8 * step) by (nonlinear_arith)
        requires
            step == uu * b,
    ;
    let e = s - uu;
    assert(yy * e == yy * s - uu * yy) by (nonlinear_arith)
        requires
            e == s - uu,
    ;
    assert(-23 * step <= yy * e <= 23 * step);
    assert(uu == 0x1_0000_0000_0000 * b) by (nonlinear_arith)
        requires
            uu == one * one,
            b == one * g,
            one == 0x1_0000_0000_0000 * g,
    ;
    assert(2 * yy >= uu);
    assert(uu > 0) by (nonlinear_arith)
        requires
            uu == one * one,
            one > 0,
    ;
    lemma_off(yy, uu, e, b, step);
}

proof fn lemma_off(yy: int, uu: int, e: int, b: int, step: int)
    requires
        2 * yy >= uu,
        uu > 0,
        step == uu * b,
        -23 * step <= yy * e <= 23 * step,
        uu == 0x1_0000_0000_0000 * b,
    ensures
        -uu <= 0x100_0000_0000 * e <= uu,
{
    if e >= 0 {
        lemma_scaled(uu, 2 * yy, e);
        assert(e * uu == uu * e && e * (2 * yy) == 2 * (yy * e)) by (nonlinear_arith);
        assert(e <= 46 * b) by (nonlinear_arith)
            requires
                uu * e <= 46 * (uu * b),
                uu > 0,
        ;
    } else {
        let f = -e;
        lemma_scaled(uu, 2 * yy, f);
        let h = yy * e;
        assert(f * (2 * yy) == -(2 * h)) by (nonlinear_arith)
            requires
                f == -e,
                h == yy * e,
        ;
        assert(f * uu == uu * f) by (nonlinear_arith);
        assert(-(2 * h) <= 46 * step);
        assert(f <= 46 * b) by (nonlinear_arith)
            requires
                uu * f <= 46 * (uu * b),
                uu > 0,
        ;
    }
}

/// Of all directions the axis of a fit is the one along which the points spread
/// most, beyond what the decomposition lost and what rounding the axis costs:
/// no direction, relative to its square, has a larger sum of squared offsets
/// than the axis, by more than the loss and two to the -27th of the scatter of
/// the points.
pub proof fn law_the_axis_spreads_most(
    points: Seq<Vector>,
    center: Spot,
    eigen: Eigen,
    slack: int,
    skew: int,
    d: Spot,
)
    requires
        decomposes(points, center, eigen, slack, skew),
        4 * skew <= crate::arithmetic::one() * crate::arithmetic::one(),
    ensures
        ({
            let one = crate::arithmetic::one();
            let a = Spot::of(crate::fit::axis_of(eigen));
            0x800_0000 * ((one * one) * spread(points, center, d)) <= (0x800_0000 * (spread(
                points,
                center,
                a,
            ) + one * loss(points, eigen, slack, skew)) + scatter(points, center) * (one * one))
                * d.square()
        }),
{
    let one = crate::arithmetic::one();
    let k: int = 0x4000_0000;
    let top = crate::fit::dominant(eigen);
    let (v, a, t) = (Spot::of(top), Spot::of(crate::fit::axis_of(eigen)), tilt(eigen));
    let y = top.length().value();
    let (uu, yy, n, m) = (one * one, y * y, v.square(), d.square());
    let far = spread(points, center, d);
    let near = spread(points, center, a);
    let lead = spread(points, center, v);
    let all = scatter(points, center);
    let cost = loss(points, eigen, slack, skew);
    lemma_grain();
    lemma_near_length(top);
    law_the_dominant_eigenvector_spreads_most(points, center, eigen, slack, skew, d);
    law_axes_have_unit_length(eigen);
    lemma_square(d.x);
    lemma_square(d.y);
    lemma_square(d.z);
    // The axis, stretched, is the eigenvector, stretched, and the tilt.
    let (b, c) = (a.times(y), t.times(-1));
    assert(b.plus(c) == v.times(one));
    lemma_spread_split(points, center, b, c, k);
    lemma_spread_scaled(points, center, a, y);
    lemma_spread_scaled(points, center, t, -1);
    lemma_spread_scaled(points, center, v, one);
    lemma_spread_bound(points, center, t);
    lemma_spread_bound(points, center, a);
    let off = spread(points, center, t);
    let kk = k * (k + 1);
    assert((-1) * (-1) == 1);
    assert(1 * off == off);
    assert(k * (uu * lead) <= (k + 1) * (yy * near) + kk * off);
    lemma_small_tilt(eigen, n);
    lemma_square(t.x);
    lemma_square(t.y);
    lemma_square(t.z);
    lemma_scaled(off, all * t.square(), kk);
    let tt = t.square();
    assert(kk * (all * tt) == all * (kk * tt)) by (nonlinear_arith);
    lemma_scaled(kk * tt, n * uu, all);
    lemma_scaled((k + 1) * yy, (k + 2) * n, near);
    assert((k + 1) * (yy * near) == near * ((k + 1) * yy)) by (nonlinear_arith);
    assert(k * (uu * lead) <= near * ((k + 2) * n) + all * (n * uu));
    lemma_combined(k, one, far, n, lead, cost, m, near, all);
    // Twice the spread along the axis is within four times the scatter.
    lemma_scaled(a.square(), 2 * uu, all);
    assert(all * (2 * uu) == 2 * (all * uu)) by (nonlinear_arith);
    let most = all * uu;
    assert((k + 2) * near + most + k * (one * cost) <= 8 * (0x800_0000 * (near + one * cost)
        + most)) by {
        lemma_square(one);
        lemma_scaled(0, uu, all);
        assert(all * 0 == 0);
    }
    lemma_scaled(
        (k + 2) * near + most + k * (one * cost),
        8 * (0x800_0000 * (near + one * cost) + most),
        m,
    );
    let rest = 0x800_0000 * (near + one * cost) + most;
    assert(m * (8 * rest) == 8 * (rest * m)) by (nonlinear_arith);
    let sum = (k + 2) * near + most + k * (one * cost);
    assert(m * sum == sum * m) by (nonlinear_arith);
}

/// The tilt and the length of the eigenvector are next to nothing off.
proof fn lemma_small_tilt(eigen: Eigen, n: int)
    requires
        is_near_unit(crate::fit::dominant(eigen)),
        n == Spot::of(crate::fit::dominant(eigen)).square(),
    ensures
        ({
            let one = crate::arithmetic::one();
            let y = crate::fit::dominant(eigen).length().value();
            let k: int = 0x4000_0000;
            &&& n > 0
            &&& (k + 1) * (y * y) <= (k + 2) * n
            &&& (k * (k + 1)) * tilt(eigen).square() <= n * (one * one)
        }),
{
    let one = crate::arithmetic::one();
    let g = grain();
    let top = crate::fit::dominant(eigen);
    let (v, a, t) = (Spot::of(top), Spot::of(crate::fit::axis_of(eigen)), tilt(eigen));
    let y = top.length().value();
    let yy = y * y;
    lemma_grain();
    lemma_near_length(top);
    lemma_tilt(eigen);
    lemma_square(v.x);
    lemma_square(v.y);
    lemma_square(v.z);
    lemma_tilted(one, g, y, a.x, v.x, t.x);
    lemma_tilted(one, g, y, a.y, v.y, t.y);
    lemma_tilted(one, g, y, a.z, v.z, t.z);
    let b = one * g;
    let gg = g * g;
    let wide: int = 0x1_0000_0000_0000;
    assert(one * one == wide * b) by (nonlinear_arith)
        requires
            b == one * g,
            one == wide * g,
    ;
    assert(b > 0) by (nonlinear_arith)
        requires
            b == one * g,
            one > 0,
            g > 0,
    ;
    assert(4 * n >= 3 * (wide * b));
    assert(yy <= n + 8 * b);
    assert(4 * t.square() <= 3 * (yy * gg));
    assert(one * one == (wide * wide) * gg) by (nonlinear_arith)
        requires
            gg == g * g,
            one == wide * g,
    ;
    assert(yy <= 2 * n);
    assert(gg > 0) by (nonlinear_arith)
        requires
            gg == g * g,
            g > 0,
    ;
    lemma_scaled(yy, 2 * n, gg);
    assert(gg * yy == yy * gg && gg * (2 * n) == 2 * (n * gg)) by (nonlinear_arith);
    let ngg = n * gg;
    assert(n * ((wide * wide) * gg) == (wide * wide) * ngg) by (nonlinear_arith)
        requires
            ngg == n * gg,
    ;
    assert(ngg >= 0) by (nonlinear_arith)
        requires
            ngg == n * gg,
            n > 0,
            gg > 0,
    ;
    let tt = t.square();
    assert(0x4000_0001 * yy <= 0x4000_0002 * n);
    assert(4 * tt <= 6 * ngg);
    assert(0x1000_0000_4000_0000 * tt <= 0x1_0000_0000_0000_0000 * ngg);
    let k: int = 0x4000_0000;
    assert(k * (k + 1) == 0x1000_0000_4000_0000) by (nonlinear_arith)
        requires
            k == 0x4000_0000,
    ;
    assert(wide * wide == 0x1_0000_0000_0000_0000_0000_0000) by (nonlinear_arith)
        requires
            wide == 0x1_0000_0000_0000,
    ;
    assert(n * (one * one) == 0x1_0000_0000_0000_0000_0000_0000 * ngg);
}

proof fn lemma_combined(
    k: int,
    one: int,
    far: int,
    n: int,
    lead: int,
    cost: int,
    m: int,
    near: int,
    all: int,
)
    requires
        k >= 0,
        one > 0,
        n > 0,
        m >= 0,
        (one * far) * n <= (one * lead + cost * n) * m,
        k * ((one * one) * lead) <= near * ((k + 2) * n) + all * (n * (one * one)),
    ensures
        k * ((one * one) * far) <= ((k + 2) * near + all * (one * one) + k * (one * cost)) * m,
{
    let uu = one * one;
    let w = k * one;
    assert(w >= 0) by (nonlinear_arith)
        requires
            w == k * one,
            k >= 0,
            one > 0,
    ;
    lemma_scaled((one * far) * n, (one * lead + cost * n) * m, w);
    assert(w * ((one * far) * n) == (k * (uu * far)) * n) by {
        assert((k * one) * ((one * far) * n) == ((k * one) * (one * far)) * n) by (nonlinear_arith);
        assert((k * one) * (one * far) == k * ((one * one) * far)) by (nonlinear_arith);
    }
    let (p, q) = (one * lead, cost * n);
    assert(w * ((p + q) * m) == (w * p + w * q) * m) by (nonlinear_arith);
    assert((k * one) * (one * lead) == k * ((one * one) * lead)) by (nonlinear_arith);
    assert((k * one) * (cost * n) == (k * (one * cost)) * n) by (nonlinear_arith);
    let (l, r, s) = (k + 2, all * uu, k * (one * cost));
    assert(near * (l * n) == (l * near) * n) by (nonlinear_arith);
    assert(all * (n * uu) == (all * uu) * n) by (nonlinear_arith);
    let h = l * near;
    assert(h * n + r * n + s * n == (h + r + s) * n) by (nonlinear_arith);
    let total = h + r + s;
    assert(w * p + w * q <= total * n);
    lemma_scaled(w * p + w * q, total * n, m);
    let u = w * p + w * q;
    assert(m * u == u * m) by (nonlinear_arith);
    assert(m * (total * n) == (total * m) * n) by (nonlinear_arith);
    let x = k * (uu * far);
    let z = total * m;
    assert(x * n <= z * n);
    assert(x <= z) by (nonlinear_arith)
        requires
            x * n <= z * n,
            n > 0,
    ;
}

/// The principal axis of a cloud, as [`crate::fit::principal_axis`] has it, is
/// of unit length up to rounding, and no direction has a larger sum of squared
/// offsets from the centroid, beyond what a decomposition within `slack` and
/// `skew` of the exact one costs and two to the -27th of the scatter. The
/// answer that the axis was taken from is given back.
pub proof fn law_principal_axes_spread_most<E: Fn(Matrix) -> Eigen>(
    points: Seq<Vector>,
    eigen: E,
    slack: int,
    skew: int,
    axis: Vector,
    d: Spot,
) -> (answer: Eigen)
    requires
        forall|e: Eigen| #[trigger]
            call_ensures(eigen, (crate::fit::covariance_of(points),), e) ==> decomposes(
                points,
                Spot::of(crate::fit::centroid_of(points)),
                e,
                slack,
                skew,
            ),
        4 * skew <= crate::arithmetic::one() * crate::arithmetic::one(),
        exists|e: Eigen| #[trigger]
            call_ensures(eigen, (crate::fit::covariance_of(points),), e) && axis
                == crate::fit::axis_of(e),
    ensures
        call_ensures(eigen, (crate::fit::covariance_of(points),), answer),
        axis == crate::fit::axis_of(answer),
        ({
            let one = crate::arithmetic::one();
            let center = Spot::of(crate::fit::centroid_of(points));
            let a = Spot::of(axis);
            &&& -(one * one) <= 0x100_0000_0000 * (a.square() - one * one) <= one * one
            &&& 0x800_0000 * ((one * one) * spread(points, center, d)) <= (0x800_0000 * (spread(
                points,
                center,
                a,
            ) + one * loss(points, answer, slack, skew)) + scatter(points, center) * (one * one))
                * d.square()
        }),
{
    let answer = choose|e: Eigen| #[trigger]
        call_ensures(eigen, (crate::fit::covariance_of(points),), e) && axis
            == crate::fit::axis_of(e);
    let center = Spot::of(crate::fit::centroid_of(points));
    law_the_axis_spreads_most(points, center, answer, slack, skew, d);
    law_axes_have_unit_length(answer);
    answer
}

} // verus!
