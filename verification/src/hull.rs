//! Points of space on exact numbers: what lies inside a capsule, and what
//! follows for a mesh from its vertices.
//!
//! Coordinates are whole numbers of the smallest positive double. Points
//! between them are given as fractions: a [`Spot`] over a positive whole
//! number. So every point with rational coordinates is one of those that the
//! statements speak of.
use vstd::prelude::*;

use crate::double::Double;
use crate::geometry::Capsule;
use crate::geometry::CapsuleDistance;
use crate::geometry::Vector;

verus! {

/// A point or a direction in space.
pub struct Spot {
    pub x: int,
    pub y: int,
    pub z: int,
}

impl Spot {
    /// Where a vector of finite doubles points.
    pub open spec fn of(v: Vector) -> Self {
        Spot { x: v.x.value(), y: v.y.value(), z: v.z.value() }
    }

    /// `self + other`.
    pub open spec fn plus(self, other: Self) -> Self {
        Spot { x: self.x + other.x, y: self.y + other.y, z: self.z + other.z }
    }

    /// `self - other`.
    pub open spec fn minus(self, other: Self) -> Self {
        Spot { x: self.x - other.x, y: self.y - other.y, z: self.z - other.z }
    }

    /// `self * k`.
    pub open spec fn times(self, k: int) -> Self {
        Spot { x: k * self.x, y: k * self.y, z: k * self.z }
    }

    /// The square of the length.
    pub open spec fn square(self) -> int {
        self.x * self.x + self.y * self.y + self.z * self.z
    }

    /// Whether the length is at most `d`.
    pub open spec fn is_short(self, d: int) -> bool {
        d >= 0 && self.square() <= d * d
    }
}

proof fn lemma_square(x: int)
    by (nonlinear_arith)
    ensures
        x * x >= 0,
        x * x == 0 ==> x == 0,
{
}

proof fn lemma_cross(e: int, x: int, d: int, y: int)
    ensures
        2 * ((d * e) * (x * y)) <= (e * e) * (x * x) + (d * d) * (y * y),
{
    let (p, q) = (e * x, d * y);
    assert((p - q) * (p - q) == p * p - 2 * (p * q) + q * q) by (nonlinear_arith);
    lemma_square(p - q);
    assert((e * x) * (e * x) == (e * e) * (x * x)) by (nonlinear_arith);
    assert((d * y) * (d * y) == (d * d) * (y * y)) by (nonlinear_arith);
    assert((e * x) * (d * y) == (d * e) * (x * y)) by (nonlinear_arith);
}

proof fn lemma_scaled(a: int, b: int, k: int)
    by (nonlinear_arith)
    requires
        a <= b,
        k >= 0,
    ensures
        k * a <= k * b,
{
}

/// What the scalar product of two short directions is at most.
proof fn lemma_inner(u: Spot, v: Spot, d: int, e: int)
    requires
        u.is_short(d),
        v.is_short(e),
    ensures
        u.x * v.x + u.y * v.y + u.z * v.z <= d * e,
{
    let (a, b, c) = (u.x * v.x, u.y * v.y, u.z * v.z);
    lemma_square(u.x);
    lemma_square(u.y);
    lemma_square(u.z);
    lemma_square(v.x);
    lemma_square(v.y);
    lemma_square(v.z);
    if d == 0 {
        assert(u.x == 0 && u.y == 0 && u.z == 0);
        assert(0 * v.x == 0 && 0 * v.y == 0 && 0 * v.z == 0 && 0 * e == 0);
    } else if e == 0 {
        assert(v.x == 0 && v.y == 0 && v.z == 0);
        assert(u.x * 0 == 0 && u.y * 0 == 0 && u.z * 0 == 0 && d * 0 == 0);
    } else {
        let k = d * e;
        assert(k > 0) by (nonlinear_arith)
            requires
                d > 0,
                e > 0,
                k == d * e,
        ;
        lemma_cross(e, u.x, d, v.x);
        lemma_cross(e, u.y, d, v.y);
        lemma_cross(e, u.z, d, v.z);
        let (p, q) = (e * e, d * d);
        lemma_square(e);
        lemma_square(d);
        let (x, y, z) = (u.x * u.x, u.y * u.y, u.z * u.z);
        let (r, s, t) = (v.x * v.x, v.y * v.y, v.z * v.z);
        assert(p * (x + y + z) == p * x + p * y + p * z) by (nonlinear_arith);
        assert(q * (r + s + t) == q * r + q * s + q * t) by (nonlinear_arith);
        assert(k * (a + b + c) == k * a + k * b + k * c) by (nonlinear_arith);
        lemma_scaled(x + y + z, d * d, p);
        lemma_scaled(r + s + t, e * e, q);
        assert((e * e) * (d * d) == (d * e) * (d * e)) by (nonlinear_arith);
        assert((d * d) * (e * e) == (d * e) * (d * e)) by (nonlinear_arith);
        assert(k * (a + b + c) <= k * k);
        assert(a + b + c <= k) by (nonlinear_arith)
            requires
                k > 0,
                k * (a + b + c) <= k * k,
        ;
    }
}

/// Two sides of a triangle are together no shorter than the third.
proof fn lemma_triangle(u: Spot, v: Spot, d: int, e: int)
    requires
        u.is_short(d),
        v.is_short(e),
    ensures
        u.plus(v).is_short(d + e),
{
    lemma_inner(u, v, d, e);
    lemma_sum_square(u.x, v.x);
    lemma_sum_square(u.y, v.y);
    lemma_sum_square(u.z, v.z);
    lemma_sum_square(d, e);
}

proof fn lemma_sum_square(a: int, b: int)
    by (nonlinear_arith)
    ensures
        (a + b) * (a + b) == a * a + 2 * (a * b) + b * b,
{
}

/// A direction scaled is as much longer.
proof fn lemma_stretched(u: Spot, d: int, k: int)
    requires
        u.is_short(d),
        k >= 0,
    ensures
        u.times(k).is_short(k * d),
{
    let (x, y, z) = (u.x * u.x, u.y * u.y, u.z * u.z);
    lemma_scaled_square(k, u.x);
    lemma_scaled_square(k, u.y);
    lemma_scaled_square(k, u.z);
    lemma_scaled_square(k, d);
    lemma_square(k);
    let p = k * k;
    assert(p * (x + y + z) == p * x + p * y + p * z) by (nonlinear_arith);
    lemma_scaled(x + y + z, d * d, p);
    lemma_scaled(0, d, k);
}

proof fn lemma_scaled_square(k: int, x: int)
    by (nonlinear_arith)
    ensures
        (k * x) * (k * x) == (k * k) * (x * x),
{
}

/// The other way round a direction is as long.
proof fn lemma_turned(u: Spot, d: int)
    requires
        u.is_short(d),
    ensures
        u.times(-1).is_short(d),
{
    lemma_scaled_square(-1, u.x);
    lemma_scaled_square(-1, u.y);
    lemma_scaled_square(-1, u.z);
    assert((-1) * (-1) == 1);
    assert(1 * (u.x * u.x) == u.x * u.x && 1 * (u.y * u.y) == u.y * u.y && 1 * (u.z * u.z) == u.z
        * u.z);
}

/// A short direction is shorter than every larger length.
proof fn lemma_longer(u: Spot, d: int, e: int)
    requires
        u.is_short(d),
        d <= e,
    ensures
        u.is_short(e),
{
    assert(d * d <= e * e) by (nonlinear_arith)
        requires
            0 <= d <= e,
    ;
}

/// A point of the segment from `a` to `b`, over `n`: `s / n` of the way.
pub open spec fn along(a: Spot, b: Spot, n: int, s: int) -> Spot {
    a.times(n).plus(b.minus(a).times(s))
}

/// Whether the point `x / m` is within `r` of the point of the segment that is
/// `s / (n * m)` of the way.
pub open spec fn within_at(x: Spot, m: int, a: Spot, b: Spot, r: int, n: int, s: int) -> bool {
    &&& n > 0
    &&& 0 <= s <= n * m
    &&& x.times(n).minus(along(a, b, n * m, s)).is_short(n * m * r)
}

/// Whether the point `x / m` is within `r` of the segment from `a` to `b`:
/// inside the capsule of that radius.
pub open spec fn within(x: Spot, m: int, a: Spot, b: Spot, r: int) -> bool {
    exists|n: int, s: int| within_at(x, m, a, b, r, n, s)
}

/// The sum of the weights.
pub open spec fn total(weights: Seq<int>) -> int
    decreases weights.len(),
{
    if weights.len() == 0 {
        0
    } else {
        total(weights.drop_last()) + weights.last()
    }
}

/// The weighted sum of the points. Over the sum of the weights it is the point
/// of the convex hull that they give.
pub open spec fn mixed(points: Seq<Vector>, weights: Seq<int>) -> Spot
    decreases points.len(),
{
    if points.len() == 0 {
        Spot { x: 0, y: 0, z: 0 }
    } else {
        mixed(points.drop_last(), weights.drop_last()).plus(
            Spot::of(points.last()).times(weights.last()),
        )
    }
}

/// Whether weights pick a point of the convex hull of as many points.
pub open spec fn picks(points: Seq<Vector>, weights: Seq<int>) -> bool {
    &&& weights.len() == points.len()
    &&& forall|i: int| 0 <= i < weights.len() ==> #[trigger] weights[i] >= 0
    &&& total(weights) > 0
}

/// The lengths of a weighted step.
proof fn lemma_lengths(n: int, k: int, m: int, w: int, r: int)
    ensures
        k * (n * m * r) + (n * w) * (k * r) == (n * k) * (m + w) * r,
{
    let (a, b) = (n * m, n * w);
    assert(k * (a * r) == (k * a) * r) by (nonlinear_arith);
    assert(b * (k * r) == (k * b) * r) by (nonlinear_arith);
    let (c, d) = (k * a, k * b);
    assert(c * r + d * r == (c + d) * r) by (nonlinear_arith);
    assert(k * (n * m) == (n * k) * m) by (nonlinear_arith);
    assert(k * (n * w) == (n * k) * w) by (nonlinear_arith);
    let o = n * k;
    assert(o * m + o * w == o * (m + w)) by (nonlinear_arith);
}

/// One coordinate of a weighted step.
proof fn lemma_step(
    n: int,
    k: int,
    x: int,
    m: int,
    w: int,
    p: int,
    a: int,
    c: int,
    s: int,
    t: int,
)
    ensures
        (n * k) * (x + w * p) - (((n * k) * (m + w)) * a + (k * s + (n * w) * t) * c) == k * (n * x
            - ((n * m) * a + s * c)) + (n * w) * (k * p - (k * a + t * c)),
{
    let (o, y) = (n * k, w * p);
    assert(o * (x + y) == o * x + o * y) by (nonlinear_arith);
    assert((n * k) * x == k * (n * x)) by (nonlinear_arith);
    assert((n * k) * (w * p) == (n * w) * (k * p)) by (nonlinear_arith);
    lemma_lengths(n, k, m, w, a);
    let (q, z) = (k * s, (n * w) * t);
    assert((q + z) * c == q * c + z * c) by (nonlinear_arith);
    assert((k * s) * c == k * (s * c)) by (nonlinear_arith);
    let v = n * w;
    assert((v * t) * c == v * (t * c)) by (nonlinear_arith);
    let (e, f, g) = (n * x, (n * m) * a, s * c);
    assert(k * (e - (f + g)) == k * e - (k * f + k * g)) by (nonlinear_arith);
    let (h, i, j, l) = (n * w, k * p, k * a, t * c);
    assert(h * (i - (j + l)) == h * i - (h * j + h * l)) by (nonlinear_arith);
}

/// A weighted sum stays as near to a segment as its points.
proof fn lemma_mixed(
    points: Seq<Vector>,
    weights: Seq<int>,
    a: Spot,
    b: Spot,
    r: int,
)
    requires
        r >= 0,
        weights.len() == points.len(),
        forall|i: int| 0 <= i < weights.len() ==> #[trigger] weights[i] >= 0,
        forall|i: int|
            0 <= i < points.len() ==> within(Spot::of(#[trigger] points[i]), 1, a, b, r),
    ensures
        total(weights) >= 0,
        within(mixed(points, weights), total(weights), a, b, r),
    decreases points.len(),
{
    let whole = mixed(points, weights);
    if points.len() == 0 {
        let none: int = 0;
        assert(1 * none == 0 && none * r == 0);
        assert(whole.times(1).minus(along(a, b, none, 0)).is_short(none)) by {
            assert(0 * a.x == 0 && 0 * a.y == 0 && 0 * a.z == 0);
            let c = b.minus(a);
            assert(0 * c.x == 0 && 0 * c.y == 0 && 0 * c.z == 0);
        }
        assert(within_at(whole, 0, a, b, r, 1, 0));
    } else {
        let last = points.len() - 1;
        let (rest, head) = (points.drop_last(), weights.drop_last());
        assert forall|i: int| 0 <= i < head.len() implies #[trigger] head[i] >= 0 by {
            assert(head[i] == weights[i]);
        }
        assert forall|i: int| 0 <= i < rest.len() implies within(
            Spot::of(#[trigger] rest[i]),
            1,
            a,
            b,
            r,
        ) by {
            assert(rest[i] == points[i]);
        }
        lemma_mixed(rest, head, a, b, r);
        let (x, m) = (mixed(rest, head), total(head));
        let (p, w) = (Spot::of(points[last]), weights[last]);
        let (n, s) = choose|n: int, s: int| within_at(x, m, a, b, r, n, s);
        assert(within(Spot::of(points[last]), 1, a, b, r));
        let (k, t) = choose|k: int, t: int| within_at(p, 1, a, b, r, k, t);
        assert(k * 1 == k);
        let u = x.times(n).minus(along(a, b, n * m, s));
        let v = p.times(k).minus(along(a, b, k, t));
        assert(n * w >= 0) by (nonlinear_arith)
            requires
                n > 0,
                w >= 0,
        ;
        lemma_stretched(u, n * m * r, k);
        lemma_stretched(v, k * r, n * w);
        lemma_triangle(u.times(k), v.times(n * w), k * (n * m * r), (n * w) * (k * r));
        let (q, z) = (n * k, k * s + (n * w) * t);
        let c = b.minus(a);
        lemma_step(n, k, x.x, m, w, p.x, a.x, c.x, s, t);
        lemma_step(n, k, x.y, m, w, p.y, a.y, c.y, s, t);
        lemma_step(n, k, x.z, m, w, p.z, a.z, c.z, s, t);
        let far = whole.times(q).minus(along(a, b, q * (m + w), z));
        assert(far == u.times(k).plus(v.times(n * w)));
        lemma_lengths(n, k, m, w, r);
        assert(n * k > 0) by (nonlinear_arith)
            requires
                n > 0,
                k > 0,
        ;
        assert(0 <= z <= q * (m + w)) by {
            lemma_scaled(0, s, k);
            lemma_scaled(s, n * m, k);
            lemma_scaled(0, t, n * w);
            lemma_scaled(t, k, n * w);
            assert(k * (n * m) == q * m) by (nonlinear_arith)
                requires
                    q == n * k,
            ;
            assert((n * w) * k == q * w) by (nonlinear_arith)
                requires
                    q == n * k,
            ;
            assert(q * m + q * w == q * (m + w)) by (nonlinear_arith);
            assert(k * 0 == 0 && (n * w) * 0 == 0);
        }
        assert(within_at(whole, m + w, a, b, r, q, z));
    }
}

/// By at most `slack` does a function report less than the exact distance of
/// any of the points to the segment from `a` to `b`.
pub open spec fn measures_within<D: Fn(Vector, Vector, Vector) -> Double>(
    distance: D,
    points: Seq<Vector>,
    a: Vector,
    b: Vector,
    slack: int,
) -> bool {
    forall|i: int, d: Double|
        0 <= i < points.len() && #[trigger] call_ensures(distance, (points[i], a, b), d) ==> {
            &&& !d.is_nan()
            &&& d.value() + slack >= 0
            &&& within(Spot::of(points[i]), 1, Spot::of(a), Spot::of(b), d.value() + slack)
        }
}

/// Whether no coordinate of the points is infinite or no number.
pub open spec fn all_finite(points: Seq<Vector>) -> bool {
    forall|i: int| 0 <= i < points.len() ==> (#[trigger] points[i]).is_finite()
}

proof fn lemma_wider(x: Spot, m: int, a: Spot, b: Spot, r: int, t: int)
    requires
        m >= 0,
        r <= t,
        within(x, m, a, b, r),
    ensures
        within(x, m, a, b, t),
{
    let (n, s) = choose|n: int, s: int| within_at(x, m, a, b, r, n, s);
    lemma_scaled(r, t, n * m);
    lemma_longer(x.times(n).minus(along(a, b, n * m, s)), n * m * r, n * m * t);
    assert(within_at(x, m, a, b, t, n, s));
}

/// A capsule that holds the vertices holds the mesh: where a capsule contains
/// every point of a cloud, as [`crate::fit::fit_capsule`] has it, every point
/// of their convex hull, so of every face between them, is within its radius
/// of its segment; all but the `slack` that the measured distances may miss
/// the exact ones by. That the ends are finite is
/// [`crate::bounds::law_bounded_clouds_get_finite_capsules`].
pub proof fn law_capsules_hold_the_hull<D: Fn(Vector, Vector, Vector) -> Double>(
    points: Seq<Vector>,
    distance: D,
    slack: int,
    c: Capsule,
    weights: Seq<int>,
)
    requires
        measures_within(distance, points, c.a, c.b, slack),
        all_finite(points),
        c.a.is_finite(),
        c.b.is_finite(),
        crate::fit::contains_all(points, distance, c),
        picks(points, weights),
    ensures
        within(
            mixed(points, weights),
            total(weights),
            Spot::of(c.a),
            Spot::of(c.b),
            c.radius.value() + slack,
        ),
{
    let r = c.radius.value() + slack;
    let (a, b) = (Spot::of(c.a), Spot::of(c.b));
    assert forall|i: int| 0 <= i < points.len() implies within(
        Spot::of(#[trigger] points[i]),
        1,
        a,
        b,
        r,
    ) && r >= 0 by {
        let d = choose|d: Double| #[trigger]
            call_ensures(distance, (points[i], c.a, c.b), d) && (d.is_nan() || d.at_most(
                c.radius,
            ));
        assert(call_ensures(distance, (points[i], c.a, c.b), d));
        lemma_wider(Spot::of(points[i]), 1, a, b, d.value() + slack, r);
    }
    if points.len() > 0 {
        assert(within(Spot::of(points[0]), 1, a, b, r));
        lemma_mixed(points, weights, a, b, r);
    }
}

/// No two points of the segments from `a` to `b` and from `c` to `d` are nearer
/// to each other than `gap`: none at `s / p` and `t / q` of the way whose
/// difference, over `p * q`, is shorter.
pub open spec fn lie_apart(a: Spot, b: Spot, c: Spot, d: Spot, gap: int) -> bool {
    forall|p: int, s: int, q: int, t: int, g: int|
        p > 0 && q > 0 && 0 <= s <= p && 0 <= t <= q && #[trigger] difference(
            along(a, b, p, s),
            p,
            along(c, d, q, t),
            q,
        ).is_short(g) ==> p * q * gap <= g
}

/// The difference of the points `x / m` and `y / l`, over `m * l`.
pub open spec fn difference(x: Spot, m: int, y: Spot, l: int) -> Spot {
    x.times(l).minus(y.times(m))
}

/// One coordinate of the way from axis to axis.
proof fn lemma_way(n: int, k: int, x: int, m: int, y: int, l: int, u: int, v: int)
    ensures
        (k * l) * u - (n * m) * v == (k * l) * (-1 * (n * x - u)) + ((n * k) * (l * x - m * y) + (n
            * m) * (k * y - v)),
{
    let (e, f) = (n * x, k * y);
    let (p, q) = (n * m, k * l);
    assert(q * (-1 * (e - u)) == q * u - q * e) by (nonlinear_arith);
    assert(p * (f - v) == p * f - p * v) by (nonlinear_arith);
    let (o, g, h) = (n * k, l * x, m * y);
    assert(o * (g - h) == o * g - o * h) by (nonlinear_arith);
    assert((n * k) * (l * x) == (k * l) * (n * x)) by (nonlinear_arith);
    assert((n * k) * (m * y) == (n * m) * (k * y)) by (nonlinear_arith);
}

/// The distance of two capsules is a lower bound on the distance of the meshes
/// that they hold, so an alarm is early and never late: for every point of the
/// one hull and every point of the other, whose difference is no longer than
/// `g` over the product of their denominators, the reported distance is no
/// more than that length, but for what the handed-in functions may miss the
/// exact distances by (`slack` for a point and a segment, `miss` for the axes
/// of two capsules).
pub proof fn law_capsule_distances_are_lower_bounds<D: Fn(Vector, Vector, Vector) -> Double>(
    points: Seq<Vector>,
    others: Seq<Vector>,
    distance: D,
    slack: int,
    c: Capsule,
    d: Capsule,
    reported: CapsuleDistance,
    miss: int,
    weights: Seq<int>,
    other_weights: Seq<int>,
    g: int,
)
    requires
        measures_within(distance, points, c.a, c.b, slack),
        measures_within(distance, others, d.a, d.b, slack),
        all_finite(points),
        all_finite(others),
        c.a.is_finite() && c.b.is_finite() && d.a.is_finite() && d.b.is_finite(),
        crate::fit::contains_all(points, distance, c),
        crate::fit::contains_all(others, distance, d),
        lie_apart(
            Spot::of(c.a),
            Spot::of(c.b),
            Spot::of(d.a),
            Spot::of(d.b),
            reported.distance.value() + c.radius.value() + d.radius.value() - miss,
        ),
        picks(points, weights),
        picks(others, other_weights),
        difference(
            mixed(points, weights),
            total(weights),
            mixed(others, other_weights),
            total(other_weights),
        ).is_short(g),
    ensures
        total(weights) * total(other_weights) * (reported.distance.value() - 2 * slack - miss)
            <= g,
{
    law_capsules_hold_the_hull(points, distance, slack, c, weights);
    law_capsules_hold_the_hull(others, distance, slack, d, other_weights);
    lemma_apart(
        mixed(points, weights),
        total(weights),
        Spot::of(c.a),
        Spot::of(c.b),
        c.radius.value() + slack,
        mixed(others, other_weights),
        total(other_weights),
        Spot::of(d.a),
        Spot::of(d.b),
        d.radius.value() + slack,
        reported.distance.value() + c.radius.value() + d.radius.value() - miss,
        g,
    );
}

/// Points near two segments that lie apart are apart by what is left.
proof fn lemma_apart(
    x: Spot,
    m: int,
    a: Spot,
    b: Spot,
    r: int,
    y: Spot,
    l: int,
    c: Spot,
    d: Spot,
    t: int,
    gap: int,
    g: int,
)
    requires
        m > 0,
        l > 0,
        within(x, m, a, b, r),
        within(y, l, c, d, t),
        lie_apart(a, b, c, d, gap),
        difference(x, m, y, l).is_short(g),
    ensures
        m * l * (gap - r - t) <= g,
{
    let (n, s) = choose|n: int, s: int| within_at(x, m, a, b, r, n, s);
    let (k, z) = choose|k: int, z: int| within_at(y, l, c, d, t, k, z);
    let (p, q) = (n * m, k * l);
    assert(p > 0 && q > 0 && n * k > 0) by (nonlinear_arith)
        requires
            n > 0,
            m > 0,
            k > 0,
            l > 0,
            p == n * m,
            q == k * l,
    ;
    let (u, v) = (along(a, b, p, s), along(c, d, q, z));
    let e = x.times(n).minus(u);
    let f = y.times(k).minus(v);
    let h = difference(x, m, y, l);
    lemma_turned(e, p * r);
    lemma_stretched(e.times(-1), p * r, q);
    lemma_stretched(f, q * t, p);
    lemma_stretched(h, g, n * k);
    let (first, second) = (e.times(-1).times(q), h.times(n * k));
    let third = f.times(p);
    lemma_triangle(second, third, n * k * g, p * (q * t));
    lemma_triangle(first, second.plus(third), q * (p * r), n * k * g + p * (q * t));
    lemma_way(n, k, x.x, m, y.x, l, u.x, v.x);
    lemma_way(n, k, x.y, m, y.y, l, u.y, v.y);
    lemma_way(n, k, x.z, m, y.z, l, u.z, v.z);
    let way = difference(u, p, v, q);
    assert(way == first.plus(second.plus(third)));
    let bound = q * (p * r) + (n * k * g + p * (q * t));
    assert(way.is_short(bound));
    assert(p * q * gap <= bound);
    let (o, w) = (n * k, m * l);
    assert((n * m) * (k * l) == (n * k) * (m * l)) by (nonlinear_arith);
    assert(p * q == o * w);
    assert(q * (p * r) == (p * q) * r) by (nonlinear_arith);
    assert(p * (q * t) == (p * q) * t) by (nonlinear_arith);
    let i = p * q;
    assert(i * (gap - r - t) == i * gap - i * r - i * t) by (nonlinear_arith);
    assert((o * w) * (gap - r - t) == o * (w * (gap - r - t))) by (nonlinear_arith);
    let rest = w * (gap - r - t);
    assert(o * rest <= o * g);
    assert(rest <= g) by (nonlinear_arith)
        requires
            o > 0,
            o * rest <= o * g,
    ;
}

} // verus!
