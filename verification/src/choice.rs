//! What a fit tries and what it keeps: where the ends of its candidates lie on
//! the axis, and which of them is the capsule of a cloud.
//!
//! `k` is the exponent of a power of two that no coordinate exceeds, in units
//! of the smallest positive double.
use vstd::arithmetic::power2::*;
use vstd::prelude::*;

use crate::double::Double;
use crate::double::BINADE;
use crate::double::HALF;
use crate::double::INFINITE;
use crate::double::ONE;
use crate::double::QUARTER;
use crate::double::THREE_QUARTERS;
use crate::double::TWO;
use crate::fit::Eigen;
use crate::fit::Extent;
use crate::fit::TIE_FACTOR;
use crate::fit::TIE_SLACK;
use crate::geometry::Capsule;
use crate::geometry::Matrix;
use crate::geometry::Vector;

verus! {

/// The gap of numbers up to two to the `k`th, two to the 52nd times over.
pub open spec fn grain(k: nat) -> int {
    pow2(k) + BINADE
}

/// Each candidate shrinks by a quarter more than the one before it, from
/// nothing to all of the largest shrink.
pub proof fn law_candidates_shrink_by_quarters(j: int)
    requires
        0 <= j < 5,
    ensures
        crate::fit::fraction(j).is_finite(),
        4 * crate::fit::fraction(j).value() == j * crate::arithmetic::one(),
{
    let w = BINADE as int;
    crate::bounds::lemma_constants();
    crate::rounding::lemma_pow2_128();
    lemma2_to64();
    assert(crate::double::size(0) == 0);
    assert(QUARTER as int / w == 1021 && QUARTER as int % w == 0);
    lemma_pow2_adds(52, 1020);
    lemma_pow2_adds(2, 1072);
    assert(THREE_QUARTERS as int / w == 1022 && THREE_QUARTERS as int % w
        == 0x8_0000_0000_0000);
    lemma_pow2_adds(51, 1021);
    lemma2_to64_rest();
    let p = pow2(1021) as int;
    assert((w + 0x8_0000_0000_0000) * p == 3 * (0x8_0000_0000_0000 * p)) by (nonlinear_arith)
        requires
            w == 0x10_0000_0000_0000,
    ;
    let one = crate::arithmetic::one();
    assert(one == 4 * pow2(1072));
    assert(4 * crate::double::size(QUARTER as int) == one);
    assert(2 * crate::double::size(HALF as int) == one);
    assert(4 * crate::double::size(THREE_QUARTERS as int) == 3 * one);
    assert(crate::double::size(ONE as int) == one);
}

proof fn lemma_grain(k: nat, m: nat)
    requires
        k <= m,
    ensures
        0 < grain(k) <= grain(m),
{
    if k < m {
        lemma_pow2_strictly_increases(k, m);
    }
}

proof fn lemma_near_sum(a: Double, b: Double, k: nat)
    requires
        crate::bounds::is_bounded(a, k),
        crate::bounds::is_bounded(b, k),
        k < 2097,
    ensures
        crate::bounds::is_bounded(a.sum(b), k + 1),
        -grain(k + 1) <= 2 * BINADE * (a.sum(b).value() - (a.value() + b.value())) <= grain(k + 1),
{
    crate::bounds::lemma_bounded(b, k);
    crate::cloud::lemma_offset(a, b.negated(), k);
    assert(b.negated().negated() == b);
}

/// Scaling a direction whose coordinates are at most two.
proof fn lemma_near_scaled(a: Double, t: Double, k: nat)
    requires
        crate::bounds::is_bounded(a, 1075),
        crate::bounds::is_bounded(t, k),
        k < 2097,
    ensures
        crate::bounds::is_bounded(a.product(t), k + 1),
        ({
            let one = crate::arithmetic::one();
            let h = one * grain(k + 1);
            -h <= 2 * BINADE * (one * a.product(t).value() - a.value() * t.value()) <= h
        }),
{
    crate::bounds::lemma_product(a, 1075, t, k, (k + 1) as nat);
    crate::bounds::lemma_bounded(a, 1075);
    crate::bounds::lemma_bounded(t, k);
    lemma_near_product(a, t, k + 1);
}

proof fn lemma_near_product(a: Double, b: Double, k: nat)
    requires
        a.is_finite(),
        b.is_finite(),
        crate::bounds::is_bounded(a.product(b), k),
        k <= 2097,
    ensures
        ({
            let one = crate::arithmetic::one();
            let h = one * grain(k);
            -h <= 2 * BINADE * (one * a.product(b).value() - a.value() * b.value()) <= h
        }),
{
    let one = crate::arithmetic::one();
    let r = a.product(b);
    let w = BINADE as int;
    lemma_pow2_pos(1074);
    crate::bounds::lemma_bounded(r, k);
    crate::arithmetic::law_products_are_accurate(a, b);
    crate::cloud::lemma_gap_to(r.magnitude(), pow2(k) as int);
    let g = crate::double::gap(r.magnitude());
    let f = one * r.value() - a.value() * b.value();
    let t = grain(k);
    assert(-(one * t) <= 2 * w * f <= one * t) by (nonlinear_arith)
        requires
            -(one * g) <= 2 * f <= one * g,
            w * g <= t,
            one > 0,
            w > 0,
    ;
}

proof fn lemma_near_half(a: Double, k: nat)
    requires
        crate::bounds::is_bounded(a, k),
        k <= 2097,
    ensures
        ({
            let h = a.quotient(Double { bits: TWO });
            &&& crate::bounds::is_bounded(h, k)
            &&& -2 * grain(k) <= 2 * BINADE * (2 * h.value() - a.value()) <= 2 * grain(k)
        }),
{
    let two = Double { bits: TWO };
    let h = a.quotient(two);
    let one = crate::arithmetic::one();
    let w = BINADE as int;
    crate::bounds::lemma_halved(a, k);
    crate::bounds::lemma_bounded(a, k);
    crate::bounds::lemma_bounded(h, k);
    crate::bounds::lemma_constants();
    crate::arithmetic::law_quotients_are_accurate(a, two);
    crate::cloud::lemma_gap_to(h.magnitude(), pow2(k) as int);
    let g = crate::double::gap(h.magnitude());
    let t = grain(k);
    let (x, y) = (h.value(), a.value());
    let s = two.value();
    assert(-g <= 2 * x - y <= g) by (nonlinear_arith)
        requires
            -(s * g) <= 2 * (s * x - one * y) <= s * g,
            s == 2 * one,
            one > 0,
    ;
    let e = 2 * x - y;
    assert(-2 * t <= 2 * w * e <= 2 * t) by (nonlinear_arith)
        requires
            -g <= e <= g,
            w * g <= t,
            w > 0,
    ;
}

proof fn lemma_near_part(s: Double, j: int, k: nat)
    requires
        crate::bounds::is_bounded(s, k),
        k <= 2097,
        0 <= j < 5,
    ensures
        ({
            let p = s.product(crate::fit::fraction(j));
            &&& crate::bounds::is_bounded(p, k)
            &&& -4 * grain(k) <= 2 * BINADE * (4 * p.value() - j * s.value()) <= 4 * grain(k)
        }),
{
    let part = crate::fit::fraction(j);
    let p = s.product(part);
    let one = crate::arithmetic::one();
    let w = BINADE as int;
    crate::bounds::lemma_constants();
    law_candidates_shrink_by_quarters(j);
    let f = part.value();
    assert(0 <= f <= one) by (nonlinear_arith)
        requires
            4 * f == j * one,
            0 <= j < 5,
            one > 0,
    ;
    crate::bounds::lemma_product(s, k, part, 1074, k);
    crate::bounds::lemma_bounded(s, k);
    lemma_near_product(s, part, k);
    let (x, y, t) = (p.value(), s.value(), grain(k));
    assert(4 * (y * f) == one * (j * y)) by (nonlinear_arith)
        requires
            4 * f == j * one,
    ;
    let e = 4 * x - j * y;
    assert(4 * (one * x - y * f) == one * e) by (nonlinear_arith)
        requires
            4 * (y * f) == one * (j * y),
            e == 4 * x - j * y,
    ;
    let d = one * x - y * f;
    assert(-4 * t <= 2 * w * e <= 4 * t) by (nonlinear_arith)
        requires
            4 * d == one * e,
            -(one * t) <= 2 * w * d <= one * t,
            one > 0,
    ;
}

/// Where the two ends of candidate `j` lie along the axis: at the extremes,
/// each pulled inward by `j` quarters of the largest shrink.
proof fn lemma_ends_along(extent: Extent, j: int, k: nat) -> (s: int)
    requires
        crate::bounds::is_bounded(extent.low, k),
        crate::bounds::is_bounded(extent.high, k),
        !extent.girth.is_nan(),
        extent.girth.value() >= 0,
        k <= 2090,
        0 <= j < 5,
    ensures
        ({
            let two = Double { bits: TWO };
            let mid = extent.low.sum(extent.high).quotient(two);
            let reach = extent.high.difference(extent.low).quotient(two);
            let shrink = extent.girth.lesser(reach);
            let half = reach.difference(shrink.product(crate::fit::fraction(j)));
            let (a, b) = (mid.difference(half), mid.sum(half));
            let (low, high) = (extent.low.value(), extent.high.value());
            let g = grain(k + 3);
            let w = 2 * BINADE as int;
            &&& crate::bounds::is_bounded(a, k + 3)
            &&& crate::bounds::is_bounded(b, k + 3)
            &&& -24 * g <= w * (4 * a.value() - (4 * low + j * s)) <= 24 * g
            &&& -24 * g <= w * (4 * b.value() - (4 * high - j * s)) <= 24 * g
            &&& s <= extent.girth.value()
            &&& w * (2 * s - (high - low)) <= 3 * g
            &&& s == extent.girth.value() || -3 * g <= w * (2 * s - (high - low))
        }),
{
    let two = Double { bits: TWO };
    let part = crate::fit::fraction(j);
    let (low, high) = (extent.low, extent.high);
    let sum = low.sum(high);
    let mid = sum.quotient(two);
    let width = high.difference(low);
    let reach = width.quotient(two);
    let shrink = extent.girth.lesser(reach);
    let pull = shrink.product(part);
    let half = reach.difference(pull);
    let g = grain(k + 3);
    lemma_grain(k + 1, k + 3);
    lemma_grain(k + 2, k + 3);
    lemma_near_sum(low, high, k);
    crate::cloud::lemma_offset(high, low, k);
    lemma_near_half(sum, k + 1);
    lemma_near_half(width, k + 1);
    crate::bounds::lemma_bounded(reach, k + 1);
    crate::double::lemma_magnitude_order(extent.girth.magnitude(), 0);
    crate::double::lemma_magnitude_order(reach.magnitude(), 0);
    crate::double::lemma_magnitude_order(extent.girth.magnitude(), reach.magnitude());
    assert(crate::bounds::is_bounded(shrink, k + 1));
    lemma_near_part(shrink, j, k + 1);
    crate::cloud::lemma_offset(reach, pull, k + 1);
    crate::bounds::lemma_looser(mid, k + 1, k + 2);
    crate::cloud::lemma_offset(mid, half, k + 2);
    lemma_near_sum(mid, half, k + 2);
    let s = shrink.value();
    lemma_along(
        2 * BINADE as int,
        g,
        low.value(),
        high.value(),
        sum.value(),
        mid.value(),
        width.value(),
        reach.value(),
        pull.value(),
        half.value(),
        mid.difference(half).value(),
        mid.sum(half).value(),
        j * s,
    );
    let w = 2 * BINADE as int;
    let (x, y) = (2 * s, 2 * reach.value());
    let d = high.value() - low.value();
    assert(s <= reach.value());
    assert(w * (x - d) <= w * (y - d)) by (nonlinear_arith)
        requires
            x <= y,
            w > 0,
    ;
    s
}

proof fn lemma_along(
    w: int,
    g: int,
    low: int,
    high: int,
    sum: int,
    mid: int,
    width: int,
    reach: int,
    pull: int,
    half: int,
    a: int,
    b: int,
    p: int,
)
    requires
        w > 0,
        -g <= w * (sum - (low + high)) <= g,
        -2 * g <= w * (2 * mid - sum) <= 2 * g,
        -g <= w * (width - (high - low)) <= g,
        -2 * g <= w * (2 * reach - width) <= 2 * g,
        -4 * g <= w * (4 * pull - p) <= 4 * g,
        -g <= w * (half - (reach - pull)) <= g,
        -g <= w * (a - (mid - half)) <= g,
        -g <= w * (b - (mid + half)) <= g,
    ensures
        -24 * g <= w * (4 * a - (4 * low + p)) <= 24 * g,
        -24 * g <= w * (4 * b - (4 * high - p)) <= 24 * g,
        -3 * g <= w * (2 * reach - (high - low)) <= 3 * g,
{
    let (e1, e2, e3, e4) = (
        sum - (low + high),
        2 * mid - sum,
        width - (high - low),
        2 * reach - width,
    );
    let (e5, e6, e7, e8) = (
        4 * pull - p,
        half - (reach - pull),
        a - (mid - half),
        b - (mid + half),
    );
    assert(w * (4 * a - (4 * low + p)) == 4 * (w * e7) - 4 * (w * e6) - 2 * (w * e4) - 2 * (w * e3)
        + 2 * (w * e2) + 2 * (w * e1) + w * e5) by (nonlinear_arith)
        requires
            e1 == sum - (low + high),
            e2 == 2 * mid - sum,
            e3 == width - (high - low),
            e4 == 2 * reach - width,
            e5 == 4 * pull - p,
            e6 == half - (reach - pull),
            e7 == a - (mid - half),
    ;
    assert(w * (4 * b - (4 * high - p)) == 4 * (w * e8) + 4 * (w * e6) + 2 * (w * e4) + 2 * (w * e3)
        + 2 * (w * e2) + 2 * (w * e1) - w * e5) by (nonlinear_arith)
        requires
            e1 == sum - (low + high),
            e2 == 2 * mid - sum,
            e3 == width - (high - low),
            e4 == 2 * reach - width,
            e5 == 4 * pull - p,
            e6 == half - (reach - pull),
            e8 == b - (mid + half),
    ;
    assert(w * (2 * reach - (high - low)) == w * e4 + w * e3) by (nonlinear_arith)
        requires
            e3 == width - (high - low),
            e4 == 2 * reach - width,
    ;
}

/// A coordinate of an end: that of the center and what the axis adds to it.
proof fn lemma_end(c: Double, d: Double, t: Double, goal: int, k: nat)
    requires
        crate::bounds::is_bounded(c, k),
        crate::bounds::is_bounded(d, 1075),
        crate::bounds::is_bounded(t, k + 3),
        k <= 2090,
        -24 * grain(k + 3) <= 2 * BINADE * (4 * t.value() - goal) <= 24 * grain(k + 3),
    ensures
        ({
            let one = crate::arithmetic::one();
            let e = c.sum(d.product(t)).value();
            let h = 56 * (one * grain(k + 5));
            -h <= 2 * BINADE * (4 * (one * (e - c.value())) - d.value() * goal) <= h
        }),
{
    let one = crate::arithmetic::one();
    let q = d.product(t);
    let w = 2 * BINADE as int;
    lemma_pow2_pos(1074);
    lemma_pow2_unfold(1075);
    lemma_near_scaled(d, t, k + 3);
    crate::bounds::lemma_looser(c, k, k + 4);
    lemma_near_sum(c, q, k + 4);
    crate::bounds::lemma_bounded(d, 1075);
    lemma_grain(k + 3, k + 5);
    lemma_grain(k + 4, k + 5);
    let g = grain(k + 5);
    let h = one * g;
    let f = one * grain(k + 4);
    assert(f <= h) by (nonlinear_arith)
        requires
            f == one * grain(k + 4),
            h == one * g,
            grain(k + 4) <= g,
            one > 0,
    ;
    let e = c.sum(q).value();
    let (x, y, z) = (
        e - (c.value() + q.value()),
        one * q.value() - d.value() * t.value(),
        4 * t.value() - goal,
    );
    lemma_three(w, one, d.value(), x, y, z, g, h);
    let (cv, qv, dv, tv) = (c.value(), q.value(), d.value(), t.value());
    assert(4 * (one * (e - cv)) - dv * goal == 4 * (one * x) + 4 * y + dv * z) by (nonlinear_arith)
        requires
            x == e - (cv + qv),
            y == one * qv - dv * tv,
            z == 4 * tv - goal,
    ;
}

proof fn lemma_three(w: int, one: int, d: int, x: int, y: int, z: int, g: int, h: int)
    requires
        w > 0,
        one > 0,
        g > 0,
        h == one * g,
        -2 * one <= d <= 2 * one,
        -g <= w * x <= g,
        -h <= w * y <= h,
        -24 * g <= w * z <= 24 * g,
    ensures
        -56 * h <= w * (4 * (one * x) + 4 * y + d * z) <= 56 * h,
{
    let (a, b) = (w * x, w * z);
    assert(-h <= one * a <= h) by (nonlinear_arith)
        requires
            -g <= a <= g,
            h == one * g,
            one > 0,
    ;
    assert(-48 * h <= d * b <= 48 * h) by (nonlinear_arith)
        requires
            -24 * g <= b <= 24 * g,
            -2 * one <= d <= 2 * one,
            h == one * g,
            one > 0,
            g > 0,
    ;
    assert(w * (4 * (one * x) + 4 * y + d * z) == 4 * (one * a) + 4 * (w * y) + d * b)
        by (nonlinear_arith)
        requires
            a == w * x,
            b == w * z,
    ;
}

/// The ends of candidate `j` lie on the axis through the center: at the two
/// extremes of the extent, each pulled inward by `j` quarters of the largest
/// shrink, which is the girth or half the width, whichever is smaller. All that
/// up to rounding; so with no shrink the segment reaches both extremes.
pub proof fn law_candidate_ends_lie_on_the_axis(
    center: Vector,
    axis: Vector,
    extent: Extent,
    j: int,
    i: int,
    k: nat,
) -> (s: int)
    requires
        crate::bounds::all_bounded(center, k),
        crate::bounds::all_bounded(axis, 1075),
        crate::bounds::is_bounded(extent.low, k),
        crate::bounds::is_bounded(extent.high, k),
        !extent.girth.is_nan(),
        extent.girth.value() >= 0,
        k <= 2090,
        0 <= j < 5,
        0 <= i < 3,
    ensures
        ({
            let one = crate::arithmetic::one();
            let ends = crate::fit::segment(center, axis, extent, crate::fit::fraction(j));
            let (a, b) = (crate::cloud::coord(ends.0, i), crate::cloud::coord(ends.1, i));
            let (c, d) = (
                crate::cloud::coord(center, i).value(),
                crate::cloud::coord(axis, i).value(),
            );
            let (low, high) = (extent.low.value(), extent.high.value());
            let w = 2 * BINADE as int;
            let g = grain(k + 5);
            let h = 56 * (one * g);
            &&& s <= extent.girth.value()
            &&& w * (2 * s - (high - low)) <= 3 * g
            &&& s == extent.girth.value() || -3 * g <= w * (2 * s - (high - low))
            &&& -h <= w * (4 * (one * (a.value() - c)) - d * (4 * low + j * s)) <= h
            &&& -h <= w * (4 * (one * (b.value() - c)) - d * (4 * high - j * s)) <= h
        }),
{
    let two = Double { bits: TWO };
    let mid = extent.low.sum(extent.high).quotient(two);
    let reach = extent.high.difference(extent.low).quotient(two);
    let shrink = extent.girth.lesser(reach);
    let half = reach.difference(shrink.product(crate::fit::fraction(j)));
    let s = lemma_ends_along(extent, j, k);
    lemma_grain(k + 3, k + 5);
    let (c, d) = (crate::cloud::coord(center, i), crate::cloud::coord(axis, i));
    let (low, high) = (extent.low.value(), extent.high.value());
    lemma_end(c, d, mid.difference(half), 4 * low + j * s, k);
    lemma_end(c, d, mid.sum(half), 4 * high - j * s, k);
    s
}

/// The segment of candidate `j` spans the cloud: its ends lie on the axis
/// through the centroid, at the two extremes of an extent that covers every
/// point, each pulled inward by `j` quarters of the largest shrink. All that up
/// to rounding.
pub proof fn law_segments_span_the_cloud(
    points: Seq<Vector>,
    axis: Vector,
    j: int,
    i: int,
    k: nat,
) -> (r: (Extent, int))
    requires
        0 < points.len() <= 2 * BINADE,
        crate::cloud::all_within(points, k),
        crate::bounds::all_bounded(axis, 1075),
        k <= crate::bounds::REACH,
        0 <= j < 5,
        0 <= i < 3,
    ensures
        crate::cloud::covers(points, crate::fit::centroid_of(points), axis, r.0),
        ({
            let one = crate::arithmetic::one();
            let center = crate::fit::centroid_of(points);
            let ends = crate::fit::segment_of(points, axis, j);
            let (a, b) = (crate::cloud::coord(ends.0, i), crate::cloud::coord(ends.1, i));
            let (c, d) = (
                crate::cloud::coord(center, i).value(),
                crate::cloud::coord(axis, i).value(),
            );
            let (low, high) = (r.0.low.value(), r.0.high.value());
            let s = r.1;
            let w = 2 * BINADE as int;
            let g = grain(k + 9);
            let h = 56 * (one * g);
            &&& s <= r.0.girth.value()
            &&& w * (2 * s - (high - low)) <= 3 * g
            &&& s == r.0.girth.value() || -3 * g <= w * (2 * s - (high - low))
            &&& -h <= w * (4 * (one * (a.value() - c)) - d * (4 * low + j * s)) <= h
            &&& -h <= w * (4 * (one * (b.value() - c)) - d * (4 * high - j * s)) <= h
        }),
{
    let center = crate::fit::centroid_of(points);
    let extent = crate::fit::extent_of(points, center, axis);
    crate::cloud::law_centroids_are_means(points, 0, k);
    crate::cloud::law_centroids_are_means(points, 1, k);
    crate::cloud::law_centroids_are_means(points, 2, k);
    crate::cloud::law_bounded_clouds_have_reach(points, center, axis, k);
    crate::cloud::law_extents_cover_the_cloud(points, center, axis);
    lemma_covered(points, center, axis, extent, k);
    crate::bounds::lemma_looser(center.x, k, k + 4);
    crate::bounds::lemma_looser(center.y, k, k + 4);
    crate::bounds::lemma_looser(center.z, k, k + 4);
    let s = law_candidate_ends_lie_on_the_axis(center, axis, extent, j, i, k + 4);
    (extent, s)
}

proof fn lemma_covered(
    points: Seq<Vector>,
    center: Vector,
    axis: Vector,
    extent: Extent,
    k: nat,
)
    requires
        points.len() > 0,
        crate::cloud::covers(points, center, axis, extent),
        crate::cloud::has_reach(points, center, axis),
        forall|p: int|
            0 <= p < points.len() ==> crate::bounds::is_bounded(
                crate::cloud::reach_along(#[trigger] points[p], center, axis),
                k + 4,
            ),
        k <= crate::bounds::REACH,
    ensures
        crate::bounds::is_bounded(extent.low, k + 4),
        crate::bounds::is_bounded(extent.high, k + 4),
        !extent.girth.is_nan(),
        extent.girth.value() >= 0,
{
    let p = choose|p: int|
        0 <= p < points.len() && crate::cloud::reach_along(
            #[trigger] points[p],
            center,
            axis,
        ).value() == extent.low.value();
    let q = choose|p: int|
        0 <= p < points.len() && crate::cloud::reach_along(
            #[trigger] points[p],
            center,
            axis,
        ).value() == extent.high.value();
    crate::bounds::lemma_bounded(crate::cloud::reach_along(points[p], center, axis), k + 4);
    crate::bounds::lemma_bounded(crate::cloud::reach_along(points[q], center, axis), k + 4);
    assert(extent.low.at_most(crate::cloud::reach_along(points[0], center, axis)));
    assert(Double::zero().at_most(crate::cloud::reach_across(points[0], center, axis)));
    crate::double::lemma_magnitude_order(0, extent.girth.magnitude());
}

/// The constants of the choice: radii tie within a thousandth and a nanometre,
/// and an eigenvector is degenerate where its square is below a millionth of a
/// millionth; each is the double nearest to that.
pub proof fn law_constants_are_nearest()
    ensures
        ({
            let one = crate::arithmetic::one();
            &&& crate::rounding::nearest(1001 * one, 1000, TIE_FACTOR as int)
            &&& crate::rounding::nearest(one, 1_000_000_000, TIE_SLACK as int)
            &&& crate::rounding::nearest(
                one,
                1_000_000_000_000,
                crate::fit::DEGENERATE as int,
            )
        }),
{
    crate::rounding::lemma_pow2_128();
    lemma2_to64();
    lemma2_to64_rest();
    lemma_pow2_adds(52, 1022);
    lemma_pow2_adds(64, 18);
    lemma_pow2_adds(82, 992);
    lemma_pow2_adds(64, 28);
    lemma_pow2_adds(92, 982);
    lemma_constant(TIE_FACTOR as int, 1022, 1001 * BINADE, 1000);
    lemma_constant(TIE_SLACK as int, 992, 0x4_0000_0000_0000_0000_0000int, 1_000_000_000);
    lemma_constant(
        crate::fit::DEGENERATE as int,
        982,
        0x1000_0000_0000_0000_0000_0000int,
        1_000_000_000_000,
    );
    let p = pow2(1022) as int;
    let w = BINADE as int;
    assert(1001 * (w * p) == (1001 * w) * p) by (nonlinear_arith);
}

/// A normal number whose digits are nearest is nearest itself.
proof fn lemma_constant(u: int, e: nat, num: int, den: int)
    requires
        BINADE < u < INFINITE - 1,
        u / BINADE as int == e + 1,
        (u - 1) / BINADE as int == e + 1,
        (u + 1) / BINADE as int == e + 1,
        den > 0,
        ({
            let m = BINADE + u % BINADE as int;
            den * (2 * m - 1) < 2 * num < den * (2 * m + 1)
        }),
    ensures
        crate::rounding::nearest(num * pow2(e), den, u),
{
    let w = BINADE as int;
    let p = pow2(e) as int;
    let m = w + u % w;
    lemma_pow2_pos(e);
    assert((u - 1) % w == u % w - 1 && (u + 1) % w == u % w + 1) by {
        vstd::arithmetic::div_mod::lemma_fundamental_div_mod(u, w);
        vstd::arithmetic::div_mod::lemma_fundamental_div_mod(u - 1, w);
        vstd::arithmetic::div_mod::lemma_fundamental_div_mod(u + 1, w);
    }
    let (a, b) = (
        crate::rounding::twice_midpoint(u - 1),
        crate::rounding::twice_midpoint(u),
    );
    assert(a == (2 * m - 1) * p) by (nonlinear_arith)
        requires
            a == (m - 1) * p + m * p,
    ;
    assert(b == (2 * m + 1) * p) by (nonlinear_arith)
        requires
            b == m * p + (m + 1) * p,
    ;
    assert(den * a < 2 * (num * p)) by (nonlinear_arith)
        requires
            a == (2 * m - 1) * p,
            den * (2 * m - 1) < 2 * num,
            p > 0,
    ;
    assert(2 * (num * p) < den * b) by (nonlinear_arith)
        requires
            b == (2 * m + 1) * p,
            2 * num < den * (2 * m + 1),
            p > 0,
    ;
}

/// What a radius ties with: up to a thousandth and a nanometre more.
pub open spec fn about(w: Double) -> Double {
    w.product(Double { bits: TIE_FACTOR }).sum(Double { bits: TIE_SLACK })
}

/// `w` is the largest of the measured distances, or zero.
pub open spec fn is_widest(measures: Seq<Double>, w: Double) -> bool {
    &&& crate::bounds::is_plain(w)
    &&& forall|p: int|
        0 <= p < measures.len() ==> (#[trigger] measures[p]).is_nan() || measures[p].at_most(w)
    &&& w == Double::zero() || exists|p: int|
        0 <= p < measures.len() && #[trigger] measures[p] == w
}

/// How long a segment is.
#[verifier::opaque]
pub open spec fn length_of(a: Vector, b: Vector) -> Double {
    let (x, y, z) = (b.x.difference(a.x), b.y.difference(a.y), b.z.difference(a.z));
    x.product(x).sum(y.product(y)).sum(z.product(z)).root()
}

/// Whether the radius of candidate `q` ties with that of every candidate.
pub open spec fn is_tied(measures: Seq<Seq<Double>>, q: int) -> bool {
    forall|x: int, w: Double, v: Double|
        0 <= x < measures.len() && #[trigger] is_widest(measures[q], w) && #[trigger] is_widest(
            measures[x],
            v,
        ) ==> w.at_most(about(v))
}

proof fn lemma_widest(measures: Seq<Double>)
    ensures
        is_widest(measures, crate::fit::widest(measures)),
    decreases measures.len(),
{
    if measures.len() > 0 {
        let rest = measures.drop_last();
        let (w, v) = (crate::fit::widest(measures), crate::fit::widest(rest));
        let last = measures.len() - 1;
        lemma_widest(rest);
        assert forall|p: int| 0 <= p < measures.len() implies (#[trigger] measures[p]).is_nan()
            || measures[p].at_most(w) by {
            if p < last {
                assert(rest[p] == measures[p]);
            }
        }
        if w != v {
            crate::double::lemma_magnitude_order(v.magnitude(), 0);
            crate::double::lemma_magnitude_order(w.magnitude(), 0);
            assert(measures[last] == w);
        } else if v != Double::zero() {
            let p = choose|p: int| 0 <= p < rest.len() && #[trigger] rest[p] == v;
            assert(measures[p] == w);
        }
    }
}

proof fn lemma_widest_is_one(measures: Seq<Double>, w: Double)
    requires
        is_widest(measures, w),
    ensures
        w == crate::fit::widest(measures),
{
    let v = crate::fit::widest(measures);
    lemma_widest(measures);
    crate::double::lemma_magnitude_order(v.magnitude(), 0);
    crate::double::lemma_magnitude_order(w.magnitude(), 0);
    crate::double::lemma_magnitude_order(v.magnitude(), w.magnitude());
    if w != Double::zero() {
        let p = choose|p: int| 0 <= p < measures.len() && #[trigger] measures[p] == w;
        assert(measures[p].at_most(v));
    }
    if v != Double::zero() {
        let p = choose|p: int| 0 <= p < measures.len() && #[trigger] measures[p] == v;
        assert(measures[p].at_most(w));
    }
}

/// What ties with a larger radius is larger.
proof fn lemma_about(a: Double, b: Double)
    requires
        Double::zero().at_most(a),
        a.at_most(b),
    ensures
        about(a).at_most(about(b)),
{
    let (f, s) = (Double { bits: TIE_FACTOR }, Double { bits: TIE_SLACK });
    crate::double::lemma_magnitude_order(0, TIE_FACTOR as int);
    crate::arithmetic::law_products_keep_the_order(a, b, f);
    crate::arithmetic::law_sums_keep_the_order(a.product(f), b.product(f), s);
}

/// What a fit keeps. Every point is measured against the segment of each of the
/// five candidates. The capsule has the segment of one of them and the largest
/// of its distances as its radius; that radius is no larger, but for a tie,
/// than the largest distance of any other candidate; and of the candidates that
/// tie with all others, none is shorter.
pub proof fn law_kept_candidates_are_tight_and_short<
    E: Fn(Matrix) -> Eigen,
    D: Fn(Vector, Vector, Vector) -> Double,
>(points: Seq<Vector>, eigen: E, distance: D, c: Capsule) -> (r: (Eigen, Seq<Seq<Double>>, int))
    requires
        crate::fit::fitted(points, eigen, distance, c),
    ensures
        call_ensures(eigen, (crate::fit::covariance_of(points),), r.0),
        r.1.len() == 5,
        0 <= r.2 < 5,
        forall|q: int| 0 <= q < 5 ==> (#[trigger] r.1[q]).len() == points.len(),
        forall|q: int, p: int|
            0 <= q < 5 && 0 <= p < points.len() ==> {
                let ends = crate::fit::segment_of(points, crate::fit::axis_of(r.0), q);
                call_ensures(distance, (points[p], ends.0, ends.1), #[trigger] r.1[q][p])
            },
        (c.a, c.b) == crate::fit::segment_of(points, crate::fit::axis_of(r.0), r.2),
        is_widest(r.1[r.2], c.radius),
        forall|q: int, w: Double|
            0 <= q < 5 && #[trigger] is_widest(r.1[q], w) ==> c.radius.at_most(about(w)),
        is_tied(r.1, r.2),
        forall|q: int|
            0 <= q < 5 && #[trigger] is_tied(r.1, q) ==> {
                let ends = crate::fit::segment_of(points, crate::fit::axis_of(r.0), q);
                let (mine, other) = (length_of(c.a, c.b).rank(), length_of(ends.0, ends.1).rank());
                mine < other || mine == other && r.2 <= q
            },
{
    let (answer, measures, j) = choose|answer: Eigen, measures: Seq<Seq<Double>>, j: int|
        crate::fit::fitted_by(points, eigen, distance, c, answer, measures, j);
    let axis = crate::fit::axis_of(answer);
    let candidates = crate::fit::candidates_of(points, axis, measures);
    let least = crate::fit::tightest(candidates);
    assert forall|i: int| 0 <= i < candidates.len() implies Double::zero().at_most(
        #[trigger] candidates[i].radius,
    ) by {
        lemma_widest(measures[i]);
        crate::double::lemma_magnitude_order(candidates[i].radius.magnitude(), 0);
    }
    crate::fit::lemma_tightest(candidates);
    lemma_widest(measures[j]);
    assert(candidates[j].radius == crate::fit::widest(measures[j]));
    assert(crate::fit::ties(candidates, j));
    assert forall|q: int, w: Double|
        0 <= q < 5 && #[trigger] is_widest(measures[q], w) implies c.radius.at_most(about(w)) by {
        lemma_widest_is_one(measures[q], w);
        assert(candidates[q].radius == w);
        lemma_about(least, w);
    }
    assert forall|x: int, w: Double, v: Double|
        0 <= x < measures.len() && #[trigger] is_widest(measures[j], w) && #[trigger] is_widest(
            measures[x],
            v,
        ) implies w.at_most(about(v)) by {
        lemma_widest_is_one(measures[j], w);
    }
    assert forall|q: int| 0 <= q < 5 && #[trigger] is_tied(measures, q) implies {
        let ends = crate::fit::segment_of(points, axis, q);
        let (mine, other) = (length_of(c.a, c.b).rank(), length_of(ends.0, ends.1).rank());
        mine < other || mine == other && j <= q
    } by {
        let k = choose|k: int|
            0 <= k < candidates.len() && (#[trigger] candidates[k].radius).at_most(least);
        let (w, v) = (candidates[q].radius, candidates[k].radius);
        lemma_widest(measures[q]);
        lemma_widest(measures[k]);
        assert(w == crate::fit::widest(measures[q]) && v == crate::fit::widest(measures[k]));
        assert(is_widest(measures[q], w) && is_widest(measures[k], v));
        lemma_about(v, least);
        assert(crate::fit::ties(candidates, q));
        lemma_length_of(candidates[q]);
        lemma_length_of(candidates[j]);
    }
    (answer, measures, j)
}

proof fn lemma_length_of(c: Capsule)
    ensures
        crate::fit::span(c) == length_of(c.a, c.b),
{
    reveal(length_of);
}

/// The radius of a fit is at most about the largest distance to the segment
/// with no shrink, which reaches both extremes of the cloud: where no point
/// measures more than `most` against that, the radius ties with it.
pub proof fn law_radii_are_at_most_about_the_unshrunk_one<
    E: Fn(Matrix) -> Eigen,
    D: Fn(Vector, Vector, Vector) -> Double,
>(points: Seq<Vector>, eigen: E, distance: D, c: Capsule, most: Double)
    requires
        crate::fit::fitted(points, eigen, distance, c),
        Double::zero().at_most(most),
        forall|p: int, e: Eigen, d: Double|
            0 <= p < points.len() && #[trigger] call_ensures(
                eigen,
                (crate::fit::covariance_of(points),),
                e,
            ) && #[trigger] call_ensures(
                distance,
                (
                    points[p],
                    crate::fit::segment_of(points, crate::fit::axis_of(e), 0).0,
                    crate::fit::segment_of(points, crate::fit::axis_of(e), 0).1,
                ),
                d,
            ) ==> d.at_most(most),
    ensures
        c.radius.at_most(about(most)),
{
    let (e, measures, j) = law_kept_candidates_are_tight_and_short(points, eigen, distance, c);
    let w = crate::fit::widest(measures[0]);
    lemma_widest(measures[0]);
    assert(is_widest(measures[0], w));
    crate::double::lemma_magnitude_order(w.magnitude(), 0);
    if w != Double::zero() {
        let p = choose|p: int| 0 <= p < measures[0].len() && #[trigger] measures[0][p] == w;
        let ends = crate::fit::segment_of(points, crate::fit::axis_of(e), 0);
        assert(call_ensures(distance, (points[p], ends.0, ends.1), measures[0][p]));
    }
    lemma_about(w, most);
}

/// The dominant eigenvector is that of an eigenvalue that no other one exceeds;
/// of several such, the last.
pub proof fn law_dominant_eigenvectors_have_the_largest_value(eigen: Eigen)
    ensures
        ({
            let (x, y, z) = (eigen.values.x.rank(), eigen.values.y.rank(), eigen.values.z.rank());
            let v = crate::fit::dominant(eigen);
            ||| v == eigen.vectors.third && z >= x && z >= y
            ||| v == eigen.vectors.second && y >= x && y > z
            ||| v == eigen.vectors.first && x > y && x > z
        }),
{
}

/// A degenerate eigenvector gives way to the third coordinate's axis; any other
/// is divided by its length.
pub proof fn law_degenerate_axes_are_upright(eigen: Eigen)
    ensures
        ({
            let v = crate::fit::dominant(eigen);
            let a = crate::fit::axis_of(eigen);
            let square = v.x.product(v.x).sum(v.y.product(v.y)).sum(v.z.product(v.z));
            let length = square.root();
            &&& square.less(Double { bits: crate::fit::DEGENERATE }) ==> {
                &&& a.x.value() == 0
                &&& a.y.value() == 0
                &&& a.z.value() == crate::arithmetic::one()
            }
            &&& !square.less(Double { bits: crate::fit::DEGENERATE }) ==> {
                &&& a.x == v.x.quotient(length)
                &&& a.y == v.y.quotient(length)
                &&& a.z == v.z.quotient(length)
            }
        }),
{
    crate::bounds::lemma_constants();
}

} // verus!
