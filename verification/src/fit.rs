//! Capsule fitting: one strictly bounding capsule per cloud of mesh vertices.
//!
//! The axis of the capsule is the dominant principal axis of the vertex
//! covariance, and the radius of every candidate is the largest distance of
//! any vertex to its segment. So every vertex lies inside, and since a capsule
//! is convex every triangle face does too: the distance of two capsules is a
//! lower bound on the distance of the meshes that they wrap, but for what the
//! measured distances miss the exact ones by. [`crate::hull`] proves both.
//!
//! The eigenvectors of a symmetric matrix and the distance of a point to a
//! segment are handed in as functions.
use vstd::prelude::*;
use vstd::string::*;

use crate::double::Double;
use crate::double::HALF;
use crate::double::INFINITE;
use crate::double::ONE;
use crate::double::QUARTER;
use crate::double::SIGN;
use crate::double::THREE_QUARTERS;
use crate::double::TWO;
use crate::geometry::Capsule;
use crate::geometry::Matrix;
use crate::geometry::Vector;

verus! {

/// The encoding of 1e-12: an eigenvector whose squared length is below it is
/// degenerate.
pub const DEGENERATE: u64 = 0x3d71_9799_812d_ea11;

/// The encoding of 1.001: radii within a thousandth of the smallest are ties.
pub const TIE_FACTOR: u64 = 0x3ff0_0418_9374_bc6a;

/// The encoding of 1e-9: radii within a nanometre of the smallest are ties.
pub const TIE_SLACK: u64 = 0x3e11_2e0b_e826_d695;

/// How many candidates a fit tries.
pub const CANDIDATES: usize = 5;

/// The eigenvalues of a symmetric matrix, and the eigenvector of each as the
/// column in its place.
#[derive(Clone, Copy, Debug, PartialEq, Eq, Structural)]
pub struct Eigen {
    pub values: Vector,
    pub vectors: Matrix,
}

/// How far a cloud of points reaches along an axis, and away from it.
#[derive(Clone, Copy, Debug, PartialEq, Eq, Structural)]
pub struct Extent {
    pub low: Double,
    pub high: Double,
    pub girth: Double,
}

/// The points added up from the first.
pub open spec fn total(points: Seq<Vector>) -> Vector
    decreases points.len(),
{
    if points.len() == 0 {
        Vector::origin()
    } else {
        total(points.drop_last()).sum(points.last())
    }
}

/// The mean of the points.
pub open spec fn centroid_of(points: Seq<Vector>) -> Vector {
    total(points).over(Double::whole(points.len() as int))
}

/// The squares of the points' offsets from `center`, added up from the first.
pub open spec fn scatter(points: Seq<Vector>, center: Vector) -> Matrix
    decreases points.len(),
{
    if points.len() == 0 {
        Matrix::zeros()
    } else {
        scatter(points.drop_last(), center).sum(Matrix::outer(points.last().difference(center)))
    }
}

/// The covariance of the points.
pub open spec fn covariance_of(points: Seq<Vector>) -> Matrix {
    scatter(points, centroid_of(points)).over(Double::whole(points.len() as int))
}

/// The eigenvector of the largest eigenvalue; of several such, the last.
pub open spec fn dominant(eigen: Eigen) -> Vector {
    let (x, y, z) = (eigen.values.x.rank(), eigen.values.y.rank(), eigen.values.z.rank());
    if z >= x && z >= y {
        eigen.vectors.third
    } else if y >= x {
        eigen.vectors.second
    } else {
        eigen.vectors.first
    }
}

/// The direction of largest spread, of unit length: the dominant eigenvector,
/// or the third coordinate's axis where that one is degenerate.
pub open spec fn axis_of(eigen: Eigen) -> Vector {
    let v = dominant(eigen);
    if v.inner(v).less(Double { bits: DEGENERATE }) {
        Vector { x: Double { bits: 0 }, y: Double { bits: 0 }, z: Double { bits: ONE } }
    } else {
        v.over(v.length())
    }
}

/// The extent of the points about `center`, along `axis`.
pub open spec fn extent_of(points: Seq<Vector>, center: Vector, axis: Vector) -> Extent
    decreases points.len(),
{
    if points.len() == 0 {
        Extent {
            low: Double { bits: INFINITE },
            high: Double::signed(true, INFINITE as int),
            girth: Double { bits: 0 },
        }
    } else {
        let before = extent_of(points.drop_last(), center, axis);
        let d = points.last().difference(center);
        let t = d.inner(axis);
        Extent {
            low: before.low.lesser(t),
            high: before.high.greater(t),
            girth: before.girth.greater(d.difference(axis.scaled(t)).length()),
        }
    }
}

/// By how much of the largest shrink each candidate pulls its ends inward.
pub open spec fn fraction(j: int) -> Double {
    if j == 0 {
        Double { bits: 0 }
    } else if j == 1 {
        Double { bits: QUARTER }
    } else if j == 2 {
        Double { bits: HALF }
    } else if j == 3 {
        Double { bits: THREE_QUARTERS }
    } else {
        Double { bits: ONE }
    }
}

/// The two ends of the segment of a candidate.
pub open spec fn segment(center: Vector, axis: Vector, extent: Extent, part: Double) -> (
    Vector,
    Vector,
) {
    let two = Double { bits: TWO };
    let mid = extent.low.sum(extent.high).quotient(two);
    let reach = extent.high.difference(extent.low).quotient(two);
    let shrink = extent.girth.lesser(reach);
    let half = reach.difference(shrink.product(part));
    (
        center.sum(axis.scaled(mid.difference(half))),
        center.sum(axis.scaled(mid.sum(half))),
    )
}

/// The largest of the measured distances, and no less than zero.
pub open spec fn widest(measures: Seq<Double>) -> Double
    decreases measures.len(),
{
    if measures.len() == 0 {
        Double { bits: 0 }
    } else {
        widest(measures.drop_last()).greater(measures.last())
    }
}

/// The smallest radius of the candidates.
pub open spec fn tightest(candidates: Seq<Capsule>) -> Double
    decreases candidates.len(),
{
    if candidates.len() == 0 {
        Double { bits: INFINITE }
    } else {
        tightest(candidates.drop_last()).lesser(candidates.last().radius)
    }
}

/// The largest radius that ties with `radius`.
pub open spec fn tie_limit(radius: Double) -> Double {
    radius.product(Double { bits: TIE_FACTOR }).sum(Double { bits: TIE_SLACK })
}

/// The length of the segment of a capsule.
pub open spec fn span(c: Capsule) -> Double {
    c.b.difference(c.a).length()
}

/// Whether candidate `i` ties with the smallest radius.
pub open spec fn ties(candidates: Seq<Capsule>, i: int) -> bool {
    &&& 0 <= i < candidates.len()
    &&& candidates[i].radius.at_most(tie_limit(tightest(candidates)))
}

/// Candidate `j` is the one to keep: of those that tie with the smallest
/// radius the one with the shortest segment; of several such, the first.
pub open spec fn preferred(candidates: Seq<Capsule>, j: int) -> bool {
    &&& ties(candidates, j)
    &&& forall|i: int| #[trigger]
        ties(candidates, i) ==> {
            ||| span(candidates[j]).rank() < span(candidates[i]).rank()
            ||| span(candidates[j]).rank() == span(candidates[i]).rank() && j <= i
        }
}

/// The candidates of a fit along `axis`, where `measures[j][i]` is the
/// distance of point `i` to the segment of candidate `j`.
pub open spec fn candidates_of(
    points: Seq<Vector>,
    axis: Vector,
    measures: Seq<Seq<Double>>,
) -> Seq<Capsule> {
    Seq::new(
        measures.len(),
        |j: int|
            {
                let ends = segment_of(points, axis, j);
                Capsule { a: ends.0, b: ends.1, radius: widest(measures[j]) }
            },
    )
}

/// The two ends of the segment of candidate `j`.
pub open spec fn segment_of(points: Seq<Vector>, axis: Vector, j: int) -> (Vector, Vector) {
    let center = centroid_of(points);
    segment(center, axis, extent_of(points, center, axis), fraction(j))
}

/// `measures[j][i]` is what `distance` gave for point `i` and the segment of
/// candidate `j`.
pub open spec fn measured<D: Fn(Vector, Vector, Vector) -> Double>(
    points: Seq<Vector>,
    axis: Vector,
    distance: D,
    measures: Seq<Seq<Double>>,
) -> bool {
    &&& forall|j: int| 0 <= j < measures.len() ==> (#[trigger] measures[j]).len() == points.len()
    &&& forall|j: int, i: int|
        0 <= j < measures.len() && 0 <= i < points.len() ==> {
            let ends = segment_of(points, axis, j);
            call_ensures(distance, (points[i], ends.0, ends.1), #[trigger] measures[j][i])
        }
}

/// `c` is the candidate to keep, the `j`th, where `eigen` gave `answer` for
/// the covariance and `distance` gave `measures`.
pub open spec fn fitted_by<E: Fn(Matrix) -> Eigen, D: Fn(Vector, Vector, Vector) -> Double>(
    points: Seq<Vector>,
    eigen: E,
    distance: D,
    c: Capsule,
    answer: Eigen,
    measures: Seq<Seq<Double>>,
    j: int,
) -> bool {
    let candidates = candidates_of(points, axis_of(answer), measures);
    &&& call_ensures(eigen, (covariance_of(points),), answer)
    &&& measures.len() == CANDIDATES
    &&& measured(points, axis_of(answer), distance, measures)
    &&& preferred(candidates, j)
    &&& c == candidates[j]
}

/// Some answers of `eigen` and `distance` make `c` the candidate to keep.
pub open spec fn fitted<E: Fn(Matrix) -> Eigen, D: Fn(Vector, Vector, Vector) -> Double>(
    points: Seq<Vector>,
    eigen: E,
    distance: D,
    c: Capsule,
) -> bool {
    exists|answer: Eigen, measures: Seq<Seq<Double>>, j: int|
        fitted_by(points, eigen, distance, c, answer, measures, j)
}

/// Each point was measured against the segment of `c`, and no distance found
/// is larger than its radius.
pub open spec fn contains_all<D: Fn(Vector, Vector, Vector) -> Double>(
    points: Seq<Vector>,
    distance: D,
    c: Capsule,
) -> bool {
    forall|i: int|
        #![trigger points[i]]
        0 <= i < points.len() ==> exists|d: Double| #[trigger]
            call_ensures(distance, (points[i], c.a, c.b), d) && (d.is_nan() || d.at_most(c.radius))
}

/// The mean of the points.
fn centroid(points: &[Vector]) -> (r: Vector)
    ensures
        r == centroid_of(points@),
{
    let mut acc: Vector = Vector {
        x: Double { bits: 0 },
        y: Double { bits: 0 },
        z: Double { bits: 0 },
    };
    let mut i: usize = 0;
    while i < points.len()
        invariant
            i <= points@.len(),
            acc == total(points@.take(i as int)),
        decreases points.len() - i,
    {
        proof {
            assert(points@.take(i + 1).drop_last() =~= points@.take(i as int));
        }
        acc = acc.add(points[i]);
        i = i + 1;
    }
    proof {
        assert(points@.take(i as int) =~= points@);
    }
    acc.unscale(Double::from_count(points.len()))
}

/// The covariance of the points.
fn covariance(points: &[Vector]) -> (r: Matrix)
    ensures
        r == covariance_of(points@),
{
    let center: Vector = centroid(points);
    let zero: Vector = Vector {
        x: Double { bits: 0 },
        y: Double { bits: 0 },
        z: Double { bits: 0 },
    };
    let mut acc: Matrix = Matrix { first: zero, second: zero, third: zero };
    let mut i: usize = 0;
    while i < points.len()
        invariant
            i <= points@.len(),
            acc == scatter(points@.take(i as int), center),
        decreases points.len() - i,
    {
        proof {
            assert(points@.take(i + 1).drop_last() =~= points@.take(i as int));
        }
        acc = acc.add(Matrix::square_of(points[i].sub(center)));
        i = i + 1;
    }
    proof {
        assert(points@.take(i as int) =~= points@);
    }
    acc.unscale(Double::from_count(points.len()))
}

/// The direction of largest spread that the eigenvectors show.
pub fn axis_from(eigen: Eigen) -> (r: Vector)
    ensures
        r == axis_of(eigen),
{
    let v: Vector = if !eigen.values.z.precedes(eigen.values.x) && !eigen.values.z.precedes(
        eigen.values.y,
    ) {
        eigen.vectors.third
    } else if !eigen.values.y.precedes(eigen.values.x) {
        eigen.vectors.second
    } else {
        eigen.vectors.first
    };
    if v.dot(v).lt(Double { bits: DEGENERATE }) {
        Vector { x: Double { bits: 0 }, y: Double { bits: 0 }, z: Double { bits: ONE } }
    } else {
        v.unscale(v.norm())
    }
}

/// Dominant eigenvector of the point covariance: the direction of largest
/// spread, used as the capsule axis.
pub fn principal_axis<E: Fn(Matrix) -> Eigen>(points: &[Vector], eigen: &E) -> (r: Vector)
    requires
        forall|m: Matrix| call_requires(*eigen, (m,)),
    ensures
        exists|answer: Eigen| #[trigger]
            call_ensures(*eigen, (covariance_of(points@),), answer) && r == axis_of(answer),
{
    let answer: Eigen = eigen(covariance(points));
    axis_from(answer)
}

/// The extent of the points about `center`, along `axis`.
fn extent(points: &[Vector], center: Vector, axis: Vector) -> (r: Extent)
    ensures
        r == extent_of(points@, center, axis),
{
    let mut acc: Extent = Extent {
        low: Double { bits: INFINITE },
        high: Double { bits: SIGN + INFINITE },
        girth: Double { bits: 0 },
    };
    let mut i: usize = 0;
    while i < points.len()
        invariant
            i <= points@.len(),
            acc == extent_of(points@.take(i as int), center, axis),
        decreases points.len() - i,
    {
        proof {
            assert(points@.take(i + 1).drop_last() =~= points@.take(i as int));
        }
        let d: Vector = points[i].sub(center);
        let t: Double = d.dot(axis);
        acc =
        Extent {
            low: acc.low.min(t),
            high: acc.high.max(t),
            girth: acc.girth.max(d.sub(axis.scale(t)).norm()),
        };
        i = i + 1;
    }
    proof {
        assert(points@.take(i as int) =~= points@);
    }
    acc
}

/// The two ends of the segment of a candidate.
fn ends(center: Vector, axis: Vector, extent: Extent, part: Double) -> (r: (Vector, Vector))
    ensures
        r == segment(center, axis, extent, part),
{
    let two: Double = Double { bits: TWO };
    let mid: Double = extent.low.add(extent.high).div(two);
    let reach: Double = extent.high.sub(extent.low).div(two);
    let shrink: Double = extent.girth.min(reach);
    let half: Double = reach.sub(shrink.mul(part));
    (center.add(axis.scale(mid.sub(half))), center.add(axis.scale(mid.add(half))))
}

/// By how much of the largest shrink candidate `j` pulls its ends inward.
fn part(j: usize) -> (r: Double)
    ensures
        r == fraction(j as int),
{
    if j == 0 {
        Double { bits: 0 }
    } else if j == 1 {
        Double { bits: QUARTER }
    } else if j == 2 {
        Double { bits: HALF }
    } else if j == 3 {
        Double { bits: THREE_QUARTERS }
    } else {
        Double { bits: ONE }
    }
}

/// The radius that encloses every point about the segment from `a` to `b`.
fn enclosing_radius<D: Fn(Vector, Vector, Vector) -> Double>(
    points: &[Vector],
    a: Vector,
    b: Vector,
    distance: &D,
) -> (r: (Double, Ghost<Seq<Double>>))
    requires
        forall|p: Vector, a: Vector, b: Vector| call_requires(*distance, (p, a, b)),
    ensures
        r.0 == widest(r.1@),
        r.1@.len() == points@.len(),
        forall|i: int|
            0 <= i < points@.len() ==> call_ensures(
                *distance,
                (points@[i], a, b),
                #[trigger] r.1@[i],
            ),
{
    let mut radius: Double = Double { bits: 0 };
    let ghost mut measures: Seq<Double> = Seq::empty();
    let mut i: usize = 0;
    while i < points.len()
        invariant
            i <= points@.len(),
            measures.len() == i,
            radius == widest(measures),
            forall|p: Vector, a: Vector, b: Vector| call_requires(*distance, (p, a, b)),
            forall|k: int|
                0 <= k < i ==> call_ensures(
                    *distance,
                    (points@[k], a, b),
                    #[trigger] measures[k],
                ),
        decreases points.len() - i,
    {
        let d: Double = distance(points[i], a, b);
        radius = radius.max(d);
        proof {
            assert(measures.push(d).drop_last() =~= measures);
            measures = measures.push(d);
        }
        i = i + 1;
    }
    (radius, Ghost(measures))
}

/// A radius ties with itself.
proof fn lemma_tie_limit(r: Double)
    requires
        Double::zero().at_most(r),
    ensures
        r.at_most(tie_limit(r)),
{
    let factor = Double { bits: TIE_FACTOR };
    let slack = Double { bits: TIE_SLACK };
    let p = r.product(factor);
    let m = r.magnitude();
    crate::double::lemma_magnitude_order(m, 0);
    crate::double::lemma_magnitude_order(slack.magnitude(), 0);
    if !r.is_infinite() {
        let num = crate::double::size(m) * crate::double::size(TIE_FACTOR as int);
        let one = crate::arithmetic::one();
        crate::arithmetic::lemma_rounded(r.is_negative(), num, one);
        lemma_tie_factor();
        assert(one * crate::double::size(m) <= num) by (nonlinear_arith)
            requires
                num == crate::double::size(m) * crate::double::size(TIE_FACTOR as int),
                crate::double::size(TIE_FACTOR as int) >= one,
                crate::double::size(m) >= 0,
        ;
        crate::rounding::lemma_nearest_bounds(num, one, p.magnitude(), m);
        if m == 0 {
            assert(num <= one * crate::double::size(0)) by (nonlinear_arith)
                requires
                    num == 0 * crate::double::size(TIE_FACTOR as int),
                    crate::double::size(0) == 0,
            ;
            crate::rounding::lemma_nearest_bounds(num, one, p.magnitude(), 0);
        }
        crate::double::lemma_magnitude_order(p.magnitude(), m);
    }
    if !p.is_infinite() {
        let x = p.value() + slack.value();
        crate::arithmetic::lemma_rounded(false, x, 1);
        let u = p.sum(slack).magnitude();
        assert(1 * crate::double::size(p.magnitude()) == crate::double::size(p.magnitude()));
        crate::rounding::lemma_nearest_bounds(x, 1, u, p.magnitude());
        crate::double::lemma_magnitude_order(u, p.magnitude());
    }
}

/// The tie factor is no less than one.
proof fn lemma_tie_factor()
    ensures
        crate::double::size(TIE_FACTOR as int) >= crate::arithmetic::one(),
        crate::arithmetic::one() > 0,
{
    let w = crate::double::BINADE as int;
    let t = TIE_FACTOR as int;
    vstd::arithmetic::power2::lemma_pow2_adds(52, 1022);
    vstd::arithmetic::power2::lemma_pow2_pos(1022);
    vstd::arithmetic::power2::lemma_pow2_pos(1074);
    crate::rounding::lemma_pow2_128();
    assert(t / w == 1023);
    let p = vstd::arithmetic::power2::pow2(1022) as int;
    assert((w + t % w) * p >= w * p) by (nonlinear_arith)
        requires
            t % w >= 0,
            p > 0,
    ;
}

/// The smallest radius is a radius of the candidates, and none is smaller.
pub proof fn lemma_tightest(candidates: Seq<Capsule>)
    requires
        forall|i: int|
            0 <= i < candidates.len() ==> Double::zero().at_most(
                #[trigger] candidates[i].radius,
            ),
    ensures
        Double::zero().at_most(tightest(candidates)),
        forall|i: int|
            0 <= i < candidates.len() ==> tightest(candidates).at_most(
                #[trigger] candidates[i].radius,
            ),
        candidates.len() > 0 ==> exists|i: int|
            0 <= i < candidates.len() && (#[trigger] candidates[i].radius).at_most(
                tightest(candidates),
            ),
    decreases candidates.len(),
{
    if candidates.len() == 0 {
        crate::double::lemma_magnitude_order(0, INFINITE as int);
    } else {
        let rest = candidates.drop_last();
        let last = candidates.last().radius;
        assert(last == candidates[candidates.len() - 1].radius);
        assert forall|i: int| 0 <= i < rest.len() implies Double::zero().at_most(
            #[trigger] rest[i].radius,
        ) by {
            assert(rest[i] == candidates[i]);
        }
        lemma_tightest(rest);
        assert forall|i: int| 0 <= i < candidates.len() implies tightest(candidates).at_most(
            #[trigger] candidates[i].radius,
        ) by {
            if i < rest.len() {
                assert(rest[i] == candidates[i]);
            }
        }
        let t = tightest(rest);
        if last.less(t) {
            assert(candidates[candidates.len() - 1].radius.at_most(tightest(candidates)));
        } else if rest.len() > 0 {
            let k = choose|k: int|
                0 <= k < rest.len() && (#[trigger] rest[k].radius).at_most(tightest(rest));
            assert(candidates[k].radius.at_most(tightest(candidates)));
        } else {
            crate::double::lemma_magnitude_order(last.magnitude(), INFINITE as int);
            assert(candidates[candidates.len() - 1].radius.at_most(tightest(candidates)));
        }
    }
}

/// The candidate to keep: smallest radius wins; among near-ties the shortest
/// segment, which adds the least phantom volume.
pub fn pick(candidates: &Vec<Capsule>) -> (c: Capsule)
    requires
        candidates@.len() > 0,
        forall|i: int|
            0 <= i < candidates@.len() ==> Double::zero().at_most(
                #[trigger] candidates@[i].radius,
            ),
    ensures
        exists|j: int| #[trigger] preferred(candidates@, j) && c == candidates@[j],
{
    let mut least: Double = Double { bits: INFINITE };
    let mut i: usize = 0;
    while i < candidates.len()
        invariant
            i <= candidates@.len(),
            least == tightest(candidates@.take(i as int)),
        decreases candidates.len() - i,
    {
        proof {
            assert(candidates@.take(i + 1).drop_last() =~= candidates@.take(i as int));
        }
        least = least.min(candidates[i].radius);
        i = i + 1;
    }
    proof {
        assert(candidates@.take(i as int) =~= candidates@);
        lemma_tightest(candidates@);
        lemma_tie_limit(least);
        let k = choose|k: int|
            0 <= k < candidates@.len() && (#[trigger] candidates@[k].radius).at_most(least);
        assert(ties(candidates@, k));
    }
    let limit: Double = least.mul(Double { bits: TIE_FACTOR }).add(Double { bits: TIE_SLACK });
    let mut best: Option<usize> = None;
    i = 0;
    while i < candidates.len()
        invariant
            i <= candidates@.len(),
            limit == tie_limit(tightest(candidates@)),
            best is None ==> forall|k: int| 0 <= k < i ==> !#[trigger] ties(candidates@, k),
            best matches Some(j) ==> {
                &&& j < i
                &&& ties(candidates@, j as int)
                &&& forall|k: int|
                    k < i && #[trigger] ties(candidates@, k) ==> {
                        ||| span(candidates@[j as int]).rank() < span(candidates@[k]).rank()
                        ||| span(candidates@[j as int]).rank() == span(candidates@[k]).rank()
                            && j <= k
                    }
            },
        decreases candidates.len() - i,
    {
        let c: Capsule = candidates[i];
        if c.radius.le(limit) {
            proof {
                assert(ties(candidates@, i as int));
            }
            match best {
                None => {
                    best = Some(i);
                },
                Some(j) => {
                    let length: Double = c.b.sub(c.a).norm();
                    if length.precedes(candidates[j].b.sub(candidates[j].a).norm()) {
                        best = Some(i);
                    }
                },
            }
        }
        i = i + 1;
    }
    proof {
        assert(preferred(candidates@, best->0 as int));
    }
    candidates[best.unwrap()]
}

/// No measured distance is larger than the widest one.
proof fn lemma_widest(measures: Seq<Double>)
    ensures
        Double::zero().at_most(widest(measures)),
        forall|i: int|
            0 <= i < measures.len() ==> (#[trigger] measures[i]).is_nan() || measures[i].at_most(
                widest(measures),
            ),
    decreases measures.len(),
{
    if measures.len() > 0 {
        let rest = measures.drop_last();
        lemma_widest(rest);
        assert forall|i: int| 0 <= i < measures.len() implies (#[trigger] measures[i]).is_nan()
            || measures[i].at_most(widest(measures)) by {
            if i < rest.len() {
                assert(rest[i] == measures[i]);
            }
        }
    }
}

/// Every answer that makes a capsule the one to keep has it contain the
/// points.
proof fn lemma_fitted_contains<E: Fn(Matrix) -> Eigen, D: Fn(Vector, Vector, Vector) -> Double>(
    points: Seq<Vector>,
    eigen: E,
    distance: D,
    c: Capsule,
)
    requires
        fitted(points, eigen, distance, c),
    ensures
        contains_all(points, distance, c),
        Double::zero().at_most(c.radius),
{
    let (answer, measures, j) = choose|answer: Eigen, measures: Seq<Seq<Double>>, j: int|
        fitted_by(points, eigen, distance, c, answer, measures, j);
    lemma_widest(measures[j]);
    assert forall|i: int| #![trigger points[i]] 0 <= i < points.len() implies exists|d: Double|
     #[trigger]
        call_ensures(distance, (points[i], c.a, c.b), d) && (d.is_nan() || d.at_most(
            c.radius,
        )) by {
        let d = measures[j][i];
        assert(call_ensures(distance, (points[i], c.a, c.b), d));
    }
}

/// Whether every coordinate of every point is finite.
fn all_finite(points: &[Vector]) -> (r: bool)
    ensures
        r == (forall|i: int| 0 <= i < points@.len() ==> (#[trigger] points@[i]).is_finite()),
{
    let mut i: usize = 0;
    while i < points.len()
        invariant
            i <= points@.len(),
            forall|k: int| 0 <= k < i ==> (#[trigger] points@[k]).is_finite(),
        decreases points.len() - i,
    {
        if !points[i].finite() {
            return false;
        }
        i = i + 1;
    }
    true
}

/// Fit a single capsule (line-swept sphere) containing every point of
/// `points`: principal axis, perpendicular enclosing radius, extremal caps.
///
/// How far the ends are pulled inward is shape-dependent, so a few shrinks are
/// tried; containment holds for each because its radius is the worst point's
/// distance to its segment.
pub fn fit_capsule<E: Fn(Matrix) -> Eigen, D: Fn(Vector, Vector, Vector) -> Double>(
    points: &[Vector],
    eigen: E,
    distance: D,
) -> (r: Result<Capsule, String>)
    requires
        forall|m: Matrix| call_requires(eigen, (m,)),
        forall|p: Vector, a: Vector, b: Vector| call_requires(distance, (p, a, b)),
    ensures
        match r {
            Ok(c) => {
                &&& points@.len() > 0
                &&& forall|i: int| 0 <= i < points@.len() ==> (#[trigger] points@[i]).is_finite()
                &&& fitted(points@, eigen, distance, c)
                &&& contains_all(points@, distance, c)
                &&& Double::zero().at_most(c.radius)
            },
            Err(e) => {
                ||| points@.len() == 0 && e@ == "cannot fit a capsule to zero points"@
                ||| points@.len() > 0 && e@ == "cannot fit a capsule to non-finite points"@
                    && exists|i: int|
                    0 <= i < points@.len() && !(#[trigger] points@[i]).is_finite()
            },
        },
{
    if points.len() == 0 {
        return Err(String::from_str("cannot fit a capsule to zero points"));
    }
    if !all_finite(points) {
        return Err(String::from_str("cannot fit a capsule to non-finite points"));
    }
    let axis: Vector = principal_axis(points, &eigen);
    let ghost answer = choose|answer: Eigen| #[trigger]
        call_ensures(eigen, (covariance_of(points@),), answer) && axis == axis_of(answer);
    let center: Vector = centroid(points);
    let reach: Extent = extent(points, center, axis);
    let mut candidates: Vec<Capsule> = Vec::new();
    let ghost mut measures: Seq<Seq<Double>> = Seq::empty();
    let mut j: usize = 0;
    while j < CANDIDATES
        invariant
            j <= CANDIDATES,
            measures.len() == j,
            axis == axis_of(answer),
            center == centroid_of(points@),
            reach == extent_of(points@, center, axis),
            candidates@ =~= candidates_of(points@, axis, measures),
            measured(points@, axis, distance, measures),
            forall|i: int|
                0 <= i < candidates@.len() ==> Double::zero().at_most(
                    #[trigger] candidates@[i].radius,
                ),
            forall|p: Vector, a: Vector, b: Vector| call_requires(distance, (p, a, b)),
        decreases CANDIDATES - j,
    {
        let (a, b) = ends(center, axis, reach, part(j));
        let (radius, Ghost(found)) = enclosing_radius(points, a, b, &distance);
        candidates.push(Capsule { a, b, radius });
        proof {
            lemma_widest(found);
            measures = measures.push(found);
        }
        j = j + 1;
    }
    let c: Capsule = pick(&candidates);
    proof {
        let k = choose|k: int| #[trigger] preferred(candidates@, k) && c == candidates@[k];
        assert(fitted_by(points@, eigen, distance, c, answer, measures, k));
        lemma_fitted_contains(points@, eigen, distance, c);
    }
    Ok(c)
}

} // verus!
