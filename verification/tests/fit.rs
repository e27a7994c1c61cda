//! Capsule fitting, with the machine's doubles outside and ours inside.
use bimanual_collision::double::Double;
use bimanual_collision::fit::{axis_from, fit_capsule, pick, principal_axis, Eigen};
use bimanual_collision::geometry::{Capsule, Matrix, Vector};
use nalgebra::{Matrix3, Point3, Vector3};
use rand::{Rng, SeedableRng};

fn d(x: f64) -> Double {
    Double { bits: x.to_bits() }
}

fn f(x: Double) -> f64 {
    f64::from_bits(x.bits)
}

fn vector(x: f64, y: f64, z: f64) -> Vector {
    Vector { x: d(x), y: d(y), z: d(z) }
}

fn ours(p: &Point3<f64>) -> Vector {
    vector(p.x, p.y, p.z)
}

fn coords(v: Vector) -> Vector3<f64> {
    Vector3::new(f(v.x), f(v.y), f(v.z))
}

fn point(v: Vector) -> Point3<f64> {
    Point3::from(coords(v))
}

fn column(m: &Matrix3<f64>, j: usize) -> Vector {
    vector(m[(0, j)], m[(1, j)], m[(2, j)])
}

fn symmetric_eigen(m: Matrix) -> Eigen {
    let m = Matrix3::from_columns(&[coords(m.first), coords(m.second), coords(m.third)]);
    let e = m.symmetric_eigen();
    Eigen {
        values: vector(e.eigenvalues[0], e.eigenvalues[1], e.eigenvalues[2]),
        vectors: Matrix {
            first: column(&e.eigenvectors, 0),
            second: column(&e.eigenvectors, 1),
            third: column(&e.eigenvectors, 2),
        },
    }
}

fn point_segment_distance(p: &Point3<f64>, a: &Point3<f64>, b: &Point3<f64>) -> f64 {
    let ab = b - a;
    let len2 = ab.norm_squared();
    let t = if len2 > 0.0 { ((p - a).dot(&ab) / len2).clamp(0.0, 1.0) } else { 0.0 };
    (p - (a + ab * t)).norm()
}

fn measure(p: Vector, a: Vector, b: Vector) -> Double {
    d(point_segment_distance(&point(p), &point(a), &point(b)))
}

struct Fitted {
    a: Point3<f64>,
    b: Point3<f64>,
    radius: f64,
}

fn fit(points: &[Point3<f64>]) -> Result<Fitted, String> {
    let cloud: Vec<Vector> = points.iter().map(ours).collect();
    let c = fit_capsule(&cloud, symmetric_eigen, measure)?;
    Ok(Fitted { a: point(c.a), b: point(c.b), radius: f(c.radius) })
}

fn contained(points: &[Point3<f64>], c: &Fitted) -> bool {
    // Tolerate float round-off at the surface.
    points.iter().all(|p| point_segment_distance(p, &c.a, &c.b) <= c.radius + 1e-9)
}

/// Points on a cylinder of radius `r` around the segment `a..b`.
fn cylinder_cloud(a: Point3<f64>, b: Point3<f64>, r: f64) -> Vec<Point3<f64>> {
    let axis = (b - a).normalize();
    let u = axis.cross(&Vector3::new(0.3, 0.7, -0.2)).normalize();
    let v = axis.cross(&u);
    let mut pts = Vec::new();
    for i in 0..40 {
        let t = i as f64 / 39.0;
        let center = a + (b - a) * t;
        for k in 0..12 {
            let ang = k as f64 * std::f64::consts::TAU / 12.0;
            pts.push(center + (u * ang.cos() + v * ang.sin()) * r);
        }
    }
    pts
}

/// Points on the unit sphere.
fn blob_cloud() -> Vec<Point3<f64>> {
    let mut pts = Vec::new();
    for i in 0..100 {
        let phi = i as f64 * 0.618 * std::f64::consts::TAU;
        let z = -1.0 + 2.0 * (i as f64 + 0.5) / 100.0;
        let r = (1.0f64 - z * z).sqrt();
        pts.push(Point3::new(r * phi.cos(), r * phi.sin(), z));
    }
    pts
}

#[test]
fn fits_a_cylinder_tightly() {
    let (a, b) = (Point3::new(0.1, -0.2, 0.3), Point3::new(1.4, 0.5, -0.1));
    let cloud = cylinder_cloud(a, b, 0.05);
    let c = fit(&cloud).expect("fit");
    assert!(contained(&cloud, &c));
    // Tight: radius within 20% of the true cylinder radius.
    assert!(c.radius < 0.06, "radius {} too loose", c.radius);
    // Axis aligned with the cylinder axis.
    let fitted_axis = (c.b - c.a).normalize();
    let true_axis = (b - a).normalize();
    assert!(fitted_axis.dot(&true_axis).abs() > 0.999);
}

#[test]
fn collapses_to_a_sphere_for_blob_clouds() {
    // Points on a sphere: the segment should collapse to ~the center.
    let pts = blob_cloud();
    let c = fit(&pts).expect("fit");
    assert!(contained(&pts, &c));
    assert!((c.b - c.a).norm() < 0.2, "segment {} should be near-degenerate", (c.b - c.a).norm());
    assert!(c.radius < 1.1);
}

#[test]
fn handles_collinear_and_single_points() {
    let line: Vec<_> = (0..10).map(|i| Point3::new(i as f64 * 0.1, 0.0, 0.0)).collect();
    let c = fit(&line).expect("fit line");
    assert!(contained(&line, &c));

    let single = [Point3::new(0.3, 0.4, 0.5)];
    let c = fit(&single).expect("fit point");
    assert!(contained(&single, &c));

    assert!(fit(&[]).is_err());
    assert!(fit(&[Point3::new(f64::NAN, 0.0, 0.0)]).is_err());
}

#[test]
fn contains_random_clouds() {
    let mut rng = rand::rngs::StdRng::seed_from_u64(7);
    for _ in 0..20 {
        let pts: Vec<_> = (0..200)
            .map(|_| {
                Point3::new(
                    rng.gen_range(-1.0..1.0),
                    rng.gen_range(-0.2..0.2) + 2.0 * rng.gen_range(-1.0..1.0f64).powi(3),
                    rng.gen_range(-0.5..0.5),
                )
            })
            .collect();
        let c = fit(&pts).expect("fit");
        assert!(contained(&pts, &c));
    }
}

#[test]
fn bad_clouds_are_refused_with_a_reason() {
    assert_eq!(fit(&[]).err().expect("no points"), "cannot fit a capsule to zero points");
    for bad in [f64::NAN, f64::INFINITY, f64::NEG_INFINITY] {
        for k in 0..3 {
            let mut p = Point3::new(0.0, 1.0, 2.0);
            p[k] = bad;
            let e = fit(&[Point3::origin(), p]).err().expect("not finite");
            assert_eq!(e, "cannot fit a capsule to non-finite points");
        }
    }
}

/// The same construction on the machine's doubles.
fn machine_fit(points: &[Point3<f64>]) -> (Point3<f64>, Point3<f64>, f64) {
    let n = points.len() as f64;
    let center = points.iter().fold(Vector3::zeros(), |acc, p| acc + p.coords) / n;
    let cov = points.iter().fold(Matrix3::zeros(), |acc, p| {
        let x = p.coords - center;
        acc + x * x.transpose()
    }) / n;
    let e = cov.symmetric_eigen();
    let mut top = 0;
    for j in 1..3 {
        if e.eigenvalues[j].total_cmp(&e.eigenvalues[top]).is_ge() {
            top = j;
        }
    }
    let axis = e.eigenvectors.column(top).into_owned().normalize();
    let (mut low, mut high, mut girth) = (f64::INFINITY, f64::NEG_INFINITY, 0.0f64);
    for p in points {
        let x = p.coords - center;
        let t = x.dot(&axis);
        low = low.min(t);
        high = high.max(t);
        girth = girth.max((x - axis * t).norm());
    }
    let mid = (low + high) / 2.0;
    let reach = (high - low) / 2.0;
    let mut all = Vec::new();
    for part in [0.0, 0.25, 0.5, 0.75, 1.0] {
        let half = reach - girth.min(reach) * part;
        let a = Point3::from(center + axis * (mid - half));
        let b = Point3::from(center + axis * (mid + half));
        let radius = points.iter().map(|p| point_segment_distance(p, &a, &b)).fold(0.0, f64::max);
        all.push((a, b, radius));
    }
    let tight = all.iter().map(|c| c.2).fold(f64::INFINITY, f64::min);
    all.into_iter()
        .filter(|c| c.2 <= tight * 1.001 + 1e-9)
        .min_by(|x, y| (x.1 - x.0).norm().total_cmp(&(y.1 - y.0).norm()))
        .expect("some candidate ties")
}

#[test]
fn fits_equal_the_machine_bit_for_bit() {
    let clouds = vec![
        cylinder_cloud(Point3::new(0.1, -0.2, 0.3), Point3::new(1.4, 0.5, -0.1), 0.05),
        blob_cloud(),
        (0..10).map(|i| Point3::new(i as f64 * 0.1, 0.0, 0.0)).collect(),
        (0..50)
            .map(|i| {
                let t = i as f64 * 0.37;
                Point3::new(t.sin() * 0.3, (t * 1.7).cos() * 0.05, (t * 0.3).sin() - 0.2 * t)
            })
            .collect(),
    ];
    for cloud in clouds {
        let (a, b, radius) = machine_fit(&cloud);
        let c = fit(&cloud).expect("fit");
        for k in 0..3 {
            assert_eq!(c.a[k].to_bits(), a[k].to_bits());
            assert_eq!(c.b[k].to_bits(), b[k].to_bits());
        }
        assert_eq!(c.radius.to_bits(), radius.to_bits());
    }
}

#[test]
fn a_line_gets_a_thread() {
    // Two points: the covariance is exact, and so is everything after it.
    let c = fit(&[Point3::new(1.0, 0.0, 0.0), Point3::new(-1.0, 0.0, 0.0)]).expect("fit");
    assert_eq!(c.radius, 0.0);
    assert_eq!((c.b - c.a).norm(), 2.0);
}

#[test]
fn the_covariance_reaches_the_eigenvectors() {
    let cloud = [vector(1.0, 0.0, 0.0), vector(-1.0, 0.0, 0.0), vector(0.0, 3.0, 0.0), vector(0.0, -3.0, 0.0)];
    let axis = principal_axis(&cloud, &|m: Matrix| {
        assert_eq!(coords(m.first), Vector3::new(0.5, 0.0, 0.0));
        assert_eq!(coords(m.second), Vector3::new(0.0, 4.5, 0.0));
        assert_eq!(coords(m.third), Vector3::new(0.0, 0.0, 0.0));
        symmetric_eigen(m)
    });
    assert_eq!(coords(axis).map(f64::abs), Vector3::new(0.0, 1.0, 0.0));
}

#[test]
fn the_axis_is_the_last_of_the_largest_and_never_degenerate() {
    let vectors = Matrix { first: vector(2.0, 0.0, 0.0), second: vector(0.0, 4.0, 0.0), third: vector(0.0, 0.0, 8.0) };
    let axis = |x: f64, y: f64, z: f64| coords(axis_from(Eigen { values: vector(x, y, z), vectors }));
    assert_eq!(axis(3.0, 1.0, 2.0), Vector3::x());
    assert_eq!(axis(1.0, 3.0, 2.0), Vector3::y());
    assert_eq!(axis(1.0, 2.0, 3.0), Vector3::z());
    assert_eq!(axis(3.0, 3.0, 1.0), Vector3::y());
    assert_eq!(axis(3.0, 1.0, 3.0), Vector3::z());
    assert_eq!(axis(1.0, 1.0, 1.0), Vector3::z());

    // A vector whose squared length is below a millionth of a millionth gives
    // way to the third axis; one at it does not.
    let tiny = Matrix { first: vector(9.9e-7, 0.0, 0.0), second: vector(0.0, 1.0, 0.0), third: vector(0.0, 0.0, 1.0) };
    assert_eq!(coords(axis_from(Eigen { values: vector(1.0, 0.0, 0.0), vectors: tiny })), Vector3::z());
    let small = Matrix { first: vector(1.1e-6, 0.0, 0.0), ..tiny };
    assert_eq!(coords(axis_from(Eigen { values: vector(1.0, 0.0, 0.0), vectors: small })), Vector3::x());
}

#[test]
fn near_ties_go_to_the_shortest_segment() {
    let capsule = |length: f64, radius: f64| Capsule {
        a: vector(0.0, 0.0, 0.0),
        b: vector(length, 0.0, 0.0),
        radius: d(radius),
    };
    let kept = |list: Vec<Capsule>| f(pick(&list).b.x);
    // Within a thousandth the shorter one wins, beyond it the tighter one.
    assert_eq!(kept(vec![capsule(4.0, 1.0), capsule(3.0, 1.0009)]), 3.0);
    assert_eq!(kept(vec![capsule(4.0, 1.0), capsule(3.0, 1.0011)]), 4.0);
    // Of equally short ones the first is kept.
    let c = pick(&vec![capsule(2.0, 1.0), capsule(2.0, 1.0001), capsule(5.0, 1.0)]);
    assert_eq!(f(c.radius), 1.0);
    // A single candidate ties with itself, whatever its radius.
    for r in [0.0, 1e-320, 1e300, f64::INFINITY] {
        assert_eq!(f(pick(&vec![capsule(1.0, r)]).radius), r);
    }
}

#[test]
fn faces_lie_inside_and_capsule_distance_is_a_lower_bound() {
    let one = cylinder_cloud(Point3::new(0.1, -0.2, 0.3), Point3::new(1.4, 0.5, -0.1), 0.05);
    let two: Vec<_> = blob_cloud().iter().map(|p| p + Vector3::new(0.5, 2.0, 1.0)).collect();
    let (c, e) = (fit(&one).expect("fit"), fit(&two).expect("fit"));
    let face = |cloud: &[Point3<f64>], k: usize| {
        let n = cloud.len();
        let (p, q, r) = (cloud[k % n], cloud[(7 * k + 3) % n], cloud[(13 * k + 5) % n]);
        Point3::from((p.coords * 2.0 + q.coords * 3.0 + r.coords * 5.0) / 10.0)
    };
    // The axes, sampled: no nearer than the capsules' distance and radii.
    let mut axes = f64::INFINITY;
    for i in 0..=200 {
        let p = c.a + (c.b - c.a) * (i as f64 / 200.0);
        axes = axes.min(point_segment_distance(&p, &e.a, &e.b));
    }
    let lower = axes - c.radius - e.radius;
    for k in 0..300 {
        let (x, y) = (face(&one, k), face(&two, 11 * k));
        assert!(point_segment_distance(&x, &c.a, &c.b) <= c.radius + 1e-12);
        assert!(point_segment_distance(&y, &e.a, &e.b) <= e.radius + 1e-12);
        assert!((x - y).norm() >= lower - 1e-2);
    }
}

#[test]
fn the_axis_is_a_unit_vector_along_which_points_spread_most() {
    let clouds = [
        cylinder_cloud(Point3::new(0.1, -0.2, 0.3), Point3::new(1.4, 0.5, -0.1), 0.05),
        cylinder_cloud(Point3::new(3.0, 0.0, 0.0), Point3::new(3.0, 0.2, 0.1), 0.7),
        blob_cloud(),
    ];
    for cloud in clouds {
        let vectors: Vec<Vector> = cloud.iter().map(ours).collect();
        let axis = coords(principal_axis(&vectors, &symmetric_eigen));
        assert!((axis.norm() - 1.0).abs() < 1e-12);
        let center = cloud.iter().fold(Vector3::zeros(), |acc, p| acc + p.coords) / cloud.len() as f64;
        let spread = |d: Vector3<f64>| -> f64 { cloud.iter().map(|p| (p.coords - center).dot(&d).powi(2)).sum() };
        let best = spread(axis);
        for k in 0..500 {
            let t = k as f64 * 0.13;
            let other = Vector3::new(t.sin(), (1.7 * t).cos(), (0.6 * t).sin()).normalize();
            assert!(spread(other) <= best * (1.0 + 1e-9), "{} against {best}", spread(other));
        }
    }
}

#[test]
fn bounded_clouds_get_finite_capsules() {
    let turned = Eigen {
        values: vector(1.0, 2.0, 3.0),
        vectors: Matrix {
            first: vector(1.0, 0.0, 0.0),
            second: vector(0.0, 1.0, 0.0),
            third: vector(0.6, 0.0, 0.8),
        },
    };
    for size in [1e-300, 1.0, 1e200, 8e270] {
        let cloud = [vector(size, -size, size), vector(-size, size, 0.0), vector(0.0, size, -size)];
        let c = fit_capsule(&cloud, |_: Matrix| turned, |_: Vector, _: Vector, _: Vector| d(size)).expect("fit");
        assert!(c.a.finite() && c.b.finite());
        assert_eq!(f(c.radius), size);
    }
}
