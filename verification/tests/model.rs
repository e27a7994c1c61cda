//! Models of a small two-armed robot, and of made-up bodies.
use bimanual_collision::double::Double;
use bimanual_collision::error::ModelError;
use bimanual_collision::geometry::{Capsule, CapsuleDistance, Pose, Vector};
use bimanual_collision::model::{
    has_ranges, is_covered, Chain, DualArmCollisionModel, FittedBodies, Geometry, Side,
};
use bimanual_collision::pairs::{derive_pairs, Lineage, PairSpec};
use bimanual_collision::policy::{clamp_joints, derive_margin, JointVec, Limit, MarginPolicy, ARM_DOF};
use nalgebra::{Isometry3, Point3, Quaternion, Translation3, UnitQuaternion, Vector3};

fn d(x: f64) -> Double {
    Double { bits: x.to_bits() }
}

fn f(x: Double) -> f64 {
    f64::from_bits(x.bits)
}

fn joints(q: [f64; ARM_DOF]) -> JointVec {
    q.map(d)
}

fn vector(v: &Point3<f64>) -> Vector {
    Vector { x: d(v.x), y: d(v.y), z: d(v.z) }
}

fn point(v: Vector) -> Point3<f64> {
    Point3::new(f(v.x), f(v.y), f(v.z))
}

fn pose(m: &Isometry3<f64>) -> Pose {
    let (q, t) = (m.rotation, m.translation.vector);
    Pose {
        imaginary: Vector { x: d(q.i), y: d(q.j), z: d(q.k) },
        scalar: d(q.w),
        translation: Vector { x: d(t.x), y: d(t.y), z: d(t.z) },
    }
}

fn isometry(p: Pose) -> Isometry3<f64> {
    let i = p.imaginary;
    Isometry3::from_parts(
        Translation3::from(point(p.translation).coords),
        UnitQuaternion::new_unchecked(Quaternion::new(f(p.scalar), f(i.x), f(i.y), f(i.z))),
    )
}

fn transform(c: Capsule, p: Pose) -> Capsule {
    let m = isometry(p);
    Capsule { a: vector(&(m * point(c.a))), b: vector(&(m * point(c.b))), radius: c.radius }
}

/// The closest points of two segments.
fn closest_points(
    p: &Point3<f64>,
    q: &Point3<f64>,
    r: &Point3<f64>,
    s: &Point3<f64>,
) -> (Point3<f64>, Point3<f64>) {
    let (u, v, w) = (q - p, s - r, p - r);
    let (a, e, g) = (u.dot(&u), v.dot(&v), v.dot(&w));
    let (c, b) = (u.dot(&w), u.dot(&v));
    let den = a * e - b * b;
    let mut x = if den > 1e-12 { ((b * g - c * e) / den).clamp(0.0, 1.0) } else { 0.0 };
    let mut y = if e > 0.0 { (b * x + g) / e } else { 0.0 };
    if y < 0.0 {
        y = 0.0;
        x = if a > 0.0 { (-c / a).clamp(0.0, 1.0) } else { 0.0 };
    } else if y > 1.0 {
        y = 1.0;
        x = if a > 0.0 { ((b - c) / a).clamp(0.0, 1.0) } else { 0.0 };
    }
    (p + u * x, r + v * y)
}

fn distance(one: Capsule, two: Capsule) -> CapsuleDistance {
    let (x, y) = closest_points(&point(one.a), &point(one.b), &point(two.a), &point(two.b));
    let gap = y - x;
    let length = gap.norm();
    let (on_a, on_b) = if length > 1e-12 {
        let n = gap / length;
        (x + n * f(one.radius), y - n * f(two.radius))
    } else {
        (x, y)
    };
    CapsuleDistance {
        distance: d(length - f(one.radius) - f(two.radius)),
        on_a: vector(&on_a),
        on_b: vector(&on_b),
    }
}

/// Arms that hang from shoulders on both sides of a torso: three joints in the
/// shoulder, an elbow, three in the wrist.
fn poses(side: Side, q: JointVec) -> [Pose; ARM_DOF] {
    let q = q.map(f);
    let y = match side {
        Side::Left => 0.14,
        Side::Right => -0.14,
    };
    let turn = |axis: Vector3<f64>, angle: f64| {
        Isometry3::from_parts(Translation3::identity(), UnitQuaternion::new(axis * angle))
    };
    let one = Isometry3::translation(0.0, y, 0.0) * turn(Vector3::y(), q[0]);
    let two = one * turn(Vector3::x(), q[1]);
    let three = two * turn(Vector3::z(), q[2]);
    let four = three * Isometry3::translation(0.0, 0.0, -0.25) * turn(Vector3::y(), q[3]);
    let five = four * turn(Vector3::z(), q[4]);
    let six = five * turn(Vector3::x(), q[5]);
    let seven = six * turn(Vector3::y(), q[6]);
    [pose(&one), pose(&two), pose(&three), pose(&four), pose(&five), pose(&six), pose(&seven)]
}

fn geometry() -> Geometry<
    impl Fn(Side, JointVec) -> [Pose; ARM_DOF],
    impl Fn(Capsule, Pose) -> Capsule,
    impl Fn(Capsule, Capsule) -> CapsuleDistance,
> {
    Geometry { poses, transform, distance }
}

/// A capsule along the vertical axis of its frame.
fn rod(x: f64, y: f64, top: f64, bottom: f64, radius: f64) -> Capsule {
    Capsule {
        a: vector(&Point3::new(x, y, top)),
        b: vector(&Point3::new(x, y, bottom)),
        radius: d(radius),
    }
}

fn link_capsules(k: usize) -> Vec<Capsule> {
    match k {
        1 => vec![rod(0.0, 0.0, 0.0, -0.03, 0.03)],
        2 => vec![rod(0.0, 0.0, -0.05, -0.12, 0.03)],
        3 => vec![rod(0.0, 0.0, -0.14, -0.22, 0.03)],
        4 => vec![rod(0.0, 0.0, -0.02, -0.05, 0.03)],
        5 => vec![rod(0.0, 0.0, -0.07, -0.11, 0.03)],
        6 => vec![rod(0.0, 0.0, -0.13, -0.19, 0.03)],
        // Two fingers, then the hand.
        _ => vec![
            rod(0.02, 0.0, -0.30, -0.35, 0.012),
            rod(-0.02, 0.0, -0.30, -0.35, 0.012),
            rod(0.0, 0.0, -0.23, -0.30, 0.04),
        ],
    }
}

fn chain(side: &str) -> Chain {
    let names: Vec<String> = (1..=ARM_DOF).map(|k| format!("openarm_{side}_link{k}")).collect();
    Chain {
        names: names.try_into().expect("seven names"),
        limits: [Limit { lo: d(-3.0), hi: d(3.0) }; ARM_DOF],
    }
}

fn bodies() -> FittedBodies {
    let mut links = Vec::new();
    for side in ["left", "right"] {
        for k in 1..=ARM_DOF {
            links.push((format!("openarm_{side}_link{k}"), link_capsules(k)));
        }
    }
    FittedBodies {
        fixed: vec![
            ("openarm_body_link0".to_string(), vec![rod(0.0, 0.0, 0.0, -0.25, 0.08)]),
            ("openarm_left_link0".to_string(), vec![rod(0.0, 0.14, 0.05, 0.04, 0.02)]),
            ("openarm_right_link0".to_string(), vec![rod(0.0, -0.14, 0.05, 0.04, 0.02)]),
        ],
        links,
    }
}

const LEFT: &str = "openarm_left_link0";
const RIGHT: &str = "openarm_right_link0";

fn policy() -> MarginPolicy {
    MarginPolicy {
        headroom: d(0.04),
        references: vec![joints([0.0; ARM_DOF]), joints([0.0, 0.0, 0.0, 0.1, 0.0, 0.0, 0.0])],
    }
}

fn build(pairs: &[PairSpec]) -> Result<DualArmCollisionModel, ModelError> {
    DualArmCollisionModel::with_pairs(LEFT, RIGHT, chain("left"), chain("right"), bodies(), pairs)
}

fn derive(left: &str, right: &str, policy: &MarginPolicy) -> Result<DualArmCollisionModel, ModelError> {
    DualArmCollisionModel::new(left, right, chain("left"), chain("right"), bodies(), policy, &geometry())
}

fn pair(a: &str, b: &str) -> PairSpec {
    PairSpec::new(a.to_string(), b.to_string())
}

fn margins(m: &DualArmCollisionModel) -> Vec<(String, String, f64)> {
    m.pair_margins().iter().map(|(a, b, v)| (a.to_string(), b.to_string(), f(*v))).collect()
}

fn words(r: Result<DualArmCollisionModel, ModelError>) -> String {
    r.err().expect("expected an error").message("that")
}

#[test]
fn rejects_unknown_pairs_and_querying_with_no_pairs() {
    let bad = [pair("openarm_left_link1", "no_such_body")];
    assert!(words(build(&bad)).contains("unknown body"));

    let mut empty = build(&[]).ok().expect("bodies build without pairs");
    let home = joints([0.0; ARM_DOF]);
    assert!(empty.min_distance(&home, &home, &geometry()).is_err());
    let e = empty.in_collision(&home, &home, d(0.0), &geometry()).err().expect("no pairs");
    assert_eq!(e.message(""), "no pairs to check");
}

#[test]
fn margined_winner_reports_adjusted_distance_and_raw_witnesses() {
    let mut m = derive(LEFT, RIGHT, &policy()).ok().expect("model");
    let q = joints([0.0, 0.0, 0.0, 0.05, 0.0, 0.0, 0.0]);
    let margins = margins(&m);
    let p = m.min_distance(&q, &q, &geometry()).ok().expect("query");
    let margin = margins
        .iter()
        .find(|(a, b, _)| (a == p.link_a && b == p.link_b) || (a == p.link_b && b == p.link_a))
        .expect("winning pair is checked")
        .2;
    assert!(margin < 0.0, "rest winner should be a margined pair, got margin {margin}");
    let gap = (point(p.on_a) - point(p.on_b)).norm();
    // Witnesses are raw geometry: gap equals |raw| = |distance + margin|.
    assert!(
        (gap - (f(p.distance) + margin).abs()) < 1e-9,
        "gap {gap:.4} vs adjusted {:+.4} margin {margin:+.4}",
        f(p.distance),
    );
}

#[test]
fn multi_capsule_bodies_take_part_in_the_minimum() {
    // Wrists wrapped toward each other: the winning bodies carry several
    // capsules (hand + fingers), exercising the inner loops.
    let mut m = derive(LEFT, RIGHT, &policy()).ok().expect("model");
    let ql = joints([0.0, 0.0, 1.2, 0.4, 0.0, 0.0, 0.0]);
    let qr = joints([0.0, 0.0, -1.2, 0.4, 0.0, 0.0, 0.0]);
    let p = m.min_distance(&ql, &qr, &geometry()).ok().expect("query");
    assert!(p.link_a.contains("link7") && p.link_b.contains("link7"), "{} vs {}", p.link_a, p.link_b);
    assert!(f(p.distance) < 0.0);
}

#[test]
fn derived_pairs_skip_fixed_pairs_and_adjacency_and_margin_snug_bodies() {
    let mut m = derive(LEFT, RIGHT, &policy()).ok().expect("model");
    let margins = margins(&m);
    let has = |a: &str, b: &str| margins.iter().any(|(x, y, _)| (x == a && y == b) || (x == b && y == a));
    // Two fixed bodies never change distance.
    assert!(!has("openarm_left_link0", "openarm_right_link0"));
    assert!(!has("openarm_body_link0", "openarm_left_link0"));
    // Same-side pairs within two moving joints are joint-yoked noise.
    assert!(!has("openarm_left_link0", "openarm_left_link1"));
    assert!(!has("openarm_left_link3", "openarm_left_link4"));
    assert!(!has("openarm_left_link1", "openarm_left_link3"));
    assert!(!has("openarm_left_link0", "openarm_left_link2"));
    assert!(!has("openarm_body_link0", "openarm_left_link2"));
    // Beyond the horizon they are checked (the elbow fold, own mount).
    assert!(has("openarm_left_link1", "openarm_left_link7"));
    assert!(has("openarm_left_link0", "openarm_left_link4"));
    assert!(has("openarm_body_link0", "openarm_left_link3"));
    // Cross-arm pairs are checked; structurally snug ones carry margins.
    assert!(has("openarm_left_link7", "openarm_right_link7"));
    assert!(margins.iter().any(|(_, _, m)| *m < 0.0), "some pairs are margined");
    // The rest pose reads exactly the headroom.
    let home = joints([0.0, 0.0, 0.0, 0.05, 0.0, 0.0, 0.0]);
    let p = m.min_distance(&home, &home, &geometry()).ok().expect("query");
    assert!((f(p.distance) - 0.04).abs() < 1e-3, "home floor {:+.4}", f(p.distance));
}

fn assert_send<T: Send>() {}

#[test]
fn model_is_send_for_task_ownership() {
    assert_send::<DualArmCollisionModel>();
}

#[test]
fn rejects_identical_base_links() {
    let e = words(derive(LEFT, LEFT, &policy()));
    assert!(e.contains("two chains"), "{e}");
    assert_eq!(
        e,
        "left and right base links are both 'openarm_left_link0'; a bimanual model needs two chains"
    );
}

/// Approaching motion ramps to a stop across the band, separating motion
/// passes.
struct Band {
    d_stop: f64,
    d_safe: f64,
}

impl Band {
    fn new(d_stop: Double, d_safe: Double) -> Result<Band, String> {
        let (d_stop, d_safe) = (f(d_stop), f(d_safe));
        if d_stop.is_finite() && d_safe.is_finite() && d_stop < d_safe {
            Ok(Band { d_stop, d_safe })
        } else {
            Err(format!("bad band {d_stop}..{d_safe}"))
        }
    }

    fn scale(&self, before: f64, after: f64) -> f64 {
        if after >= before {
            1.0
        } else {
            ((after - self.d_stop) / (self.d_safe - self.d_stop)).clamp(0.0, 1.0)
        }
    }
}

#[test]
fn consistent_band_sits_inside_the_headroom() {
    let headroom = f(policy().headroom);
    let band = policy().consistent_band(Band::new).expect("valid band");
    assert!(band.d_safe < headroom);
    assert!(band.d_stop < band.d_safe);
    // Rest poses read the headroom and must pass at full speed.
    assert_eq!(band.scale(headroom, headroom - 1e-6), 1.0);
    assert_eq!(band.d_stop.to_bits(), (0.04f64 / 4.0).to_bits());
    assert_eq!(band.d_safe.to_bits(), (0.04f64 * 0.75).to_bits());
}

#[test]
fn a_band_can_be_refused() {
    let odd = MarginPolicy { headroom: d(f64::NAN), references: vec![] };
    assert_eq!(odd.consistent_band(Band::new).err().expect("refused"), "bad band NaN..NaN");
}

#[test]
fn rejects_bad_margin_policies() {
    let build = |policy: &MarginPolicy| derive(LEFT, RIGHT, policy);
    let rest = joints([0.0; ARM_DOF]);
    assert!(build(&MarginPolicy { headroom: d(0.0), references: vec![rest] }).is_err());
    assert!(build(&MarginPolicy { headroom: d(f64::NAN), references: vec![rest] }).is_err());
    assert!(build(&MarginPolicy { headroom: d(0.04), references: vec![] }).is_err());
    let mut bad = [0.0; ARM_DOF];
    bad[2] = f64::INFINITY;
    assert!(build(&MarginPolicy { headroom: d(0.04), references: vec![joints(bad)] }).is_err());
}

#[test]
fn world_capsules_rejects_non_finite_configurations() {
    let mut m = derive(LEFT, RIGHT, &policy()).ok().expect("model");
    let rest = joints([0.0; ARM_DOF]);
    let mut bad = [0.0; ARM_DOF];
    bad[0] = f64::NAN;
    assert!(m.world_capsules(&joints(bad), &rest, &geometry()).is_err());
    assert!(m.world_capsules(&rest, &rest, &geometry()).is_ok());
}

#[test]
fn bad_policies_are_refused_in_order() {
    let rest = joints([0.0; ARM_DOF]);
    let mut bad = rest;
    bad[6] = d(f64::NEG_INFINITY);
    let text = |headroom: f64, references: Vec<JointVec>| {
        // The policy is looked at before the bases.
        words(derive(LEFT, LEFT, &MarginPolicy { headroom: d(headroom), references }))
    };
    let headroom = "margin policy headroom must be finite and positive, got that";
    for h in [0.0, -0.0, -1.0, f64::INFINITY, f64::NAN] {
        assert_eq!(text(h, vec![]), headroom);
    }
    assert_eq!(text(1e-300, vec![]), "margin policy needs at least one reference pose");
    assert_eq!(text(0.04, vec![rest, bad]), "margin policy reference poses must be finite");
    assert!(text(0.04, vec![rest]).contains("two chains"));
}

#[test]
fn bad_pairs_are_refused_in_order() {
    let refused = |list: Vec<PairSpec>| words(build(&list));
    let mut wide = pair("openarm_left_link1", "openarm_right_link1");
    wide.margin = d(f64::INFINITY);
    let twice = pair("openarm_left_link1", "openarm_left_link1");
    assert_eq!(refused(vec![pair("x", "y")]), "pair references unknown body 'x'");
    assert_eq!(refused(vec![pair("openarm_left_link1", "y")]), "pair references unknown body 'y'");
    assert_eq!(refused(vec![twice.clone(), wide.clone()]), "pair 'openarm_left_link1' against itself");
    assert_eq!(
        refused(vec![pair("openarm_left_link1", "openarm_right_link7"), wide, twice]),
        "pair openarm_left_link1/openarm_right_link1 has non-finite margin"
    );
}

#[test]
fn repeated_names_are_refused() {
    let mut fitted = bodies();
    fitted.fixed.push(("openarm_right_link2".to_string(), vec![]));
    let r = DualArmCollisionModel::with_pairs(LEFT, RIGHT, chain("left"), chain("right"), fitted, &[]);
    assert_eq!(words(r), "duplicate body name 'openarm_right_link2'");
    let r = DualArmCollisionModel::with_pairs(LEFT, RIGHT, chain("left"), chain("left"), bodies(), &[]);
    assert_eq!(words(r), "duplicate body name 'openarm_left_link1'");
}

#[test]
fn bodies_come_fixed_first_then_left_then_right() {
    let m = build(&[]).ok().expect("model");
    let names = m.body_names();
    assert_eq!(names.len(), 17);
    assert_eq!(names[..3], ["openarm_body_link0", LEFT, RIGHT]);
    assert_eq!(names[3], "openarm_left_link1");
    assert_eq!(names[9], "openarm_left_link7");
    assert_eq!(names[10], "openarm_right_link1");
    assert_eq!(names[16], "openarm_right_link7");
    assert_eq!(m.local_capsules("openarm_right_link7").expect("a body"), link_capsules(7));
    assert_eq!(m.local_capsules("openarm_body_link0").expect("a body"), vec![rod(0.0, 0.0, 0.0, -0.25, 0.08)]);
    assert!(m.local_capsules("openarm_left_link8").is_none());
}

#[test]
fn derived_pairs_come_in_order_and_once() {
    let m = derive(LEFT, RIGHT, &policy()).ok().expect("model");
    let names = m.body_names();
    let at = |n: &str| names.iter().position(|x| *x == n).expect("a body");
    let pairs: Vec<(usize, usize)> = m.pair_margins().iter().map(|(a, b, _)| (at(a), at(b))).collect();
    assert!(pairs.windows(2).all(|w| w[0] < w[1]));
    assert!(pairs.iter().all(|(a, b)| a < b));
    // The torso against five links a side; a mount against five links of its
    // own chain and seven of the other; ten pairs within each chain; and every
    // link of one arm against every one of the other.
    assert_eq!(pairs.len(), 2 * 5 + 2 * (5 + 7) + 2 * 10 + 49);
}

#[test]
fn lineages_decide() {
    let torso = Lineage::Torso;
    let side = |s: u8, k: usize| Lineage::Side(s, k);
    assert!(!torso.is_checked(torso));
    assert!(!torso.is_checked(side(0, 0)));
    assert!(!side(1, 0).is_checked(torso));
    assert!(!torso.is_checked(side(0, 2)));
    assert!(torso.is_checked(side(0, 3)));
    assert!(side(1, 3).is_checked(torso));
    assert!(!side(0, 0).is_checked(side(1, 0)));
    assert!(side(0, 0).is_checked(side(1, 1)));
    assert!(side(0, 7).is_checked(side(1, 7)));
    assert!(!side(0, 4).is_checked(side(0, 6)));
    assert!(side(0, 7).is_checked(side(0, 4)));
    let list = vec![torso, side(0, 0), side(0, 3), side(1, 1)];
    assert_eq!(derive_pairs(&list), vec![(0, 2), (1, 2), (1, 3), (2, 3)]);
}

#[test]
fn references_read_the_headroom_and_untouched_pairs_keep_no_margin() {
    let mut m = derive(LEFT, RIGHT, &policy()).ok().expect("model");
    let g = geometry();
    for q in &policy().references {
        let p = m.min_distance(q, q, &g).ok().expect("query");
        assert!((f(p.distance) - 0.04).abs() < 1e-15, "reads {}", f(p.distance));
    }
    // Beside the torso hang upper arms at three centimetres.
    let snug = 0.14 - 0.08 - 0.03;
    for (a, b, margin) in margins(&m) {
        let touched = a == "openarm_body_link0" && (b.ends_with("link3") || b.ends_with("link4"));
        assert_eq!(margin < 0.0, touched, "{a} against {b}: {margin}");
        if b.ends_with("link3") && touched {
            assert!((margin - (snug - 0.04)).abs() < 1e-15);
        }
        if !touched {
            assert_eq!(margin.to_bits(), 0);
        }
    }
}

#[test]
fn margins_are_the_baseline_less_the_headroom() {
    let margin = |baseline: f64, headroom: f64| derive_margin(d(baseline), d(headroom)).bits;
    assert_eq!(margin(0.01, 0.04), (0.01f64 - 0.04).to_bits());
    assert_eq!(margin(-0.3, 0.04), (-0.3f64 - 0.04).to_bits());
    assert_eq!(margin(0.04, 0.04), 0);
    assert_eq!(margin(f64::INFINITY, 0.04), 0);
    // What rebasing gives back: the headroom, here exactly.
    let (b, h) = (0.03, 0.04);
    assert_eq!(d(b).sub(derive_margin(d(b), d(h))).bits, d(h).bits);
}

#[test]
fn references_are_clamped_into_each_arms_own_limits() {
    let mut left = [Limit { lo: d(-1.0), hi: d(1.0) }; ARM_DOF];
    left[2] = Limit { lo: d(-0.25), hi: d(2.0) };
    let q = joints([3.0, -3.0, -1.0, 0.5, -0.0, 1.0, -1.0]);
    let r = clamp_joints(&q, &left).map(f);
    assert_eq!(r, [1.0, -1.0, -0.25, 0.5, 0.0, 1.0, -1.0]);
    assert!(r[4].is_sign_negative());

    // An arm whose elbow cannot bend reads its references straight.
    let straight = Chain { limits: [Limit { lo: d(0.0), hi: d(0.0) }; ARM_DOF], ..chain("left") };
    let wild = MarginPolicy { headroom: d(0.04), references: vec![joints([0.3; ARM_DOF])] };
    let seen = std::sync::Mutex::new(Vec::new());
    let g = Geometry {
        poses: |s: Side, q: JointVec| {
            seen.lock().expect("unpoisoned").push((s, q.map(f)));
            poses(s, q)
        },
        transform,
        distance,
    };
    let m = DualArmCollisionModel::new(LEFT, RIGHT, straight, chain("right"), bodies(), &wild, &g);
    assert!(m.is_ok());
    let seen = seen.lock().expect("unpoisoned").clone();
    assert_eq!(seen, vec![(Side::Left, [0.0; ARM_DOF]), (Side::Right, [0.3; ARM_DOF])]);
}

#[test]
fn queries_do_not_depend_on_the_ones_before() {
    let g = geometry();
    let mut m = derive(LEFT, RIGHT, &policy()).ok().expect("model");
    let mut fresh = derive(LEFT, RIGHT, &policy()).ok().expect("model");
    let (a, b) = (joints([0.1, 0.2, 0.3, 0.4, 0.5, 0.6, 0.7]), joints([0.7, -0.2, 0.1, 0.9, 0.0, 0.3, -0.4]));
    let first = fresh.min_distance(&a, &b, &g).ok().expect("query");
    let first = (first.distance, first.link_a.to_string(), first.link_b.to_string(), first.on_a, first.on_b);
    m.min_distance(&b, &a, &g).ok().expect("query");
    m.world_capsules(&b, &b, &g).ok().expect("query");
    let again = m.min_distance(&a, &b, &g).ok().expect("query");
    assert_eq!(first, (again.distance, again.link_a.to_string(), again.link_b.to_string(), again.on_a, again.on_b));
}

#[test]
fn fixed_bodies_stay_and_links_follow_their_poses() {
    let g = geometry();
    let mut m = build(&[]).ok().expect("model");
    let (ql, qr) = (joints([0.3; ARM_DOF]), joints([-0.2; ARM_DOF]));
    let placed = m.world_capsules(&ql, &qr, &g).ok().expect("placed");
    assert_eq!(placed.len(), 17);
    for (k, (name, capsules)) in bodies().fixed.iter().enumerate() {
        assert_eq!((placed[k].0, &placed[k].1), (name.as_str(), capsules));
    }
    for (side, q, start) in [(Side::Left, ql, 3), (Side::Right, qr, 10)] {
        let p = poses(side, q);
        for k in 0..ARM_DOF {
            let expected: Vec<Capsule> = link_capsules(k + 1).iter().map(|c| transform(*c, p[k])).collect();
            assert_eq!(placed[start + k].1, expected);
        }
    }
}

#[test]
fn bad_joint_values_leave_the_model_alone() {
    let g = geometry();
    let mut m = derive(LEFT, RIGHT, &policy()).ok().expect("model");
    let rest = joints([0.0; ARM_DOF]);
    for k in 0..ARM_DOF {
        let mut bad = rest;
        bad[k] = d(f64::INFINITY);
        for (l, r) in [(bad, rest), (rest, bad)] {
            let e = m.min_distance(&l, &r, &g).err().expect("refused");
            assert_eq!(e.message(""), "non-finite joint configuration");
            assert!(m.in_collision(&l, &r, d(0.0), &g).is_err());
        }
    }
    assert!(m.min_distance(&rest, &rest, &g).is_ok());
}

#[test]
fn collision_is_a_threshold_on_the_minimum() {
    let g = geometry();
    let mut m = derive(LEFT, RIGHT, &policy()).ok().expect("model");
    let q = joints([0.0, 0.0, 0.0, 0.05, 0.0, 0.0, 0.0]);
    let least = m.min_distance(&q, &q, &g).ok().expect("query").distance;
    let below = f64::from_bits(least.bits - 1);
    assert_eq!(m.in_collision(&q, &q, least, &g).ok(), Some(true));
    assert_eq!(m.in_collision(&q, &q, d(below), &g).ok(), Some(false));
    assert_eq!(m.in_collision(&q, &q, d(f64::INFINITY), &g).ok(), Some(true));
    assert_eq!(m.in_collision(&q, &q, d(f64::NAN), &g).ok(), Some(false));
}

/// Bodies whose capsules carry numbers in place of radii, measured by looking
/// the two numbers up.
fn numbered(count: usize) -> FittedBodies {
    let mut fitted = bodies();
    for (_, capsules) in fitted.links.iter_mut() {
        *capsules = (0..count).map(|k| rod(0.0, 0.0, 0.0, 0.0, k as f64)).collect();
    }
    fitted
}

fn scanned(table: &[[f64; 2]; 2], margin: f64) -> (f64, f64) {
    let mut spec = pair("openarm_left_link1", "openarm_right_link1");
    spec.margin = d(margin);
    let mut m = DualArmCollisionModel::with_pairs(LEFT, RIGHT, chain("left"), chain("right"), numbered(2), &[spec])
        .ok()
        .expect("model");
    let g = Geometry {
        poses,
        transform,
        distance: |a: Capsule, b: Capsule| {
            let (i, j) = (f(a.radius) as usize, f(b.radius) as usize);
            let mark = Vector { x: d((2 * i + j) as f64), y: d(0.0), z: d(0.0) };
            CapsuleDistance { distance: d(table[i][j]), on_a: mark, on_b: mark }
        },
    };
    let rest = joints([0.0; ARM_DOF]);
    let p = m.min_distance(&rest, &rest, &g).ok().expect("query");
    assert_eq!((p.link_a, p.link_b), ("openarm_left_link1", "openarm_right_link1"));
    (f(p.distance), f(p.on_a.x))
}

#[test]
fn the_first_strictly_closer_measurement_is_kept() {
    assert_eq!(scanned(&[[4.0, 3.0], [2.0, 1.0]], 0.0), (1.0, 3.0));
    assert_eq!(scanned(&[[4.0, 1.0], [1.0, 1.0]], 0.0), (1.0, 1.0));
    assert_eq!(scanned(&[[1.0, 2.0], [3.0, 0.5]], -0.25), (0.75, 3.0));
    assert_eq!(scanned(&[[1.0, 2.0], [-3.0, 0.5]], 0.5), (-3.5, 2.0));
    // What is no number is passed over, unless it comes first.
    assert_eq!(scanned(&[[4.0, f64::NAN], [2.0, f64::NAN]], 0.0), (2.0, 2.0));
    let (first, mark) = scanned(&[[f64::NAN, 1.0], [1.0, 1.0]], 0.0);
    assert!(first.is_nan());
    assert_eq!(mark, 0.0);
}

#[test]
fn bodies_without_capsules_leave_nothing_to_check() {
    let list = [pair("openarm_left_link1", "openarm_right_link1")];
    let mut m = DualArmCollisionModel::with_pairs(LEFT, RIGHT, chain("left"), chain("right"), numbered(0), &list)
        .ok()
        .expect("model");
    let rest = joints([0.0; ARM_DOF]);
    let e = m.min_distance(&rest, &rest, &geometry()).err().expect("nothing to check");
    assert_eq!(e.message(""), "no pairs to check");
}

#[test]
fn infinitely_deep_references_are_refused() {
    let g = Geometry {
        poses,
        transform,
        distance: |a: Capsule, _: Capsule| CapsuleDistance { distance: d(f64::NEG_INFINITY), on_a: a.a, on_b: a.b },
    };
    let r = DualArmCollisionModel::new(LEFT, RIGHT, chain("left"), chain("right"), bodies(), &policy(), &g);
    assert_eq!(words(r), "pair openarm_body_link0/openarm_left_link3 has non-finite margin");
}

#[test]
fn deep_margins_swallow_the_headroom() {
    // Far below the surface the doubles lie farther apart than the headroom.
    let (deep, headroom) = (d(-1e20), d(0.04));
    let margin = derive_margin(deep, headroom);
    assert_eq!(f(margin), -1e20);
    assert_eq!(f(deep.sub(margin)), 0.0);
}

#[test]
fn copies_hold_the_same() {
    let p = policy();
    let q = p.clone();
    assert_eq!(p.headroom, q.headroom);
    assert_eq!(p.references, q.references);
    let mut s = pair("a", "b");
    s.margin = d(-0.5);
    let t = s.clone();
    assert_eq!((s.a, s.b, s.margin), (t.a, t.b, t.margin));
}

#[test]
fn references_read_clear_of_the_band_for_all_the_rounding() {
    for headroom in [0.04, 0.1, 1.0 / 3.0, 7.5] {
        let policy = MarginPolicy { headroom: d(headroom), references: vec![] };
        let band = policy.consistent_band(Band::new).expect("valid band");
        for k in 0..2000 {
            let baseline = headroom - 0.001 * k as f64 * 1.000000321;
            let margin = derive_margin(d(baseline), d(headroom));
            assert!(f(margin) <= 0.0);
            assert_eq!(f(margin) < 0.0, baseline < headroom);
            // The closest reference, and one a little farther off.
            for distance in [baseline, baseline + 1e-4] {
                let reading = f(d(distance).sub(margin));
                let gap = f64::from_bits(margin.bits + 1) - f(margin);
                assert!(reading >= headroom - gap.abs(), "{reading} short of {headroom}");
                assert!(reading >= band.d_safe);
            }
        }
    }
}

#[test]
fn explicit_pairs_are_given_back() {
    let mut near = pair("openarm_left_link7", "openarm_right_link7");
    near.margin = d(-0.125);
    let list = [near, pair("openarm_right_link1", "openarm_body_link0")];
    let m = build(&list).ok().expect("model");
    let text = |s: &str| s.to_string();
    assert_eq!(
        margins(&m),
        vec![
            (text("openarm_left_link7"), text("openarm_right_link7"), -0.125),
            (text("openarm_right_link1"), text("openarm_body_link0"), 0.0),
        ]
    );
}

#[test]
fn missing_links_and_empty_ranges_matter_only_where_no_name_repeats() {
    let (l, r) = (chain("left"), chain("right"));
    assert!(is_covered(&bodies(), &l, &r));
    assert!(has_ranges(&bodies(), &l, &r));
    let mut bare = bodies();
    bare.links.remove(0);
    assert!(!is_covered(&bare, &l, &r));
    let mut twisted = chain("left");
    twisted.limits[3] = Limit { lo: d(1.0), hi: d(-1.0) };
    assert!(!has_ranges(&bodies(), &twisted, &r));
    twisted.limits[3] = Limit { lo: d(f64::NAN), hi: d(1.0) };
    assert!(!has_ranges(&bodies(), &twisted, &r));

    // A repeated name is reported before either is looked at.
    let mut twins = bodies();
    twins.links.clear();
    twins.fixed.push(("openarm_body_link0".to_string(), vec![]));
    assert!(is_covered(&twins, &twisted, &r));
    assert!(has_ranges(&twins, &twisted, &r));
    let m = DualArmCollisionModel::new(LEFT, RIGHT, twisted, r, twins, &policy(), &geometry());
    assert_eq!(words(m), "duplicate body name 'openarm_body_link0'");
    // A link that repeats a name comes after the lookup of its capsules.
    let mut late = bodies();
    late.links.retain(|(n, _)| !n.starts_with("openarm_right"));
    assert!(is_covered(&late, &l, &chain("left")));
    assert!(!is_covered(&late, &l, &chain("right")));
}

/// What a model reads at some joint values, and the two bodies.
fn reading(m: &mut DualArmCollisionModel, q: &JointVec, r: &JointVec) -> (f64, String, String) {
    let p = m.min_distance(q, r, &geometry()).ok().expect("query");
    (f(p.distance), p.link_a.to_string(), p.link_b.to_string())
}

#[test]
fn more_references_never_raise_a_margin() {
    let poses = [
        joints([0.0; ARM_DOF]),
        joints([0.0, 0.0, 0.0, 0.1, 0.0, 0.0, 0.0]),
        joints([0.0, 0.2, 0.9, 0.6, 0.0, 0.1, 0.0]),
    ];
    let derived = |list: Vec<JointVec>| {
        margins(&derive(LEFT, RIGHT, &MarginPolicy { headroom: d(0.04), references: list }).ok().expect("model"))
    };
    let few = derived(vec![poses[0]]);
    let many = derived(vec![poses[0], poses[1], poses[2]]);
    assert!(few.iter().zip(&many).all(|(x, y)| x.0 == y.0 && x.1 == y.1 && y.2 <= x.2));
    assert!(few.iter().zip(&many).any(|(x, y)| y.2 < x.2));
    // Neither order nor repeats matter.
    assert_eq!(many, derived(vec![poses[2], poses[0], poses[1], poses[0], poses[2]]));
}

#[test]
fn a_sole_snug_reference_reads_the_headroom() {
    let q = joints([0.1, 0.0, 0.2, 0.3, 0.0, 0.1, 0.0]);
    let sole = MarginPolicy { headroom: d(0.04), references: vec![q] };
    let mut m = derive(LEFT, RIGHT, &sole).ok().expect("model");
    assert!(margins(&m).iter().any(|x| x.2 < 0.0));
    assert!((reading(&mut m, &q, &q).0 - 0.04).abs() < 1e-15);
}

#[test]
fn joined_lists_read_the_lesser() {
    let one = vec![pair("openarm_left_link7", "openarm_right_link7"), pair("openarm_left_link1", "openarm_left_link5")];
    let two = vec![pair("openarm_body_link0", "openarm_left_link4")];
    let joined: Vec<PairSpec> = one.iter().chain(&two).cloned().collect();
    let turned: Vec<PairSpec> = two.iter().chain(&one).chain(&two).cloned().collect();
    for k in 0..20 {
        let q = joints([0.1 * k as f64, 0.0, 0.06 * k as f64, 0.4, 0.0, 0.0, 0.0]);
        let read = |list: &[PairSpec]| reading(&mut build(list).ok().expect("model"), &q, &q).0;
        assert_eq!(read(&joined), read(&one).min(read(&two)));
        assert_eq!(read(&joined), read(&turned));
    }
}

#[test]
fn the_first_of_equal_pairs_is_reported() {
    let list = [pair("openarm_right_link7", "openarm_left_link7"), pair("openarm_left_link7", "openarm_right_link7")];
    let rest = joints([0.0; ARM_DOF]);
    let (_, a, b) = reading(&mut build(&list).ok().expect("model"), &rest, &rest);
    assert_eq!((a.as_str(), b.as_str()), ("openarm_right_link7", "openarm_left_link7"));
}

#[test]
fn larger_margins_never_read_more() {
    let rest = joints([0.0; ARM_DOF]);
    let read = |margin: f64| {
        let mut spec = pair("openarm_left_link7", "openarm_right_link7");
        spec.margin = d(margin);
        reading(&mut build(&[spec]).ok().expect("model"), &rest, &rest).0
    };
    let list: Vec<f64> = [-1.0, -0.1, 0.0, 1e-18, 0.1, 5.0].map(read).to_vec();
    assert!(list.windows(2).all(|w| w[0] >= w[1]));
    // A single pair reads its raw distance less the margin.
    assert_eq!(list[4], list[2] - 0.1);
}

#[test]
fn one_arm_leaves_the_other_alone() {
    let g = geometry();
    let mut m = build(&[]).ok().expect("model");
    let (q, r, s) = (joints([0.2; ARM_DOF]), joints([-0.4; ARM_DOF]), joints([0.9; ARM_DOF]));
    let shown = |m: &mut DualArmCollisionModel, l: &JointVec, r: &JointVec| -> Vec<Vec<Capsule>> {
        m.world_capsules(l, r, &g).ok().expect("placed").into_iter().map(|x| x.1).collect()
    };
    let one = shown(&mut m, &q, &r);
    shown(&mut m, &s, &s);
    let two = shown(&mut m, &q, &s);
    assert_eq!(one[..10], two[..10]);
    assert_ne!(one[10..], two[10..]);
    let three = shown(&mut m, &s, &s);
    assert_eq!(two[..3], three[..3]);
    assert_ne!(two[3..10], three[3..10]);
    assert_eq!(two[10..], three[10..]);
}

#[test]
fn refused_queries_leave_no_trace() {
    let g = geometry();
    let mut m = derive(LEFT, RIGHT, &policy()).ok().expect("model");
    let before = margins(&m);
    let (q, bad) = (joints([0.3; ARM_DOF]), joints([f64::NAN; ARM_DOF]));
    let fresh = reading(&mut derive(LEFT, RIGHT, &policy()).ok().expect("model"), &q, &q);
    assert!(m.min_distance(&bad, &q, &g).is_err());
    assert!(m.world_capsules(&q, &bad, &g).is_err());
    m.in_collision(&joints([1.0; ARM_DOF]), &q, d(0.0), &g).ok().expect("query");
    assert_eq!(reading(&mut m, &q, &q), fresh);
    assert_eq!(margins(&m), before);
    assert_eq!(m.local_capsules("openarm_left_link7").expect("a body"), link_capsules(7));
}

#[test]
fn bands_stop_before_contact() {
    let band = |bits: u64| {
        let policy = MarginPolicy { headroom: Double { bits }, references: vec![] };
        policy.consistent_band(|stop, safe| Ok::<_, String>((stop.bits, safe.bits))).expect("thresholds")
    };
    // The smallest doubles of all: a quarter of two rounds to zero, one of
    // three does not.
    assert_eq!(band(2), (0, 2));
    assert_eq!(band(3), (1, 2));
    assert_eq!(band(4), (1, 3));
}
