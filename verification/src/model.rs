//! The runtime model: both arms' capsules placed by forward kinematics and
//! the minimum distance over the checked pairs.
//!
//! Built once from the fitted capsules of both chains; queried every tick with
//! the two joint configurations, reusing per-body buffers so a query costs
//! forward kinematics plus a few hundred capsule distances.
//!
//! The checked pairs are derived at construction: every body pair except those
//! that cannot inform (two fixed bodies never change distance) or that are
//! yoked by the joints between them. Pairs closer than the policy headroom at
//! a reference pose get that baseline as their zero point, so structural
//! closeness reads as headroom, not alarm.
//!
//! Forward kinematics, moving a capsule by a pose and measuring two capsules
//! are handed in as functions.
use vstd::prelude::*;

use crate::double::Double;
use crate::error::Fault;
use crate::error::ModelError;
use crate::geometry::Capsule;
use crate::geometry::CapsuleDistance;
use crate::geometry::Pose;
use crate::geometry::Vector;
use crate::pairs::Lineage;
use crate::pairs::NamedPair;
use crate::pairs::Pair;
use crate::pairs::PairSpec;
use crate::policy::JointVec;
use crate::policy::Limit;
use crate::policy::MarginPolicy;
use crate::policy::ARM_DOF;
use crate::scan::Closest;

verus! {

/// One of the two arms.
#[derive(Clone, Copy, Debug, PartialEq, Eq, Structural)]
pub enum Side {
    Left,
    Right,
}

/// How a body's capsules reach the world frame.
#[derive(Clone, Copy, Debug, PartialEq, Eq, Structural)]
pub enum Placement {
    /// Already in world frame (torso, mounts); placed once at construction.
    Fixed,
    /// A link of the left arm; placed by forward kinematics every query.
    Left(usize),
    /// A link of the right arm; placed by forward kinematics every query.
    Right(usize),
}

/// A rigid body of the robot.
struct Body {
    name: String,
    /// Link-local capsules (world for `Fixed`).
    local: Vec<Capsule>,
    placement: Placement,
}

/// A body of the robot, as the contracts see it.
pub struct BodyView {
    pub name: Seq<char>,
    pub local: Seq<Capsule>,
    pub placement: Placement,
}

impl Body {
    spec fn model(self) -> BodyView {
        BodyView { name: self.name@, local: self.local@, placement: self.placement }
    }
}

/// An arm: the names of its links, from the mount outward, and the ranges of
/// its joints.
#[derive(Debug)]
pub struct Chain {
    pub names: [String; ARM_DOF],
    pub limits: [Limit; ARM_DOF],
}

/// The capsules fitted to a robot's meshes: those of the fixed bodies, in the
/// root frame, and those of the links by name, in the link's own frame.
#[derive(Debug)]
pub struct FittedBodies {
    pub fixed: Vec<(String, Vec<Capsule>)>,
    pub links: Vec<(String, Vec<Capsule>)>,
}

/// What only the robot's geometry can compute: the poses of an arm's links in
/// the world at given joint values, a capsule moved by a pose, and two
/// capsules measured against each other.
pub struct Geometry<P, T, D> {
    pub poses: P,
    pub transform: T,
    pub distance: D,
}

/// The closest approach over all checked pairs at one configuration.
/// `distance` is the margin-adjusted surface distance of the winning pair;
/// zero or negative means that pair violates its margin (or interpenetrates).
/// The witness points are raw geometry: their gap equals `distance` plus the
/// winning pair's margin, so they coincide with `|distance|` only for
/// unmargined pairs, and when the capsule axes themselves intersect they
/// degenerate to the axis points (no outward direction exists).
#[derive(Clone, Copy, Debug)]
pub struct Proximity<'a> {
    pub distance: Double,
    pub link_a: &'a str,
    pub link_b: &'a str,
    /// Witness points on the two capsule surfaces, world frame.
    pub on_a: Vector,
    pub on_b: Vector,
}

/// The capsule model of a two-armed robot.
pub struct DualArmCollisionModel {
    left: [Limit; ARM_DOF],
    right: [Limit; ARM_DOF],
    bodies: Vec<Body>,
    pairs: Vec<Pair>,
    /// Per-body world capsules, reused across queries. Fixed bodies are
    /// filled at construction and never rewritten.
    world: Vec<Vec<Capsule>>,
}

/// A model, as the contracts see it.
pub struct ModelView {
    pub left: [Limit; ARM_DOF],
    pub right: [Limit; ARM_DOF],
    pub bodies: Seq<BodyView>,
    pub pairs: Seq<Pair>,
    pub world: Seq<Seq<Capsule>>,
}

impl View for DualArmCollisionModel {
    type V = ModelView;

    closed spec fn view(&self) -> ModelView {
        ModelView {
            left: self.left,
            right: self.right,
            bodies: self.bodies@.map_values(|b: Body| b.model()),
            pairs: self.pairs@,
            world: self.world@.map_values(|w: Vec<Capsule>| w@),
        }
    }
}

impl ModelView {
    /// The names of the bodies, in checking order.
    pub open spec fn names(self) -> Seq<Seq<char>> {
        self.bodies.map_values(|b: BodyView| b.name)
    }

    /// No two bodies share a name; every body has as many capsules in the
    /// world as of its own, a fixed one the same ones; and every pair is one
    /// of two different bodies with a finite margin.
    pub open spec fn wf(self) -> bool {
        &&& self.names().no_duplicates()
        &&& self.world.len() == self.bodies.len()
        &&& forall|k: int|
            0 <= k < self.bodies.len() ==> {
                let body = #[trigger] self.bodies[k];
                &&& self.world[k].len() == body.local.len()
                &&& match body.placement {
                    Placement::Fixed => self.world[k] == body.local,
                    Placement::Left(i) => i < ARM_DOF,
                    Placement::Right(i) => i < ARM_DOF,
                }
            }
        &&& forall|p: int|
            0 <= p < self.pairs.len() ==> {
                let pair = #[trigger] self.pairs[p];
                &&& pair.a < self.bodies.len()
                &&& pair.b < self.bodies.len()
                &&& pair.a != pair.b
                &&& pair.margin.is_finite()
            }
    }

    /// Whether no checked pair has a capsule on both sides.
    pub open spec fn nothing_to_check(self) -> bool {
        forall|p: int|
            0 <= p < self.pairs.len() ==> {
                let pair = #[trigger] self.pairs[p];
                ||| self.bodies[pair.a as int].local.len() == 0
                ||| self.bodies[pair.b as int].local.len() == 0
            }
    }
}

impl<
    P: Fn(Side, JointVec) -> [Pose; ARM_DOF],
    T: Fn(Capsule, Pose) -> Capsule,
    D: Fn(Capsule, Capsule) -> CapsuleDistance,
> Geometry<P, T, D> {
    /// Whether the functions can be called on everything.
    pub open spec fn ready(self) -> bool {
        &&& forall|s: Side, q: JointVec| call_requires(self.poses, (s, q))
        &&& forall|c: Capsule, pose: Pose| call_requires(self.transform, (c, pose))
        &&& forall|a: Capsule, b: Capsule| call_requires(self.distance, (a, b))
    }

    /// Whether every distance is a number.
    pub open spec fn measures_numbers(self) -> bool {
        forall|a: Capsule, b: Capsule, x: CapsuleDistance| #[trigger]
            call_ensures(self.distance, (a, b), x) ==> !x.distance.is_nan()
    }

    /// Whether the functions give one answer for each argument.
    pub open spec fn is_functional(self) -> bool {
        &&& forall|s: Side, q: JointVec, x: [Pose; ARM_DOF], y: [Pose; ARM_DOF]|
            #![trigger call_ensures(self.poses, (s, q), x), call_ensures(self.poses, (s, q), y)]
            call_ensures(self.poses, (s, q), x) && call_ensures(self.poses, (s, q), y) ==> x == y
        &&& forall|c: Capsule, pose: Pose, x: Capsule, y: Capsule|
            #![trigger call_ensures(self.transform, (c, pose), x), call_ensures(self.transform, (c, pose), y)]
            call_ensures(self.transform, (c, pose), x) && call_ensures(
                self.transform,
                (c, pose),
                y,
            ) ==> x == y
        &&& forall|a: Capsule, b: Capsule, x: CapsuleDistance, y: CapsuleDistance|
            #![trigger call_ensures(self.distance, (a, b), x), call_ensures(self.distance, (a, b), y)]
            call_ensures(self.distance, (a, b), x) && call_ensures(self.distance, (a, b), y) ==> x
                == y
    }
}

/// `world` holds what `transform` made of each capsule of `local`.
pub open spec fn moved<T: Fn(Capsule, Pose) -> Capsule>(
    transform: T,
    local: Seq<Capsule>,
    pose: Pose,
    world: Seq<Capsule>,
) -> bool {
    &&& world.len() == local.len()
    &&& forall|m: int|
        0 <= m < local.len() ==> call_ensures(transform, (local[m], pose), #[trigger] world[m])
}

/// The capsules of the moving bodies follow the poses of their links; nothing
/// else changes.
pub open spec fn placed_by<T: Fn(Capsule, Pose) -> Capsule>(
    transform: T,
    before: ModelView,
    after: ModelView,
    left: Seq<Pose>,
    right: Seq<Pose>,
) -> bool {
    &&& after.left == before.left
    &&& after.right == before.right
    &&& after.bodies == before.bodies
    &&& after.pairs == before.pairs
    &&& after.world.len() == before.world.len()
    &&& forall|k: int|
        0 <= k < before.bodies.len() ==> {
            let body = #[trigger] before.bodies[k];
            match body.placement {
                Placement::Fixed => after.world[k] == before.world[k],
                Placement::Left(i) => moved(transform, body.local, left[i as int], after.world[k]),
                Placement::Right(i) => moved(
                    transform,
                    body.local,
                    right[i as int],
                    after.world[k],
                ),
            }
        }
}

/// `left` and `right` are poses that the geometry gave for the joint values,
/// and the model was placed by them.
pub open spec fn posed<
    P: Fn(Side, JointVec) -> [Pose; ARM_DOF],
    T: Fn(Capsule, Pose) -> Capsule,
    D,
>(
    g: Geometry<P, T, D>,
    before: ModelView,
    after: ModelView,
    q_left: JointVec,
    q_right: JointVec,
    left: [Pose; ARM_DOF],
    right: [Pose; ARM_DOF],
) -> bool {
    &&& call_ensures(g.poses, (Side::Left, q_left), left)
    &&& call_ensures(g.poses, (Side::Right, q_right), right)
    &&& placed_by(g.transform, before, after, left@, right@)
}

/// The model was placed at the joint values.
pub open spec fn placed<
    P: Fn(Side, JointVec) -> [Pose; ARM_DOF],
    T: Fn(Capsule, Pose) -> Capsule,
    D,
>(
    g: Geometry<P, T, D>,
    before: ModelView,
    after: ModelView,
    q_left: JointVec,
    q_right: JointVec,
) -> bool {
    exists|left: [Pose; ARM_DOF], right: [Pose; ARM_DOF]|
        posed(g, before, after, q_left, q_right, left, right)
}

/// A list of names and capsules, as the contracts see it.
pub open spec fn listed(list: Seq<(String, Vec<Capsule>)>) -> Seq<(Seq<char>, Seq<Capsule>)> {
    list.map_values(|e: (String, Vec<Capsule>)| (e.0@, e.1@))
}

/// The names of a list of names and capsules.
pub open spec fn listed_names(list: Seq<(Seq<char>, Seq<Capsule>)>) -> Seq<Seq<char>> {
    list.map_values(|e: (Seq<char>, Seq<Capsule>)| e.0)
}

/// The names of an arm's links.
pub open spec fn link_names(chain: Chain) -> Seq<Seq<char>> {
    chain.names@.map_values(|n: String| n@)
}

/// The capsules listed under a name: the first entry's.
pub open spec fn capsules_of(
    list: Seq<(Seq<char>, Seq<Capsule>)>,
    name: Seq<char>,
) -> Seq<Capsule> {
    list[crate::pairs::position(listed_names(list), name)].1
}

/// The bodies of a robot: the fixed ones, then the links of the left arm, then
/// those of the right arm.
pub open spec fn assembled(fitted: FittedBodies, left: Chain, right: Chain) -> Seq<BodyView> {
    let fixed = listed(fitted.fixed@);
    let links = listed(fitted.links@);
    let n = fixed.len();
    Seq::new(
        n + 2 * ARM_DOF as nat,
        |k: int|
            if k < n {
                BodyView { name: fixed[k].0, local: fixed[k].1, placement: Placement::Fixed }
            } else if k < n + ARM_DOF {
                let name = link_names(left)[k - n];
                BodyView {
                    name,
                    local: capsules_of(links, name),
                    placement: Placement::Left((k - n) as usize),
                }
            } else {
                let name = link_names(right)[k - n - ARM_DOF];
                BodyView {
                    name,
                    local: capsules_of(links, name),
                    placement: Placement::Right((k - n - ARM_DOF) as usize),
                }
            },
    )
}

/// The first place that repeats an earlier name, or -1 where none does.
pub open spec fn first_repeat(names: Seq<Seq<char>>) -> int
    decreases names.len(),
{
    if names.len() == 0 {
        -1
    } else {
        let before = first_repeat(names.drop_last());
        if before >= 0 {
            before
        } else if crate::pairs::position(names.drop_last(), names.last()) >= 0 {
            names.len() - 1
        } else {
            -1
        }
    }
}

/// Whether the links have capsules, as far as they are looked up: up to the
/// first body that repeats a name.
pub open spec fn covers(fitted: FittedBodies, left: Chain, right: Chain) -> bool {
    covers_names(fitted, names_of(assembled(fitted, left, right)))
}

/// Whether the names after those of the fixed bodies have capsules, up to the
/// first that repeats one.
pub open spec fn covers_names(fitted: FittedBodies, names: Seq<Seq<char>>) -> bool {
    forall|k: int|
        fitted.fixed@.len() <= k < names.len() && first_repeat(names.take(k)) < 0 ==> listed_names(
            listed(fitted.links@),
        ).contains(#[trigger] names[k])
}

/// Whether the range of every joint holds something, unless a body repeats a
/// name.
pub open spec fn ranges_hold(fitted: FittedBodies, left: Chain, right: Chain) -> bool {
    first_repeat(names_of(assembled(fitted, left, right))) < 0 ==> {
        &&& crate::policy::limits_ordered(left.limits)
        &&& crate::policy::limits_ordered(right.limits)
    }
}

/// What stops a model from being built, if anything does: equal bases, then a
/// repeated name, then a bad pair.
pub open spec fn build_fault(
    left_base: Seq<char>,
    right_base: Seq<char>,
    names: Seq<Seq<char>>,
    list: Seq<NamedPair>,
) -> Option<Fault> {
    if left_base == right_base {
        Some(Fault::IdenticalBases(left_base))
    } else if first_repeat(names) >= 0 {
        Some(Fault::DuplicateBody(names[first_repeat(names)]))
    } else {
        match crate::pairs::resolved_all(names, list) {
            Err(e) => Some(e),
            Ok(_) => None,
        }
    }
}

/// The list of pairs, as the contracts see it.
pub open spec fn named(list: Seq<PairSpec>) -> Seq<NamedPair> {
    list.map_values(|p: PairSpec| p@)
}

/// Names do not repeat where there is no first repeat.
pub proof fn lemma_first_repeat(names: Seq<Seq<char>>)
    ensures
        first_repeat(names) < 0 <==> names.no_duplicates(),
        -1 <= first_repeat(names) < names.len(),
    decreases names.len(),
{
    if names.len() > 0 {
        let rest = names.drop_last();
        let last = names.last();
        lemma_first_repeat(rest);
        crate::pairs::lemma_position(rest, last);
        if first_repeat(names) < 0 {
            assert forall|i: int, j: int|
                0 <= i < names.len() && 0 <= j < names.len() && i != j implies names[i]
                != names[j] by {
                if i < rest.len() && j < rest.len() {
                    assert(rest[i] != rest[j]);
                } else if i < rest.len() {
                    assert(rest[i] != last);
                } else {
                    assert(rest[j] != last);
                }
            }
        } else if first_repeat(rest) >= 0 {
            if names.no_duplicates() {
                assert forall|i: int, j: int|
                    0 <= i < rest.len() && 0 <= j < rest.len() && i != j implies rest[i]
                    != rest[j] by {
                    assert(names[i] != names[j]);
                }
                assert(rest.no_duplicates());
            }
        } else {
            let k = crate::pairs::position(rest, last);
            assert(names[k] == names[names.len() - 1]);
        }
    }
}

/// The first repeat repeats an earlier name, and no name before it does.
pub proof fn lemma_repeated(names: Seq<Seq<char>>) -> (i: int)
    requires
        first_repeat(names) >= 0,
    ensures
        0 <= i < first_repeat(names) < names.len(),
        names[i] == names[first_repeat(names)],
        names.take(first_repeat(names)).no_duplicates(),
    decreases names.len(),
{
    let rest = names.drop_last();
    let j = first_repeat(names);
    lemma_first_repeat(rest);
    if first_repeat(rest) >= 0 {
        assert(rest.take(j) =~= names.take(j));
        lemma_repeated(rest)
    } else {
        assert(names.take(j) =~= rest);
        crate::pairs::lemma_position(rest, names.last());
        crate::pairs::position(rest, names.last())
    }
}

/// The prefix of a list repeats no later than the list.
proof fn lemma_first_repeat_prefix(names: Seq<Seq<char>>, n: int)
    requires
        0 <= n <= names.len(),
        first_repeat(names.take(n)) >= 0,
    ensures
        first_repeat(names) == first_repeat(names.take(n)),
    decreases names.len() - n,
{
    if n < names.len() {
        assert(names.take(n + 1).drop_last() =~= names.take(n));
        lemma_first_repeat_prefix(names, n + 1);
    } else {
        assert(names.take(n) =~= names);
    }
}

/// The first bad pair of a prefix is the first bad pair of the list.
proof fn lemma_resolved_prefix(names: Seq<Seq<char>>, list: Seq<NamedPair>, n: int)
    requires
        0 <= n <= list.len(),
        crate::pairs::resolved_all(names, list.take(n)) is Err,
    ensures
        crate::pairs::resolved_all(names, list) == crate::pairs::resolved_all(
            names,
            list.take(n),
        ),
    decreases list.len() - n,
{
    if n < list.len() {
        assert(list.take(n + 1).drop_last() =~= list.take(n));
        lemma_resolved_prefix(names, list, n + 1);
    } else {
        assert(list.take(n) =~= list);
    }
}

/// A copy of the capsules.
fn copied(capsules: &Vec<Capsule>) -> (r: Vec<Capsule>)
    ensures
        r@ == capsules@,
{
    let mut out: Vec<Capsule> = Vec::new();
    let mut i: usize = 0;
    while i < capsules.len()
        invariant
            i <= capsules@.len(),
            out@ =~= capsules@.take(i as int),
        decreases capsules.len() - i,
    {
        out.push(capsules[i]);
        i = i + 1;
    }
    out
}

/// The first entry under a name that the list holds.
fn find(list: &Vec<(String, Vec<Capsule>)>, name: &String) -> (r: usize)
    requires
        listed_names(listed(list@)).contains(name@),
    ensures
        r < list@.len(),
        r == crate::pairs::position(listed_names(listed(list@)), name@),
{
    let ghost names = listed_names(listed(list@));
    let ghost goal = crate::pairs::position(names, name@);
    proof {
        crate::pairs::lemma_position(names, name@);
        assert(names.len() == list@.len());
    }
    let mut i: usize = 0;
    while !(list[i].0 == *name)
        invariant
            names == listed_names(listed(list@)),
            names.len() == list@.len(),
            i <= goal < list@.len(),
            names[goal] == name@,
            forall|k: int| 0 <= k < names.len() && #[trigger] names[k] == name@ ==> goal <= k,
        decreases goal - i,
    {
        proof {
            assert(names[i as int] == list@[i as int].0@);
            assert(list@.len() == list.len());
        }
        i = i + 1;
    }
    proof {
        assert(names[i as int] == list@[i as int].0@);
    }
    i
}

/// A place that was found, or nothing for -1.
pub open spec fn at(i: int) -> Option<usize> {
    if i < 0 {
        None
    } else {
        Some(i as usize)
    }
}

impl DualArmCollisionModel {
    /// The place of a body.
    fn index_of(&self, name: &String) -> (r: Option<usize>)
        ensures
            r == at(crate::pairs::position(self@.names(), name@)),
            self@.names().len() <= usize::MAX,
            r matches Some(i) ==> i < self@.bodies.len(),
    {
        let ghost names = self@.names();
        proof {
            crate::pairs::lemma_position(names, name@);
        }
        let mut i: usize = 0;
        while i < self.bodies.len()
            invariant
                i <= self.bodies@.len(),
                names == self@.names(),
                names.len() == self.bodies@.len(),
                forall|k: int| 0 <= k < i ==> #[trigger] names[k] != name@,
                -1 <= crate::pairs::position(names, name@) < names.len(),
                crate::pairs::position(names, name@) >= 0 ==> names[crate::pairs::position(
                    names,
                    name@,
                )] == name@,
                forall|k: int|
                    0 <= k < names.len() && #[trigger] names[k] == name@ ==> 0
                        <= crate::pairs::position(names, name@) <= k,
            decreases self.bodies.len() - i,
        {
            proof {
                assert(names[i as int] == self.bodies@[i as int].name@);
            }
            if self.bodies[i].name == *name {
                return Some(i);
            }
            i = i + 1;
        }
        None
    }

    /// Resolves a pair by name.
    fn resolve(&self, p: &PairSpec) -> (r: Result<Pair, ModelError>)
        ensures
            match r {
                Ok(pair) => crate::pairs::resolved(self@.names(), p@) == Ok::<Pair, Fault>(pair),
                Err(e) => crate::pairs::resolved(self@.names(), p@) == Err::<Pair, Fault>(e@),
            },
    {
        let a: usize = match self.index_of(&p.a) {
            Some(a) => a,
            None => {
                return Err(ModelError::UnknownBody(p.a.clone()));
            },
        };
        let b: usize = match self.index_of(&p.b) {
            Some(b) => b,
            None => {
                return Err(ModelError::UnknownBody(p.b.clone()));
            },
        };
        proof {
            crate::pairs::lemma_position(self@.names(), p.a@);
            crate::pairs::lemma_position(self@.names(), p.b@);
        }
        if a == b {
            return Err(ModelError::SelfPair(p.a.clone()));
        }
        if !p.margin.finite() {
            return Err(ModelError::NonFiniteMargin(p.a.clone(), p.b.clone()));
        }
        Ok(Pair { a, b, margin: p.margin })
    }

    /// Replace the checked pair list (names resolved against the bodies).
    fn set_pairs(&mut self, pair_specs: &[PairSpec]) -> (r: Result<(), ModelError>)
        requires
            old(self)@.wf(),
        ensures
            final(self)@.wf(),
            match r {
                Ok(_) => {
                    &&& crate::pairs::resolved_all(old(self)@.names(), named(pair_specs@)) == Ok::<
                        Seq<Pair>,
                        Fault,
                    >(final(self)@.pairs)
                    &&& final(self)@ == (ModelView { pairs: final(self)@.pairs, ..old(self)@ })
                },
                Err(e) => {
                    &&& crate::pairs::resolved_all(old(self)@.names(), named(pair_specs@)) == Err::<
                        Seq<Pair>,
                        Fault,
                    >(e@)
                    &&& final(self)@ == old(self)@
                },
            },
    {
        let mut pairs: Vec<Pair> = Vec::new();
        let mut i: usize = 0;
        let ghost list = named(pair_specs@);
        let ghost names = self@.names();
        while i < pair_specs.len()
            invariant
                i <= pair_specs@.len(),
                list == named(pair_specs@),
                names == self@.names(),
                *self == *old(self),
                self@.wf(),
                crate::pairs::resolved_all(names, list.take(i as int)) == Ok::<Seq<Pair>, Fault>(
                    pairs@,
                ),
            decreases pair_specs.len() - i,
        {
            proof {
                assert(list.take(i + 1).drop_last() =~= list.take(i as int));
                assert(list.take(i + 1).last() == pair_specs@[i as int]@);
            }
            match self.resolve(&pair_specs[i]) {
                Ok(pair) => {
                    pairs.push(pair);
                },
                Err(e) => {
                    proof {
                        lemma_resolved_prefix(names, list, i + 1);
                    }
                    return Err(e);
                },
            }
            i = i + 1;
        }
        proof {
            assert(list.take(i as int) =~= list);
            assert(names.len() == self.bodies.len());
            crate::pairs::law_resolved_pairs_are_those_asked_for(names, list);
        }
        self.pairs = pairs;
        proof {
            assert(self@.names() =~= names);
        }
        Ok(())
    }
}

/// Refuses two chains that start at one base link.
pub fn check_bases(left_base: &str, right_base: &str) -> (r: Result<(), ModelError>)
    ensures
        match r {
            Ok(_) => left_base@ != right_base@,
            Err(e) => left_base@ == right_base@ && e@ == Fault::IdenticalBases(left_base@),
        },
{
    if left_base.to_owned() == right_base.to_owned() {
        Err(ModelError::IdenticalBases(left_base.to_owned()))
    } else {
        Ok(())
    }
}

/// The bodies gathered so far are the first of those to be assembled, and
/// each is placed where its own capsules are.
spec fn gathered(bodies: Seq<Body>, world: Seq<Vec<Capsule>>, goal: Seq<BodyView>) -> bool {
    &&& bodies.len() <= goal.len()
    &&& world.len() == bodies.len()
    &&& forall|k: int|
        0 <= k < bodies.len() ==> (#[trigger] bodies[k]).model() == goal[k] && world[k]@
            == goal[k].local
    &&& first_repeat(names_of(goal).take(bodies.len() as int)) < 0
}

/// The names of the bodies.
pub open spec fn names_of(bodies: Seq<BodyView>) -> Seq<Seq<char>> {
    bodies.map_values(|b: BodyView| b.name)
}

/// The names of the bodies of a robot, in checking order.
fn all_names(fitted: &FittedBodies, left: &Chain, right: &Chain) -> (r: Vec<String>)
    ensures
        views(r@) == names_of(assembled(*fitted, *left, *right)),
{
    let ghost goal = names_of(assembled(*fitted, *left, *right));
    let ghost n = fitted.fixed@.len() as int;
    let mut out: Vec<String> = Vec::new();
    let mut i: usize = 0;
    while i < fitted.fixed.len()
        invariant
            i <= fitted.fixed@.len(),
            n == fitted.fixed@.len(),
            goal == names_of(assembled(*fitted, *left, *right)),
            out@.len() == i,
            views(out@) == goal.take(i as int),
        decreases fitted.fixed.len() - i,
    {
        proof {
            assert(goal[i as int] == fitted.fixed@[i as int].0@);
        }
        add_name(&mut out, &fitted.fixed[i].0, Ghost(goal));
        i = i + 1;
    }
    i = 0;
    while i < ARM_DOF
        invariant
            i <= ARM_DOF,
            n == fitted.fixed@.len(),
            goal == names_of(assembled(*fitted, *left, *right)),
            out@.len() == n + i,
            views(out@) == goal.take(n + i),
        decreases ARM_DOF - i,
    {
        proof {
            assert(link_names(*left)[i as int] == left.names@[i as int]@);
        }
        add_name(&mut out, &left.names[i], Ghost(goal));
        i = i + 1;
    }
    i = 0;
    while i < ARM_DOF
        invariant
            i <= ARM_DOF,
            n == fitted.fixed@.len(),
            goal == names_of(assembled(*fitted, *left, *right)),
            out@.len() == n + ARM_DOF + i,
            views(out@) == goal.take(n + ARM_DOF + i),
        decreases ARM_DOF - i,
    {
        proof {
            assert(link_names(*right)[i as int] == right.names@[i as int]@);
        }
        add_name(&mut out, &right.names[i], Ghost(goal));
        i = i + 1;
    }
    proof {
        assert(goal.take(goal.len() as int) =~= goal);
    }
    out
}

/// Adds the next name of `goal`.
fn add_name(names: &mut Vec<String>, name: &String, Ghost(goal): Ghost<Seq<Seq<char>>>)
    requires
        old(names)@.len() < goal.len(),
        views(old(names)@) == goal.take(old(names)@.len() as int),
        name@ == goal[old(names)@.len() as int],
    ensures
        final(names)@.len() == old(names)@.len() + 1,
        views(final(names)@) == goal.take(final(names)@.len() as int),
{
    let ghost n = names@.len() as int;
    names.push(name.clone());
    proof {
        assert forall|k: int| 0 <= k < n + 1 implies #[trigger] views(names@)[k]
            == goal.take(n + 1)[k] by {
            if k < n {
                assert(views(old(names)@)[k] == goal.take(n)[k]);
            }
        }
        assert(views(names@) =~= goal.take(n + 1));
    }
}

/// Names, as the contracts see them.
spec fn views(names: Seq<String>) -> Seq<Seq<char>> {
    names.map_values(|n: String| n@)
}

/// Whether name `k` is one of those before it.
fn repeats(names: &Vec<String>, k: usize) -> (r: bool)
    requires
        k < names@.len(),
        first_repeat(views(names@).take(k as int)) < 0,
    ensures
        r == (first_repeat(views(names@).take(k + 1)) >= 0),
{
    let ghost all = views(names@);
    let ghost head = all.take(k as int);
    proof {
        assert(all.take(k + 1).drop_last() =~= head);
        crate::pairs::lemma_position(head, all[k as int]);
    }
    let mut i: usize = 0;
    while i < k
        invariant
            i <= k < names@.len(),
            all == views(names@),
            head == all.take(k as int),
            all.take(k + 1).drop_last() == head,
            first_repeat(head) < 0,
            forall|m: int| 0 <= m < i ==> #[trigger] head[m] != all[k as int],
            forall|m: int|
                0 <= m < head.len() && #[trigger] head[m] == all[k as int] ==> 0
                    <= crate::pairs::position(head, all[k as int]) <= m,
        decreases k - i,
    {
        proof {
            assert(head[i as int] == names@[i as int]@);
        }
        if names[i] == names[k] {
            return true;
        }
        i = i + 1;
    }
    false
}

/// Whether the links have capsules, as far as building a model looks them up.
pub fn is_covered(fitted: &FittedBodies, left: &Chain, right: &Chain) -> (r: bool)
    ensures
        r == covers(*fitted, *left, *right),
{
    let names: Vec<String> = all_names(fitted, left, right);
    let ghost all = views(names@);
    let mut k: usize = 0;
    while k < names.len()
        invariant
            k <= names@.len(),
            all == views(names@),
            all == names_of(assembled(*fitted, *left, *right)),
            first_repeat(all.take(k as int)) < 0,
            forall|m: int|
                fitted.fixed@.len() <= m < k ==> listed_names(listed(fitted.links@)).contains(
                    #[trigger] all[m],
                ),
        decreases names.len() - k,
    {
        if k >= fitted.fixed.len() && !is_listed(&fitted.links, &names[k]) {
            proof {
                assert(all[k as int] == names@[k as int]@);
            }
            return false;
        }
        proof {
            assert(all[k as int] == names@[k as int]@);
        }
        if repeats(&names, k) {
            proof {
                assert forall|m: int|
                    fitted.fixed@.len() <= m < all.len() && first_repeat(all.take(m))
                        < 0 implies listed_names(listed(fitted.links@)).contains(
                    #[trigger] all[m],
                ) by {
                    if m > k {
                        assert(all.take(m).take(k + 1) =~= all.take(k + 1));
                        lemma_first_repeat_prefix(all.take(m), k + 1);
                    }
                }
            }
            return true;
        }
        k = k + 1;
    }
    true
}

/// Whether a name is listed.
fn is_listed(list: &Vec<(String, Vec<Capsule>)>, name: &String) -> (r: bool)
    ensures
        r == listed_names(listed(list@)).contains(name@),
{
    let ghost names = listed_names(listed(list@));
    let mut i: usize = 0;
    while i < list.len()
        invariant
            i <= list@.len(),
            names == listed_names(listed(list@)),
            forall|k: int| 0 <= k < i ==> #[trigger] names[k] != name@,
        decreases list.len() - i,
    {
        proof {
            assert(names[i as int] == list@[i as int].0@);
        }
        if list[i].0 == *name {
            return true;
        }
        i = i + 1;
    }
    false
}

/// Whether the range of every joint holds something, as far as building a
/// model looks at them.
pub fn has_ranges(fitted: &FittedBodies, left: &Chain, right: &Chain) -> (r: bool)
    ensures
        r == ranges_hold(*fitted, *left, *right),
{
    let names: Vec<String> = all_names(fitted, left, right);
    let ghost all = views(names@);
    let mut k: usize = 0;
    while k < names.len()
        invariant
            k <= names@.len(),
            all == views(names@),
            all == names_of(assembled(*fitted, *left, *right)),
            first_repeat(all.take(k as int)) < 0,
        decreases names.len() - k,
    {
        if repeats(&names, k) {
            proof {
                lemma_first_repeat_prefix(all, k + 1);
            }
            return true;
        }
        k = k + 1;
    }
    proof {
        assert(all.take(k as int) =~= all);
    }
    crate::policy::ordered_limits(&left.limits) && crate::policy::ordered_limits(&right.limits)
}

/// Adds a body, unless one has its name already.
fn push_body(
    bodies: &mut Vec<Body>,
    world: &mut Vec<Vec<Capsule>>,
    body: Body,
    Ghost(goal): Ghost<Seq<BodyView>>,
) -> (r: Result<(), ModelError>)
    requires
        gathered(old(bodies)@, old(world)@, goal),
        old(bodies)@.len() < goal.len(),
        body.model() == goal[old(bodies)@.len() as int],
    ensures
        match r {
            Ok(_) => {
                &&& final(bodies)@.len() == old(bodies)@.len() + 1
                &&& gathered(final(bodies)@, final(world)@, goal)
            },
            Err(e) => {
                let repeat = first_repeat(names_of(goal));
                &&& repeat >= 0
                &&& e@ == Fault::DuplicateBody(names_of(goal)[repeat])
            },
        },
{
    let ghost n = bodies@.len() as int;
    let ghost names = names_of(goal);
    proof {
        assert(names.take(n + 1).drop_last() =~= names.take(n));
        assert(names.take(n + 1).last() == body.name@);
        crate::pairs::lemma_position(names.take(n), body.name@);
    }
    let mut i: usize = 0;
    while i < bodies.len()
        invariant
            i <= bodies@.len(),
            *bodies == *old(bodies),
            *world == *old(world),
            n == bodies@.len(),
            n < names.len(),
            names == names_of(goal),
            gathered(bodies@, world@, goal),
            forall|k: int| 0 <= k < i ==> #[trigger] names[k] != body.name@,
            names[n] == body.name@,
            names.take(n + 1).drop_last() == names.take(n),
            names.take(n + 1).last() == body.name@,
            forall|k: int|
                0 <= k < n && #[trigger] names.take(n)[k] == body.name@ ==> 0
                    <= crate::pairs::position(names.take(n), body.name@) <= k,
        decreases bodies.len() - i,
    {
        proof {
            assert(names[i as int] == bodies@[i as int].model().name);
        }
        if bodies[i].name == body.name {
            proof {
                assert(names.take(n)[i as int] == body.name@);
                lemma_first_repeat_prefix(names, n + 1);
            }
            return Err(ModelError::DuplicateBody(body.name));
        }
        i = i + 1;
    }
    proof {
        let k = crate::pairs::position(names.take(n), body.name@);
        if k >= 0 {
            assert(names[k] == body.name@);
        }
    }
    world.push(copied(&body.local));
    bodies.push(body);
    Ok(())
}

impl DualArmCollisionModel {
    /// A model that checks an explicit pair list with the margins given. An
    /// empty list builds the bodies with no checked pairs.
    ///
    /// The links of two different chains must have capsules (see [`is_covered`]).
    pub fn with_pairs(
        left_base: &str,
        right_base: &str,
        left: Chain,
        right: Chain,
        fitted: FittedBodies,
        pair_specs: &[PairSpec],
    ) -> (r: Result<Self, ModelError>)
        requires
            left_base@ != right_base@ ==> covers(fitted, left, right),
        ensures
            ({
                let bodies = assembled(fitted, left, right);
                let fault = build_fault(
                    left_base@,
                    right_base@,
                    names_of(bodies),
                    named(pair_specs@),
                );
                match r {
                    Ok(m) => {
                        &&& fault is None
                        &&& m@.wf()
                        &&& m@.left == left.limits
                        &&& m@.right == right.limits
                        &&& m@.bodies == bodies
                        &&& m@.world == bodies.map_values(|b: BodyView| b.local)
                        &&& crate::pairs::resolved_all(names_of(bodies), named(pair_specs@)) == Ok::<
                            Seq<Pair>,
                            Fault,
                        >(m@.pairs)
                    },
                    Err(e) => fault == Some(e@),
                }
            }),
    {
        match check_bases(left_base, right_base) {
            Ok(_) => {},
            Err(e) => {
                return Err(e);
            },
        }
        let ghost goal = assembled(fitted, left, right);
        let ghost n = fitted.fixed@.len() as int;
        let mut bodies: Vec<Body> = Vec::new();
        let mut world: Vec<Vec<Capsule>> = Vec::new();
        let mut i: usize = 0;
        while i < fitted.fixed.len()
            invariant
                i <= fitted.fixed@.len(),
                left_base@ != right_base@,
                goal == assembled(fitted, left, right),
                bodies@.len() == i,
                gathered(bodies@, world@, goal),
            decreases fitted.fixed.len() - i,
        {
            let body: Body = Body {
                name: fitted.fixed[i].0.clone(),
                local: copied(&fitted.fixed[i].1),
                placement: Placement::Fixed,
            };
            match push_body(&mut bodies, &mut world, body, Ghost(goal)) {
                Ok(_) => {},
                Err(e) => {
                    return Err(e);
                },
            }
            i = i + 1;
        }
        i = 0;
        while i < 2 * ARM_DOF
            invariant
                i <= 2 * ARM_DOF,
                left_base@ != right_base@,
                covers(fitted, left, right),
                n == fitted.fixed@.len(),
                goal == assembled(fitted, left, right),
                bodies@.len() == n + i,
                gathered(bodies@, world@, goal),
            decreases 2 * ARM_DOF - i,
        {
            let on_left: bool = i < ARM_DOF;
            let link: usize = if on_left {
                i
            } else {
                i - ARM_DOF
            };
            let name: String = if on_left {
                left.names[link].clone()
            } else {
                right.names[link].clone()
            };
            proof {
                if on_left {
                    assert(link_names(left)[link as int] == name@);
                } else {
                    assert(link_names(right)[link as int] == name@);
                }
                assert(names_of(goal)[n + i] == name@);
            }
            let found: usize = find(&fitted.links, &name);
            let body: Body = Body {
                name,
                local: copied(&fitted.links[found].1),
                placement: if on_left {
                    Placement::Left(link)
                } else {
                    Placement::Right(link)
                },
            };
            match push_body(&mut bodies, &mut world, body, Ghost(goal)) {
                Ok(_) => {},
                Err(e) => {
                    return Err(e);
                },
            }
            i = i + 1;
        }
        let mut model: DualArmCollisionModel = DualArmCollisionModel {
            left: left.limits,
            right: right.limits,
            bodies,
            pairs: Vec::new(),
            world,
        };
        proof {
            let names = names_of(goal);
            assert(names.take(goal.len() as int) =~= names);
            lemma_first_repeat(names);
            assert(model@.bodies =~= goal);
            assert(model@.world =~= goal.map_values(|b: BodyView| b.local));
        }
        match model.set_pairs(pair_specs) {
            Ok(_) => Ok(model),
            Err(e) => Err(e),
        }
    }
}

/// A query at finite joint values: the model was placed there, `table` holds
/// what the geometry measured, and `c` is the closest approach it shows.
pub open spec fn answered<
    P: Fn(Side, JointVec) -> [Pose; ARM_DOF],
    T: Fn(Capsule, Pose) -> Capsule,
    D: Fn(Capsule, Capsule) -> CapsuleDistance,
>(
    g: Geometry<P, T, D>,
    before: ModelView,
    after: ModelView,
    q_left: JointVec,
    q_right: JointVec,
    table: Seq<Seq<Seq<CapsuleDistance>>>,
    c: Closest,
) -> bool {
    &&& placed(g, before, after, q_left, q_right)
    &&& crate::scan::surveyed(g.distance, after.world, after.pairs, table)
    &&& crate::scan::scan(after.pairs, table) == Some(c)
}

/// A query gives the closest approach where the joint values are finite and
/// there is something to check.
pub open spec fn succeeds<
    P: Fn(Side, JointVec) -> [Pose; ARM_DOF],
    T: Fn(Capsule, Pose) -> Capsule,
    D: Fn(Capsule, Capsule) -> CapsuleDistance,
>(
    g: Geometry<P, T, D>,
    before: ModelView,
    after: ModelView,
    q_left: JointVec,
    q_right: JointVec,
    c: Closest,
) -> bool {
    &&& crate::policy::joints_finite(q_left)
    &&& crate::policy::joints_finite(q_right)
    &&& !before.nothing_to_check()
    &&& exists|table: Seq<Seq<Seq<CapsuleDistance>>>|
        answered(g, before, after, q_left, q_right, table, c)
}

/// A query is refused where a joint value is not finite, and the model stays
/// as it is; or where there is nothing to check.
pub open spec fn refused<
    P: Fn(Side, JointVec) -> [Pose; ARM_DOF],
    T: Fn(Capsule, Pose) -> Capsule,
    D: Fn(Capsule, Capsule) -> CapsuleDistance,
>(
    g: Geometry<P, T, D>,
    before: ModelView,
    after: ModelView,
    q_left: JointVec,
    q_right: JointVec,
    fault: Fault,
) -> bool {
    if crate::policy::joints_finite(q_left) && crate::policy::joints_finite(q_right) {
        &&& fault == Fault::NoPairs
        &&& before.nothing_to_check()
        &&& placed(g, before, after, q_left, q_right)
    } else {
        &&& fault == Fault::NonFiniteJoints
        &&& after == before
    }
}

/// Placing a model keeps it well formed.
pub proof fn lemma_placed_wf<T: Fn(Capsule, Pose) -> Capsule>(
    transform: T,
    before: ModelView,
    after: ModelView,
    left: Seq<Pose>,
    right: Seq<Pose>,
)
    requires
        before.wf(),
        placed_by(transform, before, after, left, right),
    ensures
        after.wf(),
{
    assert(after.names() =~= before.names());
    assert forall|k: int| 0 <= k < after.bodies.len() implies {
        let body = #[trigger] after.bodies[k];
        &&& after.world[k].len() == body.local.len()
        &&& match body.placement {
            Placement::Fixed => after.world[k] == body.local,
            Placement::Left(i) => i < ARM_DOF,
            Placement::Right(i) => i < ARM_DOF,
        }
    } by {
        assert(before.bodies[k] == after.bodies[k]);
    }
}

impl DualArmCollisionModel {
    /// Moves the capsules of body `k` by a pose.
    fn place_body<T: Fn(Capsule, Pose) -> Capsule>(
        &mut self,
        k: usize,
        pose: Pose,
        transform: &T,
    )
        requires
            forall|c: Capsule, pose: Pose| call_requires(*transform, (c, pose)),
            k < old(self)@.bodies.len(),
            old(self)@.world.len() == old(self)@.bodies.len(),
            old(self)@.world[k as int].len() == old(self)@.bodies[k as int].local.len(),
        ensures
            moved(
                *transform,
                old(self)@.bodies[k as int].local,
                pose,
                final(self)@.world[k as int],
            ),
            final(self)@ == (ModelView {
                world: old(self)@.world.update(k as int, final(self)@.world[k as int]),
                ..old(self)@
            }),
    {
        let mut m: usize = 0;
        while m < self.bodies[k].local.len()
            invariant
                forall|c: Capsule, pose: Pose| call_requires(*transform, (c, pose)),
                k < self.bodies@.len(),
                self.bodies == old(self).bodies,
                self.left == old(self).left,
                self.right == old(self).right,
                self.pairs == old(self).pairs,
                self.world@.len() == old(self).world@.len(),
                self.world@.len() == self.bodies@.len(),
                m <= self.bodies@[k as int].local@.len(),
                self.world@[k as int]@.len() == self.bodies@[k as int].local@.len(),
                forall|i: int|
                    0 <= i < self.world@.len() && i != k ==> #[trigger] self.world@[i]
                        == old(self).world@[i],
                forall|i: int|
                    0 <= i < m ==> call_ensures(
                        *transform,
                        (self.bodies@[k as int].local@[i], pose),
                        #[trigger] self.world@[k as int]@[i],
                    ),
            decreases self.bodies@[k as int].local@.len() - m,
        {
            let c: Capsule = transform(self.bodies[k].local[m], pose);
            self.world[k][m] = c;
            m = m + 1;
        }
        proof {
            assert(self@.world =~= old(self)@.world.update(k as int, self@.world[k as int]));
        }
    }

    /// Refresh the world-frame capsules of the moving bodies from the poses of
    /// their links.
    fn place<
        P: Fn(Side, JointVec) -> [Pose; ARM_DOF],
        T: Fn(Capsule, Pose) -> Capsule,
        D: Fn(Capsule, Capsule) -> CapsuleDistance,
    >(&mut self, q_left: &JointVec, q_right: &JointVec, g: &Geometry<P, T, D>)
        requires
            old(self)@.wf(),
            g.ready(),
        ensures
            final(self)@.wf(),
            placed(*g, old(self)@, final(self)@, *q_left, *q_right),
    {
        let left: [Pose; ARM_DOF] = (g.poses)(Side::Left, *q_left);
        let right: [Pose; ARM_DOF] = (g.poses)(Side::Right, *q_right);
        let ghost before = self@;
        let mut k: usize = 0;
        while k < self.bodies.len()
            invariant
                g.ready(),
                before.wf(),
                k <= self@.bodies.len(),
                self@.bodies.len() == self.bodies@.len(),
                self@.left == before.left,
                self@.right == before.right,
                self@.bodies == before.bodies,
                self@.pairs == before.pairs,
                self@.world.len() == before.world.len(),
                forall|i: int|
                    k <= i < before.bodies.len() ==> #[trigger] self@.world[i] == before.world[i],
                forall|i: int|
                    0 <= i < k ==> {
                        let body = #[trigger] before.bodies[i];
                        match body.placement {
                            Placement::Fixed => self@.world[i] == before.world[i],
                            Placement::Left(n) => moved(
                                g.transform,
                                body.local,
                                left@[n as int],
                                self@.world[i],
                            ),
                            Placement::Right(n) => moved(
                                g.transform,
                                body.local,
                                right@[n as int],
                                self@.world[i],
                            ),
                        }
                    },
            decreases self.bodies.len() - k,
        {
            proof {
                assert(before.bodies[k as int] == self.bodies@[k as int].model());
                assert(self@.world[k as int] == before.world[k as int]);
            }
            match self.bodies[k].placement {
                Placement::Fixed => {},
                Placement::Left(i) => {
                    self.place_body(k, left[i], &g.transform);
                },
                Placement::Right(i) => {
                    self.place_body(k, right[i], &g.transform);
                },
            }
            k = k + 1;
        }
        proof {
            assert(posed(*g, before, self@, *q_left, *q_right, left, right));
            lemma_placed_wf(g.transform, before, self@, left@, right@);
        }
    }

    /// The closest approach over the checked pairs, as the model stands.
    fn closest<
        P: Fn(Side, JointVec) -> [Pose; ARM_DOF],
        T: Fn(Capsule, Pose) -> Capsule,
        D: Fn(Capsule, Capsule) -> CapsuleDistance,
    >(&self, g: &Geometry<P, T, D>) -> (r: (
        Option<Closest>,
        Ghost<Seq<Seq<Seq<CapsuleDistance>>>>,
    ))
        requires
            self@.wf(),
            g.ready(),
        ensures
            crate::scan::surveyed(g.distance, self@.world, self@.pairs, r.1@),
            r.0 == crate::scan::scan(self@.pairs, r.1@),
    {
        let mut best: Option<Closest> = None;
        let ghost mut table: Seq<Seq<Seq<CapsuleDistance>>> = Seq::empty();
        let mut p: usize = 0;
        while p < self.pairs.len()
            invariant
                self@.wf(),
                g.ready(),
                p <= self.pairs@.len(),
                table.len() == p,
                crate::scan::surveyed(
                    g.distance,
                    self@.world,
                    self@.pairs.take(p as int),
                    table,
                ),
                best == crate::scan::scan(self@.pairs.take(p as int), table),
            decreases self.pairs.len() - p,
        {
            let pair: &Pair = &self.pairs[p];
            proof {
                assert(self@.pairs[p as int] == *pair);
                assert(self@.world[pair.a as int] == self.world@[pair.a as int]@);
                assert(self@.world[pair.b as int] == self.world@[pair.b as int]@);
            }
            let (found, Ghost(block)) = crate::scan::scan_pair(
                best,
                pair,
                &self.world[pair.a],
                &self.world[pair.b],
                &g.distance,
            );
            best = found;
            proof {
                let pairs = self@.pairs;
                assert(pairs.take(p + 1).drop_last() =~= pairs.take(p as int));
                assert(table.push(block).drop_last() =~= table);
                table = table.push(block);
            }
            p = p + 1;
        }
        proof {
            assert(self@.pairs.take(p as int) =~= self@.pairs);
        }
        (best, Ghost(table))
    }
}

/// A survey measured nothing exactly where there is nothing to check.
proof fn lemma_nothing_to_check<D: Fn(Capsule, Capsule) -> CapsuleDistance>(
    m: ModelView,
    distance: D,
    table: Seq<Seq<Seq<CapsuleDistance>>>,
)
    requires
        m.wf(),
        crate::scan::surveyed(distance, m.world, m.pairs, table),
    ensures
        crate::scan::scan(m.pairs, table) is None <==> m.nothing_to_check(),
{
    crate::scan::lemma_scan_none(m.pairs, table);
    assert forall|p: int| 0 <= p < m.pairs.len() implies {
        let pair = #[trigger] m.pairs[p];
        &&& table[p].len() == m.bodies[pair.a as int].local.len()
        &&& forall|i: int|
            0 <= i < table[p].len() ==> (#[trigger] table[p][i]).len()
                == m.bodies[pair.b as int].local.len()
    } by {
        let pair = m.pairs[p];
        let block = table[p];
        assert(m.bodies[pair.a as int].local.len() == m.world[pair.a as int].len());
        assert(m.bodies[pair.b as int].local.len() == m.world[pair.b as int].len());
        assert(crate::scan::gauged(
            distance,
            m.world[pair.a as int],
            m.world[pair.b as int],
            block,
        ));
    }
    if crate::scan::is_empty(table) {
        assert forall|p: int| 0 <= p < m.pairs.len() implies {
            let pair = #[trigger] m.pairs[p];
            ||| m.bodies[pair.a as int].local.len() == 0
            ||| m.bodies[pair.b as int].local.len() == 0
        } by {
            if table[p].len() > 0 {
                assert(table[p][0].len() == 0);
            }
        }
    }
    if m.nothing_to_check() {
        assert forall|p: int, i: int|
            0 <= p < table.len() && 0 <= i < table[p].len() implies (#[trigger] table[p][i]).len()
            == 0 by {
            assert(m.pairs[p] == m.pairs[p]);
        }
    }
}

impl DualArmCollisionModel {
    /// Minimum margin-adjusted distance over all checked pairs at the given
    /// configurations. Non-finite joint values are rejected so the caller
    /// fails safe rather than comparing against what is no number.
    pub fn min_distance<
        P: Fn(Side, JointVec) -> [Pose; ARM_DOF],
        T: Fn(Capsule, Pose) -> Capsule,
        D: Fn(Capsule, Capsule) -> CapsuleDistance,
    >(&mut self, q_left: &JointVec, q_right: &JointVec, g: &Geometry<P, T, D>) -> (r: Result<
        Proximity<'_>,
        ModelError,
    >)
        requires
            old(self)@.wf(),
            g.ready(),
        ensures
            final(self)@.wf(),
            match r {
                Ok(p) => exists|c: Closest|
                    {
                        &&& #[trigger] succeeds(
                            *g,
                            old(self)@,
                            final(self)@,
                            *q_left,
                            *q_right,
                            c,
                        )
                        &&& p.distance == c.distance
                        &&& p.link_a@ == old(self)@.names()[c.a as int]
                        &&& p.link_b@ == old(self)@.names()[c.b as int]
                        &&& p.on_a == c.on_a
                        &&& p.on_b == c.on_b
                    },
                Err(e) => refused(*g, old(self)@, final(self)@, *q_left, *q_right, e@),
            },
    {
        if !crate::policy::finite_joints(q_left) || !crate::policy::finite_joints(q_right) {
            return Err(ModelError::NonFiniteJoints);
        }
        let ghost before = self@;
        self.place(q_left, q_right, g);
        let (best, Ghost(table)) = self.closest(g);
        proof {
            lemma_nothing_to_check(self@, g.distance, table);
            assert(self@.nothing_to_check() == before.nothing_to_check());
            assert(self@.names() =~= before.names());
        }
        match best {
            None => Err(ModelError::NoPairs),
            Some(c) => {
                proof {
                    assert(answered(*g, before, self@, *q_left, *q_right, table, c));
                    assert(succeeds(*g, before, self@, *q_left, *q_right, c));
                    lemma_winner(self@, table, c);
                    assert(self@.names()[c.a as int] == self.bodies@[c.a as int].name@);
                    assert(self@.names()[c.b as int] == self.bodies@[c.b as int].name@);
                }
                Ok(
                    Proximity {
                        distance: c.distance,
                        link_a: self.bodies[c.a].name.as_str(),
                        link_b: self.bodies[c.b].name.as_str(),
                        on_a: c.on_a,
                        on_b: c.on_b,
                    },
                )
            },
        }
    }

    /// True if any checked pair is at or below `threshold` margin-adjusted
    /// distance.
    pub fn in_collision<
        P: Fn(Side, JointVec) -> [Pose; ARM_DOF],
        T: Fn(Capsule, Pose) -> Capsule,
        D: Fn(Capsule, Capsule) -> CapsuleDistance,
    >(
        &mut self,
        q_left: &JointVec,
        q_right: &JointVec,
        threshold: Double,
        g: &Geometry<P, T, D>,
    ) -> (r: Result<bool, ModelError>)
        requires
            old(self)@.wf(),
            g.ready(),
        ensures
            final(self)@.wf(),
            match r {
                Ok(hit) => exists|c: Closest| #[trigger]
                    succeeds(*g, old(self)@, final(self)@, *q_left, *q_right, c) && hit
                        == c.distance.at_most(threshold),
                Err(e) => refused(*g, old(self)@, final(self)@, *q_left, *q_right, e@),
            },
    {
        match self.min_distance(q_left, q_right, g) {
            Ok(p) => Ok(p.distance.le(threshold)),
            Err(e) => Err(e),
        }
    }

    /// World capsules of every body at the given configuration, paired with
    /// the body name (for visualization tools; runtime queries use
    /// [`min_distance`](Self::min_distance)).
    pub fn world_capsules<
        P: Fn(Side, JointVec) -> [Pose; ARM_DOF],
        T: Fn(Capsule, Pose) -> Capsule,
        D: Fn(Capsule, Capsule) -> CapsuleDistance,
    >(&mut self, q_left: &JointVec, q_right: &JointVec, g: &Geometry<P, T, D>) -> (r: Result<
        Vec<(&str, Vec<Capsule>)>,
        ModelError,
    >)
        requires
            old(self)@.wf(),
            g.ready(),
        ensures
            final(self)@.wf(),
            match r {
                Ok(list) => {
                    &&& crate::policy::joints_finite(*q_left)
                    &&& crate::policy::joints_finite(*q_right)
                    &&& placed(*g, old(self)@, final(self)@, *q_left, *q_right)
                    &&& list@.len() == old(self)@.bodies.len()
                    &&& forall|k: int|
                        0 <= k < list@.len() ==> {
                            &&& (#[trigger] list@[k]).0@ == old(self)@.names()[k]
                            &&& list@[k].1@ == final(self)@.world[k]
                        }
                },
                Err(e) => {
                    &&& !crate::policy::joints_finite(*q_left) || !crate::policy::joints_finite(
                        *q_right,
                    )
                    &&& e@ == Fault::NonFiniteJoints
                    &&& final(self)@ == old(self)@
                },
            },
    {
        if !crate::policy::finite_joints(q_left) || !crate::policy::finite_joints(q_right) {
            return Err(ModelError::NonFiniteJoints);
        }
        let ghost before = self@;
        self.place(q_left, q_right, g);
        let mut out: Vec<(&str, Vec<Capsule>)> = Vec::new();
        let mut k: usize = 0;
        while k < self.bodies.len()
            invariant
                self@.wf(),
                k <= self.bodies@.len(),
                out@.len() == k,
                forall|i: int|
                    0 <= i < k ==> {
                        &&& (#[trigger] out@[i]).0@ == self@.names()[i]
                        &&& out@[i].1@ == self@.world[i]
                    },
            decreases self.bodies.len() - k,
        {
            out.push((self.bodies[k].name.as_str(), copied(&self.world[k])));
            k = k + 1;
        }
        proof {
            assert(self@.names() =~= before.names());
        }
        Ok(out)
    }

    /// Link-local capsules of a body (fixed bodies are in the root frame),
    /// for diagnostics.
    pub fn local_capsules(&self, name: &str) -> (r: Option<Vec<Capsule>>)
        ensures
            match r {
                Some(capsules) => {
                    let k = crate::pairs::position(self@.names(), name@);
                    k >= 0 && capsules@ == self@.bodies[k].local
                },
                None => !self@.names().contains(name@),
            },
    {
        proof {
            crate::pairs::lemma_position(self@.names(), name@);
        }
        match self.index_of(&name.to_owned()) {
            Some(k) => Some(copied(&self.bodies[k].local)),
            None => None,
        }
    }

    /// The checked pairs and their margins, for diagnostics.
    pub fn pair_margins(&self) -> (r: Vec<(&str, &str, Double)>)
        requires
            self@.wf(),
        ensures
            r@.len() == self@.pairs.len(),
            forall|p: int|
                0 <= p < r@.len() ==> {
                    &&& (#[trigger] r@[p]).0@ == self@.names()[self@.pairs[p].a as int]
                    &&& r@[p].1@ == self@.names()[self@.pairs[p].b as int]
                    &&& r@[p].2 == self@.pairs[p].margin
                },
    {
        let mut out: Vec<(&str, &str, Double)> = Vec::new();
        let mut p: usize = 0;
        while p < self.pairs.len()
            invariant
                self@.wf(),
                p <= self.pairs@.len(),
                out@.len() == p,
                forall|i: int|
                    0 <= i < p ==> {
                        &&& (#[trigger] out@[i]).0@ == self@.names()[self@.pairs[i].a as int]
                        &&& out@[i].1@ == self@.names()[self@.pairs[i].b as int]
                        &&& out@[i].2 == self@.pairs[i].margin
                    },
            decreases self.pairs.len() - p,
        {
            proof {
                assert(self@.pairs[p as int] == self.pairs@[p as int]);
            }
            let pair: Pair = self.pairs[p];
            out.push(
                (
                    self.bodies[pair.a].name.as_str(),
                    self.bodies[pair.b].name.as_str(),
                    pair.margin,
                ),
            );
            p = p + 1;
        }
        out
    }

    /// Names of all bodies, in checking order (for diagnostics and tools).
    pub fn body_names(&self) -> (r: Vec<&str>)
        ensures
            r@.len() == self@.bodies.len(),
            forall|k: int| 0 <= k < r@.len() ==> (#[trigger] r@[k])@ == self@.names()[k],
    {
        let mut out: Vec<&str> = Vec::new();
        let mut k: usize = 0;
        while k < self.bodies.len()
            invariant
                k <= self.bodies@.len(),
                out@.len() == k,
                forall|i: int| 0 <= i < k ==> (#[trigger] out@[i])@ == self@.names()[i],
            decreases self.bodies.len() - k,
        {
            out.push(self.bodies[k].name.as_str());
            k = k + 1;
        }
        out
    }
}

/// The bodies of the closest approach are bodies of the model.
proof fn lemma_winner(m: ModelView, table: Seq<Seq<Seq<CapsuleDistance>>>, c: Closest)
    requires
        m.wf(),
        table.len() == m.pairs.len(),
        crate::scan::scan(m.pairs, table) == Some(c),
    ensures
        c.a < m.bodies.len(),
        c.b < m.bodies.len(),
{
    crate::scan::lemma_scan_bodies(m.pairs, table, m.bodies.len() as int);
}

/// The place of a body in the kinematic tree.
pub open spec fn lineage_of(
    body: BodyView,
    left_base: Seq<char>,
    right_base: Seq<char>,
) -> Lineage {
    match body.placement {
        Placement::Left(i) => Lineage::Side(0, (i + 1) as usize),
        Placement::Right(i) => Lineage::Side(1, (i + 1) as usize),
        Placement::Fixed => if body.name == left_base {
            Lineage::Side(0, 0)
        } else if body.name == right_base {
            Lineage::Side(1, 0)
        } else {
            Lineage::Torso
        },
    }
}

/// The places of all bodies in the kinematic tree.
pub open spec fn lineages(
    bodies: Seq<BodyView>,
    left_base: Seq<char>,
    right_base: Seq<char>,
) -> Seq<Lineage> {
    bodies.map_values(|b: BodyView| lineage_of(b, left_base, right_base))
}

/// The model was placed at a reference, clamped into each arm's own limits.
pub open spec fn visited<
    P: Fn(Side, JointVec) -> [Pose; ARM_DOF],
    T: Fn(Capsule, Pose) -> Capsule,
    D: Fn(Capsule, Capsule) -> CapsuleDistance,
>(g: Geometry<P, T, D>, before: ModelView, after: ModelView, q: JointVec) -> bool {
    exists|q_left: JointVec, q_right: JointVec|
        {
            &&& crate::policy::clamped_into(q, before.left, q_left)
            &&& crate::policy::clamped_into(q, before.right, q_right)
            &&& #[trigger] placed(g, before, after, q_left, q_right)
        }
}

/// The model went from reference to reference, and `base[r][s]` is the raw
/// distance of pair `s` that was measured at reference `r`.
pub open spec fn toured<
    P: Fn(Side, JointVec) -> [Pose; ARM_DOF],
    T: Fn(Capsule, Pose) -> Capsule,
    D: Fn(Capsule, Capsule) -> CapsuleDistance,
>(
    g: Geometry<P, T, D>,
    references: Seq<JointVec>,
    checked: Seq<(int, int)>,
    states: Seq<ModelView>,
    base: Seq<Seq<Double>>,
) -> bool {
    &&& states.len() == references.len() + 1
    &&& base.len() == references.len()
    &&& forall|r: int|
        0 <= r < references.len() ==> {
            &&& visited(g, states[r], states[r + 1], #[trigger] references[r])
            &&& base[r].len() == checked.len()
        }
    &&& forall|r: int, s: int|
        0 <= r < references.len() && 0 <= s < checked.len() ==> {
            let world = states[r + 1].world;
            crate::scan::raw_distance(
                g.distance,
                world[checked[s].0],
                world[checked[s].1],
                #[trigger] base[r][s],
            )
        }
}

/// The smallest distance of pair `s` at the references.
pub open spec fn baseline(base: Seq<Seq<Double>>, s: int) -> Double
    decreases base.len(),
{
    if base.len() <= 1 {
        base[0][s]
    } else {
        baseline(base.drop_last(), s).lesser(base.last()[s])
    }
}

/// The derived pairs with the margins that follow from the references.
pub open spec fn margined(
    names: Seq<Seq<char>>,
    checked: Seq<(int, int)>,
    base: Seq<Seq<Double>>,
    headroom: Double,
) -> Seq<NamedPair> {
    Seq::new(
        checked.len(),
        |s: int|
            NamedPair {
                a: names[checked[s].0],
                b: names[checked[s].1],
                margin: crate::policy::margin_of(baseline(base, s), headroom),
            },
    )
}

/// A model without pairs that stands as its bodies were assembled.
pub open spec fn unposed(fitted: FittedBodies, left: Chain, right: Chain) -> ModelView {
    let bodies = assembled(fitted, left, right);
    ModelView {
        left: left.limits,
        right: right.limits,
        bodies,
        pairs: Seq::empty(),
        world: bodies.map_values(|b: BodyView| b.local),
    }
}

/// The pairs that the structural rules pick.
pub open spec fn derived(
    bodies: Seq<BodyView>,
    left_base: Seq<char>,
    right_base: Seq<char>,
) -> Seq<(int, int)> {
    crate::pairs::checked(lineages(bodies, left_base, right_base), bodies.len() as int)
}

impl DualArmCollisionModel {
    /// The places of all bodies in the kinematic tree.
    fn lineage(&self, left_base: &String, right_base: &String) -> (r: Vec<Lineage>)
        requires
            self@.wf(),
        ensures
            r@ == lineages(self@.bodies, left_base@, right_base@),
    {
        let mut out: Vec<Lineage> = Vec::new();
        let mut k: usize = 0;
        while k < self.bodies.len()
            invariant
                self@.wf(),
                k <= self.bodies@.len(),
                out@ =~= lineages(self@.bodies, left_base@, right_base@).take(k as int),
            decreases self.bodies.len() - k,
        {
            proof {
                assert(self@.bodies[k as int] == self.bodies@[k as int].model());
            }
            let place: Lineage = match self.bodies[k].placement {
                Placement::Left(i) => Lineage::Side(0, i + 1),
                Placement::Right(i) => Lineage::Side(1, i + 1),
                Placement::Fixed => {
                    if self.bodies[k].name == *left_base {
                        Lineage::Side(0, 0)
                    } else if self.bodies[k].name == *right_base {
                        Lineage::Side(1, 0)
                    } else {
                        Lineage::Torso
                    }
                },
            };
            out.push(place);
            k = k + 1;
        }
        out
    }

    /// Raw (margin-free) minimum distance between two bodies, as the model
    /// stands.
    fn raw_pair_distance<
        P: Fn(Side, JointVec) -> [Pose; ARM_DOF],
        T: Fn(Capsule, Pose) -> Capsule,
        D: Fn(Capsule, Capsule) -> CapsuleDistance,
    >(&self, a: usize, b: usize, g: &Geometry<P, T, D>) -> (r: Double)
        requires
            self@.wf(),
            g.ready(),
            a < self@.bodies.len(),
            b < self@.bodies.len(),
        ensures
            crate::scan::raw_distance(
                g.distance,
                self@.world[a as int],
                self@.world[b as int],
                r,
            ),
    {
        crate::scan::measure_pair(&self.world[a], &self.world[b], &g.distance)
    }

    /// The raw distances of all derived pairs, as the model stands.
    fn raw_distances<
        P: Fn(Side, JointVec) -> [Pose; ARM_DOF],
        T: Fn(Capsule, Pose) -> Capsule,
        D: Fn(Capsule, Capsule) -> CapsuleDistance,
    >(&self, checked: &Vec<(usize, usize)>, g: &Geometry<P, T, D>) -> (r: Vec<Double>)
        requires
            self@.wf(),
            g.ready(),
            forall|s: int|
                0 <= s < checked@.len() ==> (#[trigger] checked@[s]).0 < self@.bodies.len()
                    && checked@[s].1 < self@.bodies.len(),
        ensures
            r@.len() == checked@.len(),
            forall|s: int|
                0 <= s < checked@.len() ==> crate::scan::raw_distance(
                    g.distance,
                    self@.world[checked@[s].0 as int],
                    self@.world[checked@[s].1 as int],
                    #[trigger] r@[s],
                ),
    {
        let mut out: Vec<Double> = Vec::new();
        let mut s: usize = 0;
        while s < checked.len()
            invariant
                self@.wf(),
                g.ready(),
                s <= checked@.len(),
                out@.len() == s,
                forall|i: int|
                    0 <= i < checked@.len() ==> (#[trigger] checked@[i]).0 < self@.bodies.len()
                        && checked@[i].1 < self@.bodies.len(),
                forall|i: int|
                    0 <= i < s ==> crate::scan::raw_distance(
                        g.distance,
                        self@.world[checked@[i].0 as int],
                        self@.world[checked@[i].1 as int],
                        #[trigger] out@[i],
                    ),
            decreases checked.len() - s,
        {
            let (a, b) = checked[s];
            let d: Double = self.raw_pair_distance(a, b, g);
            out.push(d);
            s = s + 1;
        }
        out
    }
}

/// The indices of derived pairs, as the contracts see them.
spec fn indices(checked: Seq<(usize, usize)>) -> Seq<(int, int)> {
    checked.map_values(|p: (usize, usize)| (p.0 as int, p.1 as int))
}

impl DualArmCollisionModel {
    /// Takes the model from reference to reference and keeps the smallest
    /// distance of each derived pair.
    fn tour<
        P: Fn(Side, JointVec) -> [Pose; ARM_DOF],
        T: Fn(Capsule, Pose) -> Capsule,
        D: Fn(Capsule, Capsule) -> CapsuleDistance,
    >(
        &mut self,
        references: &Vec<JointVec>,
        checked: &Vec<(usize, usize)>,
        g: &Geometry<P, T, D>,
    ) -> (r: (Vec<Double>, Ghost<Seq<ModelView>>, Ghost<Seq<Seq<Double>>>))
        requires
            old(self)@.wf(),
            g.ready(),
            references@.len() > 0,
            crate::policy::limits_ordered(old(self)@.left),
            crate::policy::limits_ordered(old(self)@.right),
            forall|s: int|
                0 <= s < checked@.len() ==> (#[trigger] checked@[s]).0 < old(self)@.bodies.len()
                    && checked@[s].1 < old(self)@.bodies.len(),
        ensures
            final(self)@.wf(),
            final(self)@.left == old(self)@.left,
            final(self)@.right == old(self)@.right,
            final(self)@.bodies == old(self)@.bodies,
            final(self)@.pairs == old(self)@.pairs,
            toured(*g, references@, indices(checked@), r.1@, r.2@),
            r.1@[0] == old(self)@,
            r.1@.last() == final(self)@,
            r.0@.len() == checked@.len(),
            forall|s: int| 0 <= s < checked@.len() ==> #[trigger] r.0@[s] == baseline(r.2@, s),
    {
        let ghost start = self@;
        let ghost pairs = indices(checked@);
        let ghost mut states: Seq<ModelView> = seq![self@];
        let ghost mut base: Seq<Seq<Double>> = Seq::empty();
        let mut lows: Vec<Double> = Vec::new();
        let mut r: usize = 0;
        while r < references.len()
            invariant
                g.ready(),
                self@.wf(),
                r <= references@.len(),
                pairs == indices(checked@),
                self@.left == start.left,
                self@.right == start.right,
                self@.bodies == start.bodies,
                self@.pairs == start.pairs,
                crate::policy::limits_ordered(start.left),
                crate::policy::limits_ordered(start.right),
                forall|s: int|
                    0 <= s < checked@.len() ==> (#[trigger] checked@[s]).0 < start.bodies.len()
                        && checked@[s].1 < start.bodies.len(),
                toured(*g, references@.take(r as int), pairs, states, base),
                states[0] == start,
                states.last() == self@,
                r > 0 ==> lows@.len() == checked@.len(),
                r > 0 ==> forall|s: int|
                    0 <= s < checked@.len() ==> #[trigger] lows@[s] == baseline(base, s),
            decreases references.len() - r,
        {
            let ghost before = self@;
            let q: &JointVec = &references[r];
            let q_left: JointVec = crate::policy::clamp_joints(q, &self.left);
            let q_right: JointVec = crate::policy::clamp_joints(q, &self.right);
            self.place(&q_left, &q_right, g);
            let row: Vec<Double> = self.raw_distances(checked, g);
            proof {
                assert(visited(*g, before, self@, references@[r as int]));
                lemma_tour_step(
                    *g,
                    references@,
                    r as int,
                    pairs,
                    states,
                    base,
                    self@,
                    row@,
                );
                assert(base.push(row@).drop_last() =~= base);
            }
            if r == 0 {
                lows = row;
            } else {
                let mut s: usize = 0;
                while s < checked.len()
                    invariant
                        s <= checked@.len(),
                        row@.len() == checked@.len(),
                        lows@.len() == checked@.len(),
                        base.len() > 0,
                        base.push(row@).drop_last() == base,
                        forall|i: int|
                            s <= i < checked@.len() ==> #[trigger] lows@[i] == baseline(base, i),
                        forall|i: int|
                            0 <= i < s ==> #[trigger] lows@[i] == baseline(base.push(row@), i),
                    decreases checked.len() - s,
                {
                    let low: Double = lows[s].min(row[s]);
                    lows.set(s, low);
                    s = s + 1;
                }
            }
            proof {
                states = states.push(self@);
                base = base.push(row@);
            }
            r = r + 1;
        }
        proof {
            assert(references@.take(r as int) =~= references@);
        }
        (lows, Ghost(states), Ghost(base))
    }
}

/// One more reference on the tour.
proof fn lemma_tour_step<
    P: Fn(Side, JointVec) -> [Pose; ARM_DOF],
    T: Fn(Capsule, Pose) -> Capsule,
    D: Fn(Capsule, Capsule) -> CapsuleDistance,
>(
    g: Geometry<P, T, D>,
    references: Seq<JointVec>,
    n: int,
    pairs: Seq<(int, int)>,
    states: Seq<ModelView>,
    base: Seq<Seq<Double>>,
    after: ModelView,
    row: Seq<Double>,
)
    requires
        0 <= n < references.len(),
        toured(g, references.take(n), pairs, states, base),
        visited(g, states.last(), after, references[n]),
        row.len() == pairs.len(),
        forall|s: int|
            0 <= s < pairs.len() ==> crate::scan::raw_distance(
                g.distance,
                after.world[pairs[s].0],
                after.world[pairs[s].1],
                #[trigger] row[s],
            ),
    ensures
        toured(g, references.take(n + 1), pairs, states.push(after), base.push(row)),
{
    let refs = references.take(n + 1);
    let head = references.take(n);
    let st = states.push(after);
    let ba = base.push(row);
    assert forall|r: int| 0 <= r < refs.len() implies {
        &&& visited(g, st[r], st[r + 1], #[trigger] refs[r])
        &&& ba[r].len() == pairs.len()
    } by {
        if r < n {
            assert(head[r] == refs[r]);
            assert(st[r] == states[r] && st[r + 1] == states[r + 1]);
        }
    }
    assert forall|r: int, s: int| 0 <= r < refs.len() && 0 <= s < pairs.len() implies {
        let world = st[r + 1].world;
        crate::scan::raw_distance(
            g.distance,
            world[pairs[s].0],
            world[pairs[s].1],
            #[trigger] ba[r][s],
        )
    } by {
        if r < n {
            assert(base[r][s] == ba[r][s]);
            assert(st[r + 1] == states[r + 1]);
        } else {
            assert(row[s] == ba[r][s]);
        }
    }
}

/// A model was built from the reference poses: it went through `states`, and
/// `base` holds the distances measured there.
pub open spec fn built_by<
    P: Fn(Side, JointVec) -> [Pose; ARM_DOF],
    T: Fn(Capsule, Pose) -> Capsule,
    D: Fn(Capsule, Capsule) -> CapsuleDistance,
>(
    g: Geometry<P, T, D>,
    start: ModelView,
    references: Seq<JointVec>,
    checked: Seq<(int, int)>,
    states: Seq<ModelView>,
    base: Seq<Seq<Double>>,
) -> bool {
    &&& toured(g, references, checked, states, base)
    &&& states[0] == start
}

/// What a tour of the references leads to: the model as it stands after the
/// last one, with the margined pairs.
pub open spec fn built<
    P: Fn(Side, JointVec) -> [Pose; ARM_DOF],
    T: Fn(Capsule, Pose) -> Capsule,
    D: Fn(Capsule, Capsule) -> CapsuleDistance,
>(
    g: Geometry<P, T, D>,
    start: ModelView,
    references: Seq<JointVec>,
    headroom: Double,
    checked: Seq<(int, int)>,
    m: ModelView,
) -> bool {
    exists|states: Seq<ModelView>, base: Seq<Seq<Double>>|
        {
            &&& #[trigger] built_by(g, start, references, checked, states, base)
            &&& m.left == start.left
            &&& m.right == start.right
            &&& m.bodies == start.bodies
            &&& m.world == states.last().world
            &&& paired(m.pairs, checked, base, headroom)
        }
}

/// The derived pairs by their indices, with the margins that follow from the
/// references.
pub open spec fn paired(
    pairs: Seq<Pair>,
    checked: Seq<(int, int)>,
    base: Seq<Seq<Double>>,
    headroom: Double,
) -> bool {
    &&& pairs.len() == checked.len()
    &&& forall|s: int|
        0 <= s < checked.len() ==> {
            &&& (#[trigger] pairs[s]).a == checked[s].0
            &&& pairs[s].b == checked[s].1
            &&& pairs[s].margin == crate::policy::margin_of(baseline(base, s), headroom)
        }
}

/// What a tour of the references fails with: the first derived pair whose
/// margin is not finite.
pub open spec fn unbuildable<
    P: Fn(Side, JointVec) -> [Pose; ARM_DOF],
    T: Fn(Capsule, Pose) -> Capsule,
    D: Fn(Capsule, Capsule) -> CapsuleDistance,
>(
    g: Geometry<P, T, D>,
    start: ModelView,
    references: Seq<JointVec>,
    headroom: Double,
    checked: Seq<(int, int)>,
    fault: Fault,
) -> bool {
    exists|states: Seq<ModelView>, base: Seq<Seq<Double>>, s: int|
        {
            &&& #[trigger] built_by(g, start, references, checked, states, base)
            &&& 0 <= s < checked.len()
            &&& #[trigger] unbounded(base, headroom, s)
            &&& forall|i: int| 0 <= i < s ==> !#[trigger] unbounded(base, headroom, i)
            &&& fault == Fault::NonFiniteMargin(
                start.names()[checked[s].0],
                start.names()[checked[s].1],
            )
        }
}

/// Whether the margin of derived pair `s` is not finite.
pub open spec fn unbounded(base: Seq<Seq<Double>>, headroom: Double, s: int) -> bool {
    !crate::policy::margin_of(baseline(base, s), headroom).is_finite()
}

/// Derived pairs resolve to the bodies they were derived from.
proof fn lemma_margined(
    names: Seq<Seq<char>>,
    checked: Seq<(int, int)>,
    base: Seq<Seq<Double>>,
    headroom: Double,
    n: int,
)
    requires
        names.no_duplicates(),
        names.len() <= usize::MAX,
        0 <= n <= checked.len(),
        forall|s: int|
            0 <= s < checked.len() ==> 0 <= (#[trigger] checked[s]).0 < checked[s].1
                < names.len(),
    ensures
        ({
            let list = margined(names, checked, base, headroom).take(n);
            match crate::pairs::resolved_all(names, list) {
                Ok(pairs) => {
                    &&& pairs.len() == n
                    &&& forall|s: int|
                        0 <= s < n ==> {
                            &&& (#[trigger] pairs[s]).a == checked[s].0
                            &&& pairs[s].b == checked[s].1
                            &&& pairs[s].margin == crate::policy::margin_of(
                                baseline(base, s),
                                headroom,
                            )
                            &&& !unbounded(base, headroom, s)
                        }
                },
                Err(fault) => exists|s: int|
                    {
                        &&& 0 <= s < n
                        &&& #[trigger] unbounded(base, headroom, s)
                        &&& forall|i: int| 0 <= i < s ==> !#[trigger] unbounded(base, headroom, i)
                        &&& fault == Fault::NonFiniteMargin(
                            names[checked[s].0],
                            names[checked[s].1],
                        )
                    },
            }
        }),
    decreases n,
{
    let all = margined(names, checked, base, headroom);
    if n > 0 {
        let list = all.take(n);
        assert(list.drop_last() =~= all.take(n - 1));
        lemma_margined(names, checked, base, headroom, n - 1);
        let p = list.last();
        let (a, b) = checked[n - 1];
        crate::pairs::lemma_position(names, p.a);
        crate::pairs::lemma_position(names, p.b);
        assert(names[a] == p.a && names[b] == p.b);
        assert(crate::pairs::position(names, p.a) == a);
        assert(crate::pairs::position(names, p.b) == b);
        let found = crate::pairs::resolved_all(names, all.take(n - 1));
        match found {
            Err(fault) => {
                let s = choose|s: int|
                    {
                        &&& 0 <= s < n - 1
                        &&& #[trigger] unbounded(base, headroom, s)
                        &&& forall|i: int| 0 <= i < s ==> !#[trigger] unbounded(base, headroom, i)
                        &&& fault == Fault::NonFiniteMargin(
                            names[checked[s].0],
                            names[checked[s].1],
                        )
                    };
                assert(unbounded(base, headroom, s));
                assert(crate::pairs::resolved_all(names, list) == found);
            },
            Ok(pairs) => {
                assert forall|i: int| 0 <= i < n - 1 implies !#[trigger] unbounded(
                    base,
                    headroom,
                    i,
                ) by {
                    assert(pairs[i].margin == crate::policy::margin_of(
                        baseline(base, i),
                        headroom,
                    ));
                }
                if unbounded(base, headroom, n - 1) {
                    assert(crate::pairs::resolved_all(names, list) == Err::<Seq<Pair>, Fault>(
                        Fault::NonFiniteMargin(names[a], names[b]),
                    ));
                } else {
                    let last = Pair { a: a as usize, b: b as usize, margin: p.margin };
                    assert(crate::pairs::resolved_all(names, list) == Ok::<Seq<Pair>, Fault>(
                        pairs.push(last),
                    ));
                }
            },
        }
    }
}

impl DualArmCollisionModel {
    /// Build from both chains and their fitted capsules, deriving the checked
    /// pairs and their margins at construction; there is no intermediate
    /// artifact to go stale.
    ///
    /// Candidate pairs: everything that can inform. Excluded structurally: two
    /// fixed bodies (their distance never changes), and pairs within two
    /// moving joints of each other, same-side or torso against a chain's first
    /// links. Those are joint-yoked: shoulder or wrist cluster members orbit
    /// each other through their whole range, so their capsule distance swings
    /// with every legitimate motion and would smear the global minimum with
    /// noise while real contact between them is blocked by the link in
    /// between. Cross-arm pairs are always checked; the arms are
    /// independently driven.
    ///
    /// Margins: the worst reference baseline, clamped into each arm's own
    /// limits (the arms' ranges can be mirrored).
    ///
    /// Where the policy is sound and the chains are two, their links must have
    /// capsules, and the range of every joint must hold something (see
    /// [`is_covered`] and [`has_ranges`]).
    pub fn new<
        P: Fn(Side, JointVec) -> [Pose; ARM_DOF],
        T: Fn(Capsule, Pose) -> Capsule,
        D: Fn(Capsule, Capsule) -> CapsuleDistance,
    >(
        left_base: &str,
        right_base: &str,
        left: Chain,
        right: Chain,
        fitted: FittedBodies,
        policy: &MarginPolicy,
        g: &Geometry<P, T, D>,
    ) -> (r: Result<Self, ModelError>)
        requires
            policy.fault() is None && left_base@ != right_base@ ==> {
                &&& covers(fitted, left, right)
                &&& ranges_hold(fitted, left, right)
            },
            g.ready(),
        ensures
            ({
                let start = unposed(fitted, left, right);
                let checked = derived(start.bodies, left_base@, right_base@);
                let fault = build_fault(left_base@, right_base@, start.names(), Seq::empty());
                if policy.fault() is Some {
                    r matches Err(e) && policy.fault() == Some(e@)
                } else if fault is Some {
                    r matches Err(e) && fault == Some(e@)
                } else {
                    match r {
                        Ok(m) => {
                            &&& m@.wf()
                            &&& built(
                                *g,
                                start,
                                policy.references@,
                                policy.headroom,
                                checked,
                                m@,
                            )
                        },
                        Err(e) => unbuildable(
                            *g,
                            start,
                            policy.references@,
                            policy.headroom,
                            checked,
                            e@,
                        ),
                    }
                }
            }),
    {
        match policy.validate() {
            Ok(_) => {},
            Err(e) => {
                return Err(e);
            },
        }
        let ghost start = unposed(fitted, left, right);
        let none: Vec<PairSpec> = Vec::new();
        proof {
            assert(start.names() =~= names_of(start.bodies));
            assert(named(none@) =~= Seq::empty());
        }
        let mut probe: DualArmCollisionModel = match Self::with_pairs(
            left_base,
            right_base,
            left,
            right,
            fitted,
            none.as_slice(),
        ) {
            Ok(m) => m,
            Err(e) => {
                return Err(e);
            },
        };
        proof {
            assert(probe@ == start);
        }
        let lineage: Vec<Lineage> = probe.lineage(&left_base.to_owned(), &right_base.to_owned());
        let checked: Vec<(usize, usize)> = crate::pairs::derive_pairs(&lineage);
        let ghost pairs = indices(checked@);
        proof {
            assert(lineage@.len() == probe@.bodies.len());
            assert forall|s: int| 0 <= s < checked@.len() implies (#[trigger] checked@[s]).0
                < checked@[s].1 < probe@.bodies.len() by {
                assert(pairs[s] == (checked@[s].0 as int, checked@[s].1 as int));
                assert(pairs.contains(pairs[s]));
                crate::pairs::law_checked_pairs_follow_the_rules(
                    lineage@,
                    checked@[s].0 as int,
                    checked@[s].1 as int,
                );
            }
        }
        let (lows, Ghost(states), Ghost(base)) = probe.tour(&policy.references, &checked, g);
        let mut specs: Vec<PairSpec> = Vec::new();
        let ghost goal = margined(start.names(), pairs, base, policy.headroom);
        let mut s: usize = 0;
        while s < checked.len()
            invariant
                s <= checked@.len(),
                pairs == indices(checked@),
                probe@.bodies == start.bodies,
                probe.bodies@.len() == probe@.bodies.len(),
                goal == margined(start.names(), pairs, base, policy.headroom),
                lows@.len() == checked@.len(),
                forall|i: int| 0 <= i < checked@.len() ==> #[trigger] lows@[i] == baseline(base, i),
                forall|i: int|
                    0 <= i < checked@.len() ==> (#[trigger] checked@[i]).0 < checked@[i].1
                        < probe@.bodies.len(),
                named(specs@) =~= goal.take(s as int),
            decreases checked.len() - s,
        {
            let (a, b) = checked[s];
            proof {
                assert(start.names()[a as int] == probe.bodies@[a as int].model().name);
                assert(start.names()[b as int] == probe.bodies@[b as int].model().name);
                assert(pairs[s as int] == (a as int, b as int));
            }
            let ghost before = specs@;
            let mut spec_of_pair: PairSpec = PairSpec::new(
                probe.bodies[a].name.clone(),
                probe.bodies[b].name.clone(),
            );
            spec_of_pair.margin = crate::policy::derive_margin(lows[s], policy.headroom);
            specs.push(spec_of_pair);
            proof {
                assert(named(specs@) =~= named(before).push(spec_of_pair@));
            }
            s = s + 1;
        }
        proof {
            assert(goal.take(s as int) =~= goal);
            assert(goal.take(checked@.len() as int) =~= goal);
            assert(probe@.names() =~= start.names());
            assert(probe.bodies@.len() == probe.bodies.len());
            lemma_margined(
                start.names(),
                pairs,
                base,
                policy.headroom,
                checked@.len() as int,
            );
            assert(built_by(*g, start, policy.references@, pairs, states, base));
        }
        match probe.set_pairs(specs.as_slice()) {
            Ok(_) => Ok(probe),
            Err(e) => Err(e),
        }
    }
}

} // verus!
