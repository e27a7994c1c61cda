//! What a robot is put together from, and what is checked of it: the bodies
//! with their capsules, the pairs by their places in the chains, and the
//! witnesses of an answer.
use vstd::prelude::*;

use crate::double::Double;
use crate::error::Fault;
use crate::geometry::Capsule;
use crate::geometry::CapsuleDistance;
use crate::geometry::Pose;
use crate::geometry::Vector;
use crate::model::BodyView;
use crate::model::Chain;
use crate::model::FittedBodies;
use crate::model::Geometry;
use crate::model::ModelView;
use crate::model::Placement;
use crate::model::Side;
use crate::pairs::NamedPair;
use crate::policy::JointVec;
use crate::policy::ARM_DOF;
use crate::scan::Closest;

verus! {

/// A robot is put together from its fixed bodies in the order they are listed,
/// then the links of the left arm and then those of the right arm, each from
/// the mount outward. A fixed body carries the capsules of its own entry, and
/// every link those of the first entry that is listed under its own name.
pub proof fn law_bodies_carry_their_own_capsules(
    fitted: FittedBodies,
    left: Chain,
    right: Chain,
    k: int,
)
    requires
        0 <= k < fitted.fixed@.len() + 14,
    ensures
        ({
            let n = fitted.fixed@.len() as int;
            let bodies = crate::model::assembled(fitted, left, right);
            let body = bodies[k];
            &&& bodies.len() == n + 14
            &&& k < n ==> {
                &&& body.placement == Placement::Fixed
                &&& body.name == fitted.fixed@[k].0@
                &&& body.local == fitted.fixed@[k].1@
            }
            &&& n <= k < n + 7 ==> {
                &&& body.placement == Placement::Left((k - n) as usize)
                &&& body.name == left.names@[k - n]@
            }
            &&& n + 7 <= k ==> {
                &&& body.placement == Placement::Right((k - n - 7) as usize)
                &&& body.name == right.names@[k - n - 7]@
            }
            &&& n <= k && (exists|e: int|
                0 <= e < fitted.links@.len() && (#[trigger] fitted.links@[e]).0@ == body.name)
                ==> exists|e: int|
                {
                    &&& 0 <= e < fitted.links@.len()
                    &&& (#[trigger] fitted.links@[e]).0@ == body.name
                    &&& fitted.links@[e].1@ == body.local
                    &&& forall|f: int|
                        0 <= f < e ==> (#[trigger] fitted.links@[f]).0@ != body.name
                }
        }),
{
    let n = fitted.fixed@.len() as int;
    let body = crate::model::assembled(fitted, left, right)[k];
    let links = crate::model::listed(fitted.links@);
    let names = crate::model::listed_names(links);
    if n <= k && exists|e: int|
        0 <= e < fitted.links@.len() && (#[trigger] fitted.links@[e]).0@ == body.name {
        let x = choose|e: int|
            0 <= e < fitted.links@.len() && (#[trigger] fitted.links@[e]).0@ == body.name;
        crate::pairs::lemma_position(names, body.name);
        assert(names[x] == body.name);
        let e = crate::pairs::position(names, body.name);
        assert(names[e] == fitted.links@[e].0@);
        assert(links[e].1 == fitted.links@[e].1@);
        assert forall|f: int| 0 <= f < e implies (#[trigger] fitted.links@[f]).0@
            != body.name by {
            assert(names[f] == fitted.links@[f].0@);
        }
        assert(fitted.links@[e].0@ == body.name && fitted.links@[e].1@ == body.local);
    }
}

/// Whether two bodies are a checked pair of a model, in either order.
pub open spec fn is_pair(m: ModelView, x: int, y: int) -> bool {
    exists|s: int|
        0 <= s < m.pairs.len() && {
            ||| (#[trigger] m.pairs[s]).a == x && m.pairs[s].b == y
            ||| m.pairs[s].a == y && m.pairs[s].b == x
        }
}

/// What a derived model checks, by where its bodies are placed: two links of
/// one arm where more than two joints lie between them; any two links of
/// different arms; a fixed body and a link where it is the mount of the other
/// arm, or where the link is at least the third of its chain; and two fixed
/// bodies never.
pub proof fn law_derived_pairs_follow_the_chains<
    P: Fn(Side, JointVec) -> [Pose; ARM_DOF],
    T: Fn(Capsule, Pose) -> Capsule,
    D: Fn(Capsule, Capsule) -> CapsuleDistance,
>(
    g: Geometry<P, T, D>,
    start: ModelView,
    references: Seq<JointVec>,
    headroom: Double,
    left_base: Seq<char>,
    right_base: Seq<char>,
    m: ModelView,
    x: int,
    y: int,
)
    requires
        m.wf(),
        left_base != right_base,
        crate::model::built(
            g,
            start,
            references,
            headroom,
            crate::model::derived(start.bodies, left_base, right_base),
            m,
        ),
        0 <= x < m.bodies.len(),
        0 <= y < m.bodies.len(),
        m.bodies.len() <= usize::MAX,
        x != y,
    ensures
        m.bodies == start.bodies,
        is_pair(m, x, y) == match (m.bodies[x].placement, m.bodies[y].placement) {
            (Placement::Fixed, Placement::Fixed) => false,
            (Placement::Left(i), Placement::Left(j)) => i - j > 2 || j - i > 2,
            (Placement::Right(i), Placement::Right(j)) => i - j > 2 || j - i > 2,
            (Placement::Left(_), Placement::Right(_)) => true,
            (Placement::Right(_), Placement::Left(_)) => true,
            (Placement::Fixed, Placement::Left(i)) => i >= 2 || m.bodies[x].name == right_base,
            (Placement::Left(i), Placement::Fixed) => i >= 2 || m.bodies[y].name == right_base,
            (Placement::Fixed, Placement::Right(i)) => i >= 2 || m.bodies[x].name == left_base,
            (Placement::Right(i), Placement::Fixed) => i >= 2 || m.bodies[y].name == left_base,
        },
{
    let (i, j) = if x < y {
        (x, y)
    } else {
        (y, x)
    };
    assert(m.bodies[x] == m.bodies[x] && m.bodies[y] == m.bodies[y]);
    crate::laws::law_derived_models_check_what_informs(
        g,
        start,
        references,
        headroom,
        left_base,
        right_base,
        m,
        i as usize,
        j as usize,
    );
    crate::laws::law_derived_models_check_what_informs(
        g,
        start,
        references,
        headroom,
        left_base,
        right_base,
        m,
        j as usize,
        i as usize,
    );
    let listed = exists|s: int|
        0 <= s < m.pairs.len() && (#[trigger] m.pairs[s]).a == i as usize && m.pairs[s].b
            == j as usize;
    if listed {
        let s = choose|s: int|
            0 <= s < m.pairs.len() && (#[trigger] m.pairs[s]).a == i as usize && m.pairs[s].b
                == j as usize;
        assert(m.pairs[s].a == i && m.pairs[s].b == j);
    }
    if is_pair(m, x, y) {
        let s = choose|s: int|
            0 <= s < m.pairs.len() && {
                ||| (#[trigger] m.pairs[s]).a == x && m.pairs[s].b == y
                ||| m.pairs[s].a == y && m.pairs[s].b == x
            };
        if m.pairs[s].a == j {
            assert(m.pairs[s].a == j as usize && m.pairs[s].b == i as usize);
        } else {
            assert(m.pairs[s].a == i as usize && m.pairs[s].b == j as usize);
        }
    }
    assert(is_pair(m, x, y) == listed);
}

/// An answer is what some measurement of its two links says: of a capsule of
/// the first link against one of the second, in that order. The distance is
/// that of the measurement less the margin of a checked pair of the two, the
/// first witness is its first, and the second its second.
pub proof fn law_answers_are_measured<
    P: Fn(Side, JointVec) -> [Pose; ARM_DOF],
    T: Fn(Capsule, Pose) -> Capsule,
    D: Fn(Capsule, Capsule) -> CapsuleDistance,
>(
    g: Geometry<P, T, D>,
    before: ModelView,
    after: ModelView,
    q_left: JointVec,
    q_right: JointVec,
    c: Closest,
) -> (r: (int, int, int, CapsuleDistance))
    requires
        before.wf(),
        crate::model::succeeds(g, before, after, q_left, q_right, c),
    ensures
        0 <= r.0 < before.pairs.len(),
        before.pairs[r.0].a == c.a,
        before.pairs[r.0].b == c.b,
        c.a < before.bodies.len(),
        c.b < before.bodies.len(),
        0 <= r.1 < after.world[c.a as int].len(),
        0 <= r.2 < after.world[c.b as int].len(),
        call_ensures(
            g.distance,
            (after.world[c.a as int][r.1], after.world[c.b as int][r.2]),
            r.3,
        ),
        c.distance == r.3.distance.difference(before.pairs[r.0].margin),
        c.on_a == r.3.on_a,
        c.on_b == r.3.on_b,
{
    let table = choose|t: Seq<Seq<Seq<CapsuleDistance>>>|
        crate::model::answered(g, before, after, q_left, q_right, t, c);
    assert(crate::queries::asked(g, before, after, q_left, q_right));
    crate::queries::law_queries_keep_the_model(g, before, after, q_left, q_right);
    let (p, i, j) = crate::scan::lemma_scan_is_measured(before.pairs, table);
    let pair = before.pairs[p];
    let (a, b) = (after.world[pair.a as int], after.world[pair.b as int]);
    assert(crate::scan::gauged(g.distance, a, b, table[p]));
    assert(table[p][i].len() == b.len());
    assert(call_ensures(g.distance, (a[i], b[j]), table[p][i][j]));
    (p, i, j, table[p][i][j])
}

/// Each witness lies on its own link: whatever holds of the first witness of
/// every measurement and the first capsule measured, and of the second witness
/// and the second capsule, holds of the answer's first witness and a capsule of
/// its first link, and of its second witness and a capsule of its second link.
pub proof fn law_witnesses_lie_on_their_own_links<
    P: Fn(Side, JointVec) -> [Pose; ARM_DOF],
    T: Fn(Capsule, Pose) -> Capsule,
    D: Fn(Capsule, Capsule) -> CapsuleDistance,
>(
    g: Geometry<P, T, D>,
    before: ModelView,
    after: ModelView,
    q_left: JointVec,
    q_right: JointVec,
    c: Closest,
    lies_on: spec_fn(Vector, Capsule) -> bool,
)
    requires
        before.wf(),
        crate::model::succeeds(g, before, after, q_left, q_right, c),
        forall|a: Capsule, b: Capsule, x: CapsuleDistance| #[trigger]
            call_ensures(g.distance, (a, b), x) ==> lies_on(x.on_a, a) && lies_on(x.on_b, b),
    ensures
        exists|i: int|
            0 <= i < after.world[c.a as int].len() && lies_on(
                c.on_a,
                #[trigger] after.world[c.a as int][i],
            ),
        exists|j: int|
            0 <= j < after.world[c.b as int].len() && lies_on(
                c.on_b,
                #[trigger] after.world[c.b as int][j],
            ),
{
    let r = law_answers_are_measured(g, before, after, q_left, q_right, c);
    assert(lies_on(c.on_a, after.world[c.a as int][r.1]));
    assert(lies_on(c.on_b, after.world[c.b as int][r.2]));
}

/// What stops a robot from being put together: bases that are one, or a name
/// that two bodies share, or a pair that cannot be resolved; and nothing else.
pub proof fn law_robots_are_built_or_say_why(
    left_base: Seq<char>,
    right_base: Seq<char>,
    names: Seq<Seq<char>>,
    list: Seq<NamedPair>,
)
    ensures
        ({
            let fault = crate::model::build_fault(left_base, right_base, names, list);
            &&& fault is None <==> {
                &&& left_base != right_base
                &&& forall|i: int, j: int|
                    0 <= i < j < names.len() ==> #[trigger] names[i] != #[trigger] names[j]
                &&& forall|k: int|
                    0 <= k < list.len() ==> crate::pairs::is_sound(names, #[trigger] list[k])
            }
            &&& left_base == right_base ==> fault == Some(Fault::IdenticalBases(left_base))
            &&& left_base != right_base ==> (fault matches Some(Fault::DuplicateBody(n))
                ==> exists|i: int, j: int|
                {
                    &&& 0 <= i < j < names.len()
                    &&& #[trigger] names[i] == n
                    &&& #[trigger] names[j] == n
                    &&& names.take(j).no_duplicates()
                })
            &&& left_base != right_base && !names.no_duplicates() ==> fault matches Some(
                Fault::DuplicateBody(_),
            )
        }),
{
    let fault = crate::model::build_fault(left_base, right_base, names, list);
    crate::model::lemma_first_repeat(names);
    crate::pairs::law_lists_resolve_where_all_pairs_are_sound(names, list);
    let j = crate::model::first_repeat(names);
    if j >= 0 {
        let i = crate::model::lemma_repeated(names);
        assert(names[i] == names[j]);
    }
    if forall|i: int, j: int|
        0 <= i < j < names.len() ==> #[trigger] names[i] != #[trigger] names[j] {
        assert(names.no_duplicates());
    }
    if left_base != right_base && j < 0 {
        if let Err(f) = crate::pairs::resolved_all(names, list) {
            assert(!(f is DuplicateBody));
        }
    }
}

/// A robot whose bodies bear different names has capsules for all its links
/// exactly where the name of each of them is listed.
pub proof fn law_robots_are_covered_where_every_link_is_listed(
    fitted: FittedBodies,
    left: Chain,
    right: Chain,
)
    requires
        crate::model::names_of(crate::model::assembled(fitted, left, right)).no_duplicates(),
    ensures
        crate::model::covers(fitted, left, right) <==> {
            &&& forall|i: int| 0 <= i < 7 ==> is_listed(fitted, (#[trigger] left.names@[i])@)
            &&& forall|i: int| 0 <= i < 7 ==> is_listed(fitted, (#[trigger] right.names@[i])@)
        },
{
    let names = crate::model::names_of(crate::model::assembled(fitted, left, right));
    let listed = crate::model::listed_names(crate::model::listed(fitted.links@));
    let n = fitted.fixed@.len() as int;
    assert(names.len() == n + 14);
    assert forall|i: int| 0 <= i < 7 implies #[trigger] names[n + i] == left.names@[i]@ by {}
    assert forall|i: int| 0 <= i < 7 implies #[trigger] names[n + 7 + i]
        == right.names@[i]@ by {}
    if crate::model::covers(fitted, left, right) {
        assert forall|i: int| 0 <= i < 7 implies is_listed(
            fitted,
            (#[trigger] left.names@[i])@,
        ) by {
            assert(names[n + i] == left.names@[i]@);
            lemma_distinct_prefix(names, n + i);
            lemma_listed(fitted, names[n + i]);
        }
        assert forall|i: int| 0 <= i < 7 implies is_listed(
            fitted,
            (#[trigger] right.names@[i])@,
        ) by {
            assert(names[n + 7 + i] == right.names@[i]@);
            lemma_distinct_prefix(names, n + 7 + i);
            lemma_listed(fitted, names[n + 7 + i]);
        }
    }
    if {
        &&& forall|i: int| 0 <= i < 7 ==> is_listed(fitted, (#[trigger] left.names@[i])@)
        &&& forall|i: int| 0 <= i < 7 ==> is_listed(fitted, (#[trigger] right.names@[i])@)
    } {
        assert forall|k: int|
            n <= k < names.len() && crate::model::first_repeat(names.take(k))
                < 0 implies listed.contains(#[trigger] names[k]) by {
            lemma_listed(fitted, names[k]);
            if k < n + 7 {
                let i = k - n;
                assert(names[n + i] == left.names@[i]@);
            } else {
                let i = k - n - 7;
                assert(names[n + 7 + i] == right.names@[i]@);
            }
        }
    }
}

proof fn lemma_distinct_prefix(names: Seq<Seq<char>>, k: int)
    requires
        names.no_duplicates(),
        0 <= k <= names.len(),
    ensures
        crate::model::first_repeat(names.take(k)) < 0,
{
    let head = names.take(k);
    crate::model::lemma_first_repeat(head);
    assert forall|i: int, j: int|
        0 <= i < head.len() && 0 <= j < head.len() && i != j implies head[i] != head[j] by {
        assert(names[i] != names[j]);
    }
}

proof fn lemma_listed(fitted: FittedBodies, name: Seq<char>)
    ensures
        crate::model::listed_names(crate::model::listed(fitted.links@)).contains(name)
            == is_listed(fitted, name),
{
    let listed = crate::model::listed_names(crate::model::listed(fitted.links@));
    if listed.contains(name) {
        let e = choose|e: int| 0 <= e < listed.len() && listed[e] == name;
        assert(fitted.links@[e].0@ == name);
    }
    if is_listed(fitted, name) {
        let e = choose|e: int|
            0 <= e < fitted.links@.len() && (#[trigger] fitted.links@[e]).0@ == name;
        assert(listed[e] == name);
    }
}

/// A robot whose bodies bear different names has a range for every joint
/// exactly where the lower end of each is at most the upper one.
pub proof fn law_ranges_hold_where_every_joint_has_one(
    fitted: FittedBodies,
    left: Chain,
    right: Chain,
)
    requires
        crate::model::names_of(crate::model::assembled(fitted, left, right)).no_duplicates(),
    ensures
        crate::model::ranges_hold(fitted, left, right) <==> {
            &&& forall|i: int|
                0 <= i < 7 ==> (#[trigger] left.limits@[i]).lo.at_most(left.limits@[i].hi)
            &&& forall|i: int|
                0 <= i < 7 ==> (#[trigger] right.limits@[i]).lo.at_most(right.limits@[i].hi)
        },
{
    let names = crate::model::names_of(crate::model::assembled(fitted, left, right));
    crate::model::lemma_first_repeat(names);
    assert(crate::policy::limits_ordered(left.limits) == (forall|i: int|
        0 <= i < 7 ==> (#[trigger] left.limits@[i]).lo.at_most(left.limits@[i].hi)));
    assert(crate::policy::limits_ordered(right.limits) == (forall|i: int|
        0 <= i < 7 ==> (#[trigger] right.limits@[i]).lo.at_most(right.limits@[i].hi)));
}

/// Whether capsules are listed under a name.
pub open spec fn is_listed(fitted: FittedBodies, name: Seq<char>) -> bool {
    exists|e: int| 0 <= e < fitted.links@.len() && (#[trigger] fitted.links@[e]).0@ == name
}

/// Where the capsules of a body stand: those of a fixed one where they are, and
/// each capsule of the `i`th link of an arm where the pose of that link takes
/// it.
pub open spec fn stands<T: Fn(Capsule, Pose) -> Capsule>(
    transform: T,
    body: BodyView,
    left: [Pose; ARM_DOF],
    right: [Pose; ARM_DOF],
    world: Seq<Capsule>,
) -> bool {
    &&& world.len() == body.local.len()
    &&& forall|x: int|
        0 <= x < world.len() ==> match body.placement {
            Placement::Fixed => #[trigger] world[x] == body.local[x],
            Placement::Left(i) => call_ensures(
                transform,
                (body.local[x], left@[i as int]),
                world[x],
            ),
            Placement::Right(i) => call_ensures(
                transform,
                (body.local[x], right@[i as int]),
                world[x],
            ),
        }
}

/// Links follow the poses of their own arm: after a query, each capsule of the
/// `i`th link of an arm stands where the pose of that link at the joint values
/// of that arm takes it, the fixed bodies where they always did, and the bodies
/// and pairs are the ones before.
pub proof fn law_links_follow_their_poses<
    P: Fn(Side, JointVec) -> [Pose; ARM_DOF],
    T: Fn(Capsule, Pose) -> Capsule,
    D: Fn(Capsule, Capsule) -> CapsuleDistance,
>(
    g: Geometry<P, T, D>,
    before: ModelView,
    after: ModelView,
    q_left: JointVec,
    q_right: JointVec,
) -> (r: ([Pose; ARM_DOF], [Pose; ARM_DOF]))
    requires
        before.wf(),
        crate::model::placed(g, before, after, q_left, q_right) || exists|c: Closest|
            crate::model::succeeds(g, before, after, q_left, q_right, c),
    ensures
        call_ensures(g.poses, (Side::Left, q_left), r.0),
        call_ensures(g.poses, (Side::Right, q_right), r.1),
        after.bodies == before.bodies,
        after.pairs == before.pairs,
        after.left == before.left,
        after.right == before.right,
        after.world.len() == before.bodies.len(),
        forall|k: int|
            0 <= k < before.bodies.len() ==> stands(
                g.transform,
                before.bodies[k],
                r.0,
                r.1,
                #[trigger] after.world[k],
            ),
{
    if !crate::model::placed(g, before, after, q_left, q_right) {
        let c = choose|c: Closest|
            crate::model::succeeds(g, before, after, q_left, q_right, c);
        let t = choose|t: Seq<Seq<Seq<CapsuleDistance>>>|
            crate::model::answered(g, before, after, q_left, q_right, t, c);
    }
    let (l, r) = choose|l: [Pose; ARM_DOF], r: [Pose; ARM_DOF]|
        crate::model::posed(g, before, after, q_left, q_right, l, r);
    assert forall|k: int| 0 <= k < before.bodies.len() implies stands(
        g.transform,
        before.bodies[k],
        l,
        r,
        #[trigger] after.world[k],
    ) by {
        let body = before.bodies[k];
        assert(before.world[k].len() == body.local.len());
    }
    (l, r)
}

/// Before it is posed, a robot has the ranges of its own two arms, checks
/// nothing, and stands with every capsule where its body holds it.
pub proof fn law_unposed_robots_stand_as_assembled(
    fitted: FittedBodies,
    left: Chain,
    right: Chain,
    k: int,
)
    requires
        0 <= k < fitted.fixed@.len() + 14,
    ensures
        ({
            let m = crate::model::unposed(fitted, left, right);
            &&& m.left == left.limits
            &&& m.right == right.limits
            &&& m.bodies == crate::model::assembled(fitted, left, right)
            &&& m.pairs.len() == 0
            &&& m.world.len() == fitted.fixed@.len() + 14
            &&& m.world[k] == m.bodies[k].local
            &&& m.names()[k] == m.bodies[k].name
        }),
{
}

} // verus!
