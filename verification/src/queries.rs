//! What holds of queries: what they depend on, and how the readings of models
//! with different pairs and margins compare.
use vstd::prelude::*;

use crate::double::Double;
use crate::error::Fault;
use crate::geometry::Capsule;
use crate::geometry::CapsuleDistance;
use crate::geometry::Pose;
use crate::geometry::Vector;
use crate::model::Geometry;
use crate::model::ModelView;
use crate::model::Placement;
use crate::model::Side;
use crate::pairs::Pair;
use crate::policy::JointVec;
use crate::policy::ARM_DOF;
use crate::scan::Closest;

verus! {

/// Two models that differ at most in where their links stand.
pub open spec fn alike(first: ModelView, second: ModelView) -> bool {
    &&& first.wf()
    &&& second.wf()
    &&& first.left == second.left
    &&& first.right == second.right
    &&& first.bodies == second.bodies
    &&& first.pairs == second.pairs
}

/// A query at the joint values took a model from `before` to `after`: it was
/// answered or refused, or it asked for the capsules in the world only.
pub open spec fn asked<
    P: Fn(Side, JointVec) -> [Pose; ARM_DOF],
    T: Fn(Capsule, Pose) -> Capsule,
    D: Fn(Capsule, Capsule) -> CapsuleDistance,
>(
    g: Geometry<P, T, D>,
    before: ModelView,
    after: ModelView,
    q_left: JointVec,
    q_right: JointVec,
) -> bool {
    ||| exists|c: Closest| crate::model::succeeds(g, before, after, q_left, q_right, c)
    ||| exists|f: Fault| crate::model::refused(g, before, after, q_left, q_right, f)
    ||| crate::model::placed(g, before, after, q_left, q_right)
}

/// Some query took a model from `before` to `after`.
pub open spec fn asked_somewhere<
    P: Fn(Side, JointVec) -> [Pose; ARM_DOF],
    T: Fn(Capsule, Pose) -> Capsule,
    D: Fn(Capsule, Capsule) -> CapsuleDistance,
>(g: Geometry<P, T, D>, before: ModelView, after: ModelView) -> bool {
    exists|q_left: JointVec, q_right: JointVec| asked(g, before, after, q_left, q_right)
}

/// A query moves links and changes nothing else: the bodies with their own
/// capsules, the checked pairs and their margins stay as they are.
pub proof fn law_queries_keep_the_model<
    P: Fn(Side, JointVec) -> [Pose; ARM_DOF],
    T: Fn(Capsule, Pose) -> Capsule,
    D: Fn(Capsule, Capsule) -> CapsuleDistance,
>(
    g: Geometry<P, T, D>,
    before: ModelView,
    after: ModelView,
    q_left: JointVec,
    q_right: JointVec,
)
    requires
        before.wf(),
        asked(g, before, after, q_left, q_right),
    ensures
        alike(before, after),
{
    if exists|c: Closest| crate::model::succeeds(g, before, after, q_left, q_right, c) {
        let c = choose|c: Closest| crate::model::succeeds(g, before, after, q_left, q_right, c);
        let t = choose|t: Seq<Seq<Seq<CapsuleDistance>>>|
            crate::model::answered(g, before, after, q_left, q_right, t, c);
        assert(crate::model::placed(g, before, after, q_left, q_right));
    }
    if crate::model::placed(g, before, after, q_left, q_right) {
        let (l, r) = choose|l: [Pose; ARM_DOF], r: [Pose; ARM_DOF]|
            crate::model::posed(g, before, after, q_left, q_right, l, r);
        crate::model::lemma_placed_wf(g.transform, before, after, l@, r@);
    }
}

/// No sequence of queries, refused ones among them, changes more than where
/// the links stand.
pub proof fn law_any_queries_keep_the_model<
    P: Fn(Side, JointVec) -> [Pose; ARM_DOF],
    T: Fn(Capsule, Pose) -> Capsule,
    D: Fn(Capsule, Capsule) -> CapsuleDistance,
>(g: Geometry<P, T, D>, states: Seq<ModelView>)
    requires
        states.len() > 0,
        states[0].wf(),
        forall|k: int|
            0 <= k < states.len() - 1 ==> asked_somewhere(g, #[trigger] states[k], states[k + 1]),
    ensures
        alike(states[0], states.last()),
    decreases states.len(),
{
    if states.len() > 1 {
        let n = states.len() - 1;
        let rest = states.drop_last();
        assert forall|k: int| 0 <= k < rest.len() - 1 implies asked_somewhere(
            g,
            #[trigger] rest[k],
            rest[k + 1],
        ) by {
            assert(rest[k] == states[k] && rest[k + 1] == states[k + 1]);
        }
        law_any_queries_keep_the_model(g, rest);
        assert(rest.last() == states[n - 1]);
        let (before, after) = (states[n - 1], states[n - 1 + 1]);
        assert(asked_somewhere(g, before, after));
        let (l, r) = choose|l: JointVec, r: JointVec| asked(g, before, after, l, r);
        law_queries_keep_the_model(g, before, after, l, r);
    }
}

/// No earlier query leaks into a later one: a model that any sequence of
/// queries was made on and a fresh one get the same answer, or the same
/// refusal, at the same joint values.
pub proof fn law_earlier_queries_do_not_matter<
    P: Fn(Side, JointVec) -> [Pose; ARM_DOF],
    T: Fn(Capsule, Pose) -> Capsule,
    D: Fn(Capsule, Capsule) -> CapsuleDistance,
>(
    g: Geometry<P, T, D>,
    states: Seq<ModelView>,
    after: ModelView,
    fresh: ModelView,
    fresh_after: ModelView,
    q_left: JointVec,
    q_right: JointVec,
)
    requires
        g.is_functional(),
        states.len() > 0,
        alike(states[0], fresh),
        forall|k: int|
            0 <= k < states.len() - 1 ==> asked_somewhere(g, #[trigger] states[k], states[k + 1]),
    ensures
        forall|c: Closest, d: Closest|
            #![trigger
                crate::model::succeeds(g, states.last(), after, q_left, q_right, c),
                crate::model::succeeds(g, fresh, fresh_after, q_left, q_right, d)]
            crate::model::succeeds(g, states.last(), after, q_left, q_right, c)
                && crate::model::succeeds(g, fresh, fresh_after, q_left, q_right, d) ==> c == d,
        forall|e: Fault, f: Fault|
            #![trigger
                crate::model::refused(g, states.last(), after, q_left, q_right, e),
                crate::model::refused(g, fresh, fresh_after, q_left, q_right, f)]
            crate::model::refused(g, states.last(), after, q_left, q_right, e)
                && crate::model::refused(g, fresh, fresh_after, q_left, q_right, f) ==> e == f,
        forall|c: Closest, f: Fault|
            #![trigger
                crate::model::succeeds(g, states.last(), after, q_left, q_right, c),
                crate::model::refused(g, fresh, fresh_after, q_left, q_right, f)]
            crate::model::succeeds(g, states.last(), after, q_left, q_right, c)
                ==> !crate::model::refused(g, fresh, fresh_after, q_left, q_right, f),
        forall|e: Fault, d: Closest|
            #![trigger
                crate::model::refused(g, states.last(), after, q_left, q_right, e),
                crate::model::succeeds(g, fresh, fresh_after, q_left, q_right, d)]
            crate::model::refused(g, states.last(), after, q_left, q_right, e)
                ==> !crate::model::succeeds(g, fresh, fresh_after, q_left, q_right, d),
        crate::model::placed(g, states.last(), after, q_left, q_right) && crate::model::placed(
            g,
            fresh,
            fresh_after,
            q_left,
            q_right,
        ) ==> after.world == fresh_after.world,
{
    let worn = states.last();
    law_any_queries_keep_the_model(g, states);
    assert(worn.nothing_to_check() == fresh.nothing_to_check());
    assert forall|c: Closest, d: Closest|
        crate::model::succeeds(g, worn, after, q_left, q_right, c) && crate::model::succeeds(
            g,
            fresh,
            fresh_after,
            q_left,
            q_right,
            d,
        ) implies c == d by {
        law_equal_queries_get_equal_answers(
            g,
            worn,
            after,
            fresh,
            fresh_after,
            q_left,
            q_right,
            c,
            d,
        );
    }
    if crate::model::placed(g, worn, after, q_left, q_right) && crate::model::placed(
        g,
        fresh,
        fresh_after,
        q_left,
        q_right,
    ) {
        law_placement_forgets_the_past(g, worn, after, fresh, fresh_after, q_left, q_right);
    }
}

/// One arm's joint values leave the other arm's links and the fixed bodies
/// where they are: the capsules of a left link depend on the left values only,
/// those of a right link on the right values only, those of a fixed body on
/// neither.
pub proof fn law_arms_are_placed_apart<
    P: Fn(Side, JointVec) -> [Pose; ARM_DOF],
    T: Fn(Capsule, Pose) -> Capsule,
    D: Fn(Capsule, Capsule) -> CapsuleDistance,
>(
    g: Geometry<P, T, D>,
    first: ModelView,
    first_placed: ModelView,
    first_left: JointVec,
    first_right: JointVec,
    second: ModelView,
    second_placed: ModelView,
    second_left: JointVec,
    second_right: JointVec,
    k: int,
)
    requires
        g.is_functional(),
        first.wf(),
        second.wf(),
        first.bodies == second.bodies,
        crate::model::placed(g, first, first_placed, first_left, first_right),
        crate::model::placed(g, second, second_placed, second_left, second_right),
        0 <= k < first.bodies.len(),
    ensures
        match first.bodies[k].placement {
            Placement::Fixed => first_placed.world[k] == second_placed.world[k],
            Placement::Left(_) => first_left == second_left ==> first_placed.world[k]
                == second_placed.world[k],
            Placement::Right(_) => first_right == second_right ==> first_placed.world[k]
                == second_placed.world[k],
        },
{
    let (left, right) = choose|left: [Pose; ARM_DOF], right: [Pose; ARM_DOF]|
        crate::model::posed(g, first, first_placed, first_left, first_right, left, right);
    let (l, r) = choose|l: [Pose; ARM_DOF], r: [Pose; ARM_DOF]|
        crate::model::posed(g, second, second_placed, second_left, second_right, l, r);
    let body = first.bodies[k];
    assert(body == second.bodies[k]);
    let (u, v) = (first_placed.world[k], second_placed.world[k]);
    match body.placement {
        Placement::Fixed => {},
        Placement::Left(i) => {
            if first_left == second_left {
                assert(left == l);
                lemma_moved_alike(g, body.local, left@[i as int], u, v);
            }
        },
        Placement::Right(i) => {
            if first_right == second_right {
                assert(right == r);
                lemma_moved_alike(g, body.local, right@[i as int], u, v);
            }
        },
    }
}

/// A placement does not depend on the ones before it: two models with the
/// same bodies that were placed at the same joint values hold the same
/// capsules in the world.
pub proof fn law_placement_forgets_the_past<
    P: Fn(Side, JointVec) -> [Pose; ARM_DOF],
    T: Fn(Capsule, Pose) -> Capsule,
    D: Fn(Capsule, Capsule) -> CapsuleDistance,
>(
    g: Geometry<P, T, D>,
    first: ModelView,
    first_placed: ModelView,
    second: ModelView,
    second_placed: ModelView,
    q_left: JointVec,
    q_right: JointVec,
)
    requires
        g.is_functional(),
        first.wf(),
        second.wf(),
        first.bodies == second.bodies,
        crate::model::placed(g, first, first_placed, q_left, q_right),
        crate::model::placed(g, second, second_placed, q_left, q_right),
    ensures
        first_placed.world == second_placed.world,
{
    let (left, right) = choose|left: [Pose; ARM_DOF], right: [Pose; ARM_DOF]|
        crate::model::posed(g, first, first_placed, q_left, q_right, left, right);
    let (l, r) = choose|l: [Pose; ARM_DOF], r: [Pose; ARM_DOF]|
        crate::model::posed(g, second, second_placed, q_left, q_right, l, r);
    assert(left == l && right == r);
    assert forall|k: int| 0 <= k < first.bodies.len() implies #[trigger] first_placed.world[k]
        == second_placed.world[k] by {
        let body = first.bodies[k];
        assert(body == second.bodies[k]);
        let (u, v) = (first_placed.world[k], second_placed.world[k]);
        match body.placement {
            Placement::Fixed => {},
            Placement::Left(i) => {
                lemma_moved_alike(g, body.local, left@[i as int], u, v);
            },
            Placement::Right(i) => {
                lemma_moved_alike(g, body.local, right@[i as int], u, v);
            },
        }
    }
    assert(first_placed.world =~= second_placed.world);
}

/// What one pose makes of some capsules is determined.
proof fn lemma_moved_alike<
    P: Fn(Side, JointVec) -> [Pose; ARM_DOF],
    T: Fn(Capsule, Pose) -> Capsule,
    D: Fn(Capsule, Capsule) -> CapsuleDistance,
>(g: Geometry<P, T, D>, local: Seq<Capsule>, pose: Pose, u: Seq<Capsule>, v: Seq<Capsule>)
    requires
        g.is_functional(),
        crate::model::moved(g.transform, local, pose, u),
        crate::model::moved(g.transform, local, pose, v),
    ensures
        u == v,
{
    assert forall|m: int| 0 <= m < local.len() implies #[trigger] u[m] == v[m] by {
        assert(call_ensures(g.transform, (local[m], pose), u[m]));
        assert(call_ensures(g.transform, (local[m], pose), v[m]));
    }
    assert(u =~= v);
}

/// What is measured of some capsules is determined.
pub proof fn lemma_gauged_alike<
    P: Fn(Side, JointVec) -> [Pose; ARM_DOF],
    T: Fn(Capsule, Pose) -> Capsule,
    D: Fn(Capsule, Capsule) -> CapsuleDistance,
>(
    g: Geometry<P, T, D>,
    first: Seq<Capsule>,
    second: Seq<Capsule>,
    u: Seq<Seq<CapsuleDistance>>,
    v: Seq<Seq<CapsuleDistance>>,
)
    requires
        g.is_functional(),
        crate::scan::gauged(g.distance, first, second, u),
        crate::scan::gauged(g.distance, first, second, v),
    ensures
        u == v,
{
    assert forall|i: int| 0 <= i < first.len() implies #[trigger] u[i] == v[i] by {
        assert forall|j: int| 0 <= j < second.len() implies #[trigger] u[i][j] == v[i][j] by {
            assert(call_ensures(g.distance, (first[i], second[j]), u[i][j]));
            assert(call_ensures(g.distance, (first[i], second[j]), v[i][j]));
        }
        assert(u[i] =~= v[i]);
    }
    assert(u =~= v);
}

/// A query does not depend on the ones before it: two models with the same
/// bodies and pairs, queried at the same joint values, give the same closest
/// approach.
pub proof fn law_equal_queries_get_equal_answers<
    P: Fn(Side, JointVec) -> [Pose; ARM_DOF],
    T: Fn(Capsule, Pose) -> Capsule,
    D: Fn(Capsule, Capsule) -> CapsuleDistance,
>(
    g: Geometry<P, T, D>,
    first: ModelView,
    first_placed: ModelView,
    second: ModelView,
    second_placed: ModelView,
    q_left: JointVec,
    q_right: JointVec,
    c: Closest,
    d: Closest,
)
    requires
        g.is_functional(),
        first.wf(),
        second.wf(),
        first.bodies == second.bodies,
        first.pairs == second.pairs,
        crate::model::succeeds(g, first, first_placed, q_left, q_right, c),
        crate::model::succeeds(g, second, second_placed, q_left, q_right, d),
    ensures
        c == d,
{
    law_placement_forgets_the_past(
        g,
        first,
        first_placed,
        second,
        second_placed,
        q_left,
        q_right,
    );
    let u = choose|u: Seq<Seq<Seq<CapsuleDistance>>>|
        crate::model::answered(g, first, first_placed, q_left, q_right, u, c);
    let v = choose|v: Seq<Seq<Seq<CapsuleDistance>>>|
        crate::model::answered(g, second, second_placed, q_left, q_right, v, d);
    let world = first_placed.world;
    assert forall|p: int| 0 <= p < first.pairs.len() implies #[trigger] u[p] == v[p] by {
        let pair = first.pairs[p];
        lemma_gauged_alike(g, world[pair.a as int], world[pair.b as int], u[p], v[p]);
    }
    assert(u =~= v);
}

/// The fixed bodies never move: whatever a model was placed at, their capsules
/// stand where they stood when it was built.
pub proof fn law_fixed_bodies_never_move<T: Fn(Capsule, Pose) -> Capsule>(
    transform: T,
    before: ModelView,
    after: ModelView,
    left: Seq<Pose>,
    right: Seq<Pose>,
    k: int,
)
    requires
        before.wf(),
        crate::model::placed_by(transform, before, after, left, right),
        0 <= k < before.bodies.len(),
        before.bodies[k].placement == Placement::Fixed,
    ensures
        after.world[k] == before.world[k],
        after.world[k] == after.bodies[k].local,
        after.wf(),
{
    crate::model::lemma_placed_wf(transform, before, after, left, right);
}

/// What a survey of finite margins measures reads as numbers.
proof fn lemma_numbers<
    P: Fn(Side, JointVec) -> [Pose; ARM_DOF],
    T: Fn(Capsule, Pose) -> Capsule,
    D: Fn(Capsule, Capsule) -> CapsuleDistance,
>(g: Geometry<P, T, D>, m: ModelView, table: Seq<Seq<Seq<CapsuleDistance>>>)
    requires
        g.measures_numbers(),
        m.wf(),
        crate::scan::surveyed(g.distance, m.world, m.pairs, table),
    ensures
        crate::scan::all_numbers(m.pairs, table),
{
    assert forall|p: int, i: int, j: int|
        0 <= p < m.pairs.len() && 0 <= i < table[p].len() && 0 <= j < table[p][i].len()
        implies !(#[trigger] table[p][i][j]).distance.is_nan() by {
        let (a, b) = (m.world[m.pairs[p].a as int], m.world[m.pairs[p].b as int]);
        assert(crate::scan::gauged(g.distance, a, b, table[p]));
        assert(table[p][i].len() == b.len());
        assert(call_ensures(g.distance, (a[i], b[j]), table[p][i][j]));
    }
}

/// The table behind an answer, with what is known of it.
proof fn lemma_table<
    P: Fn(Side, JointVec) -> [Pose; ARM_DOF],
    T: Fn(Capsule, Pose) -> Capsule,
    D: Fn(Capsule, Capsule) -> CapsuleDistance,
>(
    g: Geometry<P, T, D>,
    before: ModelView,
    after: ModelView,
    q_left: JointVec,
    q_right: JointVec,
    c: Closest,
) -> (table: Seq<Seq<Seq<CapsuleDistance>>>)
    requires
        g.measures_numbers(),
        before.wf(),
        crate::model::succeeds(g, before, after, q_left, q_right, c),
    ensures
        alike(before, after),
        crate::model::placed(g, before, after, q_left, q_right),
        crate::scan::surveyed(g.distance, after.world, before.pairs, table),
        crate::scan::all_numbers(before.pairs, table),
        crate::scan::scan(before.pairs, table) == Some(c),
{
    let table = choose|t: Seq<Seq<Seq<CapsuleDistance>>>|
        crate::model::answered(g, before, after, q_left, q_right, t, c);
    assert(asked(g, before, after, q_left, q_right));
    law_queries_keep_the_model(g, before, after, q_left, q_right);
    lemma_numbers(g, after, table);
    table
}

/// The answer is the minimum over the capsules that stand in the world: no
/// measurement of a checked pair reads less; it is the reading of some
/// measurement of the reported pair, with its witnesses; and every pair before
/// that one in the list reads strictly more. The capsules may be those that an
/// earlier or later look at the world showed at the same joint values.
pub proof fn law_answers_are_the_first_minimum<
    P: Fn(Side, JointVec) -> [Pose; ARM_DOF],
    T: Fn(Capsule, Pose) -> Capsule,
    D: Fn(Capsule, Capsule) -> CapsuleDistance,
>(
    g: Geometry<P, T, D>,
    before: ModelView,
    after: ModelView,
    shown: ModelView,
    shown_after: ModelView,
    q_left: JointVec,
    q_right: JointVec,
    c: Closest,
) -> (r: (int, int, int, CapsuleDistance))
    requires
        g.is_functional(),
        g.measures_numbers(),
        alike(before, shown),
        crate::model::succeeds(g, before, after, q_left, q_right, c),
        crate::model::placed(g, shown, shown_after, q_left, q_right),
    ensures
        forall|p: int, i: int, j: int, m: CapsuleDistance|
            #[trigger] measured_at(g, shown_after, p, i, j, m) ==> c.distance.at_most(
                crate::scan::adjusted(shown_after.pairs[p], m),
            ),
        measured_at(g, shown_after, r.0, r.1, r.2, r.3),
        c == crate::scan::approach(shown_after.pairs[r.0], r.3),
        forall|p: int, i: int, j: int, m: CapsuleDistance|
            #[trigger] measured_at(g, shown_after, p, i, j, m) && (p < r.0 || (p == r.0 && (i
                < r.1 || (i == r.1 && j < r.2)))) ==> c.distance.less(
                crate::scan::adjusted(shown_after.pairs[p], m),
            ),
{
    let table = lemma_table(g, before, after, q_left, q_right, c);
    law_placement_forgets_the_past(g, before, after, shown, shown_after, q_left, q_right);
    assert(asked(g, shown, shown_after, q_left, q_right));
    law_queries_keep_the_model(g, shown, shown_after, q_left, q_right);
    let world = after.world;
    crate::scan::law_closest_is_the_minimum(before.pairs, table);
    let (p, i, j) = choose|p: int, i: int, j: int|
        crate::scan::leads(before.pairs, table, c, p, i, j);
    assert forall|q: int, k: int, l: int, m: CapsuleDistance| #[trigger]
        measured_at(g, shown_after, q, k, l, m) implies table[q][k][l] == m && k < table[q].len()
        && l < table[q][k].len() by {
        let (a, b) = (world[before.pairs[q].a as int], world[before.pairs[q].b as int]);
        assert(crate::scan::gauged(g.distance, a, b, table[q]));
        assert(table[q][k].len() == b.len());
        assert(call_ensures(g.distance, (a[k], b[l]), table[q][k][l]));
        assert(call_ensures(g.distance, (a[k], b[l]), m));
    }
    let (a, b) = (world[before.pairs[p].a as int], world[before.pairs[p].b as int]);
    assert(crate::scan::gauged(g.distance, a, b, table[p]));
    assert(table[p][i].len() == b.len());
    assert(call_ensures(g.distance, (a[i], b[j]), table[p][i][j]));
    assert(measured_at(g, shown_after, p, i, j, table[p][i][j]));
    (p, i, j, table[p][i][j])
}

/// `x` is what the geometry answers for capsule `i` of the first body of pair
/// `p` and capsule `j` of the second, as the model stands.
pub open spec fn measured_at<
    P: Fn(Side, JointVec) -> [Pose; ARM_DOF],
    T: Fn(Capsule, Pose) -> Capsule,
    D: Fn(Capsule, Capsule) -> CapsuleDistance,
>(
    g: Geometry<P, T, D>,
    m: ModelView,
    p: int,
    i: int,
    j: int,
    x: CapsuleDistance,
) -> bool {
    &&& 0 <= p < m.pairs.len()
    &&& 0 <= i < m.world[m.pairs[p].a as int].len()
    &&& 0 <= j < m.world[m.pairs[p].b as int].len()
    &&& call_ensures(
        g.distance,
        (m.world[m.pairs[p].a as int][i], m.world[m.pairs[p].b as int][j]),
        x,
    )
}

/// A model that checks the pairs of one model and then those of another reads
/// the lesser of what they read, at the same joint values.
pub proof fn law_joined_models_read_the_lesser<
    P: Fn(Side, JointVec) -> [Pose; ARM_DOF],
    T: Fn(Capsule, Pose) -> Capsule,
    D: Fn(Capsule, Capsule) -> CapsuleDistance,
>(
    g: Geometry<P, T, D>,
    first: ModelView,
    first_after: ModelView,
    second: ModelView,
    second_after: ModelView,
    joined: ModelView,
    joined_after: ModelView,
    q_left: JointVec,
    q_right: JointVec,
    c: Closest,
    d: Closest,
    e: Closest,
)
    requires
        g.is_functional(),
        g.measures_numbers(),
        first.wf(),
        second.wf(),
        joined.wf(),
        first.bodies == joined.bodies,
        second.bodies == joined.bodies,
        joined.pairs == first.pairs + second.pairs,
        crate::model::succeeds(g, first, first_after, q_left, q_right, c),
        crate::model::succeeds(g, second, second_after, q_left, q_right, d),
        crate::model::succeeds(g, joined, joined_after, q_left, q_right, e),
    ensures
        Some(e) == crate::scan::merged(Some(c), Some(d)),
        e.distance == c.distance.lesser(d.distance),
{
    let t = lemma_table(g, first, first_after, q_left, q_right, c);
    let u = lemma_table(g, second, second_after, q_left, q_right, d);
    let v = lemma_table(g, joined, joined_after, q_left, q_right, e);
    law_placement_forgets_the_past(
        g,
        first,
        first_after,
        joined,
        joined_after,
        q_left,
        q_right,
    );
    law_placement_forgets_the_past(
        g,
        second,
        second_after,
        joined,
        joined_after,
        q_left,
        q_right,
    );
    let world = joined_after.world;
    let n = first.pairs.len() as int;
    assert forall|p: int| 0 <= p < v.len() implies #[trigger] v[p] == (t + u)[p] by {
        let pair = joined.pairs[p];
        assert(crate::scan::gauged(g.distance, world[pair.a as int], world[pair.b as int], v[p]));
        if p < n {
            assert(pair == first.pairs[p]);
            assert(crate::scan::gauged(
                g.distance,
                world[pair.a as int],
                world[pair.b as int],
                t[p],
            ));
        } else {
            assert(pair == second.pairs[p - n]);
            assert(crate::scan::gauged(
                g.distance,
                world[pair.a as int],
                world[pair.b as int],
                u[p - n],
            ));
        }
        lemma_gauged_alike(g, world[pair.a as int], world[pair.b as int], v[p], (t + u)[p]);
    }
    assert(v =~= t + u);
    crate::scan::law_joined_lists_read_the_lesser(first.pairs, t, second.pairs, u);
}

/// Checking more pairs never raises a reading, and neither the order of the
/// list nor repeats in it change one.
pub proof fn law_models_with_more_pairs_never_read_more<
    P: Fn(Side, JointVec) -> [Pose; ARM_DOF],
    T: Fn(Capsule, Pose) -> Capsule,
    D: Fn(Capsule, Capsule) -> CapsuleDistance,
>(
    g: Geometry<P, T, D>,
    first: ModelView,
    first_after: ModelView,
    second: ModelView,
    second_after: ModelView,
    q_left: JointVec,
    q_right: JointVec,
    c: Closest,
    d: Closest,
)
    requires
        g.is_functional(),
        g.measures_numbers(),
        first.wf(),
        second.wf(),
        first.bodies == second.bodies,
        forall|p: int|
            0 <= p < first.pairs.len() ==> second.pairs.contains(#[trigger] first.pairs[p]),
        crate::model::succeeds(g, first, first_after, q_left, q_right, c),
        crate::model::succeeds(g, second, second_after, q_left, q_right, d),
    ensures
        d.distance.at_most(c.distance),
{
    let t = lemma_table(g, first, first_after, q_left, q_right, c);
    let u = lemma_table(g, second, second_after, q_left, q_right, d);
    law_placement_forgets_the_past(
        g,
        first,
        first_after,
        second,
        second_after,
        q_left,
        q_right,
    );
    let world = first_after.world;
    assert forall|p: int| 0 <= p < first.pairs.len() implies exists|q: int|
        0 <= q < second.pairs.len() && second.pairs[q] == #[trigger] first.pairs[p]
            && #[trigger] u[q] == t[p] by {
        let pair = first.pairs[p];
        assert(second.pairs.contains(pair));
        let q = choose|q: int| 0 <= q < second.pairs.len() && second.pairs[q] == pair;
        assert(crate::scan::gauged(g.distance, world[pair.a as int], world[pair.b as int], t[p]));
        assert(crate::scan::gauged(g.distance, world[pair.a as int], world[pair.b as int], u[q]));
        lemma_gauged_alike(g, world[pair.a as int], world[pair.b as int], u[q], t[p]);
        assert(second.pairs[q] == first.pairs[p] && u[q] == t[p]);
    }
    crate::scan::law_more_pairs_never_read_more(first.pairs, t, second.pairs, u, c, d);
}

/// Larger margins never raise a reading: they make a model alarm no later.
pub proof fn law_models_with_larger_margins_never_read_more<
    P: Fn(Side, JointVec) -> [Pose; ARM_DOF],
    T: Fn(Capsule, Pose) -> Capsule,
    D: Fn(Capsule, Capsule) -> CapsuleDistance,
>(
    g: Geometry<P, T, D>,
    first: ModelView,
    first_after: ModelView,
    second: ModelView,
    second_after: ModelView,
    q_left: JointVec,
    q_right: JointVec,
    c: Closest,
    d: Closest,
)
    requires
        g.is_functional(),
        g.measures_numbers(),
        first.wf(),
        second.wf(),
        first.bodies == second.bodies,
        first.pairs.len() == second.pairs.len(),
        forall|p: int|
            0 <= p < first.pairs.len() ==> {
                &&& (#[trigger] first.pairs[p]).a == second.pairs[p].a
                &&& first.pairs[p].b == second.pairs[p].b
                &&& first.pairs[p].margin.at_most(second.pairs[p].margin)
            },
        crate::model::succeeds(g, first, first_after, q_left, q_right, c),
        crate::model::succeeds(g, second, second_after, q_left, q_right, d),
    ensures
        d.distance.at_most(c.distance),
{
    let t = lemma_table(g, first, first_after, q_left, q_right, c);
    let u = lemma_table(g, second, second_after, q_left, q_right, d);
    law_placement_forgets_the_past(
        g,
        first,
        first_after,
        second,
        second_after,
        q_left,
        q_right,
    );
    let world = first_after.world;
    assert forall|p: int| 0 <= p < t.len() implies #[trigger] t[p] == u[p] by {
        let pair = first.pairs[p];
        assert(second.pairs[p].a == pair.a && second.pairs[p].b == pair.b);
        assert(crate::scan::gauged(g.distance, world[pair.a as int], world[pair.b as int], t[p]));
        assert(crate::scan::gauged(g.distance, world[pair.a as int], world[pair.b as int], u[p]));
        lemma_gauged_alike(g, world[pair.a as int], world[pair.b as int], t[p], u[p]);
    }
    assert(t =~= u);
    crate::scan::law_larger_margins_never_read_more(first.pairs, second.pairs, t, c, d);
}

/// A model with a single pair reads the raw distance of its two bodies, as
/// they stand, less the margin.
pub proof fn law_a_single_pair_reads_its_raw_distance<
    P: Fn(Side, JointVec) -> [Pose; ARM_DOF],
    T: Fn(Capsule, Pose) -> Capsule,
    D: Fn(Capsule, Capsule) -> CapsuleDistance,
>(
    g: Geometry<P, T, D>,
    before: ModelView,
    after: ModelView,
    q_left: JointVec,
    q_right: JointVec,
    c: Closest,
    pair: Pair,
    raw: Double,
)
    requires
        g.is_functional(),
        g.measures_numbers(),
        before.wf(),
        before.pairs == seq![pair],
        crate::model::succeeds(g, before, after, q_left, q_right, c),
        crate::scan::raw_distance(
            g.distance,
            after.world[pair.a as int],
            after.world[pair.b as int],
            raw,
        ),
    ensures
        !c.distance.is_nan(),
        !raw.difference(pair.margin).is_nan(),
        c.distance.value() == raw.difference(pair.margin).value(),
{
    let table = lemma_table(g, before, after, q_left, q_right, c);
    let (a, b) = (after.world[pair.a as int], after.world[pair.b as int]);
    let block = choose|block: Seq<Seq<CapsuleDistance>>| #[trigger]
        crate::scan::gauged(g.distance, a, b, block) && raw == crate::scan::least(block);
    assert(before.pairs[0] == pair);
    assert(crate::scan::gauged(g.distance, a, b, table[0]));
    lemma_gauged_alike(g, a, b, table[0], block);
    assert(table =~= seq![block]);
    crate::scan::law_a_single_pair_reads_its_raw_distance(pair, block, c);
}

/// The square of the distance of two points, in units of the smallest positive
/// double.
pub open spec fn gap_squared(a: Vector, b: Vector) -> int {
    let (x, y, z) = (
        a.x.value() - b.x.value(),
        a.y.value() - b.y.value(),
        a.z.value() - b.z.value(),
    );
    x * x + y * y + z * z
}

/// Whether a length, given by its square, is within `slack` of `length`.
pub open spec fn is_about(squared: int, length: int, slack: int) -> bool {
    &&& length >= slack ==> (length - slack) * (length - slack) <= squared
    &&& squared <= (length + slack) * (length + slack)
}

/// How far a number lies from zero.
pub open spec fn size_of(x: int) -> int {
    if x < 0 {
        -x
    } else {
        x
    }
}

/// The witnesses of a measurement lie as far apart as it says, to within
/// `slack`, or they coincide (no outward direction exists where the axes of
/// two capsules intersect).
pub open spec fn witnessed(m: CapsuleDistance, slack: int) -> bool {
    ||| gap_squared(m.on_a, m.on_b) == 0
    ||| is_about(gap_squared(m.on_a, m.on_b), size_of(m.distance.value()), slack)
}

/// Witnesses are raw geometry: where those of every measurement lie as far
/// apart as its distance, to within `slack`, those of the answer lie as far
/// apart as its distance plus the margin of the winning pair, to within `slack`
/// and what rounding the difference lost (at most half a gap between doubles);
/// or they coincide.
pub proof fn law_witnesses_are_raw(
    pairs: Seq<Pair>,
    table: Seq<Seq<Seq<CapsuleDistance>>>,
    c: Closest,
    slack: int,
) -> (r: (int, int))
    requires
        slack >= 0,
        table.len() == pairs.len(),
        crate::scan::all_numbers(pairs, table),
        crate::scan::scan(pairs, table) == Some(c),
        forall|p: int, i: int, j: int|
            0 <= p < table.len() && 0 <= i < table[p].len() && 0 <= j < table[p][i].len() ==> {
                &&& (#[trigger] table[p][i][j]).distance.is_finite()
                &&& witnessed(table[p][i][j], slack)
            },
        c.distance.is_finite(),
    ensures
        0 <= r.0 < pairs.len(),
        c.a == pairs[r.0].a,
        c.b == pairs[r.0].b,
        0 <= 2 * r.1 <= crate::double::gap(c.distance.magnitude()),
        gap_squared(c.on_a, c.on_b) == 0 || is_about(
            gap_squared(c.on_a, c.on_b),
            size_of(c.distance.value() + pairs[r.0].margin.value()),
            slack + r.1,
        ),
{
    crate::scan::law_closest_is_the_minimum(pairs, table);
    let (p, i, j) = choose|p: int, i: int, j: int| crate::scan::leads(pairs, table, c, p, i, j);
    let m = table[p][i][j];
    let margin = pairs[p].margin;
    assert(m.distance.is_finite() && witnessed(m, slack));
    assert(margin.is_finite());
    crate::arithmetic::law_differences_are_accurate(m.distance, margin);
    let loss = size_of(c.distance.value() - (m.distance.value() - margin.value()));
    let far = size_of(c.distance.value() + margin.value());
    let near = size_of(m.distance.value());
    let squared = gap_squared(m.on_a, m.on_b);
    assert(near - loss <= far <= near + loss);
    if squared != 0 {
        lemma_about(squared, near, slack, far, loss);
    }
    (p, loss)
}

/// The witnesses of a query's answer are raw geometry: where those of every
/// measurement of a checked pair, as the model stands, lie as far apart as its
/// distance, to within `slack`, those of the answer lie as far apart as its
/// distance plus the margin of the winning pair, to within `slack` and what
/// rounding the difference lost; or they coincide.
pub proof fn law_answers_have_raw_witnesses<
    P: Fn(Side, JointVec) -> [Pose; ARM_DOF],
    T: Fn(Capsule, Pose) -> Capsule,
    D: Fn(Capsule, Capsule) -> CapsuleDistance,
>(
    g: Geometry<P, T, D>,
    before: ModelView,
    after: ModelView,
    q_left: JointVec,
    q_right: JointVec,
    c: Closest,
    slack: int,
) -> (r: (int, int))
    requires
        slack >= 0,
        before.wf(),
        crate::model::succeeds(g, before, after, q_left, q_right, c),
        forall|p: int, i: int, j: int, x: CapsuleDistance| #[trigger]
            measured_at(g, after, p, i, j, x) ==> x.distance.is_finite() && witnessed(x, slack),
        c.distance.is_finite(),
    ensures
        0 <= r.0 < before.pairs.len(),
        c.a == before.pairs[r.0].a,
        c.b == before.pairs[r.0].b,
        0 <= 2 * r.1 <= crate::double::gap(c.distance.magnitude()),
        gap_squared(c.on_a, c.on_b) == 0 || is_about(
            gap_squared(c.on_a, c.on_b),
            size_of(c.distance.value() + before.pairs[r.0].margin.value()),
            slack + r.1,
        ),
{
    let table = choose|t: Seq<Seq<Seq<CapsuleDistance>>>|
        crate::model::answered(g, before, after, q_left, q_right, t, c);
    assert(asked(g, before, after, q_left, q_right));
    law_queries_keep_the_model(g, before, after, q_left, q_right);
    assert forall|p: int, i: int, j: int|
        0 <= p < table.len() && 0 <= i < table[p].len() && 0 <= j < table[p][i].len() implies {
        &&& (#[trigger] table[p][i][j]).distance.is_finite()
        &&& witnessed(table[p][i][j], slack)
    } by {
        let (a, b) = (
            after.world[after.pairs[p].a as int],
            after.world[after.pairs[p].b as int],
        );
        assert(crate::scan::gauged(g.distance, a, b, table[p]));
        assert(table[p][i].len() == b.len());
        assert(call_ensures(g.distance, (a[i], b[j]), table[p][i][j]));
        assert(measured_at(g, after, p, i, j, table[p][i][j]));
    }
    law_witnesses_are_raw(before.pairs, table, c, slack)
}

proof fn lemma_about(squared: int, near: int, slack: int, far: int, loss: int)
    requires
        is_about(squared, near, slack),
        near >= 0,
        slack >= 0,
        loss >= 0,
        near - loss <= far <= near + loss,
    ensures
        is_about(squared, far, slack + loss),
{
    let (a, b) = (far - (slack + loss), near - slack);
    let (c, d) = (near + slack, far + (slack + loss));
    if a >= 0 {
        assert(a * a <= b * b) by (nonlinear_arith)
            requires
                0 <= a <= b,
        ;
    }
    assert(c * c <= d * d) by (nonlinear_arith)
        requires
            0 <= c <= d,
    ;
}

/// An answer needs finite joint values and something to check: all fourteen
/// values are finite, and some pair has a capsule on both sides.
pub proof fn law_answers_need_finite_values_and_a_pair<
    P: Fn(Side, JointVec) -> [Pose; ARM_DOF],
    T: Fn(Capsule, Pose) -> Capsule,
    D: Fn(Capsule, Capsule) -> CapsuleDistance,
>(
    g: Geometry<P, T, D>,
    before: ModelView,
    after: ModelView,
    q_left: JointVec,
    q_right: JointVec,
    c: Closest,
)
    requires
        crate::model::succeeds(g, before, after, q_left, q_right, c),
    ensures
        forall|i: int| 0 <= i < 7 ==> (#[trigger] q_left@[i]).is_finite(),
        forall|i: int| 0 <= i < 7 ==> (#[trigger] q_right@[i]).is_finite(),
        exists|p: int|
            {
                &&& 0 <= p < before.pairs.len()
                &&& before.bodies[(#[trigger] before.pairs[p]).a as int].local.len() > 0
                &&& before.bodies[before.pairs[p].b as int].local.len() > 0
            },
{
    let p = choose|p: int|
        0 <= p < before.pairs.len() && !({
            let pair = #[trigger] before.pairs[p];
            ||| before.bodies[pair.a as int].local.len() == 0
            ||| before.bodies[pair.b as int].local.len() == 0
        });
    assert(before.bodies[before.pairs[p].a as int].local.len() > 0);
}

/// A refusal says why: some joint value is not finite, and then the model stays
/// as it is; or all are, and no pair has a capsule on both sides.
pub proof fn law_refusals_say_why<
    P: Fn(Side, JointVec) -> [Pose; ARM_DOF],
    T: Fn(Capsule, Pose) -> Capsule,
    D: Fn(Capsule, Capsule) -> CapsuleDistance,
>(
    g: Geometry<P, T, D>,
    before: ModelView,
    after: ModelView,
    q_left: JointVec,
    q_right: JointVec,
    fault: Fault,
)
    requires
        crate::model::refused(g, before, after, q_left, q_right, fault),
    ensures
        ({
            let left = forall|i: int| 0 <= i < 7 ==> (#[trigger] q_left@[i]).is_finite();
            let right = forall|i: int| 0 <= i < 7 ==> (#[trigger] q_right@[i]).is_finite();
            let finite = left && right;
            &&& !finite ==> fault == Fault::NonFiniteJoints && after == before
            &&& finite ==> {
                &&& fault == Fault::NoPairs
                &&& forall|p: int|
                    0 <= p < before.pairs.len() ==> {
                        ||| before.bodies[(#[trigger] before.pairs[p]).a as int].local.len() == 0
                        ||| before.bodies[before.pairs[p].b as int].local.len() == 0
                    }
            }
        }),
{
    let left = forall|i: int| 0 <= i < 7 ==> (#[trigger] q_left@[i]).is_finite();
    let right = forall|i: int| 0 <= i < 7 ==> (#[trigger] q_right@[i]).is_finite();
    assert(left == crate::policy::joints_finite(q_left));
    assert(right == crate::policy::joints_finite(q_right));
    if left && right {
        assert(before.nothing_to_check());
    }
}

} // verus!
