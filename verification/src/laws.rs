//! What holds of the models derived from a policy: what they check, what their
//! margins follow from, and what the reference poses read.
use vstd::prelude::*;

use crate::double::Double;
use crate::error::Fault;
use crate::geometry::Capsule;
use crate::geometry::CapsuleDistance;
use crate::geometry::Pose;
use crate::model::Geometry;
use crate::model::ModelView;
use crate::model::Side;
use crate::pairs::Pair;
use crate::policy::JointVec;
use crate::policy::Limit;
use crate::policy::ARM_DOF;
use crate::scan::Closest;

verus! {

/// The pairs of a derived model are exactly those that the structural rules
/// keep, each with its earlier body first.
pub proof fn law_derived_models_check_what_informs<
    P: Fn(Side, JointVec) -> [Pose; ARM_DOF],
    T: Fn(Capsule, Pose) -> Capsule,
    D: Fn(Capsule, Capsule) -> CapsuleDistance,
>(
    g: Geometry<P, T, D>,
    start: ModelView,
    references: Seq<JointVec>,
    headroom: Double,
    left_base: Seq<char>,
    right_base: Seq<char>,
    m: ModelView,
    i: usize,
    j: usize,
)
    requires
        m.wf(),
        crate::model::built(
            g,
            start,
            references,
            headroom,
            crate::model::derived(start.bodies, left_base, right_base),
            m,
        ),
    ensures
        (exists|s: int|
            0 <= s < m.pairs.len() && (#[trigger] m.pairs[s]).a == i && m.pairs[s].b == j) <==> {
            &&& i < j < m.bodies.len()
            &&& crate::model::lineage_of(
                m.bodies[i as int],
                left_base,
                right_base,
            ).informs(crate::model::lineage_of(m.bodies[j as int], left_base, right_base))
        },
{
    let checked = crate::model::derived(start.bodies, left_base, right_base);
    let lineage = crate::model::lineages(start.bodies, left_base, right_base);
    crate::pairs::law_checked_pairs_follow_the_rules(lineage, i as int, j as int);
    if checked.contains((i as int, j as int)) {
        let s = choose|s: int| 0 <= s < checked.len() && checked[s] == (i as int, j as int);
        assert(m.pairs[s].a == i && m.pairs[s].b == j);
    }
    if exists|s: int|
        0 <= s < m.pairs.len() && (#[trigger] m.pairs[s]).a == i && m.pairs[s].b == j {
        let s = choose|s: int|
            0 <= s < m.pairs.len() && (#[trigger] m.pairs[s]).a == i && m.pairs[s].b == j;
        assert(checked[s] == (i as int, j as int));
        assert(checked.contains((i as int, j as int)));
    }
}

/// The baseline of a pair is its smallest distance at the references.
proof fn lemma_baseline(base: Seq<Seq<Double>>, s: int)
    requires
        base.len() > 0,
        forall|r: int| 0 <= r < base.len() ==> !(#[trigger] base[r])[s].is_nan(),
    ensures
        !crate::model::baseline(base, s).is_nan(),
        forall|r: int|
            0 <= r < base.len() ==> crate::model::baseline(base, s).at_most(
                (#[trigger] base[r])[s],
            ),
        exists|r: int|
            0 <= r < base.len() && crate::model::baseline(base, s) == (#[trigger] base[r])[s],
    decreases base.len(),
{
    if base.len() == 1 {
        assert(crate::model::baseline(base, s) == base[0][s]);
    } else {
        let n = base.len() - 1;
        let rest = base.drop_last();
        assert forall|r: int| 0 <= r < rest.len() implies !(#[trigger] rest[r])[s].is_nan() by {
            assert(rest[r] == base[r]);
        }
        lemma_baseline(rest, s);
        assert(!base[n][s].is_nan());
        assert forall|r: int| 0 <= r < base.len() implies crate::model::baseline(base, s).at_most(
            (#[trigger] base[r])[s],
        ) by {
            if r < n {
                assert(rest[r] == base[r]);
            }
        }
        if crate::model::baseline(base, s) == base[n][s] {
        } else {
            let r = choose|r: int|
                0 <= r < rest.len() && crate::model::baseline(rest, s) == (#[trigger] rest[r])[s];
            assert(base[r][s] == crate::model::baseline(base, s));
        }
    }
}

/// What a tour measures is a number.
proof fn lemma_toured_numbers<
    P: Fn(Side, JointVec) -> [Pose; ARM_DOF],
    T: Fn(Capsule, Pose) -> Capsule,
    D: Fn(Capsule, Capsule) -> CapsuleDistance,
>(
    g: Geometry<P, T, D>,
    references: Seq<JointVec>,
    checked: Seq<(int, int)>,
    states: Seq<ModelView>,
    base: Seq<Seq<Double>>,
    s: int,
)
    requires
        crate::model::toured(g, references, checked, states, base),
        0 <= s < checked.len(),
    ensures
        forall|r: int| 0 <= r < base.len() ==> !(#[trigger] base[r])[s].is_nan(),
{
    assert forall|r: int| 0 <= r < base.len() implies !(#[trigger] base[r])[s].is_nan() by {
        let world = states[r + 1].world;
        assert(crate::scan::raw_distance(
            g.distance,
            world[checked[s].0],
            world[checked[s].1],
            base[r][s],
        ));
        let block = choose|block: Seq<Seq<CapsuleDistance>>| #[trigger]
            crate::scan::gauged(
                g.distance,
                world[checked[s].0],
                world[checked[s].1],
                block,
            ) && base[r][s] == crate::scan::least(block);
        crate::scan::law_least_is_a_lower_bound(block);
    }
}

/// A reference weakens protection for exactly the pairs it touches: a derived
/// pair is rebased where some reference brings it closer than the headroom,
/// and has no margin where none does.
pub proof fn law_only_touched_pairs_are_rebased<
    P: Fn(Side, JointVec) -> [Pose; ARM_DOF],
    T: Fn(Capsule, Pose) -> Capsule,
    D: Fn(Capsule, Capsule) -> CapsuleDistance,
>(
    g: Geometry<P, T, D>,
    references: Seq<JointVec>,
    headroom: Double,
    checked: Seq<(int, int)>,
    states: Seq<ModelView>,
    base: Seq<Seq<Double>>,
    s: int,
)
    requires
        references.len() > 0,
        headroom.is_finite(),
        Double::zero().less(headroom),
        crate::model::toured(g, references, checked, states, base),
        0 <= s < checked.len(),
    ensures
        ({
            let margin = crate::policy::margin_of(crate::model::baseline(base, s), headroom);
            let touched = exists|r: int|
                0 <= r < base.len() && (#[trigger] base[r])[s].less(headroom);
            &&& touched ==> margin.less(Double::zero())
            &&& !touched ==> margin == Double::zero()
        }),
{
    lemma_toured_numbers(g, references, checked, states, base, s);
    lemma_baseline(base, s);
    crate::policy::law_margins_are_never_positive(crate::model::baseline(base, s), headroom);
    let r = choose|r: int|
        0 <= r < base.len() && crate::model::baseline(base, s) == (#[trigger] base[r])[s];
    if crate::model::baseline(base, s).less(headroom) {
        assert(base[r][s].less(headroom));
    }
}

/// Every reference reads as clear: whatever was measured of a derived pair at
/// a reference reads at least the headroom, short of what rounding the margin
/// lost (next to nothing, see [`crate::policy::law_rebasing_is_accurate`]).
/// Where nothing was lost, the pair reads exactly the headroom at the closest
/// reference. `t` is any double to hold the readings against.
pub proof fn law_references_read_as_clear<
    P: Fn(Side, JointVec) -> [Pose; ARM_DOF],
    T: Fn(Capsule, Pose) -> Capsule,
    D: Fn(Capsule, Capsule) -> CapsuleDistance,
>(
    g: Geometry<P, T, D>,
    references: Seq<JointVec>,
    headroom: Double,
    checked: Seq<(int, int)>,
    states: Seq<ModelView>,
    base: Seq<Seq<Double>>,
    s: int,
    pair: Pair,
    t: Double,
)
    requires
        references.len() > 0,
        headroom.is_finite(),
        Double::zero().less(headroom),
        crate::model::toured(g, references, checked, states, base),
        0 <= s < checked.len(),
        pair.margin == crate::policy::margin_of(crate::model::baseline(base, s), headroom),
        pair.margin.is_finite(),
        !t.is_nan(),
        t.value() <= headroom.value() - crate::policy::shortfall(
            crate::model::baseline(base, s),
            headroom,
        ),
    ensures
        forall|r: int|
            0 <= r < references.len() ==> reads_clear(
                g.distance,
                states[r + 1].world,
                checked[s],
                (#[trigger] base[r])[s],
                pair,
                t,
            ),
        pair.margin.less(Double::zero()) && crate::policy::shortfall(
            crate::model::baseline(base, s),
            headroom,
        ) == 0 ==> exists|r: int|
            0 <= r < references.len() && (#[trigger] base[r])[s].difference(pair.margin).value()
                == headroom.value(),
{
    let low = crate::model::baseline(base, s);
    lemma_toured_numbers(g, references, checked, states, base, s);
    lemma_baseline(base, s);
    crate::policy::law_margins_are_never_positive(low, headroom);
    assert forall|r: int| 0 <= r < references.len() implies reads_clear(
        g.distance,
        states[r + 1].world,
        checked[s],
        (#[trigger] base[r])[s],
        pair,
        t,
    ) by {
        let (first, second) = (
            states[r + 1].world[checked[s].0],
            states[r + 1].world[checked[s].1],
        );
        assert(crate::scan::raw_distance(g.distance, first, second, base[r][s]));
        let block = choose|block: Seq<Seq<CapsuleDistance>>| #[trigger]
            crate::scan::gauged(g.distance, first, second, block) && base[r][s]
                == crate::scan::least(block);
        crate::scan::law_least_is_a_lower_bound(block);
        assert forall|i: int, j: int|
            0 <= i < block.len() && 0 <= j < block[i].len() && !(
        #[trigger] block[i][j]).distance.is_nan() implies t.at_most(
            crate::scan::adjusted(pair, block[i][j]),
        ) by {
            crate::policy::law_references_read_the_headroom(
                low,
                block[i][j].distance,
                headroom,
                t,
            );
        }
        assert(crate::scan::gauged(g.distance, first, second, block));
    }
    if pair.margin.less(Double::zero()) && crate::policy::shortfall(low, headroom) == 0 {
        let r = choose|r: int| 0 <= r < base.len() && low == (#[trigger] base[r])[s];
        crate::policy::law_references_read_the_headroom(low, base[r][s], headroom, t);
        assert(base[r][s].difference(pair.margin).value() == headroom.value());
    }
}

/// The two bodies lie at the given smallest distance of each other, and every
/// measurement of them that is a number reads at least `t`.
pub open spec fn reads_clear<D: Fn(Capsule, Capsule) -> CapsuleDistance>(
    distance: D,
    world: Seq<Seq<Capsule>>,
    bodies: (int, int),
    smallest: Double,
    pair: Pair,
    t: Double,
) -> bool {
    exists|block: Seq<Seq<CapsuleDistance>>|
        {
            &&& #[trigger] crate::scan::gauged(distance, world[bodies.0], world[bodies.1], block)
            &&& smallest == crate::scan::least(block)
            &&& forall|i: int, j: int|
                0 <= i < block.len() && 0 <= j < block[i].len() && !(
                #[trigger] block[i][j]).distance.is_nan() ==> t.at_most(
                    crate::scan::adjusted(pair, block[i][j]),
                )
        }
}

/// A model derived from a policy reads its references as clear: whatever was
/// asked of it before, a query at a reference, clamped into each arm's own
/// limits, gives at least the headroom, short of what rounding the margins
/// lost. `t` is any double to hold the answer against.
pub proof fn law_reference_queries_read_as_clear<
    P: Fn(Side, JointVec) -> [Pose; ARM_DOF],
    T: Fn(Capsule, Pose) -> Capsule,
    D: Fn(Capsule, Capsule) -> CapsuleDistance,
>(
    g: Geometry<P, T, D>,
    start: ModelView,
    references: Seq<JointVec>,
    headroom: Double,
    checked: Seq<(int, int)>,
    states: Seq<ModelView>,
    base: Seq<Seq<Double>>,
    r: int,
    before: ModelView,
    after: ModelView,
    q_left: JointVec,
    q_right: JointVec,
    table: Seq<Seq<Seq<CapsuleDistance>>>,
    c: Closest,
    t: Double,
)
    requires
        g.is_functional(),
        headroom.is_finite(),
        Double::zero().less(headroom),
        start.wf(),
        crate::model::built_by(g, start, references, checked, states, base),
        before.wf(),
        before.left == start.left,
        before.right == start.right,
        before.bodies == start.bodies,
        crate::model::paired(before.pairs, checked, base, headroom),
        0 <= r < references.len(),
        crate::policy::clamped_into(references[r], start.left, q_left),
        crate::policy::clamped_into(references[r], start.right, q_right),
        crate::model::answered(g, before, after, q_left, q_right, table, c),
        crate::scan::all_numbers(before.pairs, table),
        !t.is_nan(),
        forall|s: int|
            0 <= s < checked.len() ==> t.value() <= headroom.value() - crate::policy::shortfall(
                #[trigger] crate::model::baseline(base, s),
                headroom,
            ),
    ensures
        t.at_most(c.distance),
{
    let world = lemma_back_at_reference(
        g,
        references,
        checked,
        states,
        base,
        r,
        before,
        after,
        q_left,
        q_right,
    );
    crate::scan::law_closest_is_the_minimum(before.pairs, table);
    let (s, i, j) = choose|s: int, i: int, j: int|
        crate::scan::leads(before.pairs, table, c, s, i, j);
    let pair = before.pairs[s];
    law_references_read_as_clear(g, references, headroom, checked, states, base, s, pair, t);
    assert(base[r][s] == base[r][s]);
    let block = choose|block: Seq<Seq<CapsuleDistance>>|
        {
            &&& #[trigger] crate::scan::gauged(
                g.distance,
                world[checked[s].0],
                world[checked[s].1],
                block,
            )
            &&& base[r][s] == crate::scan::least(block)
            &&& forall|i: int, j: int|
                0 <= i < block.len() && 0 <= j < block[i].len() && !(
                #[trigger] block[i][j]).distance.is_nan() ==> t.at_most(
                    crate::scan::adjusted(pair, block[i][j]),
                )
        };
    crate::queries::lemma_gauged_alike(g, world[checked[s].0], world[checked[s].1], table[s], block);
    assert(block[i][j] == table[s][i][j]);
}

/// Two tours from the same model find the same distances at the same
/// reference.
proof fn lemma_same_reference<
    P: Fn(Side, JointVec) -> [Pose; ARM_DOF],
    T: Fn(Capsule, Pose) -> Capsule,
    D: Fn(Capsule, Capsule) -> CapsuleDistance,
>(
    g: Geometry<P, T, D>,
    checked: Seq<(int, int)>,
    first: Seq<JointVec>,
    first_states: Seq<ModelView>,
    first_base: Seq<Seq<Double>>,
    x: int,
    second: Seq<JointVec>,
    second_states: Seq<ModelView>,
    second_base: Seq<Seq<Double>>,
    y: int,
    s: int,
)
    requires
        g.is_functional(),
        crate::model::toured(g, first, checked, first_states, first_base),
        crate::model::toured(g, second, checked, second_states, second_base),
        first_states[0] == second_states[0],
        first_states[0].wf(),
        0 <= x < first.len(),
        0 <= y < second.len(),
        first[x] == second[y],
        0 <= s < checked.len(),
    ensures
        first_base[x][s] == second_base[y][s],
{
    lemma_states_alike(g, first, checked, first_states, first_base, x);
    lemma_states_alike(g, second, checked, second_states, second_base, y);
    let (a, b) = (first_states[x], first_states[x + 1]);
    let (c, d) = (second_states[y], second_states[y + 1]);
    let q = first[x];
    assert(crate::model::visited(g, a, b, first[x]));
    assert(crate::model::visited(g, c, d, second[y]));
    let (l, r) = choose|l: JointVec, r: JointVec|
        {
            &&& crate::policy::clamped_into(q, a.left, l)
            &&& crate::policy::clamped_into(q, a.right, r)
            &&& #[trigger] crate::model::placed(g, a, b, l, r)
        };
    let (m, n) = choose|m: JointVec, n: JointVec|
        {
            &&& crate::policy::clamped_into(q, c.left, m)
            &&& crate::policy::clamped_into(q, c.right, n)
            &&& #[trigger] crate::model::placed(g, c, d, m, n)
        };
    assert(l =~= m);
    assert(r =~= n);
    crate::queries::law_placement_forgets_the_past(g, a, b, c, d, l, r);
    let (one, two) = (b.world[checked[s].0], b.world[checked[s].1]);
    assert(crate::scan::raw_distance(g.distance, one, two, first_base[x][s]));
    assert(crate::scan::raw_distance(g.distance, one, two, second_base[y][s]));
    let u = choose|u: Seq<Seq<CapsuleDistance>>| #[trigger]
        crate::scan::gauged(g.distance, one, two, u) && first_base[x][s] == crate::scan::least(u);
    let v = choose|v: Seq<Seq<CapsuleDistance>>| #[trigger]
        crate::scan::gauged(g.distance, one, two, v) && second_base[y][s] == crate::scan::least(v);
    crate::queries::lemma_gauged_alike(g, one, two, u, v);
}

/// What more references do to the margin of one pair.
proof fn lemma_more_references<
    P: Fn(Side, JointVec) -> [Pose; ARM_DOF],
    T: Fn(Capsule, Pose) -> Capsule,
    D: Fn(Capsule, Capsule) -> CapsuleDistance,
>(
    g: Geometry<P, T, D>,
    headroom: Double,
    checked: Seq<(int, int)>,
    first: Seq<JointVec>,
    first_states: Seq<ModelView>,
    first_base: Seq<Seq<Double>>,
    second: Seq<JointVec>,
    second_states: Seq<ModelView>,
    second_base: Seq<Seq<Double>>,
    s: int,
)
    requires
        g.is_functional(),
        headroom.is_finite(),
        Double::zero().less(headroom),
        crate::model::toured(g, first, checked, first_states, first_base),
        crate::model::toured(g, second, checked, second_states, second_base),
        first_states[0] == second_states[0],
        first_states[0].wf(),
        first.len() > 0,
        forall|r: int| 0 <= r < first.len() ==> second.contains(#[trigger] first[r]),
        0 <= s < checked.len(),
    ensures
        crate::policy::margin_of(crate::model::baseline(second_base, s), headroom).at_most(
            crate::policy::margin_of(crate::model::baseline(first_base, s), headroom),
        ),
{
    assert(second.contains(first[0]));
    lemma_toured_numbers(g, first, checked, first_states, first_base, s);
    lemma_toured_numbers(g, second, checked, second_states, second_base, s);
    lemma_baseline(first_base, s);
    lemma_baseline(second_base, s);
    let low = crate::model::baseline(first_base, s);
    let x = choose|x: int| 0 <= x < first_base.len() && low == (#[trigger] first_base[x])[s];
    assert(second.contains(first[x]));
    let y = choose|y: int| 0 <= y < second.len() && second[y] == first[x];
    lemma_same_reference(
        g,
        checked,
        first,
        first_states,
        first_base,
        x,
        second,
        second_states,
        second_base,
        y,
        s,
    );
    assert(crate::model::baseline(second_base, s).at_most(second_base[y][s]));
    crate::policy::law_closer_baselines_get_smaller_margins(
        low,
        crate::model::baseline(second_base, s),
        headroom,
    );
}

/// More references only ever rebase further: where every reference of a first
/// policy is one of a second, with the same headroom, no derived pair has a
/// larger margin under the second.
pub proof fn law_more_references_never_raise_a_margin<
    P: Fn(Side, JointVec) -> [Pose; ARM_DOF],
    T: Fn(Capsule, Pose) -> Capsule,
    D: Fn(Capsule, Capsule) -> CapsuleDistance,
>(
    g: Geometry<P, T, D>,
    start: ModelView,
    headroom: Double,
    checked: Seq<(int, int)>,
    first: Seq<JointVec>,
    m: ModelView,
    second: Seq<JointVec>,
    n: ModelView,
)
    requires
        g.is_functional(),
        start.wf(),
        headroom.is_finite(),
        Double::zero().less(headroom),
        crate::model::built(g, start, first, headroom, checked, m),
        crate::model::built(g, start, second, headroom, checked, n),
        first.len() > 0,
        forall|r: int| 0 <= r < first.len() ==> second.contains(#[trigger] first[r]),
    ensures
        n.pairs.len() == m.pairs.len(),
        forall|s: int|
            0 <= s < m.pairs.len() ==> {
                &&& n.pairs[s].a == (#[trigger] m.pairs[s]).a
                &&& n.pairs[s].b == m.pairs[s].b
                &&& n.pairs[s].margin.at_most(m.pairs[s].margin)
            },
{
    let (t, u) = choose|t: Seq<ModelView>, u: Seq<Seq<Double>>|
        {
            &&& #[trigger] crate::model::built_by(g, start, first, checked, t, u)
            &&& crate::model::paired(m.pairs, checked, u, headroom)
        };
    let (v, w) = choose|v: Seq<ModelView>, w: Seq<Seq<Double>>|
        {
            &&& #[trigger] crate::model::built_by(g, start, second, checked, v, w)
            &&& crate::model::paired(n.pairs, checked, w, headroom)
        };
    assert forall|s: int| 0 <= s < m.pairs.len() implies {
        &&& n.pairs[s].a == (#[trigger] m.pairs[s]).a
        &&& n.pairs[s].b == m.pairs[s].b
        &&& n.pairs[s].margin.at_most(m.pairs[s].margin)
    } by {
        lemma_more_references(g, headroom, checked, first, t, u, second, v, w, s);
        assert(n.pairs[s].a == checked[s].0 && n.pairs[s].b == checked[s].1);
    }
}

/// Neither the order of the references nor repeats among them matter: two
/// policies with the same headroom and the same poses derive the same pairs
/// with the same margins.
pub proof fn law_references_are_a_set<
    P: Fn(Side, JointVec) -> [Pose; ARM_DOF],
    T: Fn(Capsule, Pose) -> Capsule,
    D: Fn(Capsule, Capsule) -> CapsuleDistance,
>(
    g: Geometry<P, T, D>,
    start: ModelView,
    headroom: Double,
    checked: Seq<(int, int)>,
    first: Seq<JointVec>,
    m: ModelView,
    second: Seq<JointVec>,
    n: ModelView,
)
    requires
        g.is_functional(),
        start.wf(),
        headroom.is_finite(),
        Double::zero().less(headroom),
        crate::model::built(g, start, first, headroom, checked, m),
        crate::model::built(g, start, second, headroom, checked, n),
        first.len() > 0,
        forall|r: int| 0 <= r < first.len() ==> second.contains(#[trigger] first[r]),
        forall|r: int| 0 <= r < second.len() ==> first.contains(#[trigger] second[r]),
    ensures
        m.pairs == n.pairs,
{
    assert(second.contains(first[0]));
    law_more_references_never_raise_a_margin(g, start, headroom, checked, first, m, second, n);
    law_more_references_never_raise_a_margin(g, start, headroom, checked, second, n, first, m);
    let (t, u) = choose|t: Seq<ModelView>, u: Seq<Seq<Double>>|
        {
            &&& #[trigger] crate::model::built_by(g, start, first, checked, t, u)
            &&& crate::model::paired(m.pairs, checked, u, headroom)
        };
    let (v, w) = choose|v: Seq<ModelView>, w: Seq<Seq<Double>>|
        {
            &&& #[trigger] crate::model::built_by(g, start, second, checked, v, w)
            &&& crate::model::paired(n.pairs, checked, w, headroom)
        };
    assert forall|s: int| 0 <= s < checked.len() implies #[trigger] m.pairs[s] == n.pairs[s] by {
        let (x, y) = (m.pairs[s].margin, n.pairs[s].margin);
        crate::policy::law_margins_are_never_positive(crate::model::baseline(u, s), headroom);
        crate::policy::law_margins_are_never_positive(crate::model::baseline(w, s), headroom);
        crate::double::lemma_magnitude_order(x.magnitude(), y.magnitude());
        assert(n.pairs[s].a == m.pairs[s].a && n.pairs[s].b == m.pairs[s].b);
        assert(y == crate::policy::margin_of(crate::model::baseline(w, s), headroom));
        assert(x == y);
    }
    assert(m.pairs =~= n.pairs);
}

/// A snug pair reads no more than the headroom at the reference that it is
/// closest at, beyond what rounding its margin lost: so does the query there.
/// A sole reference is the closest one of every pair. `t` is any double to
/// hold the answer against.
pub proof fn law_snug_references_read_no_more<
    P: Fn(Side, JointVec) -> [Pose; ARM_DOF],
    T: Fn(Capsule, Pose) -> Capsule,
    D: Fn(Capsule, Capsule) -> CapsuleDistance,
>(
    g: Geometry<P, T, D>,
    start: ModelView,
    references: Seq<JointVec>,
    headroom: Double,
    checked: Seq<(int, int)>,
    states: Seq<ModelView>,
    base: Seq<Seq<Double>>,
    r: int,
    s: int,
    before: ModelView,
    after: ModelView,
    q_left: JointVec,
    q_right: JointVec,
    table: Seq<Seq<Seq<CapsuleDistance>>>,
    c: Closest,
    t: Double,
)
    requires
        g.is_functional(),
        headroom.is_finite(),
        Double::zero().less(headroom),
        start.wf(),
        crate::model::built_by(g, start, references, checked, states, base),
        before.wf(),
        before.left == start.left,
        before.right == start.right,
        before.bodies == start.bodies,
        crate::model::paired(before.pairs, checked, base, headroom),
        0 <= r < references.len(),
        crate::policy::clamped_into(references[r], start.left, q_left),
        crate::policy::clamped_into(references[r], start.right, q_right),
        crate::model::answered(g, before, after, q_left, q_right, table, c),
        crate::scan::all_numbers(before.pairs, table),
        0 <= s < checked.len(),
        before.pairs[s].margin.less(Double::zero()),
        references.len() == 1 || base[r][s] == crate::model::baseline(base, s),
        !t.is_nan(),
        headroom.value() - crate::policy::shortfall(crate::model::baseline(base, s), headroom)
            <= t.value(),
    ensures
        c.distance.at_most(t),
{
    let world = lemma_back_at_reference(
        g,
        references,
        checked,
        states,
        base,
        r,
        before,
        after,
        q_left,
        q_right,
    );
    let low = crate::model::baseline(base, s);
    let pair = before.pairs[s];
    lemma_toured_numbers(g, references, checked, states, base, s);
    lemma_baseline(base, s);
    assert(base[r][s] == low);
    crate::policy::law_margins_are_never_positive(low, headroom);
    let (one, two) = (world[checked[s].0], world[checked[s].1]);
    assert(crate::scan::raw_distance(g.distance, one, two, base[r][s]));
    let block = choose|block: Seq<Seq<CapsuleDistance>>| #[trigger]
        crate::scan::gauged(g.distance, one, two, block) && base[r][s] == crate::scan::least(block);
    assert(pair.a == checked[s].0 && pair.b == checked[s].1);
    assert(crate::scan::gauged(g.distance, one, two, table[s]));
    crate::queries::lemma_gauged_alike(g, one, two, table[s], block);
    crate::scan::law_least_is_a_lower_bound(block);
    crate::double::lemma_magnitude_order(
        headroom.magnitude(),
        crate::double::INFINITE as int,
    );
    let (i, j) = choose|i: int, j: int|
        0 <= i < block.len() && 0 <= j < block[i].len() && (
        #[trigger] block[i][j]).distance == low;
    crate::policy::law_references_read_the_headroom(low, low, headroom, t);
    crate::scan::law_closest_is_the_minimum(before.pairs, table);
    assert(c.distance.at_most(crate::scan::adjusted(before.pairs[s], table[s][i][j])));
}

/// The capsules stand at a reference as they stood on the tour.
proof fn lemma_back_at_reference<
    P: Fn(Side, JointVec) -> [Pose; ARM_DOF],
    T: Fn(Capsule, Pose) -> Capsule,
    D: Fn(Capsule, Capsule) -> CapsuleDistance,
>(
    g: Geometry<P, T, D>,
    references: Seq<JointVec>,
    checked: Seq<(int, int)>,
    states: Seq<ModelView>,
    base: Seq<Seq<Double>>,
    r: int,
    before: ModelView,
    after: ModelView,
    q_left: JointVec,
    q_right: JointVec,
) -> (world: Seq<Seq<Capsule>>)
    requires
        g.is_functional(),
        crate::model::toured(g, references, checked, states, base),
        states[0].wf(),
        before.wf(),
        before.bodies == states[0].bodies,
        0 <= r < references.len(),
        crate::policy::clamped_into(references[r], states[0].left, q_left),
        crate::policy::clamped_into(references[r], states[0].right, q_right),
        crate::model::placed(g, before, after, q_left, q_right),
    ensures
        world == after.world,
        world == states[r + 1].world,
{
    lemma_states_alike(g, references, checked, states, base, r);
    assert(crate::model::visited(g, states[r], states[r + 1], references[r]));
    let (p_left, p_right) = choose|p_left: JointVec, p_right: JointVec|
        {
            &&& crate::policy::clamped_into(references[r], states[r].left, p_left)
            &&& crate::policy::clamped_into(references[r], states[r].right, p_right)
            &&& #[trigger] crate::model::placed(g, states[r], states[r + 1], p_left, p_right)
        };
    assert(p_left =~= q_left);
    assert(p_right =~= q_right);
    crate::queries::law_placement_forgets_the_past(
        g,
        states[r],
        states[r + 1],
        before,
        after,
        q_left,
        q_right,
    );
    after.world
}

/// The models of a tour differ in their capsules' places only.
proof fn lemma_states_alike<
    P: Fn(Side, JointVec) -> [Pose; ARM_DOF],
    T: Fn(Capsule, Pose) -> Capsule,
    D: Fn(Capsule, Capsule) -> CapsuleDistance,
>(
    g: Geometry<P, T, D>,
    references: Seq<JointVec>,
    checked: Seq<(int, int)>,
    states: Seq<ModelView>,
    base: Seq<Seq<Double>>,
    r: int,
)
    requires
        crate::model::toured(g, references, checked, states, base),
        states[0].wf(),
        0 <= r <= references.len(),
    ensures
        states[r].wf(),
        states[r].left == states[0].left,
        states[r].right == states[0].right,
        states[r].bodies == states[0].bodies,
    decreases r,
{
    if r > 0 {
        lemma_states_alike(g, references, checked, states, base, r - 1);
        let (before, after) = (states[r - 1], states[r - 1 + 1]);
        assert(crate::model::visited(g, before, after, references[r - 1]));
        let (p_left, p_right) = choose|p_left: JointVec, p_right: JointVec|
            {
                &&& crate::policy::clamped_into(references[r - 1], before.left, p_left)
                &&& crate::policy::clamped_into(references[r - 1], before.right, p_right)
                &&& #[trigger] crate::model::placed(g, before, after, p_left, p_right)
            };
        let (left, right) = choose|left: [Pose; ARM_DOF], right: [Pose; ARM_DOF]|
            crate::model::posed(g, before, after, p_left, p_right, left, right);
        crate::model::lemma_placed_wf(g.transform, before, after, left@, right@);
    }
}

/// Whether joint values are the nearest ones in the ranges of an arm: one
/// inside its range stays as it is, any other becomes the end it is beyond.
pub open spec fn is_nearest_in(q: JointVec, limits: [Limit; ARM_DOF], r: JointVec) -> bool {
    forall|i: int|
        0 <= i < 7 ==> {
            &&& limits@[i].lo.at_most(#[trigger] r@[i])
            &&& r@[i].at_most(limits@[i].hi)
            &&& limits@[i].lo.at_most(q@[i]) && q@[i].at_most(limits@[i].hi) ==> r@[i] == q@[i]
            &&& q@[i].less(limits@[i].lo) ==> r@[i] == limits@[i].lo
            &&& limits@[i].hi.less(q@[i]) ==> r@[i] == limits@[i].hi
        }
}

/// The capsules of a robot stand where the poses of its links take them, the
/// poses being those at a reference moved into each arm's own ranges.
pub open spec fn stands_at<
    P: Fn(Side, JointVec) -> [Pose; ARM_DOF],
    T: Fn(Capsule, Pose) -> Capsule,
    D: Fn(Capsule, Capsule) -> CapsuleDistance,
>(
    g: Geometry<P, T, D>,
    robot: ModelView,
    reference: JointVec,
    world: Seq<Seq<Capsule>>,
    joints: (JointVec, JointVec),
    poses: ([Pose; ARM_DOF], [Pose; ARM_DOF]),
) -> bool {
    &&& is_nearest_in(reference, robot.left, joints.0)
    &&& is_nearest_in(reference, robot.right, joints.1)
    &&& call_ensures(g.poses, (Side::Left, joints.0), poses.0)
    &&& call_ensures(g.poses, (Side::Right, joints.1), poses.1)
    &&& world.len() == robot.bodies.len()
    &&& forall|k: int|
        0 <= k < world.len() ==> crate::assembly::stands(
            g.transform,
            robot.bodies[k],
            poses.0,
            poses.1,
            #[trigger] world[k],
        )
}

/// The capsules of a robot stand as at a reference.
pub open spec fn is_taken_to<
    P: Fn(Side, JointVec) -> [Pose; ARM_DOF],
    T: Fn(Capsule, Pose) -> Capsule,
    D: Fn(Capsule, Capsule) -> CapsuleDistance,
>(
    g: Geometry<P, T, D>,
    robot: ModelView,
    reference: JointVec,
    world: Seq<Seq<Capsule>>,
) -> bool {
    exists|joints: (JointVec, JointVec), poses: ([Pose; ARM_DOF], [Pose; ARM_DOF])|
        stands_at(g, robot, reference, world, joints, poses)
}

proof fn lemma_stands_at<
    P: Fn(Side, JointVec) -> [Pose; ARM_DOF],
    T: Fn(Capsule, Pose) -> Capsule,
    D: Fn(Capsule, Capsule) -> CapsuleDistance,
>(
    g: Geometry<P, T, D>,
    references: Seq<JointVec>,
    checked: Seq<(int, int)>,
    states: Seq<ModelView>,
    base: Seq<Seq<Double>>,
    r: int,
) -> (found: ((JointVec, JointVec), ([Pose; ARM_DOF], [Pose; ARM_DOF])))
    requires
        crate::model::toured(g, references, checked, states, base),
        states[0].wf(),
        crate::policy::limits_ordered(states[0].left),
        crate::policy::limits_ordered(states[0].right),
        0 <= r < references.len(),
        crate::policy::joints_finite(references[r]),
    ensures
        stands_at(g, states[0], references[r], states[r + 1].world, found.0, found.1),
{
    let q = references[r];
    lemma_states_alike(g, references, checked, states, base, r);
    assert(crate::model::visited(g, states[r], states[r + 1], q));
    let (p_left, p_right) = choose|p_left: JointVec, p_right: JointVec|
        {
            &&& crate::policy::clamped_into(q, states[r].left, p_left)
            &&& crate::policy::clamped_into(q, states[r].right, p_right)
            &&& #[trigger] crate::model::placed(g, states[r], states[r + 1], p_left, p_right)
        };
    let poses = crate::assembly::law_links_follow_their_poses(
        g,
        states[r],
        states[r + 1],
        p_left,
        p_right,
    );
    lemma_nearest_in(q, states[0].left, p_left);
    lemma_nearest_in(q, states[0].right, p_right);
    ((p_left, p_right), poses)
}

proof fn lemma_nearest_in(q: JointVec, limits: [Limit; ARM_DOF], r: JointVec)
    requires
        crate::policy::joints_finite(q),
        crate::policy::limits_ordered(limits),
        crate::policy::clamped_into(q, limits, r),
    ensures
        is_nearest_in(q, limits, r),
{
    assert forall|i: int| 0 <= i < 7 implies {
        &&& limits@[i].lo.at_most(#[trigger] r@[i])
        &&& r@[i].at_most(limits@[i].hi)
        &&& limits@[i].lo.at_most(q@[i]) && q@[i].at_most(limits@[i].hi) ==> r@[i] == q@[i]
        &&& q@[i].less(limits@[i].lo) ==> r@[i] == limits@[i].lo
        &&& limits@[i].hi.less(q@[i]) ==> r@[i] == limits@[i].hi
    } by {
        crate::policy::law_clamping_moves_into_the_range(q, limits, r, i);
    }
}

/// `tables[k][x][y]` is what was measured of capsule `x` of one body and
/// capsule `y` of another, where they stand in `worlds[k]`.
pub open spec fn all_measured<D: Fn(Capsule, Capsule) -> CapsuleDistance>(
    distance: D,
    worlds: Seq<Seq<Seq<Capsule>>>,
    a: int,
    b: int,
    tables: Seq<Seq<Seq<CapsuleDistance>>>,
) -> bool {
    &&& tables.len() == worlds.len()
    &&& forall|k: int|
        0 <= k < worlds.len() ==> (#[trigger] tables[k]).len() == worlds[k][a].len()
    &&& forall|k: int, x: int|
        0 <= k < worlds.len() && 0 <= x < tables[k].len() ==> (#[trigger] tables[k][x]).len()
            == worlds[k][b].len()
    &&& forall|k: int, x: int, y: int|
        0 <= k < worlds.len() && 0 <= x < tables[k].len() && 0 <= y < tables[k][x].len()
            ==> call_ensures(
            distance,
            (worlds[k][a][x], worlds[k][b][y]),
            #[trigger] tables[k][x][y],
        )
}

/// Whether an entry of the tables is a number below the headroom.
pub open spec fn is_touching(
    tables: Seq<Seq<Seq<CapsuleDistance>>>,
    headroom: Double,
    k: int,
    x: int,
    y: int,
) -> bool {
    &&& 0 <= k < tables.len()
    &&& 0 <= x < tables[k].len()
    &&& 0 <= y < tables[k][x].len()
    &&& tables[k][x][y].distance.less(headroom)
}

/// Whether a margin is the smallest difference of a distance and the headroom,
/// of the distances below it; or zero where there are none.
pub open spec fn rebases_the_closest(
    tables: Seq<Seq<Seq<CapsuleDistance>>>,
    headroom: Double,
    margin: Double,
) -> bool {
    &&& (exists|k: int, x: int, y: int| #[trigger] is_touching(tables, headroom, k, x, y)) ==> {
        exists|k: int, x: int, y: int|
            {
                &&& #[trigger] is_touching(tables, headroom, k, x, y)
                &&& margin == tables[k][x][y].distance.difference(headroom)
            }
    }
    &&& forall|k: int, x: int, y: int| #[trigger]
        is_touching(tables, headroom, k, x, y) ==> margin.at_most(
            tables[k][x][y].distance.difference(headroom),
        )
    &&& (forall|k: int, x: int, y: int| !#[trigger] is_touching(tables, headroom, k, x, y))
        ==> margin == Double::zero()
}

proof fn lemma_margins<
    P: Fn(Side, JointVec) -> [Pose; ARM_DOF],
    T: Fn(Capsule, Pose) -> Capsule,
    D: Fn(Capsule, Capsule) -> CapsuleDistance,
>(
    g: Geometry<P, T, D>,
    start: ModelView,
    references: Seq<JointVec>,
    headroom: Double,
    checked: Seq<(int, int)>,
    states: Seq<ModelView>,
    base: Seq<Seq<Double>>,
    s: int,
) -> (r: (Seq<Seq<Seq<Capsule>>>, Seq<Seq<Seq<CapsuleDistance>>>))
    requires
        start.wf(),
        crate::policy::limits_ordered(start.left),
        crate::policy::limits_ordered(start.right),
        references.len() > 0,
        forall|k: int|
            0 <= k < references.len() ==> crate::policy::joints_finite(#[trigger] references[k]),
        headroom.is_finite(),
        Double::zero().less(headroom),
        crate::model::built_by(g, start, references, checked, states, base),
        0 <= s < checked.len(),
    ensures
        r.0.len() == references.len(),
        forall|k: int|
            0 <= k < references.len() ==> is_taken_to(g, start, references[k], #[trigger] r.0[k]),
        states.last().world == r.0.last(),
        all_measured(g.distance, r.0, checked[s].0, checked[s].1, r.1),
        rebases_the_closest(
            r.1,
            headroom,
            crate::policy::margin_of(crate::model::baseline(base, s), headroom),
        ),
{
    let worlds = Seq::new(references.len(), |k: int| states[k + 1].world);
    let (a, b) = checked[s];
    let tables = Seq::new(
        references.len(),
        |k: int|
            choose|block: Seq<Seq<CapsuleDistance>>| #[trigger]
                crate::scan::gauged(g.distance, worlds[k][a], worlds[k][b], block) && base[k][s]
                    == crate::scan::least(block),
    );
    assert forall|k: int| 0 <= k < references.len() implies is_taken_to(
        g,
        start,
        references[k],
        #[trigger] worlds[k],
    ) by {
        assert(crate::policy::joints_finite(references[k]));
        let found = lemma_stands_at(g, references, checked, states, base, k);
        assert(stands_at(g, start, references[k], worlds[k], found.0, found.1));
    }
    assert forall|k: int| 0 <= k < references.len() implies crate::scan::gauged(
        g.distance,
        worlds[k][a],
        worlds[k][b],
        #[trigger] tables[k],
    ) && base[k][s] == crate::scan::least(tables[k]) by {
        let world = states[k + 1].world;
        assert(crate::scan::raw_distance(
            g.distance,
            world[checked[s].0],
            world[checked[s].1],
            base[k][s],
        ));
    }
    assert(all_measured(g.distance, worlds, a, b, tables)) by {
        assert forall|k: int|
            0 <= k < worlds.len() implies (#[trigger] tables[k]).len() == worlds[k][a].len() by {}
        assert forall|k: int, x: int|
            0 <= k < worlds.len() && 0 <= x < tables[k].len() implies (
        #[trigger] tables[k][x]).len() == worlds[k][b].len() by {
            assert(tables[k].len() >= 0);
        }
        assert forall|k: int, x: int, y: int|
            0 <= k < worlds.len() && 0 <= x < tables[k].len() && 0 <= y
                < tables[k][x].len() implies call_ensures(
            g.distance,
            (worlds[k][a][x], worlds[k][b][y]),
            #[trigger] tables[k][x][y],
        ) by {
            assert(tables[k].len() >= 0);
        }
    }
    let low = crate::model::baseline(base, s);
    lemma_toured_numbers(g, references, checked, states, base, s);
    lemma_baseline(base, s);
    let margin = crate::policy::margin_of(low, headroom);
    assert forall|k: int, x: int, y: int| #[trigger]
        is_touching(tables, headroom, k, x, y) implies margin.at_most(
        tables[k][x][y].distance.difference(headroom),
    ) && low.less(headroom) by {
        let d = tables[k][x][y].distance;
        assert(base[k][s] == crate::scan::least(tables[k]));
        crate::scan::law_least_is_a_lower_bound(tables[k]);
        assert(low.at_most(base[k][s]));
        assert(low.at_most(d));
        crate::arithmetic::law_differences_keep_the_order(low, d, headroom);
    }
    if low.less(headroom) {
        let k = choose|k: int| 0 <= k < base.len() && low == (#[trigger] base[k])[s];
        assert(base[k][s] == crate::scan::least(tables[k]));
        crate::scan::law_least_is_a_lower_bound(tables[k]);
        crate::double::lemma_magnitude_order(
            headroom.magnitude(),
            crate::double::INFINITE as int,
        );
        crate::double::lemma_magnitude_order(0, crate::double::INFINITE as int);
        let (x, y) = choose|x: int, y: int|
            0 <= x < tables[k].len() && 0 <= y < tables[k][x].len() && (
            #[trigger] tables[k][x][y]).distance == low;
        assert(low != (Double { bits: crate::double::INFINITE }));
        assert(tables[k][x][y].distance == low);
        assert(is_touching(tables, headroom, k, x, y));
        assert(margin == tables[k][x][y].distance.difference(headroom));
        assert(rebases_the_closest(tables, headroom, margin));
    } else {
        assert(rebases_the_closest(tables, headroom, margin));
    }
    (worlds, tables)
}

/// The margin of a derived pair is what makes its closest reference read the
/// headroom. All references are visited, each moved into the ranges of each
/// arm, and the capsules of the two bodies are measured there. Where some
/// distance is below the headroom, the margin is the difference of one of those
/// distances and the headroom, and of none is that difference smaller; where
/// none is, the pair has no margin.
pub proof fn law_margins_follow_the_closest_reference<
    P: Fn(Side, JointVec) -> [Pose; ARM_DOF],
    T: Fn(Capsule, Pose) -> Capsule,
    D: Fn(Capsule, Capsule) -> CapsuleDistance,
>(
    g: Geometry<P, T, D>,
    start: ModelView,
    references: Seq<JointVec>,
    headroom: Double,
    checked: Seq<(int, int)>,
    m: ModelView,
    s: int,
) -> (r: (Seq<Seq<Seq<Capsule>>>, Seq<Seq<Seq<CapsuleDistance>>>))
    requires
        start.wf(),
        m.wf(),
        crate::policy::limits_ordered(start.left),
        crate::policy::limits_ordered(start.right),
        references.len() > 0,
        forall|k: int|
            0 <= k < references.len() ==> crate::policy::joints_finite(#[trigger] references[k]),
        headroom.is_finite(),
        Double::zero().less(headroom),
        crate::model::built(g, start, references, headroom, checked, m),
        0 <= s < m.pairs.len(),
    ensures
        r.0.len() == references.len(),
        forall|k: int|
            0 <= k < references.len() ==> is_taken_to(g, start, references[k], #[trigger] r.0[k]),
        m.world == r.0.last(),
        all_measured(g.distance, r.0, m.pairs[s].a as int, m.pairs[s].b as int, r.1),
        rebases_the_closest(r.1, headroom, m.pairs[s].margin),
{
    let (states, base) = choose|states: Seq<ModelView>, base: Seq<Seq<Double>>|
        {
            &&& #[trigger] crate::model::built_by(g, start, references, checked, states, base)
            &&& m.left == start.left
            &&& m.right == start.right
            &&& m.bodies == start.bodies
            &&& m.world == states.last().world
            &&& crate::model::paired(m.pairs, checked, base, headroom)
        };
    let pair = m.pairs[s];
    assert(checked[s] == (pair.a as int, pair.b as int));
    lemma_margins(g, start, references, headroom, checked, states, base, s)
}

/// Building fails for a margin that is not finite and nothing else: of some
/// derived pair, the margin that its closest reference asks for is not finite,
/// and the fault names its two bodies.
pub proof fn law_unbuilt_robots_have_an_unbounded_margin<
    P: Fn(Side, JointVec) -> [Pose; ARM_DOF],
    T: Fn(Capsule, Pose) -> Capsule,
    D: Fn(Capsule, Capsule) -> CapsuleDistance,
>(
    g: Geometry<P, T, D>,
    start: ModelView,
    references: Seq<JointVec>,
    headroom: Double,
    checked: Seq<(int, int)>,
    fault: Fault,
) -> (r: (int, Seq<Seq<Seq<Capsule>>>, Seq<Seq<Seq<CapsuleDistance>>>, Double))
    requires
        start.wf(),
        crate::policy::limits_ordered(start.left),
        crate::policy::limits_ordered(start.right),
        references.len() > 0,
        forall|k: int|
            0 <= k < references.len() ==> crate::policy::joints_finite(#[trigger] references[k]),
        headroom.is_finite(),
        Double::zero().less(headroom),
        crate::model::unbuildable(g, start, references, headroom, checked, fault),
    ensures
        0 <= r.0 < checked.len(),
        fault == Fault::NonFiniteMargin(
            start.names()[checked[r.0].0],
            start.names()[checked[r.0].1],
        ),
        r.1.len() == references.len(),
        forall|k: int|
            0 <= k < references.len() ==> is_taken_to(g, start, references[k], #[trigger] r.1[k]),
        all_measured(g.distance, r.1, checked[r.0].0, checked[r.0].1, r.2),
        rebases_the_closest(r.2, headroom, r.3),
        !r.3.is_finite(),
{
    let (states, base, s) = choose|states: Seq<ModelView>, base: Seq<Seq<Double>>, s: int|
        {
            &&& #[trigger] crate::model::built_by(g, start, references, checked, states, base)
            &&& 0 <= s < checked.len()
            &&& #[trigger] crate::model::unbounded(base, headroom, s)
            &&& forall|i: int|
                0 <= i < s ==> !#[trigger] crate::model::unbounded(base, headroom, i)
            &&& fault == Fault::NonFiniteMargin(
                start.names()[checked[s].0],
                start.names()[checked[s].1],
            )
        };
    let found = lemma_margins(g, start, references, headroom, checked, states, base, s);
    (s, found.0, found.1, crate::policy::margin_of(crate::model::baseline(base, s), headroom))
}

} // verus!
