//! Measuring capsules against each other, and keeping the closest approach.
//!
//! The distance of two capsules is handed in as a function. What it answers is
//! laid down in tables, one row per capsule of the first body, and every
//! statement about the closest approach is one about those tables.
use vstd::prelude::*;

use crate::double::Double;
use crate::double::INFINITE;
use crate::geometry::Capsule;
use crate::geometry::CapsuleDistance;
use crate::pairs::Pair;

verus! {

/// The closest approach found so far: its margin-adjusted distance, the two
/// bodies and the witness points.
#[derive(Clone, Copy, Debug, PartialEq, Eq, Structural)]
pub struct Closest {
    pub distance: Double,
    pub a: usize,
    pub b: usize,
    pub on_a: crate::geometry::Vector,
    pub on_b: crate::geometry::Vector,
}

/// `block[i][j]` is what `distance` answered for capsule `i` of the first body
/// and capsule `j` of the second.
pub open spec fn gauged<D: Fn(Capsule, Capsule) -> CapsuleDistance>(
    distance: D,
    first: Seq<Capsule>,
    second: Seq<Capsule>,
    block: Seq<Seq<CapsuleDistance>>,
) -> bool {
    &&& block.len() == first.len()
    &&& forall|i: int| 0 <= i < first.len() ==> (#[trigger] block[i]).len() == second.len()
    &&& forall|i: int, j: int|
        0 <= i < first.len() && 0 <= j < second.len() ==> call_ensures(
            distance,
            (first[i], second[j]),
            #[trigger] block[i][j],
        )
}

/// `table[p]` holds what `distance` answered for the bodies of pair `p`.
pub open spec fn surveyed<D: Fn(Capsule, Capsule) -> CapsuleDistance>(
    distance: D,
    world: Seq<Seq<Capsule>>,
    pairs: Seq<Pair>,
    table: Seq<Seq<Seq<CapsuleDistance>>>,
) -> bool {
    &&& table.len() == pairs.len()
    &&& forall|p: int|
        0 <= p < pairs.len() ==> gauged(
            distance,
            world[pairs[p].a as int],
            world[pairs[p].b as int],
            #[trigger] table[p],
        )
}

/// The distance of a measurement, relative to the margin of its pair.
pub open spec fn adjusted(pair: Pair, m: CapsuleDistance) -> Double {
    m.distance.difference(pair.margin)
}

/// A measurement of a pair, as an approach of its two bodies.
pub open spec fn approach(pair: Pair, m: CapsuleDistance) -> Closest {
    Closest {
        distance: adjusted(pair, m),
        a: pair.a,
        b: pair.b,
        on_a: m.on_a,
        on_b: m.on_b,
    }
}

/// One more measurement: it is kept where it is the first or strictly closer.
pub open spec fn closer(best: Option<Closest>, pair: Pair, m: CapsuleDistance) -> Option<Closest> {
    let found = approach(pair, m);
    match best {
        None => Some(found),
        Some(c) => if found.distance.less(c.distance) {
            Some(found)
        } else {
            best
        },
    }
}

/// A row of measurements, one after the other.
pub open spec fn scan_row(
    best: Option<Closest>,
    pair: Pair,
    row: Seq<CapsuleDistance>,
) -> Option<Closest>
    decreases row.len(),
{
    if row.len() == 0 {
        best
    } else {
        closer(scan_row(best, pair, row.drop_last()), pair, row.last())
    }
}

/// The rows of a pair, one after the other.
pub open spec fn scan_block(
    best: Option<Closest>,
    pair: Pair,
    block: Seq<Seq<CapsuleDistance>>,
) -> Option<Closest>
    decreases block.len(),
{
    if block.len() == 0 {
        best
    } else {
        scan_row(scan_block(best, pair, block.drop_last()), pair, block.last())
    }
}

/// All pairs, one after the other: the closest approach over them.
pub open spec fn scan(
    pairs: Seq<Pair>,
    table: Seq<Seq<Seq<CapsuleDistance>>>,
) -> Option<Closest>
    decreases pairs.len(),
{
    if pairs.len() == 0 {
        None
    } else {
        scan_block(scan(pairs.drop_last(), table.drop_last()), pairs.last(), table.last())
    }
}

/// The smallest distance of a row, starting from `start`.
pub open spec fn least_in_row(start: Double, row: Seq<CapsuleDistance>) -> Double
    decreases row.len(),
{
    if row.len() == 0 {
        start
    } else {
        least_in_row(start, row.drop_last()).lesser(row.last().distance)
    }
}

/// The smallest distance of two bodies, infinite where nothing was measured.
pub open spec fn least(block: Seq<Seq<CapsuleDistance>>) -> Double
    decreases block.len(),
{
    if block.len() == 0 {
        Double { bits: INFINITE }
    } else {
        least_in_row(least(block.drop_last()), block.last())
    }
}

/// `d` is the smallest of the distances that `distance` answered for the
/// capsules of two bodies.
pub open spec fn raw_distance<D: Fn(Capsule, Capsule) -> CapsuleDistance>(
    distance: D,
    first: Seq<Capsule>,
    second: Seq<Capsule>,
    d: Double,
) -> bool {
    exists|block: Seq<Seq<CapsuleDistance>>| #[trigger]
        gauged(distance, first, second, block) && d == least(block)
}

/// One more capsule of the first body.
proof fn lemma_gauged_push<D: Fn(Capsule, Capsule) -> CapsuleDistance>(
    distance: D,
    first: Seq<Capsule>,
    second: Seq<Capsule>,
    n: int,
    block: Seq<Seq<CapsuleDistance>>,
    row: Seq<CapsuleDistance>,
)
    requires
        0 <= n < first.len(),
        gauged(distance, first.take(n), second, block),
        row.len() == second.len(),
        forall|j: int|
            0 <= j < second.len() ==> call_ensures(
                distance,
                (first[n], second[j]),
                #[trigger] row[j],
            ),
    ensures
        gauged(distance, first.take(n + 1), second, block.push(row)),
        block.push(row).drop_last() == block,
{
    let all = block.push(row);
    assert(all.drop_last() =~= block);
    assert forall|i: int, j: int| 0 <= i < n + 1 && 0 <= j < second.len() implies call_ensures(
        distance,
        (first.take(n + 1)[i], second[j]),
        #[trigger] all[i][j],
    ) by {
        if i < n {
            assert(first.take(n)[i] == first[i]);
            assert(block[i][j] == all[i][j]);
        } else {
            assert(row[j] == all[i][j]);
        }
    }
}

/// One more measurement.
fn keep_closer(best: Option<Closest>, pair: &Pair, m: CapsuleDistance) -> (r: Option<Closest>)
    ensures
        r == closer(best, *pair, m),
{
    let found: Closest = Closest {
        distance: m.distance.sub(pair.margin),
        a: pair.a,
        b: pair.b,
        on_a: m.on_a,
        on_b: m.on_b,
    };
    match best {
        None => Some(found),
        Some(c) => {
            if found.distance.lt(c.distance) {
                Some(found)
            } else {
                best
            }
        },
    }
}

/// Measures one pair of bodies, capsule by capsule.
pub fn scan_pair<D: Fn(Capsule, Capsule) -> CapsuleDistance>(
    start: Option<Closest>,
    pair: &Pair,
    first: &Vec<Capsule>,
    second: &Vec<Capsule>,
    distance: &D,
) -> (r: (Option<Closest>, Ghost<Seq<Seq<CapsuleDistance>>>))
    requires
        forall|a: Capsule, b: Capsule| call_requires(*distance, (a, b)),
    ensures
        gauged(*distance, first@, second@, r.1@),
        r.0 == scan_block(start, *pair, r.1@),
{
    let mut best: Option<Closest> = start;
    let ghost mut block: Seq<Seq<CapsuleDistance>> = Seq::empty();
    let mut i: usize = 0;
    while i < first.len()
        invariant
            i <= first@.len(),
            gauged(*distance, first@.take(i as int), second@, block),
            best == scan_block(start, *pair, block),
            forall|a: Capsule, b: Capsule| call_requires(*distance, (a, b)),
        decreases first.len() - i,
    {
        let ghost before = best;
        let ghost mut row: Seq<CapsuleDistance> = Seq::empty();
        let mut j: usize = 0;
        while j < second.len()
            invariant
                i < first@.len(),
                j <= second@.len(),
                row.len() == j,
                best == scan_row(before, *pair, row),
                forall|k: int|
                    0 <= k < j ==> call_ensures(
                        *distance,
                        (first@[i as int], second@[k]),
                        #[trigger] row[k],
                    ),
                forall|a: Capsule, b: Capsule| call_requires(*distance, (a, b)),
            decreases second.len() - j,
        {
            let m: CapsuleDistance = distance(first[i], second[j]);
            best = keep_closer(best, pair, m);
            proof {
                assert(row.push(m).drop_last() =~= row);
                row = row.push(m);
            }
            j = j + 1;
        }
        proof {
            lemma_gauged_push(*distance, first@, second@, i as int, block, row);
            block = block.push(row);
        }
        i = i + 1;
    }
    proof {
        assert(first@.take(i as int) =~= first@);
    }
    (best, Ghost(block))
}

/// The smallest distance of two bodies, without a margin.
pub fn measure_pair<D: Fn(Capsule, Capsule) -> CapsuleDistance>(
    first: &Vec<Capsule>,
    second: &Vec<Capsule>,
    distance: &D,
) -> (r: Double)
    requires
        forall|a: Capsule, b: Capsule| call_requires(*distance, (a, b)),
    ensures
        raw_distance(*distance, first@, second@, r),
{
    let mut best: Double = Double { bits: INFINITE };
    let ghost mut block: Seq<Seq<CapsuleDistance>> = Seq::empty();
    let mut i: usize = 0;
    while i < first.len()
        invariant
            i <= first@.len(),
            gauged(*distance, first@.take(i as int), second@, block),
            best == least(block),
            forall|a: Capsule, b: Capsule| call_requires(*distance, (a, b)),
        decreases first.len() - i,
    {
        let ghost before = best;
        let ghost mut row: Seq<CapsuleDistance> = Seq::empty();
        let mut j: usize = 0;
        while j < second.len()
            invariant
                i < first@.len(),
                j <= second@.len(),
                row.len() == j,
                best == least_in_row(before, row),
                forall|k: int|
                    0 <= k < j ==> call_ensures(
                        *distance,
                        (first@[i as int], second@[k]),
                        #[trigger] row[k],
                    ),
                forall|a: Capsule, b: Capsule| call_requires(*distance, (a, b)),
            decreases second.len() - j,
        {
            let m: CapsuleDistance = distance(first[i], second[j]);
            best = best.min(m.distance);
            proof {
                assert(row.push(m).drop_last() =~= row);
                row = row.push(m);
            }
            j = j + 1;
        }
        proof {
            lemma_gauged_push(*distance, first@, second@, i as int, block, row);
            block = block.push(row);
        }
        i = i + 1;
    }
    proof {
        assert(first@.take(i as int) =~= first@);
    }
    best
}

/// Whether a row holds numbers only.
spec fn sound_row(pair: Pair, row: Seq<CapsuleDistance>) -> bool {
    forall|j: int| 0 <= j < row.len() ==> !adjusted(pair, #[trigger] row[j]).is_nan()
}

/// The closest approach is that of measurement `j`, which is strictly closer
/// than `best` and than every measurement before it.
spec fn leads_row(
    best: Option<Closest>,
    pair: Pair,
    row: Seq<CapsuleDistance>,
    c: Closest,
    j: int,
) -> bool {
    &&& 0 <= j < row.len()
    &&& c == approach(pair, row[j])
    &&& best matches Some(b) ==> c.distance.less(b.distance)
    &&& forall|k: int| 0 <= k < j ==> c.distance.less(adjusted(pair, #[trigger] row[k]))
}

proof fn lemma_scan_row(best: Option<Closest>, pair: Pair, row: Seq<CapsuleDistance>)
    requires
        best matches Some(b) ==> !b.distance.is_nan(),
        sound_row(pair, row),
    ensures
        scan_row(best, pair, row) matches Some(c) ==> {
            &&& !c.distance.is_nan()
            &&& best matches Some(b) ==> c.distance.at_most(b.distance)
            &&& forall|j: int|
                0 <= j < row.len() ==> c.distance.at_most(adjusted(pair, #[trigger] row[j]))
            &&& best == Some(c) || exists|j: int| leads_row(best, pair, row, c, j)
        },
    decreases row.len(),
{
    if row.len() > 0 {
        let rest = row.drop_last();
        assert(forall|j: int| 0 <= j < rest.len() ==> rest[j] == row[j]);
        assert forall|j: int| 0 <= j < rest.len() implies !adjusted(
            pair,
            #[trigger] rest[j],
        ).is_nan() by {
            assert(rest[j] == row[j]);
        }
        lemma_scan_row(best, pair, rest);
        let before = scan_row(best, pair, rest);
        let c = scan_row(best, pair, row)->0;
        lemma_row_none(best, pair, rest);
        assert(row.last() == row[row.len() - 1]);
        assert(!adjusted(pair, row[row.len() - 1]).is_nan());
        assert forall|j: int| 0 <= j < row.len() implies c.distance.at_most(
            adjusted(pair, #[trigger] row[j]),
        ) by {
            if j < rest.len() {
                assert(rest[j] == row[j]);
            }
        }
        if before == Some(c) {
            if best != Some(c) {
                let j = choose|j: int| leads_row(best, pair, rest, c, j);
                assert forall|k: int| 0 <= k < j implies c.distance.less(
                    adjusted(pair, #[trigger] row[k]),
                ) by {
                    assert(rest[k] == row[k]);
                }
                assert(leads_row(best, pair, row, c, j));
            }
        } else {
            assert forall|k: int| 0 <= k < rest.len() implies c.distance.less(
                adjusted(pair, #[trigger] row[k]),
            ) by {
                assert(rest[k] == row[k]);
            }
            assert(leads_row(best, pair, row, c, row.len() - 1));
        }
    }
}

spec fn sound_block(pair: Pair, block: Seq<Seq<CapsuleDistance>>) -> bool {
    forall|i: int| 0 <= i < block.len() ==> sound_row(pair, #[trigger] block[i])
}

/// The closest approach is that of measurement `i`, `j`, which is strictly
/// closer than `best` and than every measurement before it.
spec fn leads_block(
    best: Option<Closest>,
    pair: Pair,
    block: Seq<Seq<CapsuleDistance>>,
    c: Closest,
    i: int,
    j: int,
) -> bool {
    &&& 0 <= i < block.len()
    &&& 0 <= j < block[i].len()
    &&& c == approach(pair, block[i][j])
    &&& best matches Some(b) ==> c.distance.less(b.distance)
    &&& forall|k: int, l: int|
        0 <= k <= i && 0 <= l < block[k].len() && (k < i || l < j) ==> c.distance.less(
            adjusted(pair, #[trigger] block[k][l]),
        )
}

proof fn lemma_scan_block(best: Option<Closest>, pair: Pair, block: Seq<Seq<CapsuleDistance>>)
    requires
        best matches Some(b) ==> !b.distance.is_nan(),
        sound_block(pair, block),
    ensures
        scan_block(best, pair, block) matches Some(c) ==> {
            &&& !c.distance.is_nan()
            &&& best matches Some(b) ==> c.distance.at_most(b.distance)
            &&& forall|i: int, j: int|
                0 <= i < block.len() && 0 <= j < block[i].len() ==> c.distance.at_most(
                    adjusted(pair, #[trigger] block[i][j]),
                )
            &&& best == Some(c) || exists|i: int, j: int| leads_block(best, pair, block, c, i, j)
        },
    decreases block.len(),
{
    if block.len() > 0 {
        let rest = block.drop_last();
        let last = block.last();
        assert(last == block[block.len() - 1]);
        assert forall|i: int| 0 <= i < rest.len() implies sound_row(pair, #[trigger] rest[i]) by {
            assert(rest[i] == block[i]);
        }
        assert(sound_row(pair, block[block.len() - 1]));
        lemma_scan_block(best, pair, rest);
        let before = scan_block(best, pair, rest);
        lemma_scan_row(before, pair, last);
        lemma_block_none(best, pair, rest);
        lemma_row_none(before, pair, last);
        if scan_block(best, pair, block) is Some {
            let c = scan_block(best, pair, block)->0;
            assert forall|i: int, j: int|
                0 <= i < block.len() && 0 <= j < block[i].len() implies c.distance.at_most(
                adjusted(pair, #[trigger] block[i][j]),
            ) by {
                if i < rest.len() {
                    assert(rest[i][j] == block[i][j]);
                } else {
                    assert(last[j] == block[i][j]);
                }
            }
            if before == Some(c) {
                if best != Some(c) {
                    let (i, j) = choose|i: int, j: int| leads_block(best, pair, rest, c, i, j);
                    assert forall|k: int, l: int|
                        0 <= k <= i && 0 <= l < block[k].len() && (k < i || l
                            < j) implies c.distance.less(
                        adjusted(pair, #[trigger] block[k][l]),
                    ) by {
                        assert(rest[k][l] == block[k][l]);
                    }
                    assert(leads_block(best, pair, block, c, i, j));
                }
            } else {
                let n = block.len() - 1;
                let j = choose|j: int| leads_row(before, pair, last, c, j);
                assert forall|k: int, l: int|
                    0 <= k <= n && 0 <= l < block[k].len() && (k < n || l
                        < j) implies c.distance.less(adjusted(pair, #[trigger] block[k][l])) by {
                    if k < n {
                        assert(rest[k][l] == block[k][l]);
                    } else {
                        assert(last[l] == block[k][l]);
                    }
                }
                assert(leads_block(best, pair, block, c, n, j));
            }
        }
    }
}

/// Whether every margin is finite and every measured distance is a number.
pub open spec fn all_numbers(pairs: Seq<Pair>, table: Seq<Seq<Seq<CapsuleDistance>>>) -> bool {
    &&& forall|p: int| 0 <= p < pairs.len() ==> (#[trigger] pairs[p]).margin.is_finite()
    &&& forall|p: int, i: int, j: int|
        0 <= p < pairs.len() && 0 <= i < table[p].len() && 0 <= j < table[p][i].len()
            ==> !(#[trigger] table[p][i][j]).distance.is_nan()
}

/// Whether a survey measured nothing.
pub open spec fn is_empty(table: Seq<Seq<Seq<CapsuleDistance>>>) -> bool {
    forall|p: int, i: int|
        0 <= p < table.len() && 0 <= i < table[p].len() ==> (#[trigger] table[p][i]).len() == 0
}

/// The bodies of the closest approach are bodies of a pair.
pub proof fn lemma_scan_bodies(
    pairs: Seq<Pair>,
    table: Seq<Seq<Seq<CapsuleDistance>>>,
    n: int,
)
    requires
        table.len() == pairs.len(),
        forall|p: int| 0 <= p < pairs.len() ==> (#[trigger] pairs[p]).a < n && pairs[p].b < n,
    ensures
        scan(pairs, table) matches Some(c) ==> c.a < n && c.b < n,
    decreases pairs.len(),
{
    if pairs.len() > 0 {
        let k = pairs.len() - 1;
        lemma_scan_bodies(pairs.drop_last(), table.drop_last(), n);
        lemma_block_bodies(
            scan(pairs.drop_last(), table.drop_last()),
            pairs[k],
            table[k],
            n,
        );
    }
}

proof fn lemma_block_bodies(
    best: Option<Closest>,
    pair: Pair,
    block: Seq<Seq<CapsuleDistance>>,
    n: int,
)
    requires
        best matches Some(c) ==> c.a < n && c.b < n,
        pair.a < n && pair.b < n,
    ensures
        scan_block(best, pair, block) matches Some(c) ==> c.a < n && c.b < n,
    decreases block.len(),
{
    if block.len() > 0 {
        lemma_block_bodies(best, pair, block.drop_last(), n);
        lemma_row_bodies(scan_block(best, pair, block.drop_last()), pair, block.last(), n);
    }
}

proof fn lemma_row_bodies(best: Option<Closest>, pair: Pair, row: Seq<CapsuleDistance>, n: int)
    requires
        best matches Some(c) ==> c.a < n && c.b < n,
        pair.a < n && pair.b < n,
    ensures
        scan_row(best, pair, row) matches Some(c) ==> c.a < n && c.b < n,
    decreases row.len(),
{
    if row.len() > 0 {
        lemma_row_bodies(best, pair, row.drop_last(), n);
    }
}

/// The closest approach is one of those measured, whatever was measured.
pub proof fn lemma_scan_is_measured(
    pairs: Seq<Pair>,
    table: Seq<Seq<Seq<CapsuleDistance>>>,
) -> (r: (int, int, int))
    requires
        table.len() == pairs.len(),
        scan(pairs, table) is Some,
    ensures
        0 <= r.0 < pairs.len(),
        0 <= r.1 < table[r.0].len(),
        0 <= r.2 < table[r.0][r.1].len(),
        ({
            let c = scan(pairs, table)->0;
            let m = table[r.0][r.1][r.2];
            &&& c.distance == m.distance.difference(pairs[r.0].margin)
            &&& c.a == pairs[r.0].a
            &&& c.b == pairs[r.0].b
            &&& c.on_a == m.on_a
            &&& c.on_b == m.on_b
        }),
    decreases pairs.len(),
{
    let n = pairs.len() - 1;
    let before = scan(pairs.drop_last(), table.drop_last());
    if scan(pairs, table) == before {
        lemma_scan_is_measured(pairs.drop_last(), table.drop_last())
    } else {
        let (i, j) = lemma_block_is_measured(before, pairs[n], table[n]);
        (n, i, j)
    }
}

proof fn lemma_block_is_measured(
    best: Option<Closest>,
    pair: Pair,
    block: Seq<Seq<CapsuleDistance>>,
) -> (r: (int, int))
    requires
        scan_block(best, pair, block) != best,
    ensures
        0 <= r.0 < block.len(),
        0 <= r.1 < block[r.0].len(),
        scan_block(best, pair, block) == Some(approach(pair, block[r.0][r.1])),
    decreases block.len(),
{
    let n = block.len() - 1;
    let rest = block.drop_last();
    let before = scan_block(best, pair, rest);
    if scan_block(best, pair, block) == before {
        lemma_block_is_measured(best, pair, rest)
    } else {
        (n, lemma_row_is_measured(before, pair, block[n]))
    }
}

proof fn lemma_row_is_measured(
    best: Option<Closest>,
    pair: Pair,
    row: Seq<CapsuleDistance>,
) -> (j: int)
    requires
        scan_row(best, pair, row) != best,
    ensures
        0 <= j < row.len(),
        scan_row(best, pair, row) == Some(approach(pair, row[j])),
    decreases row.len(),
{
    let rest = row.drop_last();
    if scan_row(best, pair, row) == scan_row(best, pair, rest) {
        lemma_row_is_measured(best, pair, rest)
    } else {
        row.len() - 1
    }
}

/// There is a closest approach unless nothing was measured.
pub proof fn lemma_scan_none(pairs: Seq<Pair>, table: Seq<Seq<Seq<CapsuleDistance>>>)
    requires
        table.len() == pairs.len(),
    ensures
        scan(pairs, table) is None <==> is_empty(table),
    decreases pairs.len(),
{
    if pairs.len() > 0 {
        let n = pairs.len() - 1;
        let head = table.drop_last();
        lemma_scan_none(pairs.drop_last(), head);
        lemma_block_none(scan(pairs.drop_last(), head), pairs[n], table[n]);
        if is_empty(table) {
            assert forall|p: int, i: int|
                0 <= p < head.len() && 0 <= i < head[p].len() implies (#[trigger] head[p][i]).len()
                == 0 by {
                assert(head[p][i] == table[p][i]);
            }
        } else {
            let (p, i) = choose|p: int, i: int|
                0 <= p < table.len() && 0 <= i < table[p].len() && (#[trigger] table[p][i]).len()
                    != 0;
            if p < n {
                assert(head[p][i].len() != 0);
            }
        }
    }
}

proof fn lemma_block_none(best: Option<Closest>, pair: Pair, block: Seq<Seq<CapsuleDistance>>)
    ensures
        scan_block(best, pair, block) is None <==> best is None && forall|i: int|
            0 <= i < block.len() ==> (#[trigger] block[i]).len() == 0,
    decreases block.len(),
{
    if block.len() > 0 {
        let n = block.len() - 1;
        let rest = block.drop_last();
        lemma_block_none(best, pair, rest);
        lemma_row_none(scan_block(best, pair, rest), pair, block[n]);
        if scan_block(best, pair, block) is None {
            assert forall|i: int| 0 <= i < block.len() implies (#[trigger] block[i]).len()
                == 0 by {
                if i < n {
                    assert(rest[i] == block[i]);
                }
            }
        } else if best is None && forall|i: int|
            0 <= i < block.len() ==> (#[trigger] block[i]).len() == 0 {
            assert forall|i: int| 0 <= i < rest.len() implies (#[trigger] rest[i]).len() == 0 by {
                assert(rest[i] == block[i]);
            }
            assert(block[n].len() == 0);
        }
    }
}

proof fn lemma_row_none(best: Option<Closest>, pair: Pair, row: Seq<CapsuleDistance>)
    ensures
        scan_row(best, pair, row) is None <==> best is None && row.len() == 0,
    decreases row.len(),
{
    if row.len() > 0 {
        lemma_row_none(best, pair, row.drop_last());
    }
}

/// What was found so far is only replaced by something strictly closer: what
/// is no number stays, and a number gives way to lesser numbers only.
pub open spec fn keeps(best: Option<Closest>, r: Option<Closest>) -> bool {
    best matches Some(b) ==> (r matches Some(c) && if b.distance.is_nan() {
        c == b
    } else {
        c.distance.at_most(b.distance)
    })
}

/// Whether the closest approach, where it is a number, is no farther than a
/// reading that is one.
pub open spec fn is_bound(r: Option<Closest>, x: Double) -> bool {
    r matches Some(c) ==> c.distance.is_nan() || x.is_nan() || c.distance.at_most(x)
}

proof fn lemma_row_keeps(best: Option<Closest>, pair: Pair, row: Seq<CapsuleDistance>)
    ensures
        keeps(best, scan_row(best, pair, row)),
        best is None && row.len() > 0 ==> keeps(
            Some(approach(pair, row[0])),
            scan_row(best, pair, row),
        ),
        forall|j: int|
            0 <= j < row.len() ==> is_bound(
                scan_row(best, pair, row),
                (#[trigger] row[j]).distance.difference(pair.margin),
            ),
    decreases row.len(),
{
    if row.len() > 0 {
        let rest = row.drop_last();
        let n = row.len() - 1;
        let r = scan_row(best, pair, row);
        lemma_row_keeps(best, pair, rest);
        lemma_row_none(best, pair, rest);
        assert forall|j: int| 0 <= j < row.len() implies is_bound(
            r,
            (#[trigger] row[j]).distance.difference(pair.margin),
        ) by {
            if j < n {
                assert(rest[j] == row[j]);
            }
        }
    }
}

proof fn lemma_block_keeps(
    best: Option<Closest>,
    pair: Pair,
    block: Seq<Seq<CapsuleDistance>>,
    f: int,
)
    ensures
        keeps(best, scan_block(best, pair, block)),
        best is None && 0 <= f < block.len() && block[f].len() > 0 && (forall|i: int|
            0 <= i < f ==> (#[trigger] block[i]).len() == 0) ==> keeps(
            Some(approach(pair, block[f][0])),
            scan_block(best, pair, block),
        ),
        forall|i: int, j: int|
            0 <= i < block.len() && 0 <= j < block[i].len() ==> is_bound(
                scan_block(best, pair, block),
                (#[trigger] block[i][j]).distance.difference(pair.margin),
            ),
    decreases block.len(),
{
    if block.len() > 0 {
        let rest = block.drop_last();
        let n = block.len() - 1;
        let before = scan_block(best, pair, rest);
        let r = scan_block(best, pair, block);
        lemma_block_keeps(best, pair, rest, f);
        lemma_row_keeps(before, pair, block[n]);
        assert forall|i: int, j: int| 0 <= i < block.len() && 0 <= j < block[i].len() implies {
            is_bound(r, (#[trigger] block[i][j]).distance.difference(pair.margin))
        } by {
            if i < n {
                assert(rest[i][j] == block[i][j]);
                assert(is_bound(before, rest[i][j].distance.difference(pair.margin)));
                lemma_block_none(best, pair, rest);
                assert(rest[i].len() > 0);
            }
        }
        if best is None && 0 <= f < block.len() && block[f].len() > 0 && forall|i: int|
            0 <= i < f ==> (#[trigger] block[i]).len() == 0 {
            if f < n {
                assert forall|i: int| 0 <= i < f implies (#[trigger] rest[i]).len() == 0 by {
                    assert(rest[i] == block[i]);
                }
            } else {
                lemma_block_none(best, pair, rest);
                assert forall|i: int| 0 <= i < rest.len() implies (#[trigger] rest[i]).len()
                    == 0 by {
                    assert(rest[i] == block[i]);
                }
            }
        }
    }
}

/// What is no number counts only where it comes first: the first reading stays
/// where it is none, and otherwise the closest approach is a number, and no
/// farther than any reading that is one. `f` is the first capsule of the first
/// pair `p` that is measured against anything.
pub proof fn law_only_the_first_reading_may_be_no_number(
    pairs: Seq<Pair>,
    table: Seq<Seq<Seq<CapsuleDistance>>>,
    p: int,
    f: int,
)
    requires
        table.len() == pairs.len(),
        0 <= p < pairs.len(),
        0 <= f < table[p].len(),
        table[p][f].len() > 0,
        forall|q: int, i: int|
            0 <= q <= p && 0 <= i < table[q].len() && (q < p || i < f) ==> (
            #[trigger] table[q][i]).len() == 0,
    ensures
        scan(pairs, table) matches Some(c) && {
            let m = table[p][f][0];
            let first = m.distance.difference(pairs[p].margin);
            &&& first.is_nan() ==> {
                &&& c.distance == first
                &&& c.a == pairs[p].a
                &&& c.b == pairs[p].b
                &&& c.on_a == m.on_a
                &&& c.on_b == m.on_b
            }
            &&& !first.is_nan() ==> {
                &&& !c.distance.is_nan()
                &&& forall|q: int, i: int, j: int|
                    0 <= q < table.len() && 0 <= i < table[q].len() && 0 <= j < table[q][i].len()
                        ==> {
                        let x = (#[trigger] table[q][i][j]).distance.difference(pairs[q].margin);
                        x.is_nan() || c.distance.at_most(x)
                    }
            }
        },
{
    lemma_scan_keeps(pairs, table, p, f);
    assert forall|q: int, i: int, j: int|
        0 <= q < table.len() && 0 <= i < table[q].len() && 0 <= j
            < table[q][i].len() implies is_bound(
        scan(pairs, table),
        (#[trigger] table[q][i][j]).distance.difference(pairs[q].margin),
    ) by {}
}

proof fn lemma_scan_keeps(
    pairs: Seq<Pair>,
    table: Seq<Seq<Seq<CapsuleDistance>>>,
    p: int,
    f: int,
)
    requires
        table.len() == pairs.len(),
    ensures
        0 <= p < pairs.len() && 0 <= f < table[p].len() && table[p][f].len() > 0 && (forall|
            q: int,
            i: int,
        |
            0 <= q <= p && 0 <= i < table[q].len() && (q < p || i < f) ==> (
            #[trigger] table[q][i]).len() == 0) ==> keeps(
            Some(approach(pairs[p], table[p][f][0])),
            scan(pairs, table),
        ),
        forall|q: int, i: int, j: int|
            0 <= q < table.len() && 0 <= i < table[q].len() && 0 <= j < table[q][i].len()
                ==> is_bound(
                scan(pairs, table),
                (#[trigger] table[q][i][j]).distance.difference(pairs[q].margin),
            ),
    decreases pairs.len(),
{
    if pairs.len() > 0 {
        let n = pairs.len() - 1;
        let head = table.drop_last();
        let some = pairs.drop_last();
        let before = scan(some, head);
        let r = scan(pairs, table);
        lemma_scan_keeps(some, head, p, f);
        lemma_block_keeps(before, pairs[n], table[n], f);
        lemma_scan_none(some, head);
        assert forall|q: int, i: int, j: int|
            0 <= q < table.len() && 0 <= i < table[q].len() && 0 <= j
                < table[q][i].len() implies is_bound(
            r,
            (#[trigger] table[q][i][j]).distance.difference(pairs[q].margin),
        ) by {
            if q < n {
                assert(head[q][i][j] == table[q][i][j]);
                assert(is_bound(
                    before,
                    head[q][i][j].distance.difference(some[q].margin),
                ));
                assert(head[q][i].len() > 0);
            } else {
                assert(table[n][i][j] == table[q][i][j]);
            }
        }
        if 0 <= p < pairs.len() && 0 <= f < table[p].len() && table[p][f].len() > 0 && forall|
            q: int,
            i: int,
        |
            0 <= q <= p && 0 <= i < table[q].len() && (q < p || i < f) ==> (
            #[trigger] table[q][i]).len() == 0 {
            if p < n {
                assert(head[p][f] == table[p][f]);
                assert forall|q: int, i: int|
                    0 <= q <= p && 0 <= i < head[q].len() && (q < p || i < f) implies (
                #[trigger] head[q][i]).len() == 0 by {
                    assert(head[q][i] == table[q][i]);
                }
            } else {
                assert forall|q: int, i: int|
                    0 <= q < head.len() && 0 <= i < head[q].len() implies (
                #[trigger] head[q][i]).len() == 0 by {
                    assert(head[q][i] == table[q][i]);
                }
                assert(before is None);
                assert forall|i: int| 0 <= i < f implies (#[trigger] table[n][i]).len() == 0 by {
                    assert(table[p][i].len() == 0);
                }
            }
        }
    }
}

/// The closest approach is that of measurement `i`, `j` of pair `p`, and every
/// measurement before that one, in the order of the pairs and then of the
/// capsules, is strictly farther.
pub open spec fn leads(
    pairs: Seq<Pair>,
    table: Seq<Seq<Seq<CapsuleDistance>>>,
    c: Closest,
    p: int,
    i: int,
    j: int,
) -> bool {
    &&& 0 <= p < pairs.len()
    &&& 0 <= i < table[p].len()
    &&& 0 <= j < table[p][i].len()
    &&& c == approach(pairs[p], table[p][i][j])
    &&& forall|q: int, k: int, l: int|
        {
            &&& 0 <= q <= p
            &&& 0 <= k < table[q].len()
            &&& 0 <= l < table[q][k].len()
            &&& q < p || k < i || (k == i && l < j)
        } ==> c.distance.less(adjusted(pairs[q], #[trigger] table[q][k][l]))
}

/// The closest approach is the minimum: it is one of the measured approaches,
/// none of the others is closer, and there is one unless nothing was measured.
/// Of several it is the first, in the order of the pairs and then of the
/// capsules.
pub proof fn law_closest_is_the_minimum(
    pairs: Seq<Pair>,
    table: Seq<Seq<Seq<CapsuleDistance>>>,
)
    requires
        table.len() == pairs.len(),
        all_numbers(pairs, table),
    ensures
        scan(pairs, table) is None <==> is_empty(table),
        scan(pairs, table) matches Some(c) ==> {
            &&& !c.distance.is_nan()
            &&& forall|p: int, i: int, j: int|
                0 <= p < pairs.len() && 0 <= i < table[p].len() && 0 <= j < table[p][i].len()
                    ==> c.distance.at_most(adjusted(pairs[p], #[trigger] table[p][i][j]))
            &&& exists|p: int, i: int, j: int| leads(pairs, table, c, p, i, j)
        },
    decreases pairs.len(),
{
    lemma_scan_none(pairs, table);
    if pairs.len() > 0 {
        let n = pairs.len() - 1;
        let rest = pairs.drop_last();
        let head = table.drop_last();
        let last = table[n];
        assert forall|p: int, i: int, j: int|
            0 <= p < rest.len() && 0 <= i < head[p].len() && 0 <= j < head[p][i].len()
            implies !(#[trigger] head[p][i][j]).distance.is_nan() by {
            assert(head[p][i][j] == table[p][i][j]);
        }
        assert forall|p: int| 0 <= p < rest.len() implies (
        #[trigger] rest[p]).margin.is_finite() by {
            assert(rest[p] == pairs[p]);
        }
        law_closest_is_the_minimum(rest, head);
        assert forall|i: int| 0 <= i < last.len() implies sound_row(
            pairs[n],
            #[trigger] last[i],
        ) by {
            assert forall|j: int| 0 <= j < last[i].len() implies !adjusted(
                pairs[n],
                #[trigger] last[i][j],
            ).is_nan() by {
                let d = table[n][i][j].distance;
                assert(!d.is_nan() && pairs[n].margin.is_finite());
                crate::arithmetic::law_differences_keep_the_order(d, d, pairs[n].margin);
            }
        }
        let before = scan(rest, head);
        lemma_scan_block(before, pairs[n], last);
        if scan(pairs, table) is Some {
            let c = scan(pairs, table)->0;
            assert forall|p: int, i: int, j: int|
                0 <= p < pairs.len() && 0 <= i < table[p].len() && 0 <= j < table[p][i].len()
                implies c.distance.at_most(adjusted(pairs[p], #[trigger] table[p][i][j])) by {
                if p < n {
                    assert(head[p][i][j] == table[p][i][j]);
                } else {
                    assert(last[i][j] == table[p][i][j]);
                }
            }
            if before == Some(c) {
                let (p, i, j) = choose|p: int, i: int, j: int| leads(rest, head, c, p, i, j);
                assert forall|q: int, k: int, l: int|
                    {
                        &&& 0 <= q <= p
                        &&& 0 <= k < table[q].len()
                        &&& 0 <= l < table[q][k].len()
                        &&& q < p || k < i || (k == i && l < j)
                    } implies c.distance.less(adjusted(pairs[q], #[trigger] table[q][k][l])) by {
                    assert(head[q][k][l] == table[q][k][l]);
                }
                assert(leads(pairs, table, c, p, i, j));
            } else {
                lemma_scan_none(rest, head);
                let (i, j) = choose|i: int, j: int|
                    leads_block(before, pairs[n], last, c, i, j);
                assert forall|q: int, k: int, l: int|
                    {
                        &&& 0 <= q <= n
                        &&& 0 <= k < table[q].len()
                        &&& 0 <= l < table[q][k].len()
                        &&& q < n || k < i || (k == i && l < j)
                    } implies c.distance.less(adjusted(pairs[q], #[trigger] table[q][k][l])) by {
                    if q < n {
                        assert(head[q][k][l] == table[q][k][l]);
                        assert(head[q][k].len() > 0);
                    } else {
                        assert(last[k][l] == table[q][k][l]);
                    }
                }
                assert(leads(pairs, table, c, n, i, j));
            }
        }
    }
}

/// A query is in collision exactly where some measured approach is at or
/// below the threshold.
pub proof fn law_collision_means_some_approach_is_near(
    pairs: Seq<Pair>,
    table: Seq<Seq<Seq<CapsuleDistance>>>,
    c: Closest,
    threshold: Double,
)
    requires
        table.len() == pairs.len(),
        all_numbers(pairs, table),
        scan(pairs, table) == Some(c),
    ensures
        c.distance.at_most(threshold) <==> exists|p: int, i: int, j: int|
            0 <= p < pairs.len() && 0 <= i < table[p].len() && 0 <= j < table[p][i].len()
                && adjusted(pairs[p], #[trigger] table[p][i][j]).at_most(threshold),
{
    law_closest_is_the_minimum(pairs, table);
    if c.distance.at_most(threshold) {
        let (p, i, j) = choose|p: int, i: int, j: int| leads(pairs, table, c, p, i, j);
        assert(adjusted(pairs[p], table[p][i][j]).at_most(threshold));
    }
}

/// The closer of two approaches, the first where neither is.
pub open spec fn merged(first: Option<Closest>, second: Option<Closest>) -> Option<Closest> {
    match (first, second) {
        (None, _) => second,
        (_, None) => first,
        (Some(c), Some(d)) => if d.distance.less(c.distance) {
            second
        } else {
            first
        },
    }
}

/// Whether an approach, if there is one, is at a distance that is a number.
spec fn sound(best: Option<Closest>) -> bool {
    best matches Some(b) ==> !b.distance.is_nan()
}

proof fn lemma_row_merges(best: Option<Closest>, pair: Pair, row: Seq<CapsuleDistance>)
    requires
        sound(best),
        sound_row(pair, row),
    ensures
        scan_row(best, pair, row) == merged(best, scan_row(None, pair, row)),
        sound(scan_row(None, pair, row)),
    decreases row.len(),
{
    if row.len() > 0 {
        let rest = row.drop_last();
        assert forall|j: int| 0 <= j < rest.len() implies !adjusted(
            pair,
            #[trigger] rest[j],
        ).is_nan() by {
            assert(rest[j] == row[j]);
        }
        lemma_row_merges(best, pair, rest);
        assert(!adjusted(pair, row[row.len() - 1]).is_nan());
    }
}

proof fn lemma_block_merges(best: Option<Closest>, pair: Pair, block: Seq<Seq<CapsuleDistance>>)
    requires
        sound(best),
        sound_block(pair, block),
    ensures
        scan_block(best, pair, block) == merged(best, scan_block(None, pair, block)),
        sound(scan_block(None, pair, block)),
    decreases block.len(),
{
    if block.len() > 0 {
        let rest = block.drop_last();
        let last = block.last();
        assert(sound_row(pair, block[block.len() - 1]));
        assert forall|i: int| 0 <= i < rest.len() implies sound_row(pair, #[trigger] rest[i]) by {
            assert(rest[i] == block[i]);
        }
        lemma_block_merges(best, pair, rest);
        lemma_row_merges(scan_block(None, pair, rest), pair, last);
        lemma_row_merges(scan_block(best, pair, rest), pair, last);
    }
}

/// Where margins are finite and distances numbers, what is measured of a pair
/// relative to its margin is a number.
proof fn lemma_sound_block(pairs: Seq<Pair>, table: Seq<Seq<Seq<CapsuleDistance>>>, p: int)
    requires
        table.len() == pairs.len(),
        all_numbers(pairs, table),
        0 <= p < pairs.len(),
    ensures
        sound_block(pairs[p], table[p]),
{
    let block = table[p];
    assert forall|i: int| 0 <= i < block.len() implies sound_row(pairs[p], #[trigger] block[i]) by {
        assert forall|j: int| 0 <= j < block[i].len() implies !adjusted(
            pairs[p],
            #[trigger] block[i][j],
        ).is_nan() by {
            let d = table[p][i][j].distance;
            assert(!d.is_nan() && pairs[p].margin.is_finite());
            crate::arithmetic::law_differences_keep_the_order(d, d, pairs[p].margin);
        }
    }
}

/// Two lists of pairs, one after the other, read the closer of what they read
/// alone: the first list's approach unless the second's is strictly closer.
pub proof fn law_joined_lists_read_the_lesser(
    first: Seq<Pair>,
    first_table: Seq<Seq<Seq<CapsuleDistance>>>,
    second: Seq<Pair>,
    second_table: Seq<Seq<Seq<CapsuleDistance>>>,
)
    requires
        first_table.len() == first.len(),
        second_table.len() == second.len(),
        all_numbers(first, first_table),
        all_numbers(second, second_table),
    ensures
        scan(first + second, first_table + second_table) == merged(
            scan(first, first_table),
            scan(second, second_table),
        ),
        scan(first, first_table) matches Some(c) ==> scan(second, second_table) matches Some(d)
            ==> scan(first + second, first_table + second_table) matches Some(e) && e.distance
            == c.distance.lesser(d.distance),
    decreases second.len(),
{
    law_closest_is_the_minimum(first, first_table);
    if second.len() == 0 {
        assert(first + second =~= first);
        assert(first_table + second_table =~= first_table);
    } else {
        let n = second.len() - 1;
        let rest = second.drop_last();
        let head = second_table.drop_last();
        assert forall|p: int, i: int, j: int|
            0 <= p < rest.len() && 0 <= i < head[p].len() && 0 <= j < head[p][i].len()
            implies !(#[trigger] head[p][i][j]).distance.is_nan() by {
            assert(head[p][i][j] == second_table[p][i][j]);
        }
        assert forall|p: int| 0 <= p < rest.len() implies (
        #[trigger] rest[p]).margin.is_finite() by {
            assert(rest[p] == second[p]);
        }
        law_joined_lists_read_the_lesser(first, first_table, rest, head);
        law_closest_is_the_minimum(rest, head);
        assert((first + second).drop_last() =~= first + rest);
        assert((first_table + second_table).drop_last() =~= first_table + head);
        lemma_sound_block(second, second_table, n);
        lemma_block_merges(scan(rest, head), second[n], second_table[n]);
        lemma_block_merges(
            scan(first + rest, first_table + head),
            second[n],
            second_table[n],
        );
        law_closest_is_the_minimum(second, second_table);
    }
}

/// Checking more pairs never raises the reading, and neither their order nor
/// repeats change it: where every pair of the first list is in the second one,
/// measured alike, the second reads no more.
pub proof fn law_more_pairs_never_read_more(
    first: Seq<Pair>,
    first_table: Seq<Seq<Seq<CapsuleDistance>>>,
    second: Seq<Pair>,
    second_table: Seq<Seq<Seq<CapsuleDistance>>>,
    c: Closest,
    d: Closest,
)
    requires
        first_table.len() == first.len(),
        second_table.len() == second.len(),
        all_numbers(first, first_table),
        all_numbers(second, second_table),
        forall|p: int|
            0 <= p < first.len() ==> exists|q: int|
                0 <= q < second.len() && second[q] == #[trigger] first[p]
                    && #[trigger] second_table[q] == first_table[p],
        scan(first, first_table) == Some(c),
        scan(second, second_table) == Some(d),
    ensures
        d.distance.at_most(c.distance),
{
    law_closest_is_the_minimum(first, first_table);
    law_closest_is_the_minimum(second, second_table);
    let (p, i, j) = choose|p: int, i: int, j: int| leads(first, first_table, c, p, i, j);
    assert(first[p] == first[p]);
    let q = choose|q: int|
        0 <= q < second.len() && second[q] == first[p] && #[trigger] second_table[q]
            == first_table[p];
    assert(d.distance.at_most(adjusted(second[q], second_table[q][i][j])));
}

/// A margin is subtracted, so a larger one never reads more: the model alarms
/// no later.
pub proof fn law_larger_margins_never_read_more(
    first: Seq<Pair>,
    second: Seq<Pair>,
    table: Seq<Seq<Seq<CapsuleDistance>>>,
    c: Closest,
    d: Closest,
)
    requires
        table.len() == first.len(),
        second.len() == first.len(),
        all_numbers(first, table),
        all_numbers(second, table),
        forall|p: int|
            0 <= p < first.len() ==> (#[trigger] first[p]).margin.at_most(second[p].margin),
        scan(first, table) == Some(c),
        scan(second, table) == Some(d),
    ensures
        d.distance.at_most(c.distance),
{
    law_closest_is_the_minimum(first, table);
    law_closest_is_the_minimum(second, table);
    let (p, i, j) = choose|p: int, i: int, j: int| leads(first, table, c, p, i, j);
    let m = table[p][i][j];
    assert(!m.distance.is_nan());
    assert(second[p].margin.is_finite());
    crate::arithmetic::law_subtracting_more_gives_less(
        m.distance,
        first[p].margin,
        second[p].margin,
    );
    assert(d.distance.at_most(adjusted(second[p], table[p][i][j])));
}

proof fn lemma_least_in_row(start: Double, row: Seq<CapsuleDistance>)
    requires
        !start.is_nan(),
    ensures
        !least_in_row(start, row).is_nan(),
        least_in_row(start, row).at_most(start),
        forall|j: int|
            0 <= j < row.len() ==> (#[trigger] row[j]).distance.is_nan() || least_in_row(
                start,
                row,
            ).at_most(row[j].distance),
        least_in_row(start, row) == start || exists|j: int|
            0 <= j < row.len() && (#[trigger] row[j]).distance == least_in_row(start, row),
    decreases row.len(),
{
    if row.len() > 0 {
        let rest = row.drop_last();
        lemma_least_in_row(start, rest);
        assert forall|j: int| 0 <= j < row.len() implies (#[trigger] row[j]).distance.is_nan()
            || least_in_row(start, row).at_most(row[j].distance) by {
            if j < rest.len() {
                assert(rest[j] == row[j]);
            }
        }
        let low = least_in_row(start, row);
        if low == row.last().distance {
            assert(row[row.len() - 1].distance == low);
        } else if low != start {
            let j = choose|j: int| 0 <= j < rest.len() && (#[trigger] rest[j]).distance == low;
            assert(row[j].distance == low);
        }
    }
}

/// The smallest distance of two bodies is a number and no measured distance is
/// smaller; it is infinite or one of those measured.
pub proof fn law_least_is_a_lower_bound(block: Seq<Seq<CapsuleDistance>>)
    ensures
        !least(block).is_nan(),
        forall|i: int, j: int|
            0 <= i < block.len() && 0 <= j < block[i].len() ==> {
                ||| (#[trigger] block[i][j]).distance.is_nan()
                ||| least(block).at_most(block[i][j].distance)
            },
        least(block) == (Double { bits: INFINITE }) || exists|i: int, j: int|
            0 <= i < block.len() && 0 <= j < block[i].len() && (
            #[trigger] block[i][j]).distance == least(block),
    decreases block.len(),
{
    if block.len() > 0 {
        let rest = block.drop_last();
        law_least_is_a_lower_bound(rest);
        lemma_least_in_row(least(rest), block.last());
        assert forall|i: int, j: int| 0 <= i < block.len() && 0 <= j < block[i].len() implies {
            ||| (#[trigger] block[i][j]).distance.is_nan()
            ||| least(block).at_most(block[i][j].distance)
        } by {
            if i < rest.len() {
                assert(rest[i][j] == block[i][j]);
            } else {
                assert(block.last()[j] == block[i][j]);
            }
        }
        let low = least(block);
        if low == least(rest) {
            if low != (Double { bits: INFINITE }) {
                let (i, j) = choose|i: int, j: int|
                    0 <= i < rest.len() && 0 <= j < rest[i].len() && (
                    #[trigger] rest[i][j]).distance == low;
                assert(block[i][j].distance == low);
            }
        } else {
            let last = block.last();
            let j = choose|j: int| 0 <= j < last.len() && (#[trigger] last[j]).distance == low;
            assert(block[block.len() - 1][j].distance == low);
        }
    }
}

/// Some measurement of two bodies is their smallest distance, where distances
/// are numbers.
proof fn lemma_least_is_measured(block: Seq<Seq<CapsuleDistance>>, i: int, j: int) -> (r: (
    int,
    int,
))
    requires
        0 <= i < block.len(),
        0 <= j < block[i].len(),
        !block[i][j].distance.is_nan(),
    ensures
        0 <= r.0 < block.len(),
        0 <= r.1 < block[r.0].len(),
        !block[r.0][r.1].distance.is_nan(),
        block[r.0][r.1].distance.value() == least(block).value(),
{
    law_least_is_a_lower_bound(block);
    if least(block) == (Double { bits: INFINITE }) {
        let m = block[i][j].distance;
        crate::double::lemma_magnitude_order(m.magnitude(), INFINITE as int);
        (i, j)
    } else {
        choose|k: int, l: int|
            0 <= k < block.len() && 0 <= l < block[k].len() && (
            #[trigger] block[k][l]).distance == least(block)
    }
}

/// A single pair reads the smallest raw distance of its bodies, less its
/// margin.
pub proof fn law_a_single_pair_reads_its_raw_distance(
    pair: Pair,
    block: Seq<Seq<CapsuleDistance>>,
    c: Closest,
)
    requires
        all_numbers(seq![pair], seq![block]),
        scan(seq![pair], seq![block]) == Some(c),
    ensures
        !c.distance.is_nan(),
        !least(block).difference(pair.margin).is_nan(),
        c.distance.value() == least(block).difference(pair.margin).value(),
{
    let (pairs, table) = (seq![pair], seq![block]);
    law_closest_is_the_minimum(pairs, table);
    let (p, i, j) = choose|p: int, i: int, j: int| leads(pairs, table, c, p, i, j);
    let low = least(block);
    assert(pairs[0].margin.is_finite());
    assert(table[0] == block && table[p] == block);
    assert(!table[p][i][j].distance.is_nan());
    law_least_is_a_lower_bound(block);
    crate::arithmetic::law_differences_keep_the_order(low, block[i][j].distance, pair.margin);
    let (k, l) = lemma_least_is_measured(block, i, j);
    crate::arithmetic::law_differences_keep_the_order(block[k][l].distance, low, pair.margin);
    assert(c.distance.at_most(adjusted(pairs[0], table[0][k][l])));
}

/// Measuring two bodies the other way round gives the same smallest distance,
/// up to what the measurements differ by: `slack`, in units of the smallest
/// positive double.
pub proof fn law_exchanged_bodies_lie_as_far_apart<D: Fn(Capsule, Capsule) -> CapsuleDistance>(
    distance: D,
    first: Seq<Capsule>,
    second: Seq<Capsule>,
    slack: int,
    d: Double,
    e: Double,
)
    requires
        slack >= 0,
        forall|a: Capsule, b: Capsule, x: CapsuleDistance, y: CapsuleDistance|
            #![trigger call_ensures(distance, (a, b), x), call_ensures(distance, (b, a), y)]
            call_ensures(distance, (a, b), x) && call_ensures(distance, (b, a), y) ==> {
                &&& !x.distance.is_nan()
                &&& !y.distance.is_nan()
                &&& -slack <= x.distance.value() - y.distance.value() <= slack
            },
        raw_distance(distance, first, second, d),
        raw_distance(distance, second, first, e),
    ensures
        -slack <= d.value() - e.value() <= slack,
{
    let block = choose|block: Seq<Seq<CapsuleDistance>>| #[trigger]
        gauged(distance, first, second, block) && d == least(block);
    let other = choose|other: Seq<Seq<CapsuleDistance>>| #[trigger]
        gauged(distance, second, first, other) && e == least(other);
    law_least_is_a_lower_bound(block);
    law_least_is_a_lower_bound(other);
    if first.len() > 0 && second.len() > 0 {
        assert(call_ensures(distance, (first[0], second[0]), block[0][0]));
        assert(call_ensures(distance, (second[0], first[0]), other[0][0]));
        let (i, j) = lemma_least_is_measured(block, 0, 0);
        assert(block[i].len() == second.len());
        assert(call_ensures(distance, (first[i], second[j]), block[i][j]));
        assert(call_ensures(distance, (second[j], first[i]), other[j][i]));
        let (k, l) = lemma_least_is_measured(other, 0, 0);
        assert(other[k].len() == first.len());
        assert(call_ensures(distance, (second[k], first[l]), other[k][l]));
        assert(call_ensures(distance, (first[l], second[k]), block[l][k]));
    }
}

} // verus!
