//! The pairs of bodies that a model checks, and the rules that pick them.
use vstd::prelude::*;

use crate::double::Double;
use crate::error::Fault;

verus! {

/// A pair of bodies by name. `margin` is the raw distance at which the pair
/// reads zero.
#[derive(Debug)]
pub struct PairSpec {
    pub a: String,
    pub b: String,
    pub margin: Double,
}

/// A [`PairSpec`], its names as sequences of characters.
pub struct NamedPair {
    pub a: Seq<char>,
    pub b: Seq<char>,
    pub margin: Double,
}

impl View for PairSpec {
    type V = NamedPair;

    open spec fn view(&self) -> NamedPair {
        NamedPair { a: self.a@, b: self.b@, margin: self.margin }
    }
}

impl PairSpec {
    /// A pair without a margin.
    pub fn new(a: String, b: String) -> (r: Self)
        ensures
            r@ == (NamedPair { a: a@, b: b@, margin: Double::zero() }),
    {
        PairSpec { a, b, margin: Double { bits: 0 } }
    }
}

impl Clone for PairSpec {
    fn clone(&self) -> (r: Self)
        ensures
            r@ == self@,
    {
        PairSpec { a: self.a.clone(), b: self.b.clone(), margin: self.margin }
    }
}

/// One checked pair, resolved to body indices.
#[derive(Clone, Copy, Debug, PartialEq, Eq, Structural)]
pub struct Pair {
    pub a: usize,
    pub b: usize,
    pub margin: Double,
}

/// The first place at which `name` stands, or -1 where it does not.
pub open spec fn position(names: Seq<Seq<char>>, name: Seq<char>) -> int
    decreases names.len(),
{
    if names.len() == 0 {
        -1
    } else {
        let before = position(names.drop_last(), name);
        if before >= 0 {
            before
        } else if names.last() == name {
            names.len() - 1
        } else {
            -1
        }
    }
}

/// What `position` finds.
pub proof fn lemma_position(names: Seq<Seq<char>>, name: Seq<char>)
    ensures
        -1 <= position(names, name) < names.len(),
        position(names, name) >= 0 ==> names[position(names, name)] == name,
        forall|i: int|
            0 <= i < names.len() && #[trigger] names[i] == name ==> 0 <= position(names, name)
                <= i,
    decreases names.len(),
{
    if names.len() > 0 {
        let rest = names.drop_last();
        lemma_position(rest, name);
        assert forall|i: int| 0 <= i < names.len() && #[trigger] names[i] == name implies 0
            <= position(names, name) <= i by {
            if i < rest.len() {
                assert(rest[i] == name);
            }
        }
    }
}

/// Where a body sits in the kinematic tree, for the structural pair rules:
/// the torso, or chain side plus moving-joint depth (mount = 0, link k = k).
#[derive(Clone, Copy, Debug, PartialEq, Eq, Structural)]
pub enum Lineage {
    Torso,
    Side(u8, usize),
}

impl Lineage {
    /// Whether a body stays where it is.
    pub open spec fn is_fixed(self) -> bool {
        match self {
            Lineage::Torso => true,
            Lineage::Side(_, depth) => depth == 0,
        }
    }

    /// How many moving joints lie between two bodies of one chain, the torso
    /// counting as the mount of either; nothing for bodies of two chains.
    pub open spec fn joints_between(self, other: Self) -> Option<int> {
        match (self, other) {
            (Lineage::Torso, Lineage::Torso) => Some(0),
            (Lineage::Torso, Lineage::Side(_, d)) => Some(d as int),
            (Lineage::Side(_, d), Lineage::Torso) => Some(d as int),
            (Lineage::Side(s, d), Lineage::Side(t, e)) => if s != t {
                None
            } else if d >= e {
                Some(d - e)
            } else {
                Some(e - d)
            },
        }
    }

    /// Whether the pair of two bodies is checked: not where neither can move,
    /// and not where at most two moving joints lie between them.
    pub open spec fn informs(self, other: Self) -> bool {
        &&& !(self.is_fixed() && other.is_fixed())
        &&& self.joints_between(other) matches Some(n) ==> n > 2
    }

    /// Whether the pair of two bodies is checked.
    pub fn is_checked(self, other: Self) -> (r: bool)
        ensures
            r == self.informs(other),
    {
        match (self, other) {
            // Two world-fixed bodies never change distance.
            (Lineage::Torso, Lineage::Torso) => false,
            (Lineage::Torso, Lineage::Side(_, d)) => d > 2,
            (Lineage::Side(_, d), Lineage::Torso) => d > 2,
            (Lineage::Side(s, d), Lineage::Side(t, e)) => {
                if s == t {
                    // Same side: keep only beyond the joint-yoked horizon.
                    if d >= e {
                        d - e > 2
                    } else {
                        e - d > 2
                    }
                } else {
                    // Different sides: always checked, but for the two mounts.
                    d != 0 || e != 0
                }
            },
        }
    }
}

/// The checked partners of body `i` among the first `n` bodies, after `i`.
pub open spec fn partners(lineage: Seq<Lineage>, i: int, n: int) -> Seq<(int, int)>
    decreases n - i,
{
    if n <= i + 1 {
        Seq::empty()
    } else {
        let before = partners(lineage, i, n - 1);
        if lineage[i].informs(lineage[n - 1]) {
            before.push((i, n - 1))
        } else {
            before
        }
    }
}

/// The checked pairs whose first body is among the first `m`: in order of
/// their first bodies, then of their second ones.
pub open spec fn checked(lineage: Seq<Lineage>, m: int) -> Seq<(int, int)>
    decreases m,
{
    if m <= 0 {
        Seq::empty()
    } else {
        checked(lineage, m - 1) + partners(lineage, m - 1, lineage.len() as int)
    }
}

/// The checked pairs of bodies with these places in the tree.
pub fn derive_pairs(lineage: &Vec<Lineage>) -> (r: Vec<(usize, usize)>)
    ensures
        r@.map_values(|p: (usize, usize)| (p.0 as int, p.1 as int)) == checked(
            lineage@,
            lineage@.len() as int,
        ),
{
    let mut out: Vec<(usize, usize)> = Vec::new();
    let ghost f = |p: (usize, usize)| (p.0 as int, p.1 as int);
    let mut i: usize = 0;
    while i < lineage.len()
        invariant
            i <= lineage@.len(),
            f == (|p: (usize, usize)| (p.0 as int, p.1 as int)),
            out@.map_values(f) =~= checked(lineage@, i as int),
        decreases lineage.len() - i,
    {
        let ghost start = checked(lineage@, i as int);
        let mut j: usize = i + 1;
        while j < lineage.len()
            invariant
                i < j <= lineage@.len(),
                f == (|p: (usize, usize)| (p.0 as int, p.1 as int)),
                out@.map_values(f) =~= start + partners(lineage@, i as int, j as int),
            decreases lineage.len() - j,
        {
            let ghost before = out@;
            if lineage[i].is_checked(lineage[j]) {
                out.push((i, j));
                proof {
                    assert(out@.map_values(f) =~= before.map_values(f).push((i as int, j as int)));
                }
            }
            j = j + 1;
        }
        i = i + 1;
    }
    out
}

/// The checked pairs of body `i` are those of the rules.
proof fn lemma_partners(lineage: Seq<Lineage>, i: int, n: int, p: (int, int))
    requires
        0 <= i,
    ensures
        partners(lineage, i, n).contains(p) <==> p.0 == i && i < p.1 < n
            && lineage[i].informs(lineage[p.1]),
    decreases n - i,
{
    let all = partners(lineage, i, n);
    if n <= i + 1 {
        assert(!all.contains(p));
    } else {
        let before = partners(lineage, i, n - 1);
        lemma_partners(lineage, i, n - 1, p);
        if lineage[i].informs(lineage[n - 1]) {
            if before.contains(p) {
                let k = choose|k: int| 0 <= k < before.len() && before[k] == p;
                assert(all[k] == p);
            }
            assert(all[all.len() - 1] == (i, n - 1));
            if all.contains(p) {
                let k = choose|k: int| 0 <= k < all.len() && all[k] == p;
                if k < before.len() {
                    assert(before[k] == p);
                }
            }
        }
    }
}

proof fn lemma_checked(lineage: Seq<Lineage>, m: int, p: (int, int))
    requires
        m <= lineage.len(),
    ensures
        checked(lineage, m).contains(p) <==> 0 <= p.0 < p.1 < lineage.len() && p.0 < m
            && lineage[p.0].informs(lineage[p.1]),
    decreases m,
{
    let all = checked(lineage, m);
    if m <= 0 {
        assert(!all.contains(p));
    } else {
        let n = lineage.len() as int;
        let before = checked(lineage, m - 1);
        let row = partners(lineage, m - 1, n);
        lemma_checked(lineage, m - 1, p);
        lemma_partners(lineage, m - 1, n, p);
        if before.contains(p) {
            let k = choose|k: int| 0 <= k < before.len() && before[k] == p;
            assert(all[k] == p);
        }
        if row.contains(p) {
            let k = choose|k: int| 0 <= k < row.len() && row[k] == p;
            assert(all[before.len() + k] == p);
        }
        if all.contains(p) {
            let k = choose|k: int| 0 <= k < all.len() && all[k] == p;
            if k < before.len() {
                assert(before[k] == p);
            } else {
                assert(row[k - before.len()] == p);
            }
        }
    }
}

/// The derived pairs are exactly those of which the structural rules say that
/// they inform, each with its earlier body first.
pub proof fn law_checked_pairs_follow_the_rules(lineage: Seq<Lineage>, i: int, j: int)
    ensures
        checked(lineage, lineage.len() as int).contains((i, j)) <==> {
            &&& 0 <= i < j < lineage.len()
            &&& lineage[i].informs(lineage[j])
        },
{
    lemma_checked(lineage, lineage.len() as int, (i, j));
}

/// Bodies of different arms are checked wherever one of them moves.
pub proof fn law_cross_arm_pairs_are_checked(d: usize, e: usize)
    ensures
        Lineage::Side(0, d).informs(Lineage::Side(1, e)) <==> (d > 0 || e > 0),
        Lineage::Side(1, d).informs(Lineage::Side(0, e)) <==> (d > 0 || e > 0),
{
}

/// Two fixed bodies never change distance, so they are never checked; nor are
/// two bodies of one chain with at most two moving joints between them.
pub proof fn law_uninformative_pairs_are_skipped(a: Lineage, b: Lineage)
    ensures
        a.is_fixed() && b.is_fixed() ==> !a.informs(b),
        (a.joints_between(b) matches Some(n) && n <= 2) ==> !a.informs(b),
        a.informs(b) == b.informs(a),
{
}

/// The place of each derived pair tells it apart: they come in order of their
/// first bodies, then of their second ones, and none comes twice.
pub proof fn law_checked_pairs_are_ordered(lineage: Seq<Lineage>, x: int, y: int)
    requires
        0 <= x < y < checked(lineage, lineage.len() as int).len(),
    ensures
        ({
            let p = checked(lineage, lineage.len() as int)[x];
            let q = checked(lineage, lineage.len() as int)[y];
            p.0 < q.0 || (p.0 == q.0 && p.1 < q.1)
        }),
{
    lemma_checked_order(lineage, lineage.len() as int, x, y);
}

proof fn lemma_partners_order(lineage: Seq<Lineage>, i: int, n: int, x: int, y: int)
    requires
        0 <= i,
        0 <= x < y < partners(lineage, i, n).len(),
    ensures
        partners(lineage, i, n)[x].0 == i,
        partners(lineage, i, n)[y].0 == i,
        partners(lineage, i, n)[x].1 < partners(lineage, i, n)[y].1,
    decreases n - i,
{
    let all = partners(lineage, i, n);
    assert(all.contains(all[x]));
    assert(all.contains(all[y]));
    lemma_partners(lineage, i, n, all[x]);
    lemma_partners(lineage, i, n, all[y]);
    let before = partners(lineage, i, n - 1);
    if y < before.len() {
        lemma_partners_order(lineage, i, n - 1, x, y);
    } else {
        assert(before.contains(before[x]));
        lemma_partners(lineage, i, n - 1, before[x]);
    }
}

proof fn lemma_checked_order(lineage: Seq<Lineage>, m: int, x: int, y: int)
    requires
        m <= lineage.len(),
        0 <= x < y < checked(lineage, m).len(),
    ensures
        ({
            let p = checked(lineage, m)[x];
            let q = checked(lineage, m)[y];
            p.0 < q.0 || (p.0 == q.0 && p.1 < q.1)
        }),
    decreases m,
{
    let n = lineage.len() as int;
    let before = checked(lineage, m - 1);
    let row = partners(lineage, m - 1, n);
    let cut = before.len() as int;
    if y < cut {
        lemma_checked_order(lineage, m - 1, x, y);
    } else {
        let q = row[y - cut];
        assert(row.contains(q));
        lemma_partners(lineage, m - 1, n, q);
        if x < cut {
            assert(before.contains(before[x]));
            lemma_checked(lineage, m - 1, before[x]);
        } else {
            lemma_partners_order(lineage, m - 1, n, x - cut, y - cut);
        }
    }
}

/// A pair by name, resolved against the names of the bodies, or what is wrong
/// with it.
pub open spec fn resolved(names: Seq<Seq<char>>, p: NamedPair) -> Result<Pair, Fault> {
    let a = position(names, p.a);
    let b = position(names, p.b);
    if a < 0 {
        Err(Fault::UnknownBody(p.a))
    } else if b < 0 {
        Err(Fault::UnknownBody(p.b))
    } else if a == b {
        Err(Fault::SelfPair(p.a))
    } else if !p.margin.is_finite() {
        Err(Fault::NonFiniteMargin(p.a, p.b))
    } else {
        Ok(Pair { a: a as usize, b: b as usize, margin: p.margin })
    }
}

/// All pairs of a list resolved, or what is wrong with the first bad one.
pub open spec fn resolved_all(names: Seq<Seq<char>>, list: Seq<NamedPair>) -> Result<
    Seq<Pair>,
    Fault,
>
    decreases list.len(),
{
    if list.len() == 0 {
        Ok(Seq::empty())
    } else {
        match resolved_all(names, list.drop_last()) {
            Err(e) => Err(e),
            Ok(pairs) => match resolved(names, list.last()) {
                Err(e) => Err(e),
                Ok(p) => Ok(pairs.push(p)),
            },
        }
    }
}

/// A list that resolves gives back what was asked for: the bodies of each pair
/// bear the names it was given, they are two, and its margin is the one it was
/// given, a finite one.
pub proof fn law_resolved_pairs_are_those_asked_for(names: Seq<Seq<char>>, list: Seq<NamedPair>)
    requires
        names.len() <= usize::MAX,
    ensures
        resolved_all(names, list) matches Ok(pairs) ==> {
            &&& pairs.len() == list.len()
            &&& forall|p: int|
                0 <= p < pairs.len() ==> {
                    &&& (#[trigger] pairs[p]).a < names.len()
                    &&& pairs[p].b < names.len()
                    &&& pairs[p].a != pairs[p].b
                    &&& pairs[p].margin.is_finite()
                    &&& names[pairs[p].a as int] == list[p].a
                    &&& names[pairs[p].b as int] == list[p].b
                    &&& pairs[p].margin == list[p].margin
                }
        },
    decreases list.len(),
{
    if list.len() > 0 {
        law_resolved_pairs_are_those_asked_for(names, list.drop_last());
        lemma_position(names, list.last().a);
        lemma_position(names, list.last().b);
    }
}

/// Two lists that resolve do so one after the other.
pub proof fn law_joined_lists_resolve_in_order(
    names: Seq<Seq<char>>,
    first: Seq<NamedPair>,
    second: Seq<NamedPair>,
)
    ensures
        resolved_all(names, first) matches Ok(p) ==> resolved_all(names, second) matches Ok(q)
            ==> resolved_all(names, first + second) == Ok::<Seq<Pair>, Fault>(p + q),
    decreases second.len(),
{
    if second.len() == 0 {
        assert(first + second =~= first);
        if let Ok(p) = resolved_all(names, first) {
            assert(p + Seq::<Pair>::empty() =~= p);
        }
    } else {
        let rest = second.drop_last();
        law_joined_lists_resolve_in_order(names, first, rest);
        assert((first + second).drop_last() =~= first + rest);
        assert((first + second).last() == second.last());
        if let (Ok(p), Ok(q)) = (resolved_all(names, first), resolved_all(names, second)) {
            let before = resolved_all(names, rest)->Ok_0;
            assert(q == before.push(q.last()));
            assert(p + q =~= (p + before).push(q.last()));
        }
    }
}

/// Whether a pair can be resolved: it names two different bodies, and its
/// margin is finite.
pub open spec fn is_sound(names: Seq<Seq<char>>, p: NamedPair) -> bool {
    &&& names.contains(p.a)
    &&& names.contains(p.b)
    &&& p.a != p.b
    &&& p.margin.is_finite()
}

/// A list resolves exactly where every pair is sound; else the fault is that of
/// the first pair that is not: an unknown name, the first of the two if both
/// are unknown; or one name given twice; or a margin that is not finite.
pub proof fn law_lists_resolve_where_all_pairs_are_sound(
    names: Seq<Seq<char>>,
    list: Seq<NamedPair>,
)
    ensures
        resolved_all(names, list) is Ok <==> forall|k: int|
            0 <= k < list.len() ==> is_sound(names, #[trigger] list[k]),
        resolved_all(names, list) matches Err(f) ==> exists|k: int|
            {
                &&& 0 <= k < list.len()
                &&& !is_sound(names, #[trigger] list[k])
                &&& forall|i: int| 0 <= i < k ==> is_sound(names, #[trigger] list[i])
                &&& f == if !names.contains(list[k].a) {
                    Fault::UnknownBody(list[k].a)
                } else if !names.contains(list[k].b) {
                    Fault::UnknownBody(list[k].b)
                } else if list[k].a == list[k].b {
                    Fault::SelfPair(list[k].a)
                } else {
                    Fault::NonFiniteMargin(list[k].a, list[k].b)
                }
            },
    decreases list.len(),
{
    if list.len() > 0 {
        let rest = list.drop_last();
        let n = list.len() - 1;
        let p = list[n];
        law_lists_resolve_where_all_pairs_are_sound(names, rest);
        lemma_position(names, p.a);
        lemma_position(names, p.b);
        assert(names.contains(p.a) == (position(names, p.a) >= 0));
        assert(names.contains(p.b) == (position(names, p.b) >= 0));
        assert(p.a == p.b ==> position(names, p.a) == position(names, p.b));
        assert(resolved(names, p) is Ok == is_sound(names, p));
        match resolved_all(names, rest) {
            Err(f) => {
                let k = choose|k: int|
                    {
                        &&& 0 <= k < rest.len()
                        &&& !is_sound(names, #[trigger] rest[k])
                        &&& forall|i: int| 0 <= i < k ==> is_sound(names, #[trigger] rest[i])
                        &&& f == if !names.contains(rest[k].a) {
                            Fault::UnknownBody(rest[k].a)
                        } else if !names.contains(rest[k].b) {
                            Fault::UnknownBody(rest[k].b)
                        } else if rest[k].a == rest[k].b {
                            Fault::SelfPair(rest[k].a)
                        } else {
                            Fault::NonFiniteMargin(rest[k].a, rest[k].b)
                        }
                    };
                assert(list[k] == rest[k]);
                assert forall|i: int| 0 <= i < k implies is_sound(names, #[trigger] list[i]) by {
                    assert(list[i] == rest[i]);
                }
            },
            Ok(_) => {
                assert forall|i: int| 0 <= i < n implies is_sound(names, #[trigger] list[i]) by {
                    assert(list[i] == rest[i]);
                }
            },
        }
    }
}

} // verus!
