//! The caller's safety assertions, and the margins that follow from them.
use vstd::arithmetic::power2::*;
use vstd::prelude::*;

use crate::double::Double;
use crate::double::BINADE;
use crate::double::FOUR;
use crate::double::INFINITE;
use crate::double::THREE_QUARTERS;
use crate::error::Fault;
use crate::error::ModelError;

verus! {

/// The number of joints of an arm.
pub const ARM_DOF: usize = 7;

/// The joint values of an arm.
pub type JointVec = [Double; ARM_DOF];

/// The range of a joint.
#[derive(Clone, Copy, Debug, PartialEq, Eq, Structural)]
pub struct Limit {
    pub lo: Double,
    pub hi: Double,
}

/// The caller's safety assertions for margin derivation, applied per pair
/// at construction.
///
/// `references` are joint configurations (applied to both arms, clamped
/// into each arm's own limits) that the caller declares legitimate and
/// expects to read as clear. Pairs that sit closer than `headroom` at any
/// reference get that closeness rebased to read `headroom` there; the model
/// cannot know which poses are legitimate, so a reference that is actually
/// a collision weakens protection for exactly the pairs it touches. There
/// is deliberately no default: declaring these poses is the caller's
/// statement about the robot, not a library guess.
///
/// `headroom` also carries the buffer role: the fitted capsules are tight
/// around their meshes with no added padding, so size the headroom to
/// absorb tracking error and watchdog reaction distance.
#[derive(Debug)]
pub struct MarginPolicy {
    pub headroom: Double,
    pub references: Vec<JointVec>,
}

impl Clone for MarginPolicy {
    fn clone(&self) -> (r: Self)
        ensures
            r.headroom == self.headroom,
            r.references@ == self.references@,
    {
        let mut references: Vec<JointVec> = Vec::new();
        let mut k: usize = 0;
        while k < self.references.len()
            invariant
                k <= self.references@.len(),
                references@ =~= self.references@.take(k as int),
            decreases self.references.len() - k,
        {
            references.push(self.references[k]);
            k = k + 1;
        }
        MarginPolicy { headroom: self.headroom, references }
    }
}

/// Whether every joint value is finite.
pub open spec fn joints_finite(q: JointVec) -> bool {
    forall|i: int| 0 <= i < ARM_DOF ==> (#[trigger] q@[i]).is_finite()
}

/// Joint values moved into the ranges of an arm's joints.
pub open spec fn clamped_into(q: JointVec, limits: [Limit; ARM_DOF], r: JointVec) -> bool {
    forall|i: int|
        0 <= i < ARM_DOF ==> #[trigger] r@[i] == q@[i].clamped(limits@[i].lo, limits@[i].hi)
}

/// Whether the range of every joint holds something.
pub open spec fn limits_ordered(limits: [Limit; ARM_DOF]) -> bool {
    forall|i: int| 0 <= i < ARM_DOF ==> (#[trigger] limits@[i]).lo.at_most(limits@[i].hi)
}

/// The margin of a pair whose smallest distance at the references is
/// `baseline`: what makes the baseline read the headroom, where it is closer
/// than that.
pub open spec fn margin_of(baseline: Double, headroom: Double) -> Double {
    if baseline.less(headroom) {
        baseline.difference(headroom)
    } else {
        Double::zero()
    }
}

impl MarginPolicy {
    /// What is wrong with the policy, if anything is.
    pub open spec fn fault(self) -> Option<Fault> {
        if !self.headroom.is_finite() || !Double::zero().less(self.headroom) {
            Some(Fault::Headroom(self.headroom))
        } else if self.references@.len() == 0 {
            Some(Fault::NoReferences)
        } else if exists|k: int|
            0 <= k < self.references@.len() && !joints_finite(#[trigger] self.references@[k]) {
            Some(Fault::NonFiniteReference)
        } else {
            None
        }
    }

    /// The thresholds of the consistent band: a quarter of the headroom, then
    /// three quarters of it.
    pub open spec fn thresholds(self) -> (Double, Double) {
        (
            self.headroom.quotient(Double { bits: FOUR }),
            self.headroom.product(Double { bits: THREE_QUARTERS }),
        )
    }

    /// A governor band arithmetically consistent with this policy: stop at a
    /// quarter of the headroom, full speed at three quarters, so reference
    /// poses (which read the headroom) sit above the band and never
    /// throttle. Consistency is all it guarantees; whether the thresholds
    /// are dynamically safe depends on closing speed and reaction latency,
    /// which only the consumer knows.
    ///
    /// `band` makes a band from the two thresholds, in that order, or refuses
    /// them.
    pub fn consistent_band<B, F: Fn(Double, Double) -> Result<B, String>>(&self, band: F) -> (r:
        Result<B, String>)
        requires
            call_requires(band, self.thresholds()),
        ensures
            call_ensures(band, self.thresholds(), r),
    {
        band(
            self.headroom.div(Double { bits: FOUR }),
            self.headroom.mul(Double { bits: THREE_QUARTERS }),
        )
    }

    /// Refuses a policy that no margins can be derived from.
    pub fn validate(&self) -> (r: Result<(), ModelError>)
        ensures
            match r {
                Ok(_) => self.fault() is None,
                Err(e) => self.fault() == Some(e@),
            },
    {
        if !(self.headroom.finite() && Double { bits: 0 }.lt(self.headroom)) {
            return Err(ModelError::Headroom(self.headroom));
        }
        if self.references.len() == 0 {
            return Err(ModelError::NoReferences);
        }
        let mut k: usize = 0;
        while k < self.references.len()
            invariant
                self.headroom.is_finite() && Double::zero().less(self.headroom),
                k <= self.references@.len(),
                forall|i: int| 0 <= i < k ==> joints_finite(#[trigger] self.references@[i]),
            decreases self.references.len() - k,
        {
            if !finite_joints(&self.references[k]) {
                return Err(ModelError::NonFiniteReference);
            }
            k = k + 1;
        }
        Ok(())
    }
}

/// Whether every joint value is finite.
pub fn finite_joints(q: &JointVec) -> (r: bool)
    ensures
        r == joints_finite(*q),
{
    let mut i: usize = 0;
    while i < ARM_DOF
        invariant
            i <= ARM_DOF,
            forall|k: int| 0 <= k < i ==> (#[trigger] q@[k]).is_finite(),
        decreases ARM_DOF - i,
    {
        if !q[i].finite() {
            return false;
        }
        i = i + 1;
    }
    true
}

/// Whether the range of every joint holds something.
pub fn ordered_limits(limits: &[Limit; ARM_DOF]) -> (r: bool)
    ensures
        r == limits_ordered(*limits),
{
    let mut i: usize = 0;
    while i < ARM_DOF
        invariant
            i <= ARM_DOF,
            forall|k: int| 0 <= k < i ==> (#[trigger] limits@[k]).lo.at_most(limits@[k].hi),
        decreases ARM_DOF - i,
    {
        if !limits[i].lo.le(limits[i].hi) {
            return false;
        }
        i = i + 1;
    }
    true
}

/// Joint values moved into the ranges of an arm's joints.
pub fn clamp_joints(q: &JointVec, limits: &[Limit; ARM_DOF]) -> (r: JointVec)
    requires
        limits_ordered(*limits),
    ensures
        clamped_into(*q, *limits, r),
{
    let mut r: JointVec = *q;
    let mut i: usize = 0;
    while i < ARM_DOF
        invariant
            i <= ARM_DOF,
            limits_ordered(*limits),
            forall|k: int| i <= k < ARM_DOF ==> #[trigger] r@[k] == q@[k],
            forall|k: int|
                0 <= k < i ==> #[trigger] r@[k] == q@[k].clamped(limits@[k].lo, limits@[k].hi),
        decreases ARM_DOF - i,
    {
        r[i] = q[i].clamp(limits[i].lo, limits[i].hi);
        i = i + 1;
    }
    r
}

/// Clamped into finite ranges, a finite reference stays finite: no query at it
/// is refused for its joint values.
pub proof fn law_clamped_references_are_finite(
    q: JointVec,
    limits: [Limit; ARM_DOF],
    r: JointVec,
)
    requires
        joints_finite(q),
        forall|i: int|
            0 <= i < ARM_DOF ==> (#[trigger] limits@[i]).lo.is_finite() && limits@[i].hi.is_finite(),
        clamped_into(q, limits, r),
    ensures
        joints_finite(r),
{
    assert forall|i: int| 0 <= i < ARM_DOF implies (#[trigger] r@[i]).is_finite() by {
        assert(limits@[i].lo.is_finite() && q@[i].is_finite());
    }
}

/// The margin of a pair whose smallest distance at the references is
/// `baseline`.
pub fn derive_margin(baseline: Double, headroom: Double) -> (r: Double)
    ensures
        r == margin_of(baseline, headroom),
{
    if baseline.lt(headroom) {
        baseline.sub(headroom)
    } else {
        Double { bits: 0 }
    }
}

/// The numbers that the constants of the band stand for.
proof fn lemma_band_constants()
    ensures
        crate::double::size(FOUR as int) == 4 * crate::arithmetic::one(),
        4 * crate::double::size(THREE_QUARTERS as int) == 3 * crate::arithmetic::one(),
        crate::arithmetic::one() > 0,
{
    let w = BINADE as int;
    crate::rounding::lemma_pow2_128();
    lemma2_to64();
    lemma2_to64_rest();
    assert(FOUR as int / w == 1025 && FOUR as int % w == 0);
    lemma_pow2_adds(52, 1024);
    lemma_pow2_adds(2, 1074);
    lemma_pow2_pos(1074);
    assert(THREE_QUARTERS as int / w == 1022 && THREE_QUARTERS as int % w == 0x8_0000_0000_0000);
    lemma_pow2_adds(51, 1021);
    lemma_pow2_adds(2, 1072);
    let p = pow2(1021) as int;
    assert((w + 0x8_0000_0000_0000) * p == 3 * (0x8_0000_0000_0000 * p)) by (nonlinear_arith)
        requires
            w == 0x10_0000_0000_0000,
    ;
}

/// The band sits inside the headroom: the stop threshold lies below the one
/// for full speed, and that one below the headroom, so a pose that reads the
/// headroom runs at full speed; and motion stops before contact. (Only for the
/// two smallest positive doubles does three quarters of the headroom round back
/// to it and a quarter of it to zero.)
pub proof fn law_band_sits_inside_the_headroom(headroom: Double)
    requires
        headroom.is_finite(),
        Double::zero().less(headroom),
    ensures
        ({
            let stop = headroom.quotient(Double { bits: FOUR });
            let safe = headroom.product(Double { bits: THREE_QUARTERS });
            &&& Double::zero().at_most(stop)
            &&& stop.less(safe)
            &&& safe.at_most(headroom)
            &&& headroom.value() > 2 ==> safe.less(headroom)
            &&& headroom.value() > 2 ==> Double::zero().less(stop)
        }),
{
    let one = crate::arithmetic::one();
    let m = headroom.magnitude();
    let h = crate::double::size(m);
    let stop = headroom.quotient(Double { bits: FOUR });
    let safe = headroom.product(Double { bits: THREE_QUARTERS });
    crate::double::lemma_magnitude_order(m, 0);
    lemma_band_constants();
    let four = crate::double::size(FOUR as int);
    let part = crate::double::size(THREE_QUARTERS as int);
    crate::arithmetic::lemma_rounded(false, h * one, four);
    crate::arithmetic::lemma_rounded(false, h * part, one);
    let u = stop.magnitude();
    let v = safe.magnitude();
    assert(4 * (h * part) == 3 * (h * one)) by (nonlinear_arith)
        requires
            4 * part == 3 * one,
    ;
    assert(h * one > 0) by (nonlinear_arith)
        requires
            h > 0,
            one > 0,
    ;
    assert(one * h == h * one) by (nonlinear_arith);
    crate::rounding::lemma_nearest_bounds(h * part, one, v, m);
    crate::double::lemma_magnitude_order(u, v);
    crate::double::lemma_magnitude_order(v, m);
    crate::double::lemma_magnitude_order(u, 0);
    if h > 2 {
        lemma_below_headroom(m, v, one, part);
        if u == 0 {
            assert(crate::rounding::twice_midpoint(0) == 1);
            assert(four * 1 == four);
            assert(2 * (h * one) > four) by (nonlinear_arith)
                requires
                    h > 2,
                    one > 0,
                    four == 4 * one,
            ;
        }
    }
    lemma_stop_below_safe(h, u, v, one, part);
}

proof fn lemma_below_headroom(m: int, v: int, one: int, part: int)
    requires
        0 < m < INFINITE,
        one > 0,
        4 * part == 3 * one,
        crate::rounding::nearest(crate::double::size(m) * part, one, v),
        v <= m,
        crate::double::size(m) > 2,
    ensures
        v < m,
{
    let h = crate::double::size(m);
    if v == m {
        crate::double::lemma_size_step(m - 1);
        crate::double::lemma_gap(m);
        let g = crate::double::gap(m - 1);
        let t = crate::rounding::twice_midpoint(m - 1);
        assert(2 * t <= 3 * h) by (nonlinear_arith)
            requires
                one * t <= 2 * (h * part),
                4 * part == 3 * one,
                one > 0,
        ;
        assert(2 * g >= h);
        if m >= BINADE {
            assert(BINADE * crate::double::gap(m) <= h);
        }
    }
}

proof fn lemma_stop_below_safe(h: int, u: int, v: int, one: int, part: int)
    requires
        h > 0,
        one > 0,
        4 * part == 3 * one,
        crate::rounding::nearest(h * one, 4 * one, u),
        crate::rounding::nearest(h * part, one, v),
        v < INFINITE,
    ensures
        u < v,
{
    if v <= u {
        let t = crate::rounding::twice_midpoint(v);
        assert(3 * h <= 2 * t) by (nonlinear_arith)
            requires
                2 * (h * part) <= one * t,
                4 * part == 3 * one,
                one > 0,
        ;
        if u == 0 {
            crate::double::lemma_size_step(0);
        } else {
            let s = crate::rounding::twice_midpoint(u - 1);
            if v < u {
                crate::rounding::lemma_midpoints_increase(v, u);
            }
            assert(2 * s <= h) by (nonlinear_arith)
                requires
                    (4 * one) * s <= 2 * (h * one),
                    one > 0,
            ;
            assert((4 * one) * s < 2 * (h * one) ==> 2 * s < h) by (nonlinear_arith)
                requires
                    one > 0,
            ;
            crate::double::lemma_size_step(u - 1);
            crate::double::lemma_size_step(u);
            crate::double::lemma_gap(u);
            assert(crate::double::gap(u) + crate::double::gap(u - 1) >= h);
            if u >= BINADE {
                assert(BINADE * crate::double::gap(u) <= crate::double::size(u));
            } else {
                assert(u == 1);
            }
        }
    }
}

/// The thresholds of a policy are a quarter and three quarters of its headroom,
/// correctly rounded, for every finite positive headroom.
pub proof fn law_thresholds_are_quarters_of_the_headroom(policy: MarginPolicy)
    requires
        policy.headroom.is_finite(),
        Double::zero().less(policy.headroom),
    ensures
        ({
            let (stop, safe) = policy.thresholds();
            let h = policy.headroom.value();
            &&& !stop.is_negative()
            &&& !safe.is_negative()
            &&& crate::rounding::nearest(h, 4, stop.magnitude())
            &&& crate::rounding::nearest(3 * h, 4, safe.magnitude())
        }),
{
    let one = crate::arithmetic::one();
    let h = policy.headroom.value();
    let four = crate::double::size(FOUR as int);
    let part = crate::double::size(THREE_QUARTERS as int);
    let (stop, safe) = policy.thresholds();
    crate::double::lemma_magnitude_order(policy.headroom.magnitude(), 0);
    lemma_band_constants();
    crate::arithmetic::lemma_rounded(false, h * one, four);
    crate::arithmetic::lemma_rounded(false, h * part, one);
    assert(h * one == one * h && four == one * 4) by (nonlinear_arith)
        requires
            four == 4 * one,
    ;
    crate::rounding::lemma_nearest_scaled(h, 4, one, stop.magnitude());
    assert(4 * (h * part) == one * (3 * h)) by (nonlinear_arith)
        requires
            4 * part == 3 * one,
    ;
    crate::rounding::lemma_nearest_scaled(h * part, one, 4, safe.magnitude());
    assert(4 * one == one * 4);
    crate::rounding::lemma_nearest_scaled(3 * h, 4, one, safe.magnitude());
}

/// The thresholds of a policy sit inside its headroom: motion stops before
/// contact, the stop threshold lies below the one for full speed, and that one
/// below the headroom (but for the two smallest positive doubles), so that no
/// reading of the headroom is throttled.
pub proof fn law_thresholds_sit_inside_the_headroom(policy: MarginPolicy)
    requires
        policy.headroom.is_finite(),
        Double::zero().less(policy.headroom),
    ensures
        ({
            let (stop, safe) = policy.thresholds();
            &&& stop.less(safe)
            &&& safe.at_most(policy.headroom)
            &&& policy.headroom.value() > 2 ==> Double::zero().less(stop) && safe.less(
                policy.headroom,
            )
        }),
{
    law_band_sits_inside_the_headroom(policy.headroom);
}

/// The margin of a pair is finite or refused, and never positive: rebasing
/// only ever makes a pair read farther than it is.
pub proof fn law_margins_are_never_positive(baseline: Double, headroom: Double)
    requires
        headroom.is_finite(),
        Double::zero().less(headroom),
    ensures
        !margin_of(baseline, headroom).is_nan(),
        baseline.less(headroom) <==> margin_of(baseline, headroom).less(Double::zero()),
        margin_of(baseline, headroom).at_most(Double::zero()),
{
    if baseline.less(headroom) {
        lemma_rebased(baseline, headroom);
    }
}

/// The closer a pair comes at the references, the smaller its margin.
pub proof fn law_closer_baselines_get_smaller_margins(
    baseline: Double,
    closer: Double,
    headroom: Double,
)
    requires
        headroom.is_finite(),
        Double::zero().less(headroom),
        closer.at_most(baseline),
    ensures
        margin_of(closer, headroom).at_most(margin_of(baseline, headroom)),
{
    law_margins_are_never_positive(baseline, headroom);
    law_margins_are_never_positive(closer, headroom);
    crate::arithmetic::law_differences_keep_the_order(closer, baseline, headroom);
}

/// What the margin of a close pair is.
proof fn lemma_rebased(baseline: Double, headroom: Double)
    requires
        headroom.is_finite(),
        Double::zero().less(headroom),
        baseline.less(headroom),
    ensures
        ({
            let margin = baseline.difference(headroom);
            let x = headroom.value() - baseline.value();
            &&& !margin.is_nan()
            &&& margin.less(Double::zero())
            &&& baseline.is_finite() ==> crate::rounding::nearest(x, 1, margin.magnitude())
            &&& baseline.is_finite() ==> margin.value() == -crate::double::size(
                margin.magnitude(),
            )
            &&& margin.is_finite() ==> baseline.is_finite()
        }),
{
    let margin = baseline.difference(headroom);
    let x = headroom.value() - baseline.value();
    crate::double::lemma_magnitude_order(headroom.magnitude(), 0);
    crate::double::lemma_magnitude_order(headroom.magnitude(), INFINITE as int);
    crate::double::lemma_magnitude_order(baseline.magnitude(), INFINITE as int);
    if baseline.is_finite() {
        crate::arithmetic::lemma_rounded(true, x, 1);
        crate::double::lemma_size_step(0);
        assert(1 * crate::double::size(1) == 1);
        crate::rounding::lemma_nearest_bounds(x, 1, margin.magnitude(), 1);
    }
    crate::double::lemma_magnitude_order(margin.magnitude(), 0);
}

/// By how much the exact difference of a baseline and its margin falls short
/// of the headroom, in units of the smallest positive double: what rounding
/// the margin lost.
pub open spec fn shortfall(baseline: Double, headroom: Double) -> int {
    if baseline.less(headroom) {
        margin_of(baseline, headroom).value() - (baseline.value() - headroom.value())
    } else {
        0
    }
}

/// A reference reads at least the headroom, short of what rounding the margin
/// lost, and the closest one reads just that: `distance` is the raw distance
/// of a pair at some reference, `baseline` the smallest such, and `t` any
/// double to hold the reading against. Where nothing was lost the closest
/// reference reads the headroom exactly.
pub proof fn law_references_read_the_headroom(
    baseline: Double,
    distance: Double,
    headroom: Double,
    t: Double,
)
    requires
        headroom.is_finite(),
        Double::zero().less(headroom),
        baseline.at_most(distance),
        margin_of(baseline, headroom).is_finite(),
        !t.is_nan(),
    ensures
        ({
            let margin = margin_of(baseline, headroom);
            let level = headroom.value() - shortfall(baseline, headroom);
            &&& t.value() <= level ==> t.at_most(distance.difference(margin))
            &&& baseline.less(headroom) && level <= t.value() ==> baseline.difference(
                margin,
            ).at_most(t)
        }),
        baseline.less(headroom) && shortfall(baseline, headroom) == 0 ==> baseline.difference(
            margin_of(baseline, headroom),
        ).value() == headroom.value(),
{
    let margin = margin_of(baseline, headroom);
    crate::double::lemma_magnitude_order(headroom.magnitude(), INFINITE as int);
    crate::double::lemma_magnitude_order(baseline.magnitude(), INFINITE as int);
    crate::double::lemma_magnitude_order(distance.magnitude(), INFINITE as int);
    crate::double::lemma_magnitude_order(t.magnitude(), INFINITE as int);
    if baseline.less(headroom) {
        lemma_rebased(baseline, headroom);
        crate::arithmetic::law_differences_keep_bounds(baseline, margin, t);
        crate::arithmetic::law_differences_keep_bounds(baseline, margin, headroom);
    }
    if distance.is_finite() {
        crate::arithmetic::law_differences_keep_bounds(distance, margin, t);
    }
}

/// What rounding the margin loses is at most half the distance from the
/// margin to the next double.
pub proof fn law_rebasing_is_accurate(baseline: Double, headroom: Double)
    requires
        headroom.is_finite(),
        Double::zero().less(headroom),
        margin_of(baseline, headroom).is_finite(),
    ensures
        ({
            let gap = crate::double::gap(margin_of(baseline, headroom).magnitude());
            -gap <= 2 * shortfall(baseline, headroom) <= gap
        }),
{
    if baseline.less(headroom) {
        lemma_rebased(baseline, headroom);
        crate::arithmetic::law_differences_are_accurate(baseline, headroom);
    }
}

/// References never throttle: what a reference reads is no less than the
/// threshold of the consistent band for full speed, unless the margin is so
/// large that the doubles around it lie farther apart than the threshold and
/// the headroom.
pub proof fn law_references_are_never_throttled(
    baseline: Double,
    distance: Double,
    headroom: Double,
)
    requires
        headroom.is_finite(),
        Double::zero().less(headroom),
        baseline.at_most(distance),
        margin_of(baseline, headroom).is_finite(),
        crate::double::gap(margin_of(baseline, headroom).magnitude()) <= headroom.value()
            - headroom.product(Double { bits: THREE_QUARTERS }).value(),
    ensures
        headroom.product(Double { bits: THREE_QUARTERS }).at_most(
            distance.difference(margin_of(baseline, headroom)),
        ),
{
    let safe = headroom.product(Double { bits: THREE_QUARTERS });
    law_band_sits_inside_the_headroom(headroom);
    law_rebasing_is_accurate(baseline, headroom);
    law_references_read_the_headroom(baseline, distance, headroom, safe);
}

/// Clamping moves a joint value to the nearest one in its range: one inside
/// stays as it is, one below becomes the lower end, one above the upper end.
/// Each joint is held against its own range.
pub proof fn law_clamping_moves_into_the_range(
    q: JointVec,
    limits: [Limit; ARM_DOF],
    r: JointVec,
    i: int,
)
    requires
        joints_finite(q),
        limits_ordered(limits),
        clamped_into(q, limits, r),
        0 <= i < 7,
    ensures
        limits@[i].lo.at_most(r@[i]),
        r@[i].at_most(limits@[i].hi),
        limits@[i].lo.at_most(q@[i]) && q@[i].at_most(limits@[i].hi) ==> r@[i] == q@[i],
        q@[i].less(limits@[i].lo) ==> r@[i] == limits@[i].lo,
        limits@[i].hi.less(q@[i]) ==> r@[i] == limits@[i].hi,
{
    assert(r@[i] == q@[i].clamped(limits@[i].lo, limits@[i].hi));
    assert(limits@[i].lo.at_most(limits@[i].hi));
    assert(q@[i].is_finite());
}

/// A policy is sound exactly where its headroom is a finite positive number and
/// it has references, all values of which are finite; and each fault says what
/// is wrong, the headroom first.
pub proof fn law_policies_are_sound_or_say_why(policy: MarginPolicy)
    ensures
        ({
            let h = policy.headroom;
            let sized = h.is_finite() && h.value() > 0;
            let finite = forall|k: int, i: int|
                0 <= k < policy.references@.len() && 0 <= i < 7 ==> (
                #[trigger] policy.references@[k]@[i]).is_finite();
            &&& policy.fault() is None <==> sized && policy.references@.len() > 0 && finite
            &&& !sized ==> policy.fault() == Some(Fault::Headroom(h))
            &&& sized && policy.references@.len() == 0 ==> policy.fault() == Some(
                Fault::NoReferences,
            )
            &&& sized && !finite ==> policy.fault() == Some(Fault::NonFiniteReference)
        }),
{
    let finite = forall|k: int, i: int|
        0 <= k < policy.references@.len() && 0 <= i < 7 ==> (
        #[trigger] policy.references@[k]@[i]).is_finite();
    if finite {
        assert forall|k: int| 0 <= k < policy.references@.len() implies joints_finite(
            #[trigger] policy.references@[k],
        ) by {
            assert forall|i: int| 0 <= i < ARM_DOF implies (
            #[trigger] policy.references@[k]@[i]).is_finite() by {}
        }
    } else {
        let (k, i) = choose|k: int, i: int|
            0 <= k < policy.references@.len() && 0 <= i < 7 && !(
            #[trigger] policy.references@[k]@[i]).is_finite();
        assert(!joints_finite(policy.references@[k]));
    }
}

} // verus!
