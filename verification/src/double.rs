//! Double-precision numbers, held as the 64 bits of their binary encoding.
//!
//! A [`Double`] is a sign and a magnitude. The magnitudes are consecutive
//! integers: counting up through them walks through the representable
//! numbers in order, the infinity last, and whatever lies beyond the infinity
//! is no number. [`size`] gives the number that a magnitude stands for, in
//! units of the smallest positive one, so every number here is an integer and
//! every statement about order and rounding is a statement about integers.
use vstd::arithmetic::power2::*;
use vstd::prelude::*;

verus! {

/// Two to the 52nd: the number of magnitudes between two powers of two.
pub const BINADE: u64 = 0x0010_0000_0000_0000;

/// The magnitude of the infinity. Larger magnitudes are no numbers.
pub const INFINITE: u64 = 0x7ff0_0000_0000_0000;

/// The bit that holds the sign.
pub const SIGN: u64 = 0x8000_0000_0000_0000;

/// The encoding that stands for a result which is no number.
pub const NAN_BITS: u64 = 0x7ff8_0000_0000_0000;

/// The encoding of 1/4.
pub const QUARTER: u64 = 0x3fd0_0000_0000_0000;

/// The encoding of 1/2.
pub const HALF: u64 = 0x3fe0_0000_0000_0000;

/// The encoding of 3/4.
pub const THREE_QUARTERS: u64 = 0x3fe8_0000_0000_0000;

/// The encoding of 1.
pub const ONE: u64 = 0x3ff0_0000_0000_0000;

/// The encoding of 2.
pub const TWO: u64 = 0x4000_0000_0000_0000;

/// The encoding of 4.
pub const FOUR: u64 = 0x4010_0000_0000_0000;

/// A double-precision number, by its encoding.
#[derive(Clone, Copy, Debug, PartialEq, Eq, Structural)]
pub struct Double {
    pub bits: u64,
}

/// The number that the magnitude `u` stands for, in units of the smallest
/// positive double (the infinity counts as the power of two that follows the
/// largest finite double).
pub open spec fn size(u: int) -> int {
    if u < BINADE {
        u
    } else {
        (BINADE + u % BINADE as int) * pow2((u / BINADE as int - 1) as nat)
    }
}

/// The distance from the magnitude `u` to the next one.
pub open spec fn gap(u: int) -> int {
    if u < BINADE {
        1
    } else {
        pow2((u / BINADE as int - 1) as nat) as int
    }
}

/// Each magnitude is followed by the next one after its gap.
pub proof fn lemma_size_step(u: int)
    requires
        0 <= u,
    ensures
        size(u + 1) == size(u) + gap(u),
        gap(u) > 0,
        size(u) >= 0,
{
    let w = BINADE as int;
    if u < w {
        lemma2_to64();
        if u + 1 == w {
            assert((u + 1) % w == 0 && (u + 1) / w == 1);
            assert(((u + 1) / w - 1) as nat == 0);
            assert(pow2(0) == 1);
            assert((w + (u + 1) % w) * 1 == w);
        }
    } else {
        let e = (u / w - 1) as nat;
        lemma_pow2_pos(e);
        vstd::arithmetic::div_mod::lemma_fundamental_div_mod(u, w);
        let f = u % w;
        assert((w + f) * pow2(e) >= 0) by (nonlinear_arith)
            requires
                w + f >= 0,
        ;
        if f + 1 < w {
            assert((u + 1) / w == u / w && (u + 1) % w == f + 1) by {
                vstd::arithmetic::div_mod::lemma_fundamental_div_mod_converse(
                    u + 1,
                    w,
                    u / w,
                    f + 1,
                );
            }
            assert((w + (f + 1)) * pow2(e) == (w + f) * pow2(e) + pow2(e)) by (nonlinear_arith);
        } else {
            assert((u + 1) / w == u / w + 1 && (u + 1) % w == 0) by {
                vstd::arithmetic::div_mod::lemma_fundamental_div_mod_converse(
                    u + 1,
                    w,
                    u / w + 1,
                    0,
                );
            }
            lemma_pow2_unfold((e + 1) as nat);
            assert(w * (2 * pow2(e)) == (w + (w - 1)) * pow2(e) + pow2(e)) by (nonlinear_arith);
        }
    }
}

/// Larger magnitudes stand for larger numbers.
pub proof fn lemma_size_increases(u: int, v: int)
    requires
        0 <= u < v,
    ensures
        size(u) < size(v),
    decreases v - u,
{
    lemma_size_step(v - 1);
    if u < v - 1 {
        lemma_size_increases(u, v - 1);
    }
}

/// The gap grows with the magnitude, and is tiny next to the number.
pub proof fn lemma_gap(u: int)
    requires
        0 < u,
    ensures
        gap(u - 1) <= gap(u),
        u >= BINADE ==> BINADE * gap(u) <= size(u),
        gap(u) <= size(u),
{
    let w = BINADE as int;
    if u >= w {
        let e = (u / w - 1) as nat;
        lemma_pow2_pos(e);
        let p = pow2(e) as int;
        assert(w * p <= (w + u % w) * p) by (nonlinear_arith)
            requires
                u % w >= 0,
                p > 0,
        ;
        if u - 1 >= w {
            vstd::arithmetic::div_mod::lemma_div_is_ordered(u - 1, u, w);
            let f = ((u - 1) / w - 1) as nat;
            if f < e {
                lemma_pow2_strictly_increases(f, e);
            }
        }
    }
}

impl Double {
    /// The number zero.
    pub open spec fn zero() -> Self {
        Double { bits: 0 }
    }

    /// Whether the sign bit is set.
    pub open spec fn is_negative(self) -> bool {
        self.bits >= SIGN
    }

    /// The encoding without its sign.
    pub open spec fn magnitude(self) -> int {
        if self.bits >= SIGN {
            self.bits - SIGN
        } else {
            self.bits as int
        }
    }

    /// Whether this is no number.
    pub open spec fn is_nan(self) -> bool {
        self.magnitude() > INFINITE
    }

    /// Whether this is a number other than the two infinities.
    pub open spec fn is_finite(self) -> bool {
        self.magnitude() < INFINITE
    }

    /// The number itself, in units of the smallest positive double.
    pub open spec fn value(self) -> int {
        if self.is_negative() {
            -size(self.magnitude())
        } else {
            size(self.magnitude())
        }
    }

    /// `self < other` as numbers; nothing is less than what is no number.
    pub open spec fn less(self, other: Self) -> bool {
        &&& !self.is_nan()
        &&& !other.is_nan()
        &&& self.value() < other.value()
    }

    /// `self <= other` as numbers.
    pub open spec fn at_most(self, other: Self) -> bool {
        &&& !self.is_nan()
        &&& !other.is_nan()
        &&& self.value() <= other.value()
    }

    /// The place in the total order of encodings: the negative ones first,
    /// by falling magnitude, then the others by rising magnitude.
    pub open spec fn rank(self) -> int {
        if self.is_negative() {
            -1 - self.magnitude()
        } else {
            self.magnitude()
        }
    }

    /// The smaller of two, or the one that is a number.
    pub open spec fn lesser(self, other: Self) -> Self {
        if self.is_nan() || other.less(self) {
            other
        } else {
            self
        }
    }

    /// The larger of two, or the one that is a number.
    pub open spec fn greater(self, other: Self) -> Self {
        if self.is_nan() || self.less(other) {
            other
        } else {
            self
        }
    }

    /// `self` moved into the range from `low` to `high`.
    pub open spec fn clamped(self, low: Self, high: Self) -> Self {
        if self.less(low) {
            low
        } else if high.less(self) {
            high
        } else {
            self
        }
    }

    /// The double with this sign and this magnitude.
    pub open spec fn signed(negative: bool, u: int) -> Self {
        Double {
            bits: if negative {
                (SIGN + u) as u64
            } else {
                u as u64
            },
        }
    }

    /// Splits off the sign bit.
    pub fn magnitude_bits(self) -> (r: u64)
        ensures
            r == self.magnitude(),
            r < SIGN,
    {
        if self.bits >= SIGN {
            self.bits - SIGN
        } else {
            self.bits
        }
    }

    /// Joins a sign and a magnitude.
    pub fn with_sign(negative: bool, u: u64) -> (r: Self)
        requires
            u < SIGN,
        ensures
            r == Self::signed(negative, u as int),
            r.is_negative() == negative,
            r.magnitude() == u,
    {
        if negative {
            Double { bits: SIGN + u }
        } else {
            Double { bits: u }
        }
    }

    /// Whether this is no number.
    pub fn nan(self) -> (r: bool)
        ensures
            r == self.is_nan(),
    {
        self.magnitude_bits() > INFINITE
    }

    /// Whether this is a number other than the two infinities.
    pub fn finite(self) -> (r: bool)
        ensures
            r == self.is_finite(),
    {
        self.magnitude_bits() < INFINITE
    }

    /// `self < other` as numbers.
    pub fn lt(self, other: Self) -> (r: bool)
        ensures
            r == self.less(other),
    {
        if self.nan() || other.nan() {
            return false;
        }
        let a: u64 = self.magnitude_bits();
        let b: u64 = other.magnitude_bits();
        proof {
            lemma_magnitude_order(a as int, b as int);
        }
        if self.bits >= SIGN {
            if other.bits >= SIGN {
                b < a
            } else {
                a != 0 || b != 0
            }
        } else {
            if other.bits >= SIGN {
                false
            } else {
                a < b
            }
        }
    }

    /// `self <= other` as numbers.
    pub fn le(self, other: Self) -> (r: bool)
        ensures
            r == self.at_most(other),
    {
        !self.nan() && !other.nan() && !other.lt(self)
    }

    /// The smaller of two, or the one that is a number.
    pub fn min(self, other: Self) -> (r: Self)
        ensures
            r == self.lesser(other),
    {
        if self.nan() || other.lt(self) {
            other
        } else {
            self
        }
    }

    /// The larger of two, or the one that is a number.
    pub fn max(self, other: Self) -> (r: Self)
        ensures
            r == self.greater(other),
    {
        if self.nan() || self.lt(other) {
            other
        } else {
            self
        }
    }

    /// `self` moved into the range from `low` to `high`.
    pub fn clamp(self, low: Self, high: Self) -> (r: Self)
        requires
            low.at_most(high),
        ensures
            r == self.clamped(low, high),
            !self.is_nan() ==> low.at_most(r) && r.at_most(high),
    {
        if self.lt(low) {
            low
        } else if high.lt(self) {
            high
        } else {
            self
        }
    }

    /// Whether `self` comes before `other` in the total order of encodings.
    pub fn precedes(self, other: Self) -> (r: bool)
        ensures
            r == (self.rank() < other.rank()),
    {
        if self.bits >= SIGN {
            other.bits < SIGN || self.bits > other.bits
        } else {
            other.bits < SIGN && self.bits < other.bits
        }
    }
}

/// Magnitudes and the numbers that they stand for are ordered alike.
pub proof fn lemma_magnitude_order(a: int, b: int)
    requires
        0 <= a,
        0 <= b,
    ensures
        a < b <==> size(a) < size(b),
        a == b <==> size(a) == size(b),
        size(a) >= 0,
        size(b) >= 0,
        a == 0 <==> size(a) == 0,
        b == 0 <==> size(b) == 0,
{
    if a < b {
        lemma_size_increases(a, b);
    } else if b < a {
        lemma_size_increases(b, a);
    }
    if a > 0 {
        lemma_size_increases(0, a);
    }
    if b > 0 {
        lemma_size_increases(0, b);
    }
    assert(size(0) == 0);
}

/// The total order of encodings is the order of the numbers, where they differ;
/// and of a zero, the negative one comes first.
pub proof fn law_ranks_follow_the_numbers(a: Double, b: Double)
    requires
        !a.is_nan(),
        !b.is_nan(),
    ensures
        a.value() < b.value() ==> a.rank() < b.rank(),
        a.rank() == b.rank() ==> a == b,
        a.value() == b.value() && a.is_negative() && !b.is_negative() ==> a.rank() < b.rank(),
{
    lemma_magnitude_order(a.magnitude(), b.magnitude());
    lemma_magnitude_order(a.magnitude(), 0);
    lemma_magnitude_order(b.magnitude(), 0);
}

/// Of two numbers, one is less or both are equal; what is no number compares
/// with nothing. At most means less or equal.
pub proof fn law_numbers_are_ordered(a: Double, b: Double)
    ensures
        a.is_nan() || b.is_nan() ==> !a.less(b) && !a.at_most(b),
        !a.is_nan() && !b.is_nan() ==> {
            &&& a.less(b) || b.less(a) || a.value() == b.value()
            &&& !(a.less(b) && b.less(a))
            &&& a.at_most(b) <==> a.less(b) || a.value() == b.value()
            &&& a.value() == b.value() ==> !a.less(b)
            &&& a.value() == b.value() <==> a == b || a.magnitude() == 0 && b.magnitude() == 0
        },
        a.is_finite() ==> !a.is_nan(),
{
    lemma_magnitude_order(a.magnitude(), b.magnitude());
    lemma_magnitude_order(a.magnitude(), 0);
    lemma_magnitude_order(b.magnitude(), 0);
}

} // verus!
