//! Rounding to the nearest double, ties to the even encoding.
//!
//! Every operation of [`crate::arithmetic`] finds its result in two steps: a
//! whole number of some power of two that brackets the exact result from
//! below, then the magnitude nearest to what was bracketed.
use vstd::arithmetic::power2::*;
use vstd::prelude::*;

use crate::double::BINADE;
use crate::double::INFINITE;

verus! {

/// Twice the number half way between the magnitude `u` and the next one.
pub open spec fn twice_midpoint(u: int) -> int {
    crate::double::size(u) + crate::double::size(u + 1)
}

/// `u` is the magnitude nearest to `num / den`; of two equally near ones it
/// is the even one.
pub open spec fn nearest(num: int, den: int, u: int) -> bool {
    &&& 0 <= u <= INFINITE
    &&& u > 0 ==> {
        ||| den * twice_midpoint(u - 1) < 2 * num
        ||| den * twice_midpoint(u - 1) == 2 * num && u % 2 == 0
    }
    &&& u < INFINITE ==> {
        ||| 2 * num < den * twice_midpoint(u)
        ||| 2 * num == den * twice_midpoint(u) && u % 2 == 0
    }
}

/// `u` is the magnitude nearest to the square root of `n`; of two equally
/// near ones it is the even one.
pub open spec fn nearest_root(n: int, u: int) -> bool {
    &&& 0 <= u <= INFINITE
    &&& u > 0 ==> {
        ||| twice_midpoint(u - 1) * twice_midpoint(u - 1) < 4 * n
        ||| twice_midpoint(u - 1) * twice_midpoint(u - 1) == 4 * n && u % 2 == 0
    }
    &&& u < INFINITE ==> {
        ||| 4 * n < twice_midpoint(u) * twice_midpoint(u)
        ||| 4 * n == twice_midpoint(u) * twice_midpoint(u) && u % 2 == 0
    }
}

/// Midpoints grow with the magnitude.
pub proof fn lemma_midpoints_increase(u: int, v: int)
    requires
        0 <= u < v,
    ensures
        0 < twice_midpoint(u) < twice_midpoint(v),
{
    crate::double::lemma_size_increases(u, v);
    crate::double::lemma_size_increases(u + 1, v + 1);
    crate::double::lemma_size_step(u);
}

/// No other magnitude is nearest to the same ratio.
pub proof fn lemma_nearest_unique(num: int, den: int, u: int, v: int)
    requires
        den > 0,
        nearest(num, den, u),
        nearest(num, den, v),
    ensures
        u == v,
{
    if u != v {
        let a = if u < v {
            u
        } else {
            v
        };
        let b = if u < v {
            v
        } else {
            u
        };
        if a < b - 1 {
            lemma_midpoints_increase(a, b - 1);
            assert(den * twice_midpoint(a) < den * twice_midpoint(b - 1)) by (nonlinear_arith)
                requires
                    den > 0,
                    twice_midpoint(a) < twice_midpoint(b - 1),
            ;
        }
    }
}

/// No other magnitude is nearest to the same square root.
pub proof fn lemma_nearest_root_unique(n: int, u: int, v: int)
    requires
        nearest_root(n, u),
        nearest_root(n, v),
    ensures
        u == v,
{
    if u != v {
        let a = if u < v {
            u
        } else {
            v
        };
        let b = if u < v {
            v
        } else {
            u
        };
        if a < b - 1 {
            lemma_midpoints_increase(a, b - 1);
            let x = twice_midpoint(a);
            let y = twice_midpoint(b - 1);
            assert(x * x < y * y) by (nonlinear_arith)
                requires
                    0 < x < y,
            ;
        }
    }
}

/// Some magnitude is nearest to every ratio.
pub proof fn lemma_nearest_exists(num: int, den: int)
    ensures
        exists|u: int| nearest(num, den, u),
{
    lemma_nearest_below(num, den, INFINITE as int);
}

proof fn lemma_nearest_below(num: int, den: int, u: int)
    requires
        0 <= u <= INFINITE,
        u < INFINITE ==> {
            ||| 2 * num < den * twice_midpoint(u)
            ||| 2 * num == den * twice_midpoint(u) && u % 2 == 0
        },
    ensures
        exists|v: int| nearest(num, den, v),
    decreases u,
{
    if u == 0 || den * twice_midpoint(u - 1) < 2 * num || (den * twice_midpoint(u - 1) == 2 * num
        && u % 2 == 0) {
        assert(nearest(num, den, u));
    } else {
        lemma_nearest_below(num, den, u - 1);
    }
}

/// Some magnitude is nearest to every square root.
pub proof fn lemma_nearest_root_exists(n: int)
    ensures
        exists|u: int| nearest_root(n, u),
{
    lemma_nearest_root_below(n, INFINITE as int);
}

proof fn lemma_nearest_root_below(n: int, u: int)
    requires
        0 <= u <= INFINITE,
        u < INFINITE ==> {
            ||| 4 * n < twice_midpoint(u) * twice_midpoint(u)
            ||| 4 * n == twice_midpoint(u) * twice_midpoint(u) && u % 2 == 0
        },
    ensures
        exists|v: int| nearest_root(n, v),
    decreases u,
{
    if u == 0 || twice_midpoint(u - 1) * twice_midpoint(u - 1) < 4 * n || (twice_midpoint(u - 1)
        * twice_midpoint(u - 1) == 4 * n && u % 2 == 0) {
        assert(nearest_root(n, u));
    } else {
        lemma_nearest_root_below(n, u - 1);
    }
}

/// Rounding never passes a representable number.
pub proof fn lemma_nearest_bounds(num: int, den: int, u: int, v: int)
    requires
        den > 0,
        nearest(num, den, u),
        0 <= v <= INFINITE,
    ensures
        den * crate::double::size(v) <= num ==> v <= u,
        num <= den * crate::double::size(v) ==> u <= v,
{
    let x = crate::double::size(v);
    if u < v {
        crate::double::lemma_size_step(u);
        if u + 1 < v {
            crate::double::lemma_size_increases(u + 1, v);
        }
        let m = twice_midpoint(u);
        assert(den * m < 2 * (den * x)) by (nonlinear_arith)
            requires
                den > 0,
                m < 2 * x,
        ;
    } else if v < u {
        crate::double::lemma_size_step(u - 1);
        if v < u - 1 {
            crate::double::lemma_size_increases(v, u - 1);
        }
        let m = twice_midpoint(u - 1);
        assert(den * m > 2 * (den * x)) by (nonlinear_arith)
            requires
                den > 0,
                m > 2 * x,
        ;
    }
}

/// Nor does rounding a square root.
pub proof fn lemma_root_bound(n: int, u: int, v: int)
    requires
        nearest_root(n, u),
        0 <= v,
        n <= crate::double::size(v) * crate::double::size(v),
    ensures
        u <= v,
{
    if v < u {
        let x = crate::double::size(v);
        crate::double::lemma_size_step(v);
        if v < u - 1 {
            lemma_midpoints_increase(v, u - 1);
        }
        let m = twice_midpoint(u - 1);
        assert(m * m > 4 * (x * x)) by (nonlinear_arith)
            requires
                m > 2 * x,
                x >= 0,
        ;
    }
}

/// Rounding to a finite magnitude is off by at most half its gap.
pub proof fn lemma_nearest_error(num: int, den: int, u: int)
    requires
        den > 0,
        num >= 0,
        nearest(num, den, u),
        u < INFINITE,
    ensures
        den * (2 * crate::double::size(u) - crate::double::gap(u)) <= 2 * num,
        2 * num <= den * (2 * crate::double::size(u) + crate::double::gap(u)),
{
    let (x, g) = (crate::double::size(u), crate::double::gap(u));
    crate::double::lemma_size_step(u);
    assert(twice_midpoint(u) == 2 * x + g);
    if u == 0 {
        assert(den * (2 * x - g) <= 0) by (nonlinear_arith)
            requires
                den > 0,
                2 * x - g <= 0,
        ;
    } else {
        crate::double::lemma_size_step(u - 1);
        crate::double::lemma_gap(u);
        let m = twice_midpoint(u - 1);
        assert(den * (2 * x - g) <= den * m) by (nonlinear_arith)
            requires
                den > 0,
                2 * x - g <= m,
        ;
    }
}

/// So is rounding a square root.
pub proof fn lemma_root_error(n: int, u: int)
    requires
        n >= 0,
        nearest_root(n, u),
        0 < u < INFINITE,
    ensures
        ({
            let (x, g) = (crate::double::size(u), crate::double::gap(u));
            &&& 0 < g <= x
            &&& (2 * x - g) * (2 * x - g) <= 4 * n <= (2 * x + g) * (2 * x + g)
        }),
{
    let (x, g) = (crate::double::size(u), crate::double::gap(u));
    crate::double::lemma_size_step(u);
    crate::double::lemma_size_step(u - 1);
    crate::double::lemma_gap(u);
    let m = twice_midpoint(u - 1);
    assert(twice_midpoint(u) == 2 * x + g);
    let l = 2 * x - g;
    assert(l * l <= m * m) by (nonlinear_arith)
        requires
            0 <= l <= m,
    ;
}

/// A ratio may be extended: the nearest magnitude stays the same.
pub proof fn lemma_nearest_scaled(num: int, den: int, k: int, u: int)
    requires
        k > 0,
    ensures
        nearest(k * num, k * den, u) == nearest(num, den, u),
{
    let b = 2 * num;
    assert(2 * (k * num) == k * b) by (nonlinear_arith)
        requires
            b == 2 * num,
    ;
    lemma_scaled_sides(k, den * twice_midpoint(u - 1), b);
    lemma_scaled_sides(k, den * twice_midpoint(u), b);
    let (m, n) = (twice_midpoint(u - 1), twice_midpoint(u));
    assert((k * den) * m == k * (den * m)) by (nonlinear_arith);
    assert((k * den) * n == k * (den * n)) by (nonlinear_arith);
}

proof fn lemma_scaled_sides(k: int, a: int, b: int)
    requires
        k > 0,
    ensures
        k * a < k * b <==> a < b,
        k * b < k * a <==> b < a,
        k * a == k * b <==> a == b,
{
    assert(a < b ==> k * a < k * b) by (nonlinear_arith)
        requires
            k > 0,
    ;
    assert(b < a ==> k * b < k * a) by (nonlinear_arith)
        requires
            k > 0,
    ;
}

/// Rounding keeps the order.
pub proof fn lemma_nearest_monotone(x: int, y: int, u: int, v: int)
    requires
        x <= y,
        nearest(x, 1, u),
        nearest(y, 1, v),
    ensures
        u <= v,
{
    if v < u {
        if v < u - 1 {
            lemma_midpoints_increase(v, u - 1);
        }
        assert(1 * twice_midpoint(v) == twice_midpoint(v));
        assert(1 * twice_midpoint(u - 1) == twice_midpoint(u - 1));
    }
}

/// How far a magnitude is from a ratio, times the denominator.
pub open spec fn away(num: int, den: int, u: int) -> int {
    let d = den * crate::double::size(u) - num;
    if d >= 0 {
        d
    } else {
        -d
    }
}

/// Rounding goes to the nearest: no magnitude is nearer to the ratio than the
/// one it is rounded to; and where another is as near, that one is even.
pub proof fn law_rounding_goes_to_the_nearest(num: int, den: int, u: int, v: int)
    requires
        den > 0,
        nearest(num, den, u),
        0 <= v <= INFINITE,
        v != u,
    ensures
        away(num, den, u) <= away(num, den, v),
        away(num, den, u) == away(num, den, v) ==> u % 2 == 0,
{
    let (x, y) = (crate::double::size(u), crate::double::size(v));
    crate::double::lemma_magnitude_order(u, v);
    let (a, b) = (den * x, den * y);
    if u < v {
        crate::double::lemma_magnitude_order(u + 1, v);
        let t = twice_midpoint(u);
        assert(a < b && den * t <= a + b) by (nonlinear_arith)
            requires
                a == den * x,
                b == den * y,
                x < y,
                t <= x + y,
                den > 0,
        ;
    } else {
        crate::double::lemma_magnitude_order(u - 1, v);
        let t = twice_midpoint(u - 1);
        assert(b < a && a + b <= den * t) by (nonlinear_arith)
            requires
                a == den * x,
                b == den * y,
                y < x,
                x + y <= t,
                den > 0,
        ;
    }
}

/// So does rounding a square root: of the magnitude it is rounded to and any
/// other, the root lies on the near side of their middle; and where it is the
/// middle, that magnitude is even.
pub proof fn law_roots_go_to_the_nearest(n: int, u: int, v: int)
    requires
        nearest_root(n, u),
        0 <= v <= INFINITE,
        v != u,
    ensures
        ({
            let m = crate::double::size(u) + crate::double::size(v);
            &&& u < v ==> 4 * n <= m * m
            &&& v < u ==> m * m <= 4 * n
            &&& 4 * n == m * m ==> u % 2 == 0
        }),
{
    let (x, y) = (crate::double::size(u), crate::double::size(v));
    crate::double::lemma_magnitude_order(u, v);
    crate::double::lemma_magnitude_order(u, 0);
    crate::double::lemma_magnitude_order(v, 0);
    let m = x + y;
    if u < v {
        crate::double::lemma_magnitude_order(u + 1, v);
        let t = twice_midpoint(u);
        assert(t * t <= m * m) by (nonlinear_arith)
            requires
                0 <= t <= m,
        ;
    } else {
        crate::double::lemma_magnitude_order(u - 1, v);
        let t = twice_midpoint(u - 1);
        assert(m * m <= t * t) by (nonlinear_arith)
            requires
                0 <= m <= t,
        ;
    }
}

/// Rounding ratios of one denominator keeps the order.
pub proof fn lemma_ratios_monotone(x: int, y: int, den: int, u: int, v: int)
    requires
        x <= y,
        den > 0,
        nearest(x, den, u),
        nearest(y, den, v),
    ensures
        u <= v,
{
    if v < u {
        let (a, b) = (twice_midpoint(v), twice_midpoint(u - 1));
        if v < u - 1 {
            lemma_midpoints_increase(v, u - 1);
        }
        assert(den * a <= den * b && (a < b ==> den * a < den * b)) by (nonlinear_arith)
            requires
                a <= b,
                den > 0,
        ;
    }
}

/// How far exponents are moved up so that none is negative.
pub const SHIFT: i32 = 1200;

/// `u` is nearest to every number that `s` brackets: to `s * 2^k` where
/// `exact`, else to each number above it and below `(s + 1) * 2^k`.
pub open spec fn rounds(s: int, k: int, exact: bool, u: int) -> bool {
    let c = pow2(SHIFT as nat) as int;
    let p = pow2((k + SHIFT) as nat) as int;
    &&& 0 <= u
    &&& u > 0 ==> {
        ||| twice_midpoint(u - 1) * c < 2 * s * p
        ||| twice_midpoint(u - 1) * c == 2 * s * p && (!exact || u % 2 == 0)
    }
    &&& u < INFINITE ==> {
        ||| exact && 2 * s * p < twice_midpoint(u) * c
        ||| exact && 2 * s * p == twice_midpoint(u) * c && u % 2 == 0
        ||| !exact && 2 * (s + 1) * p <= twice_midpoint(u) * c
    }
}

/// A significand and an exponent, packed into a magnitude.
pub proof fn lemma_pack(e: nat, q: int)
    requires
        0 <= q <= 2 * BINADE,
        e == 0 || q >= BINADE,
    ensures
        crate::double::size(e * BINADE + q) == q * pow2(e),
{
    let w = BINADE as int;
    lemma2_to64();
    let u = e * w + q;
    if q < w {
        assert(q * pow2(0) == q);
    } else if q < 2 * w {
        assert(u == (e + 1) * w + (q - w)) by (nonlinear_arith)
            requires
                u == e * w + q,
        ;
        vstd::arithmetic::div_mod::lemma_fundamental_div_mod_converse(u, w, (e + 1) as int, q - w);
    } else {
        assert(u == (e + 2) * w + 0) by (nonlinear_arith)
            requires
                u == e * w + q,
                q == 2 * w,
        ;
        vstd::arithmetic::div_mod::lemma_fundamental_div_mod_converse(u, w, (e + 2) as int, 0);
        lemma_pow2_unfold((e + 1) as nat);
        assert(w * (2 * pow2(e)) == (2 * w) * pow2(e)) by (nonlinear_arith);
    }
}

/// `x * 2^n`.
pub fn scale_up(x: u128, n: u32) -> (r: u128)
    requires
        x * pow2(n as nat) <= u128::MAX,
        n < 128,
    ensures
        r == x * pow2(n as nat),
{
    proof {
        lemma_scale_up(x, n as u128);
    }
    x << (n as u128)
}

proof fn lemma_scale_up(x: u128, n: u128)
    requires
        x * pow2(n as nat) <= u128::MAX,
        n < 128,
    ensures
        (x << n) == x * pow2(n as nat),
    decreases n,
{
    lemma2_to64();
    if n == 0 {
        assert(x << 0u128 == x) by (bit_vector);
        assert(pow2(0) == 1);
        assert(x * 1 == x);
    } else {
        let m: u128 = (n - 1) as u128;
        lemma_pow2_unfold(n as nat);
        assert(x * pow2(n as nat) == 2 * (x * pow2(m as nat))) by (nonlinear_arith)
            requires
                pow2(n as nat) == 2 * pow2(m as nat),
        ;
        lemma_scale_up(x, m);
        let y: u128 = x << m;
        assert(x << n == y << 1u128) by (bit_vector)
            requires
                y == x << m,
                n == m + 1,
                m < 127u128,
        ;
        assert(y <= 0x7fff_ffff_ffff_ffff_ffff_ffff_ffff_ffffu128);
        assert(y << 1u128 == 2 * y) by (bit_vector)
            requires
                y <= 0x7fff_ffff_ffff_ffff_ffff_ffff_ffff_ffffu128,
        ;
    }
}

/// `x / 2^n`, the fraction dropped.
pub fn scale_down(x: u128, n: u32) -> (r: u128)
    requires
        n < 128,
    ensures
        r == x as int / pow2(n as nat) as int,
{
    proof {
        vstd::bits::lemma_u128_shr_is_div(x, n as u128);
    }
    x >> (n as u128)
}

/// The number of binary digits of `x`.
pub fn digits(x: u128) -> (n: u32)
    ensures
        n <= 128,
        x < pow2(n as nat),
        x > 0 ==> n > 0 && pow2((n - 1) as nat) <= x,
        x == 0 ==> n == 0,
{
    let mut n: u32 = 0;
    let mut y: u128 = x;
    proof {
        lemma2_to64();
    }
    while y > 0
        invariant
            n <= 128,
            y as int == x as int / pow2(n as nat) as int,
            x > 0 && n > 0 ==> pow2((n - 1) as nat) <= x,
            x == 0 ==> n == 0,
        decreases y,
    {
        proof {
            let p = pow2(n as nat) as int;
            lemma_pow2_pos(n as nat);
            vstd::arithmetic::div_mod::lemma_fundamental_div_mod(x as int, p);
            assert(p <= x) by (nonlinear_arith)
                requires
                    x == p * (x as int / p) + x as int % p,
                    x as int % p >= 0,
                    x as int / p >= 1,
                    p > 0,
            ;
            if n >= 128 {
                lemma_pow2_128();
                if n > 128 {
                    lemma_pow2_strictly_increases(128, n as nat);
                }
                assert(false);
            }
            vstd::arithmetic::div_mod::lemma_div_denominator(x as int, p, 2);
            lemma_pow2_unfold((n + 1) as nat);
            assert(pow2((n + 1) as nat) == p * 2);
        }
        y = y / 2;
        n = n + 1;
    }
    proof {
        let p = pow2(n as nat) as int;
        lemma_pow2_pos(n as nat);
        vstd::arithmetic::div_mod::lemma_fundamental_div_mod(x as int, p);
        vstd::arithmetic::div_mod::lemma_mod_bound(x as int, p);
        assert(p * (x as int / p) == 0);
    }
    n
}

/// The powers of two that machine integers are compared with.
pub proof fn lemma_pow2_128()
    ensures
        pow2(0) == 1,
        pow2(52) == BINADE,
        pow2(53) == 2 * BINADE,
        pow2(64) == 0x1_0000_0000_0000_0000,
        pow2(120) == 0x1_00_0000_0000_0000_0000_0000_0000_0000,
        pow2(128) == u128::MAX + 1,
{
    lemma2_to64();
    lemma2_to64_rest();
    lemma_pow2_adds(64, 64);
    lemma_pow2_adds(64, 56);
}

/// The magnitude nearest to what `s` brackets (see [`rounds`]).
pub fn round(s: u128, k: i32, exact: bool) -> (u: u64)
    requires
        -SHIFT <= k <= 4000,
        s < 0x1_00_0000_0000_0000_0000_0000_0000_0000,
        !exact ==> s >= 0x40_0000_0000_0000,
    ensures
        rounds(s as int, k as int, exact, u as int),
        u <= INFINITE,
{
    if s == 0 {
        proof {
            lemma_round_zero(k as int);
        }
        return 0;
    }
    let n: i32 = digits(s) as i32;
    proof {
        lemma_digits_bound(s as int, n as nat, exact);
    }
    let e: i32 = if k + n > 53 {
        k + n - 53
    } else {
        0
    };
    if e <= k {
        let l: u32 = (k - e) as u32;
        proof {
            lemma_fits(s as int, n as nat, l as nat);
        }
        let q: u128 = scale_up(s, l);
        let u: u64 = e as u64 * BINADE + q as u64;
        proof {
            if e > 0 {
                lemma_top_digit(s as int, n as nat, l as nat);
            }
            lemma_round_exact(s as int, k as int, e as nat, l as nat);
        }
        cap(s, k, exact, u)
    } else {
        let r: u32 = (e - k) as u32;
        if r as i32 > n {
            proof {
                lemma_round_tiny(s as int, k as int, exact, n as nat);
            }
            return 0;
        }
        let q: u128 = scale_down(s, r);
        proof {
            lemma_quotient_bound(s as int, n as nat, r as nat, e as nat);
        }
        let rem: u128 = s - scale_up(q, r);
        let half: u128 = scale_up(1, r - 1);
        let u: u64 = e as u64 * BINADE + q as u64;
        let up: bool = rem > half || (rem == half && (!exact || q % 2 == 1));
        proof {
            lemma_round_cut(s as int, k as int, exact, e as nat, r as nat, q as int);
        }
        if up {
            cap(s, k, exact, u + 1)
        } else {
            cap(s, k, exact, u)
        }
    }
}

/// A magnitude past the infinity is replaced by the infinity.
fn cap(s: u128, k: i32, exact: bool, u: u64) -> (r: u64)
    requires
        rounds(s as int, k as int, exact, u as int),
    ensures
        rounds(s as int, k as int, exact, r as int),
        r <= INFINITE,
{
    if u > INFINITE {
        proof {
            let c = pow2(SHIFT as nat) as int;
            lemma_pow2_pos(SHIFT as nat);
            lemma_midpoints_increase(INFINITE - 1, u - 1);
            assert(twice_midpoint(INFINITE - 1) * c < twice_midpoint(u - 1) * c)
                by (nonlinear_arith)
                requires
                    c > 0,
                    twice_midpoint(INFINITE - 1) < twice_midpoint(u - 1),
            ;
        }
        INFINITE
    } else {
        u
    }
}

proof fn lemma_round_zero(k: int)
    ensures
        rounds(0, k, true, 0),
{
    let c = pow2(SHIFT as nat) as int;
    let p = pow2((k + SHIFT) as nat) as int;
    lemma_pow2_pos(SHIFT as nat);
    crate::double::lemma_size_step(0);
    assert(2 * 0 * p == 0) by (nonlinear_arith);
    assert(twice_midpoint(0) * c > 0) by (nonlinear_arith)
        requires
            twice_midpoint(0) > 0,
            c > 0,
    ;
}

proof fn lemma_digits_bound(s: int, n: nat, exact: bool)
    requires
        0 < s < 0x1_00_0000_0000_0000_0000_0000_0000_0000,
        n > 0,
        pow2((n - 1) as nat) <= s < pow2(n),
        !exact ==> s >= 0x40_0000_0000_0000,
    ensures
        n <= 120,
        !exact ==> n > 54,
{
    lemma_pow2_128();
    lemma_pow2_adds(52, 2);
    lemma2_to64();
    if n > 120 {
        if n > 121 {
            lemma_pow2_strictly_increases(120, (n - 1) as nat);
        }
    }
    if !exact && n <= 54 {
        if n < 54 {
            lemma_pow2_strictly_increases(n, 54);
        }
    }
}

proof fn lemma_fits(s: int, n: nat, l: nat)
    requires
        0 < s < pow2(n),
        n + l <= 53,
    ensures
        s * pow2(l) < 2 * BINADE,
        s * pow2(l) <= u128::MAX,
{
    lemma_pow2_128();
    lemma_pow2_pos(l);
    lemma_pow2_adds(n, l);
    if n + l < 53 {
        lemma_pow2_strictly_increases(n + l, 53);
    }
    assert(s * pow2(l) < pow2(n) * pow2(l)) by (nonlinear_arith)
        requires
            s < pow2(n),
            pow2(l) > 0,
    ;
}

proof fn lemma_top_digit(s: int, n: nat, l: nat)
    requires
        n > 0,
        pow2((n - 1) as nat) <= s,
        n + l == 53,
    ensures
        s * pow2(l) >= BINADE,
{
    lemma_pow2_128();
    lemma_pow2_adds((n - 1) as nat, l);
    assert(s * pow2(l) >= pow2((n - 1) as nat) * pow2(l)) by (nonlinear_arith)
        requires
            s >= pow2((n - 1) as nat),
    ;
}

proof fn lemma_round_exact(s: int, k: int, e: nat, l: nat)
    requires
        s > 0,
        e + l == k,
        s * pow2(l) < 2 * BINADE,
        e == 0 || s * pow2(l) >= BINADE,
    ensures
        rounds(s, k, true, e * BINADE + s * pow2(l)),
{
    let q = s * pow2(l);
    let u = e * BINADE + q;
    let c = pow2(SHIFT as nat) as int;
    let p = pow2((k + SHIFT) as nat) as int;
    lemma_pow2_pos(SHIFT as nat);
    lemma_pow2_pos(l);
    assert(q > 0) by (nonlinear_arith)
        requires
            q == s * pow2(l),
            s > 0,
            pow2(l) > 0,
    ;
    lemma_pack(e, q);
    lemma_pow2_adds(l, e);
    lemma_pow2_adds(k as nat, SHIFT as nat);
    let v = crate::double::size(u);
    assert(v * c == s * p) by (nonlinear_arith)
        requires
            v == (s * pow2(l)) * pow2(e),
            pow2(l) * pow2(e) == pow2(k as nat),
            pow2(k as nat) * c == p,
    ;
    crate::double::lemma_size_step(u);
    crate::double::lemma_size_step(u - 1);
    lemma_scaled_order(twice_midpoint(u - 1), 2 * v, c);
    lemma_scaled_order(2 * v, twice_midpoint(u), c);
    assert(2 * v * c == 2 * s * p) by (nonlinear_arith)
        requires
            v * c == s * p,
    ;
}

proof fn lemma_scaled_order(a: int, b: int, c: int)
    requires
        a < b,
        c > 0,
    ensures
        a * c < b * c,
{
    assert(a * c < b * c) by (nonlinear_arith)
        requires
            a < b,
            c > 0,
    ;
}

proof fn lemma_round_tiny(s: int, k: int, exact: bool, n: nat)
    requires
        0 < s < pow2(n),
        n + k < 0,
        k + SHIFT >= 0,
    ensures
        rounds(s, k, exact, 0),
{
    let c = pow2(SHIFT as nat) as int;
    let p = pow2((k + SHIFT) as nat) as int;
    lemma_pow2_pos((k + SHIFT) as nat);
    lemma_pow2_adds(n, (k + SHIFT) as nat);
    let m = (n + k + SHIFT) as nat;
    lemma_pow2_unfold((m + 1) as nat);
    if m + 1 < SHIFT {
        lemma_pow2_strictly_increases((m + 1) as nat, SHIFT as nat);
    }
    crate::double::lemma_size_step(0);
    assert(twice_midpoint(0) == 1);
    assert(2 * (s + 1) * p <= 2 * (pow2(n) * p)) by (nonlinear_arith)
        requires
            s + 1 <= pow2(n),
            p > 0,
    ;
    assert(2 * s * p < 2 * (s + 1) * p) by (nonlinear_arith)
        requires
            p > 0,
    ;
    assert(1 * c == c);
}

proof fn lemma_quotient_bound(s: int, n: nat, r: nat, e: nat)
    requires
        n > 0,
        pow2((n - 1) as nat) <= s < pow2(n),
        1 <= r <= n <= 120,
        n - r <= 53,
        e > 0 ==> n - r == 53,
    ensures
        (s / pow2(r) as int) * pow2(r) <= s < (s / pow2(r) as int + 1) * pow2(r),
        0 <= s / pow2(r) as int,
        s / (pow2(r) as int) < 2 * BINADE,
        e > 0 ==> s / (pow2(r) as int) >= BINADE,
        (s / pow2(r) as int) * pow2(r) <= u128::MAX,
        1 * pow2((r - 1) as nat) <= u128::MAX,
        pow2(r) == 2 * pow2((r - 1) as nat),
{
    let t = pow2(r) as int;
    let q = s / t;
    lemma_pow2_128();
    lemma_pow2_pos(r);
    lemma_pow2_unfold(r);
    vstd::arithmetic::div_mod::lemma_fundamental_div_mod(s, t);
    vstd::arithmetic::div_mod::lemma_mod_bound(s, t);
    assert(q * t <= s < (q + 1) * t) by (nonlinear_arith)
        requires
            s == t * q + s % t,
            0 <= s % t < t,
    ;
    vstd::arithmetic::div_mod::lemma_div_pos_is_pos(s, t);
    let d = (n - r) as nat;
    lemma_pow2_adds(d, r);
    if d < 53 {
        lemma_pow2_strictly_increases(d, 53);
    }
    if n < 120 {
        lemma_pow2_strictly_increases(n, 120);
    }
    if r < 120 {
        lemma_pow2_strictly_increases(r, 120);
    }
    assert(q < pow2(d)) by (nonlinear_arith)
        requires
            q * t <= s,
            s < pow2(n),
            pow2(d) * t == pow2(n),
            t > 0,
    ;
    if e > 0 {
        lemma_pow2_adds(52, r);
        assert(q >= pow2(52)) by (nonlinear_arith)
            requires
                s < (q + 1) * t,
                s >= pow2((n - 1) as nat),
                pow2(52) * t == pow2((n - 1) as nat),
                t > 0,
        ;
    }
}

proof fn lemma_round_cut(s: int, k: int, exact: bool, e: nat, r: nat, q: int)
    requires
        k + SHIFT >= 0,
        e == k + r,
        r >= 1,
        q * pow2(r) <= s < (q + 1) * pow2(r),
        0 <= q < 2 * BINADE,
        e == 0 || q >= BINADE,
    ensures
        ({
            let rem = s - q * pow2(r);
            let half = pow2((r - 1) as nat);
            let up = rem > half || (rem == half && (!exact || q % 2 == 1));
            rounds(
                s,
                k,
                exact,
                e * BINADE + q + if up {
                    1int
                } else {
                    0
                },
            )
        }),
{
    let u = e * BINADE + q;
    let c = pow2(SHIFT as nat) as int;
    let p = pow2((k + SHIFT) as nat) as int;
    let t = pow2(r) as int;
    let b = pow2(e) as int;
    let half = pow2((r - 1) as nat) as int;
    let rem = s - q * t;
    lemma_pow2_pos(SHIFT as nat);
    lemma_pow2_pos((k + SHIFT) as nat);
    lemma_pow2_unfold(r);
    lemma_pow2_adds(e, SHIFT as nat);
    lemma_pow2_adds(r, (k + SHIFT) as nat);
    lemma_pack(e, q);
    lemma_pack(e, q + 1);
    let v = crate::double::size(u);
    let w = crate::double::size(u + 1);
    assert(twice_midpoint(u) == v + w);
    lemma_cut_facts(s, q, p, c, b, half);
    lemma_signs(p, half - rem);
    if rem > half || (rem == half && (!exact || q % 2 == 1)) {
        crate::double::lemma_size_step(u + 1);
        lemma_scaled_order(2 * w, twice_midpoint(u + 1), c);
        assert(rounds(s, k, exact, u + 1));
    } else {
        if u > 0 {
            crate::double::lemma_size_step(u - 1);
            lemma_scaled_order(twice_midpoint(u - 1), 2 * v, c);
        }
        assert(rounds(s, k, exact, u));
    }
}

/// The two magnitudes next to a cut number, and the midpoint between them, in
/// units of `p`.
proof fn lemma_cut_facts(s: int, q: int, p: int, c: int, b: int, half: int)
    requires
        p > 0,
        b * c == (2 * half) * p,
        q * (2 * half) <= s < (q + 1) * (2 * half),
    ensures
        (q * b + (q + 1) * b) * c == 2 * s * p + 2 * p * (half - (s - q * (2 * half))),
        2 * (q * b) * c <= 2 * s * p,
        2 * ((q + 1) * b) * c >= 2 * (s + 1) * p,
        2 * (s + 1) * p == 2 * s * p + 2 * p,
{
    let t = 2 * half;
    let x = t * p;
    assert((q * b) * c == q * x) by (nonlinear_arith)
        requires
            b * c == x,
    ;
    assert(((q + 1) * b) * c == (q + 1) * x) by (nonlinear_arith)
        requires
            b * c == x,
    ;
    assert(2 * (q * b) * c == 2 * ((q * b) * c)) by (nonlinear_arith);
    assert(2 * ((q + 1) * b) * c == 2 * (((q + 1) * b) * c)) by (nonlinear_arith);
    assert((q * b + (q + 1) * b) * c == (q * b) * c + ((q + 1) * b) * c) by (nonlinear_arith);
    assert(q * x == (q * t) * p && (q + 1) * x == ((q + 1) * t) * p) by (nonlinear_arith)
        requires
            x == t * p,
    ;
    assert((q * t) * p <= s * p && ((q + 1) * t) * p >= (s + 1) * p) by (nonlinear_arith)
        requires
            q * t <= s,
            s + 1 <= (q + 1) * t,
            p > 0,
    ;
    assert(2 * s * p == 2 * (s * p) && 2 * (s + 1) * p == 2 * ((s + 1) * p) && (s + 1) * p == s * p
        + p) by (nonlinear_arith);
    assert((q * t) * p + ((q + 1) * t) * p == 2 * (s * p) + 2 * p * (half - (s - q * t)))
        by (nonlinear_arith)
        requires
            t == 2 * half,
    ;
}

proof fn lemma_signs(p: int, d: int)
    requires
        p > 0,
    ensures
        d < 0 ==> 2 * p * d < 0,
        d == 0 ==> 2 * p * d == 0,
        d > 0 ==> 2 * p * d >= 2 * p,
{
    assert(d < 0 ==> 2 * p * d < 0) by (nonlinear_arith)
        requires
            p > 0,
    ;
    assert(d > 0 ==> 2 * p * d >= 2 * p) by (nonlinear_arith)
        requires
            p > 0,
    ;
}

} // verus!
