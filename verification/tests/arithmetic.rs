//! The arithmetic of doubles, held against the machine's own.
use bimanual_collision::double::Double;

fn d(x: f64) -> Double {
    Double { bits: x.to_bits() }
}

fn f(x: Double) -> f64 {
    f64::from_bits(x.bits)
}

fn same(ours: Double, machine: f64, what: &str) {
    if machine.is_nan() {
        assert!(f(ours).is_nan(), "{what}: {:?} is a number", f(ours));
    } else {
        assert_eq!(ours.bits, machine.to_bits(), "{what}: {:e} against {machine:e}", f(ours));
    }
}

/// Encodings that sit at every kind of edge.
fn edges() -> Vec<f64> {
    let mut v = vec![
        0.0,
        1.0,
        3.0,
        0.1,
        0.75,
        1.001,
        1e-9,
        1e-300,
        1e300,
        f64::MAX,
        f64::MIN_POSITIVE,
        f64::INFINITY,
        f64::NAN,
        f64::EPSILON,
    ];
    for bits in [1u64, 2, 3, 0x000f_ffff_ffff_ffff, 0x0010_0000_0000_0001, 0x7fef_ffff_ffff_fffe, 0x3ff0_0000_0000_0001, 0x3fef_ffff_ffff_ffff, 0x001f_ffff_ffff_ffff] {
        v.push(f64::from_bits(bits));
    }
    let negated: Vec<f64> = v.iter().map(|x| -x).collect();
    v.extend(negated);
    v
}

/// A sequence of encodings with exponents near to each other and far apart.
fn sample(n: usize) -> Vec<f64> {
    let mut state: u64 = 0x9e37_79b9_7f4a_7c15;
    let mut out = Vec::new();
    for i in 0..n {
        state ^= state << 13;
        state ^= state >> 7;
        state ^= state << 17;
        let bits = if i % 3 == 0 {
            state
        } else {
            // An exponent within sixty of that of one.
            let e = 1023 - 60 + (state >> 52) % 120;
            (state & 0x800f_ffff_ffff_ffff) | (e << 52)
        };
        out.push(f64::from_bits(bits));
    }
    out
}

fn all_pairs(mut check: impl FnMut(f64, f64)) {
    let e = edges();
    for &a in &e {
        for &b in &e {
            check(a, b);
        }
    }
    let s = sample(20_000);
    for w in s.windows(2) {
        check(w[0], w[1]);
    }
    for (i, &a) in s.iter().enumerate().take(2000) {
        check(a, e[i % e.len()]);
        check(e[i % e.len()], a);
        check(a, f64::from_bits(a.to_bits() ^ 1));
        check(a, -f64::from_bits(a.to_bits() ^ 3));
    }
}

#[test]
fn sums_and_differences_match_the_machine() {
    all_pairs(|a, b| {
        same(d(a).add(d(b)), a + b, "sum");
        same(d(a).sub(d(b)), a - b, "difference");
    });
}

#[test]
fn products_match_the_machine() {
    all_pairs(|a, b| same(d(a).mul(d(b)), a * b, "product"));
}

#[test]
fn quotients_match_the_machine() {
    all_pairs(|a, b| same(d(a).div(d(b)), a / b, "quotient"));
}

#[test]
fn roots_match_the_machine() {
    all_pairs(|a, _| same(d(a).sqrt(), a.sqrt(), "root"));
}

#[test]
fn order_matches_the_machine() {
    all_pairs(|a, b| {
        assert_eq!(d(a).lt(d(b)), a < b);
        assert_eq!(d(a).le(d(b)), a <= b);
        assert_eq!(d(a).precedes(d(b)), a.total_cmp(&b) == std::cmp::Ordering::Less);
        assert_eq!(d(a).finite(), a.is_finite());
        assert_eq!(d(a).nan(), a.is_nan());
        if a.is_nan() && b.is_nan() {
            assert!(d(a).min(d(b)).nan() && d(a).max(d(b)).nan());
        } else {
            // The two zeros compare equal, so either may be the smaller one.
            assert_eq!(f(d(a).min(d(b))), a.min(b));
            assert_eq!(f(d(a).max(d(b))), a.max(b));
        }
    });
}

#[test]
fn clamping_matches_the_machine() {
    all_pairs(|a, b| {
        if b.is_nan() {
            return;
        }
        let (lo, hi) = (b.min(0.5), b.max(0.5));
        same(d(a).clamp(d(lo), d(hi)), a.clamp(lo, hi), "clamp");
    });
}

#[test]
fn counts_match_the_machine() {
    for n in [0usize, 1, 2, 3, 480, 1 << 53, (1 << 53) + 1, (1 << 53) + 3, usize::MAX, usize::MAX - 1024, 0x1234_5678_9abc_def1] {
        same(Double::from_count(n), n as f64, "count");
    }
}

#[test]
fn adding_and_subtracting_keep_the_order() {
    let e = edges();
    for &c in e.iter().filter(|c| c.is_finite()) {
        for &a in &e {
            for &b in e.iter().filter(|b| a <= **b) {
                assert!(d(a).add(d(c)).le(d(b).add(d(c))), "{a:e} and {b:e} plus {c:e}");
                assert!(d(a).sub(d(c)).le(d(b).sub(d(c))), "{a:e} and {b:e} minus {c:e}");
            }
        }
    }
}

#[test]
fn differences_never_pass_a_double() {
    // 0.5 lies between 1 - 0.1 and 1 - 0.75; 2^53 swallows 1 but not 2.
    assert!(d(0.5).le(d(1.0).sub(d(0.1))));
    assert!(d(1.0).sub(d(0.75)).le(d(0.5)));
    let big = 9007199254740992.0;
    assert_eq!(f(d(-big).sub(d(1.0))), -big);
    assert_eq!(f(d(-big).sub(d(2.0))), -big - 2.0);
}

#[test]
fn subtracting_zero_changes_nothing() {
    for x in edges().into_iter().filter(|x| !x.is_nan()) {
        assert_eq!(f(d(x).sub(d(0.0))), x);
    }
}
