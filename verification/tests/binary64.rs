use ce_sched::binary64::Binary64;

fn f(x: f64) -> Binary64 {
    Binary64::from_bits(x.to_bits())
}

fn agrees(got: Binary64, want: f64) -> bool {
    if want.is_nan() {
        got.is_nan()
    } else {
        got.to_bits() == want.to_bits()
    }
}

/// Bit patterns that stress every exponent, both signs, subnormals, ties and the specials.
fn samples() -> Vec<f64> {
    let mut out = vec![
        0.0,
        -0.0,
        1.0,
        -1.0,
        0.1,
        0.2,
        0.3,
        1.5,
        2.0,
        3.0,
        1e-9,
        1e300,
        -1e300,
        1e-300,
        f64::MAX,
        f64::MIN,
        f64::MIN_POSITIVE,
        f64::EPSILON,
        f64::from_bits(1),
        f64::from_bits(2),
        f64::from_bits(0x000f_ffff_ffff_ffff),
        f64::from_bits(0x0010_0000_0000_0001),
        f64::from_bits(0x3fef_ffff_ffff_ffff),
        f64::INFINITY,
        f64::NEG_INFINITY,
        f64::NAN,
    ];
    let mut s: u64 = 0x9e37_79b9_7f4a_7c15;
    for _ in 0..60 {
        s ^= s << 13;
        s ^= s >> 7;
        s ^= s << 17;
        out.push(f64::from_bits(s));
        // A neighbour close in magnitude, for cancellation.
        out.push(f64::from_bits(s ^ 0x8000_0000_0000_0003));
        // A number near one.
        out.push(f64::from_bits(0x3fe0_0000_0000_0000 | (s >> 11)));
    }
    out
}

#[test]
fn addition_and_subtraction_round_like_hardware() {
    let s = samples();
    for &a in &s {
        for &b in &s {
            assert!(agrees(f(a).add(f(b)), a + b), "{a:e} + {b:e}");
            assert!(agrees(f(a).sub(f(b)), a - b), "{a:e} - {b:e}");
        }
    }
}

#[test]
fn multiplication_rounds_like_hardware() {
    let s = samples();
    for &a in &s {
        for &b in &s {
            assert!(agrees(f(a).mul(f(b)), a * b), "{a:e} * {b:e}");
        }
    }
}

#[test]
fn division_rounds_like_hardware() {
    let s = samples();
    for &a in &s {
        for &b in &s {
            assert!(agrees(f(a).div(f(b)), a / b), "{a:e} / {b:e}");
        }
    }
}

#[test]
fn square_root_rounds_like_hardware() {
    for &a in &samples() {
        assert!(agrees(f(a).sqrt(), a.sqrt()), "sqrt {a:e}");
        assert!(agrees(f(a.abs()).sqrt(), a.abs().sqrt()), "sqrt |{a:e}|");
    }
    assert_eq!(f(2.0).sqrt(), f(1.4142135623730951));
}

#[test]
fn comparison_maximum_and_minimum_agree_with_hardware() {
    let s = samples();
    for &a in &s {
        for &b in &s {
            assert_eq!(f(a).lt(f(b)), a < b, "{a:e} < {b:e}");
            assert_eq!(f(a).le(f(b)), a <= b, "{a:e} <= {b:e}");
            if !(a == 0.0 && b == 0.0) {
                assert!(agrees(f(a).max(f(b)), a.max(b)), "max {a:e} {b:e}");
                assert!(agrees(f(a).min(f(b)), a.min(b)), "min {a:e} {b:e}");
            }
        }
        assert_eq!(f(a).is_nan(), a.is_nan());
        assert_eq!(f(a).is_finite(), a.is_finite());
        assert_eq!(f(a).is_infinite(), a.is_infinite());
        assert_eq!(f(a).neg().to_bits(), (-a).to_bits());
    }
}

#[test]
fn integers_and_fractions_convert_exactly() {
    for n in [0u64, 1, 2, 3, 10, 1 << 52, (1 << 53) - 1, 1 << 53, (1 << 53) + 1, u64::MAX, u64::MAX - 1024] {
        assert_eq!(Binary64::from_u64(n), f(n as f64), "{n}");
    }
    assert_eq!(Binary64::ratio(15, 100), f(0.15));
    assert_eq!(Binary64::ratio(34, 100), f(0.34));
    assert_eq!(Binary64::ratio(1, 1_000_000_000), f(1e-9));
    assert_eq!(Binary64::ratio(115, 100), f(1.15));
    assert_eq!(Binary64::ratio(1, 3), f(1.0 / 3.0));
    assert_eq!(Binary64::ratio(0, 7), f(0.0));
}

#[test]
fn truncation_and_rounding_up_saturate() {
    for &a in &samples() {
        assert_eq!(f(a).to_u64(), a as u64, "{a:e} as u64");
        assert_eq!(f(a).ceil_to_u32(), a.ceil() as u32, "ceil {a:e} as u32");
    }
    assert_eq!(f(1.02).ceil_to_u32(), 2);
    assert_eq!(f(3.0).ceil_to_u32(), 3);
    assert_eq!(f(12000.75).to_u64(), 12000);
    assert_eq!(f(1e30).to_u64(), u64::MAX);
    assert_eq!(f(-5.5).to_u64(), 0);
}

#[test]
fn equality_is_that_of_numbers() {
    for (x, y) in [(0.0, -0.0), (1.5, 1.5), (1.5, -1.5), (f64::NAN, f64::NAN), (f64::INFINITY, f64::INFINITY), (0.0, 1e-320)] {
        assert_eq!(f(x) == f(y), x == y, "{x} {y}");
        assert_eq!(f(x) != f(y), x != y, "{x} {y}");
    }
}
