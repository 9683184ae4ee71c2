//! Binary32 comparisons on bit patterns.

use fluidvad::Probability;

fn p(value: f32) -> Probability {
    Probability::from_bits(value.to_bits())
}

#[test]
fn comparisons_follow_f32() {
    let values = [
        0.0f32, -0.0, 0.05, 0.35, 0.5, 0.95, 1.0, -1.0, -0.5, f32::INFINITY, f32::NEG_INFINITY,
        f32::MIN_POSITIVE, f32::NAN, -f32::NAN, 1e-40,
    ];
    for a in values {
        for b in values {
            assert_eq!(p(a).ge(p(b)), a >= b, "{a} >= {b}");
            assert_eq!(p(a).lt(p(b)), a < b, "{a} < {b}");
            assert_eq!(p(a).le(p(b)), a <= b, "{a} <= {b}");
        }
        assert_eq!(p(a).is_nan(), a.is_nan());
    }
}

#[test]
fn min_follows_f32_min() {
    let values = [0.05f32, 0.35, 0.5, -1.0, f32::INFINITY, f32::NAN];
    for a in values {
        for b in values {
            let got = f32::from_bits(p(a).min(p(b)).to_bits());
            let want = a.min(b);
            assert!(got == want || (got.is_nan() && want.is_nan()), "min({a}, {b})");
        }
    }
}

#[test]
fn signed_zeros_compare_equal() {
    assert!(p(0.0).ge(p(-0.0)));
    assert!(p(-0.0).ge(p(0.0)));
    assert!(!p(-0.0).lt(p(0.0)));
}

#[test]
fn one_is_binary32_one() {
    assert_eq!(f32::from_bits(Probability::one().to_bits()), 1.0);
}
