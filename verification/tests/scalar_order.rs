use raytracer::scalar::Scalar;
use raytracer::scalar::{
    FOUR_BITS, HIDDEN_BIT, INFINITY_BITS, NEG_ONE_BITS, NEG_TWO_BITS, NEG_ZERO_BITS, ONE_BITS,
    SIGN_BIT, TWO_BITS, ZERO_BITS,
};

fn s(x: f64) -> Scalar {
    Scalar::from_bits(x.to_bits())
}

fn samples() -> Vec<f64> {
    vec![
        f64::NEG_INFINITY,
        f64::MIN,
        -100.5,
        -1.0,
        -0.001,
        -f64::MIN_POSITIVE,
        -5e-324,
        -0.0,
        0.0,
        5e-324,
        f64::MIN_POSITIVE,
        0.001,
        0.5,
        1.0,
        1.5,
        255.99,
        f64::MAX,
        f64::INFINITY,
        f64::NAN,
        -f64::NAN,
    ]
}

#[test]
fn bits_round_trip() {
    for x in samples() {
        assert_eq!(s(x).to_bits(), x.to_bits());
    }
    assert_eq!(Scalar::from_bits(0x3fe0_0000_0000_0000).to_bits(), 0.5f64.to_bits());
}

#[test]
fn constants_are_the_patterns_they_name() {
    assert_eq!(SIGN_BIT, (-0.0f64).to_bits());
    assert_eq!(INFINITY_BITS, f64::INFINITY.to_bits());
    assert_eq!(HIDDEN_BIT, 1u64 << 52);
    assert_eq!(HIDDEN_BIT, f64::MIN_POSITIVE.to_bits());
    assert_eq!(ZERO_BITS, 0f64.to_bits());
    assert_eq!(NEG_ZERO_BITS, (-0f64).to_bits());
    assert_eq!(ONE_BITS, 1f64.to_bits());
    assert_eq!(NEG_ONE_BITS, (-1f64).to_bits());
    assert_eq!(TWO_BITS, 2f64.to_bits());
    assert_eq!(NEG_TWO_BITS, (-2f64).to_bits());
    assert_eq!(FOUR_BITS, 4f64.to_bits());
}

#[test]
fn lt_agrees_with_the_numbers() {
    for a in samples() {
        for b in samples() {
            assert_eq!(s(a).lt(s(b)), a < b, "{} < {}", a, b);
        }
    }
}

#[test]
fn same_agrees_with_the_numbers() {
    for a in samples() {
        for b in samples() {
            assert_eq!(s(a).same(s(b)), a == b, "{} == {}", a, b);
            assert_eq!(s(a) == s(b), a == b, "{} == {}", a, b);
        }
    }
}

#[test]
fn inside_is_strict_at_both_ends() {
    assert!(s(0.5).is_inside(s(0.001), s(f64::INFINITY)));
    assert!(!s(0.001).is_inside(s(0.001), s(f64::INFINITY)));
    assert!(!s(f64::INFINITY).is_inside(s(0.001), s(f64::INFINITY)));
    assert!(!s(2.0).is_inside(s(0.0), s(2.0)));
    assert!(!s(1.0).is_inside(s(2.0), s(0.0)));
    assert!(!s(f64::NAN).is_inside(s(f64::NEG_INFINITY), s(f64::INFINITY)));
}

#[test]
fn zeros_are_equal_and_neither_is_less() {
    assert!(!s(-0.0).lt(s(0.0)));
    assert!(!s(0.0).lt(s(-0.0)));
    assert!(s(-0.0).same(s(0.0)));
    assert_ne!(s(-0.0).to_bits(), s(0.0).to_bits());
}

#[test]
fn nan_is_less_than_nothing_and_equals_nothing() {
    let nan = s(f64::NAN);
    assert!(nan.is_nan());
    assert!(!nan.lt(nan));
    assert!(!nan.same(nan));
    assert!(!nan.lt(s(f64::INFINITY)));
    assert!(!s(f64::NEG_INFINITY).lt(nan));
}

#[test]
fn classification_agrees_with_the_numbers() {
    for x in samples() {
        assert_eq!(s(x).is_nan(), x.is_nan());
    }
}
