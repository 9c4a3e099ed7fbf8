use flea_watch::score::Score;

fn score(value: f32) -> Score {
    Score::from_bits(value.to_bits())
}

fn samples() -> Vec<f32> {
    vec![
        0.0,
        -0.0,
        1.0,
        -1.0,
        25.0,
        24.999998,
        -25.0,
        f32::MIN_POSITIVE,
        -f32::MIN_POSITIVE,
        f32::from_bits(1),
        f32::from_bits(0x8000_0001),
        f32::MAX,
        f32::MIN,
        f32::INFINITY,
        f32::NEG_INFINITY,
        f32::NAN,
        f32::from_bits(0xffc0_0001),
        f32::from_bits(0x7f80_0001),
    ]
}

#[test]
fn below_is_float_less_than() {
    for a in samples() {
        for b in samples() {
            assert_eq!(score(a).is_below(score(b)), a < b, "{} < {}", a, b);
        }
    }
}

#[test]
fn nan_is_float_nan() {
    for a in samples() {
        assert_eq!(score(a).is_nan(), a.is_nan(), "{}", a);
    }
}

#[test]
fn infinity_has_the_bits_of_infinity() {
    assert_eq!(Score::infinity().bits, f32::INFINITY.to_bits());
}

#[test]
fn order_is_strict_and_transitive() {
    let (a, b, c) = (score(-3.0), score(0.5), score(7.0));
    assert!(!a.is_below(a));
    assert!(a.is_below(b) && !b.is_below(a));
    assert!(b.is_below(c) && a.is_below(c));
    assert!(!score(0.0).is_below(score(-0.0)) && !score(-0.0).is_below(score(0.0)));
}
