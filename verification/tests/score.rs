use unigram_trainer::score::{Score, HALF_BITS};

fn score(value: f64) -> Score {
    Score::from_bits(value.to_bits())
}

fn samples() -> Vec<f64> {
    vec![
        f64::NEG_INFINITY,
        -1.0e300,
        -3.258096538021482,
        -1.0,
        -0.5,
        -1.0e-300,
        -0.0,
        0.0,
        5.0e-324,
        1.0e-300,
        0.49999999999999994,
        0.5,
        0.5000000000000001,
        1.0,
        2.0,
        1.0e300,
        f64::INFINITY,
        f64::NAN,
    ]
}

#[test]
fn bits_go_in_and_out() {
    for value in samples() {
        assert_eq!(score(value).to_bits(), value.to_bits());
    }
    assert_eq!(Score::from_bits(7).bits, 7);
}

#[test]
fn zero_and_half_are_what_they_say() {
    assert_eq!(Score::zero().to_bits(), 0.0f64.to_bits());
    assert_eq!(Score::half().to_bits(), 0.5f64.to_bits());
    assert_eq!(HALF_BITS, 0.5f64.to_bits());
}

#[test]
fn nan_is_told_from_numbers() {
    for value in samples() {
        assert_eq!(score(value).is_nan(), value.is_nan());
    }
    assert!(Score::from_bits(0xFFF8_0000_0000_0000).is_nan());
    assert!(Score::from_bits(0x7FF0_0000_0000_0001).is_nan());
    assert!(!Score::from_bits(0xFFF0_0000_0000_0000).is_nan());
}

#[test]
fn is_below_is_the_order_of_the_values() {
    for a in samples() {
        for b in samples() {
            assert_eq!(score(a).is_below(score(b)), a < b, "{} < {}", a, b);
        }
    }
}

#[test]
fn keys_order_the_numbers() {
    for a in samples() {
        for b in samples() {
            if a.is_nan() || b.is_nan() {
                continue;
            }
            assert_eq!(score(a).key() < score(b).key(), a < b, "{} < {}", a, b);
            assert_eq!(score(a).key() == score(b).key(), a == b, "{} == {}", a, b);
        }
    }
}

#[test]
fn both_zeros_have_key_zero() {
    assert_eq!(score(0.0).key(), 0);
    assert_eq!(score(-0.0).key(), 0);
    assert_eq!(score(5.0e-324).key(), 1);
    assert_eq!(score(-5.0e-324).key(), -1);
}
