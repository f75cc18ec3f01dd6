//! Bit patterns against the machine's own floating point.

use rediscovery::double::{peak, Double};

fn pattern(value: f64) -> Double {
    Double::from_bits(value.to_bits())
}

fn number(value: Double) -> f64 {
    f64::from_bits(value.to_bits())
}

fn samples() -> Vec<f64> {
    vec![
        0.0,
        -0.0,
        1.0,
        -1.0,
        1e-9,
        -1e-9,
        5e-324,
        -5e-324,
        f64::MIN_POSITIVE,
        f64::MAX,
        f64::MIN,
        f64::INFINITY,
        f64::NEG_INFINITY,
        f64::NAN,
        -f64::NAN,
        0.1,
        0.3,
    ]
}

#[test]
fn comparisons_agree_with_the_machine() {
    for a in samples() {
        for b in samples() {
            let (x, y) = (pattern(a), pattern(b));
            assert_eq!(x.exceeds(y), a > b, "{a} > {b}");
            assert_eq!(x.reaches(y), a >= b, "{a} >= {b}");
            assert_eq!(x.equals(y), a == b, "{a} == {b}");
            assert_eq!(x == y, a == b, "{a} == {b}");
            assert_eq!(x != y, a != b, "{a} != {b}");
            assert_eq!(x.totally_exceeds(y), a.total_cmp(&b).is_gt(), "{a} above {b}");
        }
    }
}

#[test]
fn classification_agrees_with_the_machine() {
    for a in samples() {
        let x = pattern(a);
        assert_eq!(x.is_nan(), a.is_nan(), "{a}");
        assert_eq!(x.is_finite(), a.is_finite(), "{a}");
        assert_eq!(x.is_positive_finite(), a.is_finite() && a > 0.0, "{a}");
        assert_eq!(x.abs().to_bits(), a.abs().to_bits(), "{a}");
        assert_eq!(x.neg().to_bits(), (-a).to_bits(), "{a}");
        assert_eq!(x.neg().neg().to_bits(), a.to_bits(), "{a}");
    }
}

#[test]
fn the_peak_ignores_nans() {
    let values: Vec<Double> = [f64::NAN, -2.0, 7.5, f64::NAN, 7.25]
        .iter()
        .copied()
        .map(pattern)
        .collect();
    assert_eq!(number(peak(&values)), 7.5);
    assert_eq!(number(peak(&[])), f64::NEG_INFINITY);
    assert_eq!(number(peak(&[pattern(f64::NAN)])), f64::NEG_INFINITY);
}
