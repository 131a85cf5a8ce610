use java_random::from_parts;
use java_random::sqrt_bits;

#[test]
fn parts() {
    let x = 12.345f64;
    let (sign, exponent, significand) = java_random::parts(x.to_bits());
    assert_eq!(x.to_bits(), from_parts(sign, exponent, significand));
}

#[test]
fn parts_special_values() {
    for x in [
        0.0f64,
        -0.0,
        1.0,
        -1.0,
        f64::INFINITY,
        f64::NEG_INFINITY,
        f64::NAN,
        f64::MIN_POSITIVE,
        f64::MAX,
        f64::from_bits(0x1),
        f64::from_bits(0x800fffffffffffff),
    ] {
        let (sign, exponent, significand) = java_random::parts(x.to_bits());
        assert_eq!(x.to_bits(), from_parts(sign, exponent, significand));
    }
}

#[test]
fn parts_fields() {
    let (sign, exponent, significand) = java_random::parts((-2.0f64).to_bits());
    assert_eq!(sign, 1);
    assert_eq!(exponent, 0x400);
    assert_eq!(significand, 0);
    assert_eq!(from_parts(1, 0x400, 0), (-2.0f64).to_bits());
}

#[test]
fn test_sqrt() {
    assert_eq!(f64::from_bits(sqrt_bits(100f64.to_bits())), 10f64);
    assert_eq!(
        f64::from_bits(sqrt_bits(10f64.to_bits())),
        3.1622776601683795
    );
}
