use java_random::sqrt_bits;
use rand::Rng;

const TINY: f64 = 1.0e-300;

fn reference_sqrt_bits(x: f64) -> u64 {
    x.sqrt().to_bits()
}

#[test]
fn asdf() {
    let x = f64::from_bits(0x1);
    assert_eq!(sqrt_bits(x.to_bits()), reference_sqrt_bits(x));
    // The smallest positive subnormal, as a fixed pattern.
    assert_eq!(sqrt_bits(0x1), 0x1e60000000000000);
}

#[test]
fn random() {
    let mut rng = rand::thread_rng();
    let mut integers = [0u64; 128];
    rng.fill(&mut integers);
    for bits in integers {
        let x = f64::from_bits(bits);
        let reference = x.sqrt();
        let ours = sqrt_bits(bits);
        if reference.is_nan() {
            assert!(f64::from_bits(ours).is_nan());
        } else {
            assert_eq!(ours, reference.to_bits(), "bits = {bits:064b}");
        }
    }
}

#[test]
fn new() {
    let x = 12.345f64;
    assert_eq!(sqrt_bits(x.to_bits()), reference_sqrt_bits(x));
    assert_eq!(sqrt_bits(TINY.to_bits()), reference_sqrt_bits(TINY));
}

#[test]
fn sqrt_eq_zero() {
    let x = 0f64;
    let r_bits = sqrt_bits(x.to_bits());
    let c_bits = reference_sqrt_bits(x);
    assert_eq!(
        r_bits, c_bits,
        "binary repr left: {:b} right: {:b}",
        r_bits, c_bits
    );
    let x = -0f64;
    let r_bits = sqrt_bits(x.to_bits());
    let c_bits = reference_sqrt_bits(x);
    assert_eq!(
        r_bits, c_bits,
        "binary repr left: {:b} right: {:b}",
        r_bits, c_bits
    );
    assert!(f64::from_bits(r_bits).is_sign_negative());
}

#[test]
fn sqrt_eq_inf() {
    let x = f64::INFINITY;
    let r_bits = sqrt_bits(x.to_bits());
    let c_bits = reference_sqrt_bits(x);
    assert_eq!(
        r_bits, c_bits,
        "binary repr left: {:b} right: {:b}",
        r_bits, c_bits
    );
    let x = f64::NEG_INFINITY;
    let r = f64::from_bits(sqrt_bits(x.to_bits()));
    let c = x.sqrt();
    assert_eq!(
        r.is_nan(),
        c.is_nan(),
        "binary repr left: {:b} right: {:b}",
        r.to_bits(),
        c.to_bits()
    );
}

#[test]
fn sqrt_eq_neg() {
    let x = -1.0f64;
    let r = f64::from_bits(sqrt_bits(x.to_bits()));
    let c = x.sqrt();
    assert_eq!(
        r.is_nan(),
        c.is_nan(),
        "binary repr left: {:b} right: {:b}",
        r.to_bits(),
        c.to_bits()
    );
}

#[test]
fn nan_propagates() {
    let r = f64::from_bits(sqrt_bits(f64::NAN.to_bits()));
    assert!(r.is_nan());
}

#[test]
fn boundary_patterns() {
    // Zeros, smallest and largest subnormals, smallest and largest normals,
    // exact squares, and values straddling every exponent-parity case.
    let cases: [u64; 16] = [
        0x0000000000000000, // +0
        0x8000000000000000, // -0
        0x0000000000000001, // min subnormal
        0x000fffffffffffff, // max subnormal
        0x0010000000000000, // min normal
        0x7fefffffffffffff, // max normal
        0x3ff0000000000000, // 1.0
        0x4000000000000000, // 2.0
        0x4010000000000000, // 4.0
        0x4022000000000000, // 9.0
        0x3fe0000000000000, // 0.5
        0x3fd0000000000000, // 0.25
        0x0010000000000001,
        0x000ff0f1e2d3c4b5,
        0x41efffffffe00000,
        0x3ff0000000000001,
    ];
    for bits in cases {
        let x = f64::from_bits(bits);
        assert_eq!(sqrt_bits(bits), x.sqrt().to_bits(), "bits = {bits:016x}");
    }
}

#[test]
fn dense_sampled_patterns() {
    // A deterministic dense sweep across all positive binades: vary the
    // exponent through its full range and mix the significand bits.
    let mut bits: u64 = 0x9e3779b97f4a7c15;
    for exponent in 0..0x7ff_u64 {
        for salt in 0..8_u64 {
            bits = bits
                .wrapping_mul(6364136223846793005)
                .wrapping_add(1442695040888963407 + salt);
            let pattern = (exponent << 52) | (bits & 0x000fffffffffffff);
            let x = f64::from_bits(pattern);
            assert_eq!(
                sqrt_bits(pattern),
                x.sqrt().to_bits(),
                "pattern = {pattern:016x}"
            );
        }
    }
}
