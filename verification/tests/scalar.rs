use path_tracer::scalar::{order_key, INFINITY, SIGN};

fn key(t: f64) -> u64 {
    order_key(t.to_bits())
}

#[test]
fn sign_is_the_top_bit() {
    assert_eq!(SIGN, 1u64 << 63);
    assert_eq!((-0.0f64).to_bits(), SIGN);
}

#[test]
fn key_of_positive_zero_is_the_middle() {
    assert_eq!(key(0.0), 1u64 << 63);
    assert_eq!(order_key(0), 0x8000_0000_0000_0000);
}

#[test]
fn infinity_is_the_largest_magnitude_of_a_number() {
    assert_eq!(INFINITY, f64::INFINITY.to_bits());
    assert_eq!(INFINITY | SIGN, f64::NEG_INFINITY.to_bits());
    assert!(f64::MAX.to_bits() < INFINITY);
    assert!(f64::NAN.to_bits() & !SIGN > INFINITY);
}

#[test]
fn the_two_zeros_share_a_key() {
    assert_eq!(key(-0.0), key(0.0));
    assert_eq!(order_key(SIGN), 1u64 << 63);
}

#[test]
fn key_of_one() {
    assert_eq!(order_key(0x3FF0_0000_0000_0000), 0xBFF0_0000_0000_0000);
    assert_eq!(key(1.0), 0xBFF0_0000_0000_0000);
}

#[test]
fn key_of_minus_one() {
    assert_eq!(order_key(0xBFF0_0000_0000_0000), 0x4010_0000_0000_0000);
    assert_eq!(key(-1.0), 0x4010_0000_0000_0000);
}

#[test]
fn keys_of_the_extreme_patterns() {
    assert_eq!(order_key(u64::MAX), 1);
    assert_eq!(order_key(0x7FFF_FFFF_FFFF_FFFF), u64::MAX);
    assert_eq!(key(f64::INFINITY), 0xFFF0_0000_0000_0000);
    assert_eq!(key(f64::NEG_INFINITY), 0x0010_0000_0000_0000);
}

#[test]
fn keys_grow_with_the_numbers() {
    let ascending = [
        f64::NEG_INFINITY,
        f64::MIN,
        -100.5,
        -1.0,
        -0.001,
        -f64::MIN_POSITIVE,
        0.0,
        f64::MIN_POSITIVE,
        0.001,
        0.5,
        1.0,
        4.999999,
        5.0,
        15.0,
        f64::MAX,
        f64::INFINITY,
    ];
    for pair in ascending.windows(2) {
        assert!(key(pair[0]) < key(pair[1]), "{} and {}", pair[0], pair[1]);
    }
}

#[test]
fn keys_compare_as_the_numbers_do() {
    let samples = [
        -7.25,
        -0.5,
        -0.0,
        0.0,
        0.001,
        0.25,
        3.0,
        1e300,
        -1e300,
        1e-300,
        -5e-324,
        5e-324,
        f64::INFINITY,
        f64::NEG_INFINITY,
    ];
    for a in samples {
        for b in samples {
            assert_eq!(a < b, key(a) < key(b));
            assert_eq!(a <= b, key(a) <= key(b));
            assert_eq!(a == b, key(a) == key(b));
        }
    }
}

#[test]
fn what_is_not_a_number_lies_beyond_the_infinities() {
    assert!(key(f64::NAN.copysign(1.0)) > key(f64::INFINITY));
    assert!(key(f64::NAN.copysign(-1.0)) < key(f64::NEG_INFINITY));
}
