use random_choice::binary64::{lt, HIDDEN, INFINITY, ONE, SIGN};

fn numbers() -> Vec<f64> {
    vec![
        0.0,
        -0.0,
        1.0,
        -1.0,
        0.5,
        -0.5,
        1.5,
        2.0,
        -2.0,
        3.1,
        1e-300,
        -1e-300,
        1e300,
        -1e300,
        f64::MIN_POSITIVE,
        -f64::MIN_POSITIVE,
        f64::from_bits(1),
        -f64::from_bits(1),
        f64::from_bits(0x000F_FFFF_FFFF_FFFF),
        f64::MAX,
        f64::MIN,
        f64::EPSILON,
        f64::INFINITY,
        f64::NEG_INFINITY,
        f64::NAN,
        -f64::NAN,
        f64::from_bits(0x7FF0_0000_0000_0001),
        f64::from_bits(0xFFFF_FFFF_FFFF_FFFF),
    ]
}

#[test]
fn lt_orders_as_the_numbers_do() {
    for a in numbers() {
        for b in numbers() {
            assert_eq!(lt(a.to_bits(), b.to_bits()), a < b);
        }
    }
}

#[test]
fn lt_orders_neighbours() {
    let mut bits: u64 = 0x3FEF_FFFF_FFFF_FFF0;
    while bits < 0x3FF0_0000_0000_0010 {
        let below = f64::from_bits(bits);
        let above = f64::from_bits(bits + 1);
        assert!(below < above);
        assert!(lt(bits, bits + 1));
        assert!(!lt(bits + 1, bits));
        assert!(!lt(bits, bits));
        assert!(lt(SIGN + bits + 1, SIGN + bits));
        assert!(!lt(SIGN + bits, SIGN + bits + 1));
        assert!(lt(SIGN + bits, bits));
        bits += 1;
    }
}

#[test]
fn zeros_are_equal() {
    assert!(!lt(0, SIGN));
    assert!(!lt(SIGN, 0));
    assert!(!lt(0, 0));
    assert!(lt(SIGN + 1, 0));
    assert!(lt(SIGN, 1));
}

#[test]
fn what_is_not_a_number_is_below_nothing() {
    for a in numbers() {
        assert!(!lt(a.to_bits(), INFINITY + 1));
        assert!(!lt(INFINITY + 1, a.to_bits()));
        assert!(!lt(a.to_bits(), SIGN + INFINITY + 1));
        assert!(!lt(SIGN + INFINITY + 1, a.to_bits()));
    }
}

#[test]
fn the_constants_are_the_patterns() {
    assert_eq!(SIGN, (-0.0f64).to_bits());
    assert_eq!(INFINITY, f64::INFINITY.to_bits());
    assert_eq!(ONE, 1.0f64.to_bits());
    assert_eq!(HIDDEN, f64::MIN_POSITIVE.to_bits());
    assert_eq!(INFINITY, 2047 * HIDDEN);
    assert_eq!(ONE, 1023 * HIDDEN);
    assert!(lt(ONE, INFINITY));
    assert!(lt(SIGN + INFINITY, SIGN + ONE));
}
