use nut_power_bridge::magnitude::Magnitude;
use nut_power_bridge::number::to_integer_within;
use nut_power_bridge::number::Number;

fn magnitude(value: f64) -> Magnitude {
    match Number::from_bits(value.to_bits()) {
        Number::Finite { negative: false, magnitude } => magnitude,
        other => panic!("{value} is {other:?}"),
    }
}

/// Compares a result with the one that the processor computes.
fn same(found: Option<Magnitude>, expected: f64) {
    match found {
        Some(value) => assert_eq!(value.to_bits(), expected.to_bits(), "{expected:e}"),
        None => assert!(expected.is_infinite(), "{expected:e}"),
    }
}

/// A generator of bit patterns.
fn next(state: &mut u64) -> u64 {
    *state ^= *state << 13;
    *state ^= *state >> 7;
    *state ^= *state << 17;
    *state
}

/// A finite value that is not negative; most of them of an ordinary size.
fn any_value(state: &mut u64) -> f64 {
    let fraction = next(state) & 0xf_ffff_ffff_ffff;
    let exponent = match next(state) % 4 {
        0 => next(state) % 2047,
        1 => next(state) % 60,
        2 => 1987 + next(state) % 60,
        _ => 993 + next(state) % 60,
    };
    f64::from_bits(exponent << 52 | fraction)
}

const SPECIAL: [f64; 14] = [
    0.0,
    5e-324,
    1e-323,
    2.2250738585072009e-308,
    2.2250738585072014e-308,
    0.1,
    0.25,
    0.75,
    1.0,
    1.5,
    4503599627370497.5,
    9007199254740991.0,
    8.98846567431158e307,
    1.7976931348623157e308,
];

#[test]
fn bits_read_back() {
    let mut state = 0x1234_5678_9abc_def1;
    for value in SPECIAL {
        assert_eq!(magnitude(value).to_bits(), value.to_bits());
    }
    for _ in 0..2000 {
        let value = any_value(&mut state);
        assert_eq!(magnitude(value).to_bits(), value.to_bits());
    }
}

#[test]
fn classes_of_numbers() {
    assert_eq!(Number::from_bits(f64::NAN.to_bits()), Number::NotANumber);
    assert_eq!(
        Number::from_bits(f64::INFINITY.to_bits()),
        Number::Infinite { negative: false }
    );
    assert_eq!(
        Number::from_bits(f64::NEG_INFINITY.to_bits()),
        Number::Infinite { negative: true }
    );
    assert_eq!(
        Number::from_bits((-1.0f64).to_bits()),
        Number::Finite { negative: true, magnitude: magnitude(1.0) }
    );
    assert_eq!(
        magnitude(1.0),
        Magnitude { mantissa: 0x10_0000_0000_0000, exponent: 1022 }
    );
    assert_eq!(magnitude(5e-324), Magnitude { mantissa: 1, exponent: 0 });
}

#[test]
fn positive_and_nonzero_numbers() {
    let number = |value: f64| Number::from_bits(value.to_bits());
    assert_eq!(number(2.5).positive(), Some(magnitude(2.5)));
    assert_eq!(number(0.0).positive(), None);
    assert_eq!(number(-0.0).positive(), None);
    assert_eq!(number(-2.5).positive(), None);
    assert_eq!(number(f64::INFINITY).positive(), None);
    assert_eq!(number(f64::NAN).positive(), None);
    assert_eq!(number(-2.5).nonzero_size(), Some(magnitude(2.5)));
    assert_eq!(number(2.5).nonzero_size(), Some(magnitude(2.5)));
    assert_eq!(number(-0.0).nonzero_size(), None);
    assert_eq!(number(f64::NEG_INFINITY).nonzero_size(), None);
}

#[test]
fn products_round_like_the_processor() {
    let mut state = 0x2545_f491_4f6c_dd1d;
    for a in SPECIAL {
        for b in SPECIAL {
            same(magnitude(a).multiply(magnitude(b)), a * b);
        }
    }
    for _ in 0..20000 {
        let (a, b) = (any_value(&mut state), any_value(&mut state));
        same(magnitude(a).multiply(magnitude(b)), a * b);
    }
}

#[test]
fn quotients_round_like_the_processor() {
    let mut state = 0x9e37_79b9_7f4a_7c15;
    for a in SPECIAL {
        for b in SPECIAL {
            if b != 0.0 {
                same(magnitude(a).divide(magnitude(b)), a / b);
            }
        }
    }
    for _ in 0..20000 {
        let (a, b) = (any_value(&mut state), any_value(&mut state));
        if b != 0.0 {
            same(magnitude(a).divide(magnitude(b)), a / b);
        }
    }
}

#[test]
fn sums_round_like_the_processor() {
    let mut state = 0xd1b5_4a32_d192_ed03;
    for a in SPECIAL {
        for b in SPECIAL {
            same(magnitude(a).plus(magnitude(b)), a + b);
        }
    }
    for _ in 0..20000 {
        let (a, b) = (any_value(&mut state), any_value(&mut state));
        same(magnitude(a).plus(magnitude(b)), a + b);
        let near = a * (1.0 + (next(&mut state) % 7) as f64);
        if near.is_finite() {
            same(magnitude(a).plus(magnitude(near)), a + near);
        }
    }
}

#[test]
fn integers_round_like_the_processor() {
    let mut state = 0x94d0_49bb_1331_11eb;
    for n in [0u128, 1, 2, 99, 9007199254740991, 9007199254740993, 9007199254740995, u128::MAX] {
        assert_eq!(Magnitude::from_integer(n).to_bits(), (n as f64).to_bits());
    }
    for _ in 0..5000 {
        let n = (next(&mut state) as u128) << 64 | next(&mut state) as u128;
        let n = n >> (next(&mut state) % 128);
        assert_eq!(Magnitude::from_integer(n).to_bits(), (n as f64).to_bits());
    }
}

#[test]
fn order_is_that_of_the_processor() {
    let mut state = 0xbf58_476d_1ce4_e5b9;
    for _ in 0..5000 {
        let (a, b) = (any_value(&mut state), any_value(&mut state));
        assert_eq!(magnitude(a).is_below(magnitude(b)), a < b);
        assert!(!magnitude(a).is_below(magnitude(a)));
    }
    assert!(magnitude(0.0).is_zero());
    assert!(!magnitude(5e-324).is_zero());
}

#[test]
fn rounding_up_and_away_from_zero() {
    let mut state = 0x6a09_e667_f3bc_c909;
    assert_eq!(magnitude(7.0).ceiling(), 7);
    assert_eq!(magnitude(7.0000000000000009).ceiling(), 8);
    assert_eq!(magnitude(0.0).ceiling(), 0);
    assert_eq!(magnitude(5e-324).ceiling(), 1);
    assert_eq!(magnitude(2.5).round_away(), 3);
    assert_eq!(magnitude(0.49999999999999994).round_away(), 0);
    assert_eq!(magnitude(0.5).round_away(), 1);
    assert_eq!(magnitude(4503599627370497.5).round_away(), 4503599627370498);
    for _ in 0..5000 {
        let value = f64::from_bits((next(&mut state) % 0x4340_0000_0000_0000) as u64);
        assert_eq!(magnitude(value).ceiling(), value.ceil() as u64);
        assert_eq!(magnitude(value).round_away(), value.round() as u64);
    }
}

#[test]
fn signed_integers_within_limits() {
    assert_eq!(to_integer_within(false, magnitude(99.5), 0, 100), Some(100));
    assert_eq!(to_integer_within(false, magnitude(100.0), 0, 100), Some(100));
    assert_eq!(to_integer_within(false, magnitude(100.00000000000001), 0, 100), None);
    assert_eq!(to_integer_within(true, magnitude(0.0), 0, 100), Some(0));
    assert_eq!(to_integer_within(true, magnitude(5e-324), 0, 100), None);
    assert_eq!(to_integer_within(true, magnitude(2.5), -3, 100), Some(-3));
    assert_eq!(to_integer_within(true, magnitude(2.5), -3, -3), None);
    assert_eq!(to_integer_within(true, magnitude(2.4), -3, -1), Some(-2));
    assert_eq!(
        to_integer_within(true, magnitude(2147483648.0), i32::MIN, i32::MAX),
        Some(i32::MIN)
    );
    assert_eq!(to_integer_within(false, magnitude(2147483647.4), 0, i32::MAX), None);
}

/// No other value is nearer to a quotient than the rounded one.
#[test]
fn rounding_is_nearest() {
    // 1 / 3, in units of the last digit: the value below and the value above are farther away.
    let third = magnitude(1.0).divide(magnitude(3.0)).unwrap();
    assert_eq!(third.mantissa, 0x15_5555_5555_5555);
    let exact_thirds = 3 * third.mantissa as u128;
    let whole = 1u128 << 54;
    let distance = |m: u128| (3 * m).abs_diff(whole);
    assert_eq!(exact_thirds.abs_diff(whole), 1);
    assert!(distance(third.mantissa as u128) < distance(third.mantissa as u128 - 1));
    assert!(distance(third.mantissa as u128) < distance(third.mantissa as u128 + 1));
}
