//! The library's double precision against the machine's own.
use poker_core::double::{
    apart_of, decimal_of, distance_of, parts_of, product_of, quotient_of, ratio_of, whole_of,
};
use poker_core::natural::Natural;

const AMOUNTS: [u64; 18] = [
    0,
    1,
    2,
    3,
    5,
    6,
    7,
    10,
    99,
    100,
    1_000_003,
    (1 << 53) - 1,
    1 << 53,
    (1 << 53) + 1,
    (1 << 53) + 3,
    (1 << 63) + 1_024,
    u64::MAX - 1_024,
    u64::MAX,
];

fn doubles() -> Vec<f64> {
    let mut all = vec![
        5e-324,
        1e-320,
        f64::MIN_POSITIVE,
        1e-100,
        0.1,
        0.5,
        0.49999999999999994,
        1.5,
        2.5,
        4503599627370495.5,
        1e17,
        1e100,
        f64::MAX,
        f64::INFINITY,
    ];
    for p in AMOUNTS {
        for q in AMOUNTS {
            if q > 0 {
                all.push(p as f64 / q as f64);
            }
        }
    }
    all
}

#[test]
fn ratios_are_rounded_to_the_nearest() {
    for p in AMOUNTS {
        for q in AMOUNTS {
            if q > 0 {
                let expected = p as f64 / q as f64;
                assert_eq!(f64::from_bits(ratio_of(p, q)), expected, "{p} over {q}");
            }
        }
    }
}

#[test]
fn products_are_rounded_to_the_nearest() {
    for value in doubles() {
        for factor in [0, 1, 3, 6, 7, 100, u32::MAX] {
            if factor > 0 || value.is_finite() {
                let product = product_of(value.to_bits(), factor);
                assert_eq!(f64::from_bits(product), value * factor as f64, "{value} times {factor}");
            }
        }
    }
}

#[test]
fn whole_numbers_are_rounded_away_from_nothing() {
    for value in doubles() {
        for most in [7, u32::MAX as u64, u64::MAX] {
            assert_eq!(whole_of(value.to_bits(), most), (value.round() as u64).min(most), "{value}");
        }
    }
}

#[test]
fn places_are_those_of_the_text() {
    for value in doubles().into_iter().filter(|value| *value <= 18446744073709551616.0) {
        for (scale, places) in [(1u32, 0), (10, 1), (100, 2)] {
            let text = format!("{value:.places$}").replace('.', "");
            assert_eq!(parts_of(value.to_bits(), scale).to_string(), {
                let digits = text.trim_start_matches('0');
                if digits.is_empty() { "0".to_string() } else { digits.to_string() }
            }, "{value}");
        }
    }
}

#[test]
fn differences_and_quotients_of_doubles() {
    for a in (0..400u64).chain([9_007_199_254_740_993, u64::MAX]) {
        for b in (0..400u64).chain([123_456_789_012_345_678, u64::MAX]) {
            let (x, y) = (a as f64 / 100.0, b as f64 / 100.0);
            assert_eq!(f64::from_bits(distance_of(ratio_of(a, 100), ratio_of(b, 100))), (x - y).abs());
        }
    }
    for a in doubles() {
        for b in doubles() {
            let expected = (a / b).max(b / a);
            if a > 0.0 && b > 0.0 && a.is_finite() && b.is_finite() {
                assert_eq!(f64::from_bits(apart_of(a.to_bits(), b.to_bits())), expected, "{a} and {b}");
            }
        }
    }
}

#[test]
fn numbers_of_any_size_are_read_to_the_nearest() {
    for (digits, exponent) in [
        (0u128, 0i128),
        (1, 0),
        (1, -1),
        (1_234_999, -6),
        (9_007_199_254_740_993, 0),
        (17_976_931_348_623_157, 292),
        (17_976_931_348_623_159, 292),
        (5, -324),
        (24_703_282_292_062_327, -340),
        (24_703_282_292_062_328, -340),
        (22_250_738_585_072_011, -324),
        (1, 400),
        (1, -400),
        (1, 1_000_000_000_000_000_000_000),
        (1, -1_000_000_000_000_000_000_000),
        (340_282_366_920_938_463_463_374_607_431_768_211_455, -39),
    ] {
        let mut number = Natural::zero();
        for digit in digits.to_string().bytes() {
            number = number.times_plus(10, (digit - b'0') as u64);
        }
        let size = digits.to_string().len();
        let text = format!("{digits}e{exponent}");
        let expected: f64 = text.parse().expect("a number");
        assert_eq!(f64::from_bits(decimal_of(number, size, exponent)), expected, "{text}");
    }
}

#[test]
fn quotients_of_whole_numbers_skip_the_first_rounding() {
    assert_eq!(f64::from_bits(quotient_of(1, 3)), 1.0 / 3.0);
    // Seven times the amount does not fit in a double on its own.
    assert_eq!(f64::from_bits(quotient_of(7 * 1_800_000_000_000_000_001, 7)), 1.8e18);
}
