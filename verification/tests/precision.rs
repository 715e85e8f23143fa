use poker_core::abstraction::share_of;
use poker_core::precision::portion_of;

/// The same share in the machine's own double precision.
fn float(amount: u64, percent: u32) -> u128 {
    (amount as f64 * (f64::from(percent) / 100.0)).round() as u128
}

#[test]
fn a_share_can_be_a_chip_short_of_the_exact_one() {
    // 28.5 exactly, and a little less in double precision.
    assert_eq!(portion_of(50, 57), 28);
    assert_eq!(share_of(50, 57), 28);
    assert_eq!(portion_of(50, 75), 38, "three quarters are exact, and halves go up");
    assert_eq!(portion_of(100, 33), 33);
    assert_eq!(portion_of(0, 33), 0);
    assert_eq!(portion_of(100, 0), 0);
}

#[test]
fn shares_are_those_of_double_precision() {
    for percent in (0..400).chain([1_000, 9_999, 123_457, 4_000_000_001, u32::MAX]) {
        for amount in 0..400 {
            assert_eq!(portion_of(amount, percent), float(amount as u64, percent));
        }
        for amount in [
            9_007_199_254_740_993,
            (1 << 62) + 511,
            u64::MAX,
            u64::MAX - 1_024,
            12_345_678_901_234_567_891,
        ] {
            assert_eq!(
                portion_of(amount as u128, percent),
                float(amount, percent),
                "{percent} hundredths of {amount}"
            );
        }
    }
}
