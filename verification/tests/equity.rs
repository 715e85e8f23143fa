use poker_core::card::{parse_cards, Card};
use poker_core::equity::{
    binomial, estimate, exact, monte_carlo, Equity, EquityError, Variant,
};

/// A stream of numbers to draw cards by.
struct Stream(u64);

impl Stream {
    fn below(&mut self, bound: usize) -> usize {
        self.0 = self.0.wrapping_add(0x9E37_79B9_7F4A_7C15);
        let mut z = self.0;
        z = (z ^ (z >> 30)).wrapping_mul(0xBF58_476D_1CE4_E5B9);
        z = (z ^ (z >> 27)).wrapping_mul(0x94D0_49BB_1331_11EB);
        ((z ^ (z >> 31)) % bound as u64) as usize
    }

    /// Draws of `missing` cards from a deck of `deck`.
    fn draws(&mut self, trials: usize, deck: usize, missing: usize) -> Vec<Vec<usize>> {
        (0..trials)
            .map(|_| (0..missing).map(|k| self.below(deck - k)).collect())
            .collect()
    }
}

fn share(equity: &Equity) -> f64 {
    let won: f64 = equity
        .shared
        .iter()
        .enumerate()
        .map(|(others, &trials)| trials as f64 / (others + 1) as f64)
        .sum();
    won / equity.trials as f64
}

fn cards(s: &str) -> Vec<Card> {
    parse_cards(s).expect("valid cards")
}

fn holdem(hands: &[&str], board: &str) -> Vec<Equity> {
    let parsed: Vec<Vec<Card>> = hands.iter().map(|h| cards(h)).collect();
    let refs: Vec<&[Card]> = parsed.iter().map(|h| h.as_slice()).collect();
    exact(&refs, &cards(board), Variant::Holdem).expect("valid input")
}

fn total_share(equities: &[Equity]) -> f64 {
    equities.iter().map(share).sum()
}

#[test]
fn equities_always_sum_to_one() {
    // Whatever the spot, the pot is fully distributed.
    for (hands, board) in [
        (vec!["AsAd", "KsKd"], ""),
        (vec!["AsKs", "7d7c"], "2h 9s Td"),
        (vec!["AsAd", "KsKd", "QhQc"], "2h 9s Td Jc"),
        (vec!["7c2d", "AsKs", "JhTh", "5c5d"], "2h 9s Td"),
    ] {
        let equities = holdem(&hands, board);
        let total = total_share(&equities);
        assert!(
            (total - 1.0).abs() < 1e-9,
            "shares summed to {total} for {hands:?} on {board:?}"
        );
    }
}

#[test]
fn mirror_image_hands_split_exactly_evenly() {
    // Swapping spades and hearts maps one hand onto the other and leaves
    // the remaining deck unchanged, so this must be exactly 50/50 — no
    // tolerance needed.
    let equities = holdem(&["AsKs", "AhKh"], "");
    assert!((share(&equities[0]) - 0.5).abs() < 1e-12);
    assert!((share(&equities[1]) - 0.5).abs() < 1e-12);
}

#[test]
fn a_completed_board_is_decided_with_no_uncertainty() {
    let equities = holdem(&["AsAd", "KsKd"], "2c 7d 9h Jc 4s");
    assert_eq!(share(&equities[0]), 1.0);
    assert_eq!(share(&equities[1]), 0.0);
    assert_eq!(equities[0].trials, 1, "nothing left to enumerate");
    assert_eq!(equities[0].wins, 1);
}

#[test]
fn a_board_that_plays_itself_is_a_chop() {
    // Both players play the royal flush on the board.
    let equities = holdem(&["2c3d", "4h5s"], "As Ks Qs Js Ts");
    assert_eq!(share(&equities[0]), 0.5);
    assert_eq!(share(&equities[1]), 0.5);
    assert_eq!(equities[0].ties, 1);
    assert_eq!(equities[0].wins, 0, "a chop is not a win");
}

#[test]
fn aces_beat_kings_about_four_fifths_of_the_time() {
    let equities = holdem(&["AsAd", "KsKd"], "");
    assert!(
        (0.79..0.85).contains(&share(&equities[0])),
        "AA vs KK was {:.4}",
        share(&equities[0])
    );
}

#[test]
fn a_pair_against_two_overcards_is_close_to_a_coin_flip() {
    let equities = holdem(&["QsQd", "AhKh"], "");
    assert!(
        (0.50..0.60).contains(&share(&equities[0])),
        "QQ vs AKs was {:.4}",
        share(&equities[0])
    );
}

#[test]
fn a_dominated_hand_is_in_bad_shape() {
    // AK vs AQ: the queen is nearly drawing to a three-outer.
    let equities = holdem(&["AsKd", "AhQd"], "");
    assert!(
        share(&equities[0]) > 0.70,
        "AK vs AQ was {:.4}",
        share(&equities[0])
    );
}

#[test]
fn monte_carlo_agrees_with_exact_enumeration() {
    // The real test of the sampler: same spot, both engines, same answer.
    let hands = [cards("AsKs"), cards("7d7c")];
    let refs: Vec<&[Card]> = hands.iter().map(|h| h.as_slice()).collect();
    let board = cards("2h 9s Td");

    let exact_result = exact(&refs, &board, Variant::Holdem).expect("valid");
    let draws = Stream(0xC0FFEE).draws(200_000, 45, 2);
    let sampled = monte_carlo(&refs, &board, Variant::Holdem, &draws).expect("valid");

    for (index, (a, b)) in exact_result.iter().zip(sampled.iter()).enumerate() {
        assert!(
            (share(a) - share(b)).abs() < 0.005,
            "hand {index}: exact {:.4} vs sampled {:.4}",
            share(a),
            share(b)
        );
    }
    assert!((total_share(&sampled) - 1.0).abs() < 1e-9);
}

#[test]
fn monte_carlo_is_reproducible_from_its_seed() {
    let hands = [cards("AsKs"), cards("7d7c")];
    let refs: Vec<&[Card]> = hands.iter().map(|h| h.as_slice()).collect();

    let run = || {
        let draws = Stream(42).draws(5_000, 48, 5);
        monte_carlo(&refs, &[], Variant::Holdem, &draws).expect("valid")
    };
    assert_eq!(run(), run());
}

#[test]
fn omaha_uses_omaha_rules() {
    let hands = [cards("AsAdKsKd"), cards("2c3d4h5s")];
    let refs: Vec<&[Card]> = hands.iter().map(|h| h.as_slice()).collect();
    // Four spades on the board, but Omaha needs two from hand.
    let board = cards("Qs Js 9s 2s 7h");
    let equities = exact(&refs, &board, Variant::Omaha).expect("valid");

    assert!((total_share(&equities) - 1.0).abs() < 1e-9);
    // AsKs plays two spades with three from the board for the nut flush.
    assert_eq!(share(&equities[0]), 1.0);
}

#[test]
fn omaha_preflop_equity_is_computable_by_sampling() {
    let hands = [cards("AsAdKsKd"), cards("7c6d5h4s")];
    let refs: Vec<&[Card]> = hands.iter().map(|h| h.as_slice()).collect();
    let draws = Stream(11).draws(20_000, 44, 5);
    let equities = monte_carlo(&refs, &[], Variant::Omaha, &draws).expect("valid");

    assert!((total_share(&equities) - 1.0).abs() < 1e-9);
    assert!(
        share(&equities[0]) > 0.5,
        "AAKK double-suited should be ahead, got {:.4}",
        share(&equities[0])
    );
}

#[test]
fn estimate_enumerates_when_cheap_and_samples_when_not() {
    let hands = [cards("AsKs"), cards("7d7c")];
    let refs: Vec<&[Card]> = hands.iter().map(|h| h.as_slice()).collect();
    let draws = Stream(5).draws(1_000, 48, 5);

    // On the flop there are 990 runouts, well under the cap.
    let flop = estimate(&refs, &cards("2h 9s Td"), Variant::Holdem, 10_000, &[])
        .expect("valid");
    assert_eq!(flop[0].trials, 990, "should have enumerated");

    // Preflop is 1.7M runouts, so it samples instead.
    let preflop =
        estimate(&refs, &[], Variant::Holdem, 10_000, &draws).expect("valid");
    assert_eq!(preflop[0].trials, 1_000, "should have sampled");
}

#[test]
fn binomial_matches_known_values() {
    assert_eq!(binomial(52, 5), 2_598_960);
    assert_eq!(binomial(48, 5), 1_712_304);
    assert_eq!(binomial(45, 2), 990);
    assert_eq!(binomial(5, 0), 1);
    assert_eq!(binomial(3, 5), 0);
}

#[test]
fn duplicate_cards_are_rejected() {
    let hands = [cards("AsKs"), cards("AsQd")];
    let refs: Vec<&[Card]> = hands.iter().map(|h| h.as_slice()).collect();
    let error = exact(&refs, &[], Variant::Holdem).expect_err("duplicate ace");
    assert!(matches!(error, EquityError::DuplicateCard(_)));

    // Also across hand and board.
    let hands = [cards("AsKs"), cards("7d7c")];
    let refs: Vec<&[Card]> = hands.iter().map(|h| h.as_slice()).collect();
    let error = exact(&refs, &cards("As 2h 3d"), Variant::Holdem).expect_err("board clash");
    assert!(matches!(error, EquityError::DuplicateCard(_)));
}

#[test]
fn malformed_inputs_are_rejected() {
    let three = cards("AsKsQs");
    let two = cards("7d7c");
    let refs: Vec<&[Card]> = vec![three.as_slice(), two.as_slice()];
    assert!(matches!(
        exact(&refs, &[], Variant::Holdem),
        Err(EquityError::WrongHoleCount { hand: 0, found: 3, .. })
    ));

    let one = [two.as_slice()];
    assert!(matches!(
        exact(&one, &[], Variant::Holdem),
        Err(EquityError::TooFewHands(1))
    ));

    let a = cards("AsKs");
    let b = cards("7d7c");
    let refs: Vec<&[Card]> = vec![a.as_slice(), b.as_slice()];
    assert!(matches!(
        exact(&refs, &cards("2h 3h 4h 5h 6h 7h"), Variant::Holdem),
        Err(EquityError::BoardTooLong(6))
    ));
}

#[test]
fn what_stops_a_calculation_is_said_in_words() {
    let words = |hands: &[&str], board: &str, variant: Variant| {
        let hands: Vec<Vec<Card>> = hands.iter().map(|hand| cards(hand)).collect();
        let refs: Vec<&[Card]> = hands.iter().map(|hand| hand.as_slice()).collect();
        exact(&refs, &cards(board), variant).expect_err("no calculation").to_string()
    };
    assert_eq!(words(&["AsKs"], "", Variant::Holdem), "need at least 2 hands, got 1");
    assert_eq!(words(&["AsKs", "7d"], "", Variant::Holdem), "hand 1 has 1 cards, expected 2");
    assert_eq!(
        words(&["AsKs", "7d7c"], "", Variant::Omaha),
        "hand 0 has 2 cards, expected 4 to 6"
    );
    assert_eq!(
        words(&["AsKs", "7d7c"], "2h 3h 4h 5h 6h 7h", Variant::Holdem),
        "board has 6 cards, at most 5 allowed"
    );
    assert_eq!(
        words(&["AsKs", "AsQd"], "", Variant::Holdem),
        "card As appears more than once"
    );
    let error = EquityError::DeckExhausted { needed: 5, available: 4 };
    assert_eq!(error.to_string(), "need 5 more board cards but only 4 remain");
}

/// What all the hands take together, where each pot is `whole` parts.
fn parts(equities: &[Equity], whole: u64) -> u64 {
    equities
        .iter()
        .map(|equity| {
            equity
                .shared
                .iter()
                .enumerate()
                .map(|(others, &trials)| trials * (whole / (others as u64 + 1)))
                .sum::<u64>()
        })
        .sum()
}

#[test]
fn exact_shares_make_up_every_pot() {
    let heads_up = holdem(&["AsAd", "KsKd"], "2h 9s Td");
    assert_eq!(heads_up[0].trials, 990);
    assert_eq!(parts(&heads_up, 2), 2 * 990);

    let four = holdem(&["AsKs", "AdKd", "AhKh", "7c7d"], "2h 9s Tc");
    assert_eq!(four[0].trials, 820);
    assert!(four[0].shared[2] > 0);
    assert_eq!(parts(&four, 24), 24 * 820);
}

#[test]
fn sampled_shares_make_up_every_pot() {
    let hands = [cards("AsKs"), cards("AdKd"), cards("7c7d")];
    let refs: Vec<&[Card]> = hands.iter().map(|h| h.as_slice()).collect();
    let draws = Stream(9).draws(500, 46, 5);
    let equities = monte_carlo(&refs, &[], Variant::Holdem, &draws).expect("valid input");
    assert_eq!(equities[0].trials, 500);
    assert_eq!(parts(&equities, 6), 6 * 500);
}
