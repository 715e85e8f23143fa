use poker_core::abstraction::{
    bucket_by_strength, BetSizing, HandClass, ParseHandClassError, NUM_HAND_CLASSES,
};
use poker_core::betting::{Action, BettingRound, Seat};
use poker_core::card::{parse_cards, Card, Rank, Suit};

fn class(text: &str) -> HandClass {
    HandClass::from_str(text).unwrap_or_else(|e| panic!("{text}: {e:?}"))
}

fn class_of(text: &str) -> HandClass {
    let cards = parse_cards(text).expect("valid cards");
    assert_eq!(cards.len(), 2);
    HandClass::from_cards(cards[0], cards[1])
}

#[test]
fn every_hole_pair_maps_into_one_of_169_classes() {
    // The definitive check: all 1,326 combinations, and the class sizes
    // must come out to the textbook 13 pairs, 78 suited, 78 offsuit.
    let deck: Vec<Card> = Card::all();
    let mut seen = std::collections::HashMap::new();
    let mut combos = 0;

    for (i, &a) in deck.iter().enumerate() {
        for &b in &deck[i + 1..] {
            *seen.entry(HandClass::from_cards(a, b)).or_insert(0u32) += 1;
            combos += 1;
        }
    }

    assert_eq!(combos, 1_326, "C(52,2)");
    assert_eq!(seen.len(), 169, "strategically distinct starting hands");

    let pairs = seen.keys().filter(|c| c.is_pair()).count();
    let suited = seen.keys().filter(|c| c.is_suited()).count();
    let offsuit = seen.len() - pairs - suited;
    assert_eq!((pairs, suited, offsuit), (13, 78, 78));

    // Each class must contain exactly as many combos as it claims.
    for (class, &count) in &seen {
        assert_eq!(count, class.combos(), "{} combo count", class.to_string());
    }
    assert_eq!(seen.values().sum::<u32>(), 1_326, "combos are conserved");
}

#[test]
fn card_order_does_not_matter() {
    let cards = parse_cards("AsKh").expect("valid");
    assert_eq!(
        HandClass::from_cards(cards[0], cards[1]),
        HandClass::from_cards(cards[1], cards[0])
    );
}

#[test]
fn suits_are_irrelevant_beyond_whether_they_match() {
    // Every suited ace-king is the same class...
    let mut suited = Vec::new();
    for suit in Suit::ALL {
        suited.push(HandClass::from_cards(
            Card::new(Rank::Ace, suit),
            Card::new(Rank::King, suit),
        ));
    }
    assert!(suited.windows(2).all(|w| w[0] == w[1]));

    // ...and it differs from the offsuit version.
    assert_ne!(class_of("AsKs"), class_of("AsKh"));
}

#[test]
fn classes_render_in_standard_notation() {
    assert_eq!(class_of("AsAh").to_string(), "AA");
    assert_eq!(class_of("AsKs").to_string(), "AKs");
    assert_eq!(class_of("AsKh").to_string(), "AKo");
    assert_eq!(class_of("2c7d").to_string(), "72o");
    assert_eq!(class_of("Th9h").to_string(), "T9s");
}

#[test]
fn notation_round_trips_through_parsing() {
    for class in HandClass::all() {
        let text = class.to_string();
        assert_eq!(HandClass::from_str(&text), Ok(class), "{text}");
    }
}

#[test]
fn parsing_accepts_either_rank_order_and_case() {
    assert_eq!(class("AKs"), class("KAs"));
    assert_eq!(class("AKo"), class("KAo"));
    assert_eq!(class("aks"), class("AKs"));
    assert_eq!(class("AKS"), class("AKs"));
}

#[test]
fn malformed_hand_classes_are_rejected() {
    assert_eq!(HandClass::from_str("A"), Err(ParseHandClassError::WrongLength(1)));
    assert_eq!(HandClass::from_str("AKsx"), Err(ParseHandClassError::WrongLength(4)));
    assert_eq!(HandClass::from_str("XKs"), Err(ParseHandClassError::BadRank('X')));
    assert_eq!(HandClass::from_str("AKx"), Err(ParseHandClassError::BadSuffix('x')));
    assert_eq!(HandClass::from_str("AAs"), Err(ParseHandClassError::PairWithSuffix));
    assert_eq!(HandClass::from_str("AK"), Err(ParseHandClassError::MissingSuffix));
}

#[test]
fn index_round_trips_and_covers_the_grid() {
    for class in HandClass::all() {
        assert_eq!(HandClass::from_index(class.index()), Some(class));
    }
    assert_eq!(HandClass::from_index(NUM_HAND_CLASSES), None);
    assert_eq!(HandClass::all().len(), 169);
}

#[test]
fn high_and_low_ranks_are_ordered() {
    for class in HandClass::all() {
        assert!(class.high() >= class.low(), "{}", class.to_string());
        if class.is_pair() {
            assert_eq!(class.high(), class.low());
            assert!(!class.is_suited(), "a pair is never suited");
        }
    }
    assert_eq!(class("AKs").high(), Rank::Ace);
    assert_eq!(class("AKs").low(), Rank::King);
}

#[test]
fn buckets_are_ordered_weakest_first_and_evenly_filled() {
    // Hundredths.
    let values: Vec<u64> = (0..100).collect();
    let assignment = bucket_by_strength(&values, 10);

    assert_eq!(assignment[0], 0, "weakest hand in the bottom bucket");
    assert_eq!(assignment[99], 9, "strongest hand in the top bucket");
    // Strength must never decrease as the bucket rises.
    assert!(assignment.windows(2).all(|w| w[0] <= w[1]));

    let mut sizes = [0usize; 10];
    for &bucket in &assignment {
        sizes[bucket as usize] += 1;
    }
    assert!(sizes.iter().all(|&n| n == 10), "equal frequency: {sizes:?}");
}

#[test]
fn bucketing_handles_degenerate_inputs() {
    assert!(bucket_by_strength(&[], 5).is_empty());
    assert_eq!(bucket_by_strength(&[50], 5), vec![0]);
    // Fewer items than buckets is fine; some buckets simply stay empty.
    let assignment = bucket_by_strength(&[10, 90], 10);
    assert_eq!(assignment.len(), 2);
    assert!(assignment[0] < assignment[1]);
    // All-equal values must not panic or produce an out-of-range bucket.
    let flat = bucket_by_strength(&[50; 20], 4);
    assert!(flat.iter().all(|&b| b < 4));
}

#[test]
fn a_pot_sized_bet_is_measured_after_calling() {
    // Pot 100, nothing owed: a pot-sized bet is 100.
    let seats = vec![Seat::new(1000), Seat::new(1000)];
    let round = BettingRound::new(seats, 0, 2);
    let sizing = BetSizing {
        fractions: vec![50, 100],
        include_all_in: false,
    };

    let actions = sizing.actions(100, &round.legal_actions());
    assert!(actions.contains(&Action::Check));
    assert!(actions.contains(&Action::RaiseTo(50)), "half pot");
    assert!(actions.contains(&Action::RaiseTo(100)), "full pot");
}

#[test]
fn raise_sizes_include_the_call_before_the_pot_share() {
    // Facing a bet of 100 into a pot of 100: calling makes it 300, so a
    // pot-sized raise is 100 (the call) + 300 = 400 total.
    let seats = vec![Seat::new(1000), Seat::new(1000)];
    let mut round = BettingRound::new(seats, 0, 2);
    round.apply(Action::RaiseTo(100)).expect("legal bet");

    let sizing = BetSizing {
        fractions: vec![100],
        include_all_in: false,
    };
    let actions = sizing.actions(200, &round.legal_actions());
    assert!(actions.contains(&Action::RaiseTo(400)), "got {actions:?}");
}

#[test]
fn every_offered_size_is_actually_legal() {
    let seats = vec![Seat::new(1000), Seat::new(1000)];
    let mut round = BettingRound::new(seats, 0, 2);
    round.apply(Action::RaiseTo(100)).expect("legal bet");

    let legal = round.legal_actions();
    for action in BetSizing::wide().actions(200, &legal) {
        assert!(legal.permits(action), "{action:?} was offered but is illegal");
    }
}

#[test]
fn sizes_are_clamped_and_deduplicated_for_a_short_stack() {
    // A 60-chip stack cannot make most of these raises, so they collapse
    // onto the all-in amount rather than being offered several times.
    let seats = vec![Seat::new(1000), Seat::new(60)];
    let mut round = BettingRound::new(seats, 0, 2);
    round.apply(Action::RaiseTo(20)).expect("legal bet");

    let legal = round.legal_actions();
    let actions = BetSizing::wide().actions(200, &legal);
    let raises: Vec<&Action> = actions
        .iter()
        .filter(|a| matches!(a, Action::RaiseTo(_)))
        .collect();

    assert_eq!(raises.len(), 1, "only one distinct raise fits: {raises:?}");
    assert_eq!(*raises[0], Action::RaiseTo(60), "the all-in amount");
    for action in &actions {
        assert!(legal.permits(*action), "{action:?} is illegal");
    }
}

#[test]
fn no_raises_are_offered_when_the_action_is_closed() {
    // An all-in under-raise does not reopen betting, so the abstraction
    // must offer only fold and call.
    let seats = vec![Seat::new(1000), Seat::new(150)];
    let mut round = BettingRound::new(seats, 0, 2);
    round.apply(Action::RaiseTo(100)).expect("legal bet");
    round.apply(Action::RaiseTo(150)).expect("legal jam");

    let actions = BetSizing::wide().actions(250, &round.legal_actions());
    assert!(actions.contains(&Action::Fold));
    assert!(actions.contains(&Action::Call));
    assert!(
        !actions.iter().any(|a| matches!(a, Action::RaiseTo(_))),
        "the action was not reopened: {actions:?}"
    );
}

#[test]
fn the_compact_tree_stays_small() {
    let seats = vec![Seat::new(1000), Seat::new(1000)];
    let round = BettingRound::new(seats, 0, 2);
    let actions = BetSizing::compact().actions(100, &round.legal_actions());
    // check, half pot, pot, all in — branching this narrow is what keeps
    // the solve tractable.
    assert_eq!(actions.len(), 4, "{actions:?}");
}

#[test]
fn what_is_wrong_with_a_hand_class_is_said_in_words() {
    let words = |text: &str| HandClass::from_str(text).expect_err("no class").to_string();
    assert_eq!(words("A"), "expected 2 or 3 characters (e.g. \"AA\", \"AKs\"), got 1");
    assert_eq!(words("XKs"), "invalid rank character 'X'");
    assert_eq!(words("AKx"), "expected 's' or 'o' suffix, got 'x'");
    assert_eq!(words("AAs"), "a pair cannot be suited or offsuit");
    assert_eq!(words("AK"), "a non-pair needs an 's' or 'o' suffix");
}
