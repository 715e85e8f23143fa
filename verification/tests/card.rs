use poker_core::card::{
    parse_cards, Card, CardSet, ParseCardError, ParseCardsErrorKind, Rank, Suit, NUM_CARDS, NUM_RANKS,
};

#[test]
fn card_index_layout_is_rank_major() {
    // The evaluator depends on this exact layout; pin it down.
    assert_eq!(Card::new(Rank::Two, Suit::Clubs).index(), 0);
    assert_eq!(Card::new(Rank::Two, Suit::Spades).index(), 3);
    assert_eq!(Card::new(Rank::Three, Suit::Clubs).index(), 4);
    assert_eq!(Card::new(Rank::Ace, Suit::Spades).index(), 51);
}

#[test]
fn every_index_round_trips_through_rank_and_suit() {
    for i in 0..NUM_CARDS as u8 {
        let card = Card::from_index(i).expect("index in range");
        assert_eq!(card.index(), i);
        assert_eq!(Card::new(card.rank(), card.suit()), card);
    }
}

#[test]
fn from_index_rejects_out_of_range() {
    assert!(Card::from_index(51).is_some());
    assert!(Card::from_index(52).is_none());
    assert!(Card::from_index(255).is_none());
}

#[test]
fn all_yields_the_whole_deck_without_duplicates() {
    let set: CardSet = CardSet::from_cards(&Card::all());
    assert_eq!(set.len(), 52);
    assert_eq!(set, CardSet::full_deck());
}

#[test]
fn display_and_parse_round_trip_for_every_card() {
    for card in Card::all() {
        let text = card.to_string();
        assert_eq!(text.len(), 2);
        assert_eq!(Card::from_str(&text), Ok(card));
    }
}

#[test]
fn parse_accepts_mixed_case() {
    let ace_spades = Card::new(Rank::Ace, Suit::Spades);
    assert_eq!(Card::from_str("As"), Ok(ace_spades));
    assert_eq!(Card::from_str("aS"), Ok(ace_spades));
    assert_eq!(Card::from_str("AS"), Ok(ace_spades));
    assert_eq!(Card::from_str("as"), Ok(ace_spades));
}

#[test]
fn parse_rejects_malformed_input() {
    assert_eq!(Card::from_str(""), Err(ParseCardError::WrongLength(0)));
    assert_eq!(Card::from_str("A"), Err(ParseCardError::WrongLength(1)));
    assert_eq!(Card::from_str("Ass"), Err(ParseCardError::WrongLength(3)));
    assert_eq!(Card::from_str("1s"), Err(ParseCardError::BadRank('1')));
    assert_eq!(Card::from_str("Ax"), Err(ParseCardError::BadSuit('x')));
}

#[test]
fn rank_ordering_puts_ace_high() {
    assert!(Rank::Ace > Rank::King);
    assert!(Rank::Three > Rank::Two);
    assert_eq!(Rank::ALL.len(), NUM_RANKS);
    for (i, rank) in Rank::ALL.iter().enumerate() {
        assert_eq!(rank.index() as usize, i);
    }
}

#[test]
fn card_set_insert_and_remove_report_membership_changes() {
    let mut set = CardSet::empty();
    let ace = Card::new(Rank::Ace, Suit::Spades);

    assert!(set.insert(ace), "first insert is a change");
    assert!(!set.insert(ace), "second insert is a no-op");
    assert!(set.contains(ace));
    assert_eq!(set.len(), 1);

    assert!(set.remove(ace), "removing a present card is a change");
    assert!(!set.remove(ace), "removing an absent card is a no-op");
    assert!(set.is_empty());
}

#[test]
fn card_set_iterates_in_index_order() {
    let cards = parse_cards("As 2c Td").expect("valid");
    let set: CardSet = CardSet::from_cards(&cards);
    let seen: Vec<Card> = set.to_vec();
    let mut walk = set.iter();
    let mut walked = Vec::new();
    while let Some(card) = walk.next() {
        walked.push(card);
    }
    assert_eq!(walked, seen);

    let mut expected = cards.clone();
    expected.sort();
    assert_eq!(seen, expected);
    assert_eq!(seen.len(), set.len() as usize);
}

#[test]
fn card_set_algebra_matches_expectations() {
    let a: CardSet = CardSet::from_cards(&parse_cards("As Ks Qs").expect("valid"));
    let b: CardSet = CardSet::from_cards(&parse_cards("Qs Js Ts").expect("valid"));

    assert_eq!(a.union(b).len(), 5);
    assert_eq!(a.intersection(b).len(), 1);
    assert_eq!(a.difference(b).len(), 2);
    assert!(a.intersects(b));

    let disjoint: CardSet = CardSet::from_cards(&parse_cards("2c 3c").expect("valid"));
    assert!(!a.intersects(disjoint));
    assert_eq!(a.difference(a), CardSet::empty());
}

#[test]
fn rank_mask_isolates_one_suit() {
    let set: CardSet = CardSet::from_cards(&parse_cards("As Ks Qh 2s").expect("valid"));

    let spades = set.rank_mask(Suit::Spades);
    assert_eq!(spades.count_ones(), 3);
    assert_ne!(spades & (1 << Rank::Ace.index()), 0);
    assert_ne!(spades & (1 << Rank::King.index()), 0);
    assert_ne!(spades & (1 << Rank::Two.index()), 0);
    assert_eq!(spades & (1 << Rank::Queen.index()), 0, "Qh is not a spade");

    assert_eq!(set.rank_mask(Suit::Hearts), 1 << Rank::Queen.index());
    assert_eq!(set.rank_mask(Suit::Clubs), 0);
}

#[test]
fn rank_mask_of_full_deck_is_all_ranks() {
    for suit in Suit::ALL {
        assert_eq!(CardSet::full_deck().rank_mask(suit), 0x1FFF);
    }
}

#[test]
fn parse_cards_reads_a_whitespace_separated_list() {
    let cards = parse_cards("As Kd 7c").expect("valid");
    assert_eq!(cards.len(), 3);
    assert_eq!(cards[0], Card::new(Rank::Ace, Suit::Spades));
    assert_eq!(cards[2], Card::new(Rank::Seven, Suit::Clubs));
    assert_eq!(parse_cards("").expect("empty is valid"), vec![]);
}

#[test]
fn parse_cards_accepts_run_together_poker_shorthand() {
    // "AhKh" is how hands are written everywhere in poker.
    assert_eq!(parse_cards("AhKh").expect("valid"), parse_cards("Ah Kh").expect("valid"));
    assert_eq!(
        parse_cards("AsAdKsKd").expect("valid"),
        parse_cards("As Ad Ks Kd").expect("valid"),
        "an Omaha hand"
    );
    // Mixed styles in one string.
    assert_eq!(
        parse_cards("AhKh 7c2d").expect("valid").len(),
        4,
        "two two-card hands"
    );
}

#[test]
fn parse_cards_rejects_odd_length_tokens() {
    let err = parse_cards("AhK").expect_err("dangling rank");
    assert_eq!(err.token, "AhK");
    assert!(matches!(
        err.kind,
        ParseCardsErrorKind::Invalid(ParseCardError::WrongLength(3))
    ));
}

#[test]
fn parse_cards_catches_duplicates_inside_a_single_token() {
    let err = parse_cards("AhAh").expect_err("same card twice");
    assert_eq!(err.kind, ParseCardsErrorKind::Duplicate);
    assert_eq!(err.token, "Ah", "reports the card, not the whole token");
}

#[test]
fn parse_cards_rejects_duplicates() {
    let err = parse_cards("As Kd As").expect_err("duplicate should fail");
    assert_eq!(err.kind, ParseCardsErrorKind::Duplicate);
    assert_eq!(err.token, "As");
}

#[test]
fn parse_cards_reports_the_offending_token() {
    let err = parse_cards("As Xd 7c").expect_err("bad token should fail");
    assert_eq!(err.token, "Xd");
    assert!(matches!(err.kind, ParseCardsErrorKind::Invalid(_)));
}

#[test]
fn an_index_that_is_known_to_be_one_gives_its_card() {
    for card in Card::all() {
        assert_eq!(Card::from_index_unchecked(card.index()), card);
    }
}

#[test]
fn what_is_wrong_with_cards_is_said_in_words() {
    let words = |text: &str| Card::from_str(text).expect_err("no card").to_string();
    assert_eq!(words("Ass"), "expected 2 characters (e.g. \"As\"), got 3");
    assert_eq!(words("1s"), "invalid rank character '1'");
    assert_eq!(words("A\n"), "invalid suit character '\\n'");

    let words = |text: &str| parse_cards(text).expect_err("no cards").to_string();
    assert_eq!(words("As Xd"), "could not parse \"Xd\": invalid rank character 'X'");
    assert_eq!(words("As Kd As"), "duplicate card \"As\"");
}

#[test]
fn a_set_of_cards_is_shown_in_brackets() {
    let set = CardSet::from_cards(&parse_cards("As 2c Td").expect("valid"));
    assert_eq!(set.to_string(), "[2c Td As]");
    assert_eq!(CardSet::empty().to_string(), "[]");
}

#[test]
fn rank_masks_count_the_cards() {
    for text in ["", "As", "2c 2d 2h 2s Ah", "As Ks Qs Js Ts 9c 8c 7d"] {
        let mut set = CardSet::empty();
        for card in parse_cards(text).expect("cards") {
            set.insert(card);
        }
        let ones: u32 = Suit::ALL.iter().map(|&suit| set.rank_mask(suit).count_ones()).sum();
        assert_eq!(ones, set.len());
    }
    for suit in Suit::ALL {
        assert_eq!(CardSet::full_deck().rank_mask(suit), 0x1FFF);
    }
}
