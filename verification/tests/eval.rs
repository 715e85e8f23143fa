use poker_core::card::{parse_cards, Card};
use poker_core::eval::{evaluate, Category, HandRank};

/// Evaluates a space-separated hand, e.g. `rank("As Ks Qs Js Ts")`.
fn rank(s: &str) -> HandRank {
    evaluate(&parse_cards(s).expect("valid cards"))
}

fn category(s: &str) -> Category {
    rank(s).category()
}

#[test]
fn identifies_every_category_from_five_cards() {
    assert_eq!(category("As Ks Qs Js Ts"), Category::StraightFlush);
    assert_eq!(category("5s 4s 3s 2s As"), Category::StraightFlush);
    assert_eq!(category("9c 9d 9h 9s 2c"), Category::FourOfAKind);
    assert_eq!(category("9c 9d 9h 2s 2c"), Category::FullHouse);
    assert_eq!(category("As Js 9s 5s 3s"), Category::Flush);
    assert_eq!(category("9c 8d 7h 6s 5c"), Category::Straight);
    assert_eq!(category("9c 9d 9h 5s 2c"), Category::ThreeOfAKind);
    assert_eq!(category("9c 9d 5h 5s 2c"), Category::TwoPair);
    assert_eq!(category("9c 9d 7h 5s 2c"), Category::Pair);
    assert_eq!(category("Ac Jd 9h 5s 2c"), Category::HighCard);
}

#[test]
fn category_order_is_strictly_increasing() {
    let ladder = [
        "Ac Jd 9h 5s 2c",
        "9c 9d 7h 5s 2c",
        "9c 9d 5h 5s 2c",
        "9c 9d 9h 5s 2c",
        "9c 8d 7h 6s 5c",
        "As Js 9s 5s 3s",
        "9c 9d 9h 2s 2c",
        "9c 9d 9h 9s 2c",
        "As Ks Qs Js Ts",
    ];
    for pair in ladder.windows(2) {
        let (lo, hi) = (rank(pair[0]), rank(pair[1]));
        assert!(lo < hi, "expected {} < {}, from {:?}", lo.to_string(), hi.to_string(), pair);
    }
}

#[test]
fn wheel_is_a_five_high_straight_not_ace_high() {
    let wheel = rank("5c 4d 3h 2s Ac");
    assert_eq!(wheel.category(), Category::Straight);
    // The classic off-by-one: the wheel must lose to a six-high straight.
    assert!(wheel < rank("6c 5d 4h 3s 2c"));
    assert!(wheel < rank("Ac Kd Qh Js Tc"));
}

#[test]
fn steel_wheel_is_the_weakest_straight_flush() {
    let steel = rank("5s 4s 3s 2s As");
    assert_eq!(steel.category(), Category::StraightFlush);
    assert!(steel < rank("6s 5s 4s 3s 2s"));
    assert!(steel < rank("As Ks Qs Js Ts"));
    // But it still beats every quads.
    assert!(steel > rank("Ac Ad Ah As Kc"));
}

#[test]
fn kickers_decide_within_a_category() {
    // Same pair, different kicker.
    assert!(rank("9c 9d Ah 5s 2c") > rank("9c 9d Kh 5s 2c"));
    // Same two pair, different kicker.
    assert!(rank("9c 9d 5h 5s Ac") > rank("9c 9d 5h 5s Kc"));
    // Same trips, different kickers.
    assert!(rank("9c 9d 9h As 2c") > rank("9c 9d 9h Ks 2c"));
    // Same quads, different kicker.
    assert!(rank("9c 9d 9h 9s Ac") > rank("9c 9d 9h 9s Kc"));
    // High card down to the last card.
    assert!(rank("Ac Jd 9h 5s 3c") > rank("Ac Jd 9h 5s 2c"));
}

#[test]
fn higher_pair_beats_better_kicker() {
    assert!(rank("Tc Td 3h 4s 2c") > rank("9c 9d Ah Ks Qc"));
}

#[test]
fn identical_hands_of_different_suits_tie() {
    assert_eq!(rank("Ac Kd 9h 5s 2c"), rank("Ad Kh 9s 5c 2d"));
    assert_eq!(rank("9c 9d 5h 5s 2c"), rank("9h 9s 5c 5d 2h"));
}

#[test]
fn seven_cards_pick_the_best_five() {
    // Board pairs but the flush is the real hand.
    let hand = rank("As Ks 9s 5s 3s 2c 2d");
    assert_eq!(hand.category(), Category::Flush);
    assert_eq!(hand, rank("As Ks 9s 5s 3s"));

    // Straight hidden among seven cards.
    assert_eq!(category("9c 8d 7h 6s 5c Kd Qh"), Category::Straight);

    // Two pair on board plus a third pair: only the top two count.
    let two_pair = rank("Ac Ad Kc Kd 5h 5s 2c");
    assert_eq!(two_pair.category(), Category::TwoPair);
    assert_eq!(two_pair, rank("Ac Ad Kc Kd 5h"));
}

#[test]
fn six_card_hands_are_supported() {
    assert_eq!(category("As Ks Qs Js Ts 2c"), Category::StraightFlush);
    assert_eq!(category("9c 9d 5h 5s 2c 3d"), Category::TwoPair);
}

#[test]
fn two_sets_of_trips_make_a_full_house() {
    // Sevens full of threes: the lower trips plays as the pair.
    let hand = rank("7c 7d 7h 3c 3d 3h 2s");
    assert_eq!(hand.category(), Category::FullHouse);
    assert_eq!(hand, rank("7c 7d 7h 3c 3d"));
    assert!(hand > rank("7c 7d 7h 2c 2d"));
}

#[test]
fn trips_plus_two_pairs_uses_the_higher_pair() {
    let hand = rank("7c 7d 7h Kc Kd 3c 3d");
    assert_eq!(hand.category(), Category::FullHouse);
    assert_eq!(hand, rank("7c 7d 7h Kc Kd"));
}

#[test]
fn quads_on_seven_cards_take_the_best_kicker() {
    let hand = rank("9c 9d 9h 9s Ac Kd 2h");
    assert_eq!(hand.category(), Category::FourOfAKind);
    assert_eq!(hand, rank("9c 9d 9h 9s Ac"));
}

#[test]
fn straight_uses_the_highest_of_overlapping_runs() {
    // 5..9 and 6..T both present; ten-high must win.
    let hand = rank("5c 6d 7h 8s 9c Td 2h");
    assert_eq!(hand.category(), Category::Straight);
    assert_eq!(hand, rank("Tc 9d 8h 7s 6c"));
}

#[test]
fn flush_beats_a_lower_straight_on_the_same_seven_cards() {
    let hand = rank("9s 8s 7s 6s 2s Kd Qh");
    assert_eq!(hand.category(), Category::Flush);
}

#[test]
fn display_is_human_readable() {
    assert_eq!(rank("As Ks Qs Js Ts").to_string(), "straight flush (A)");
    assert_eq!(rank("9c 9d 9h 2s 2c").to_string(), "full house (9 2)");
    assert_eq!(rank("9c 9d 7h 5s 2c").to_string(), "pair (9 7 5 2)");
    assert_eq!(HandRank::worst().to_string(), "(none)");
}

#[test]
fn worst_is_below_every_real_hand() {
    assert!(HandRank::worst() < rank("7c 5d 4h 3s 2c"));
}

/// The definitive correctness test: every distinct five-card hand, bucketed
/// by category, compared against the textbook counts. If any hand were
/// mis-categorised these totals could not all land.
#[test]
fn exhaustive_five_card_category_counts_match_textbook_values() {
    let deck: Vec<Card> = Card::all();
    let mut counts = [0u64; 9];
    let mut hand = [deck[0]; 5];

    for a in 0..48 {
        hand[0] = deck[a];
        for b in a + 1..49 {
            hand[1] = deck[b];
            for c in b + 1..50 {
                hand[2] = deck[c];
                for d in c + 1..51 {
                    hand[3] = deck[d];
                    for &card in &deck[d + 1..] {
                        hand[4] = card;
                        counts[evaluate(&hand).category() as usize] += 1;
                    }
                }
            }
        }
    }

    let expected = [
        (Category::HighCard, 1_302_540),
        (Category::Pair, 1_098_240),
        (Category::TwoPair, 123_552),
        (Category::ThreeOfAKind, 54_912),
        (Category::Straight, 10_200),
        (Category::Flush, 5_108),
        (Category::FullHouse, 3_744),
        (Category::FourOfAKind, 624),
        (Category::StraightFlush, 40),
    ];
    for (category, want) in expected {
        assert_eq!(
            counts[category as usize], want,
            "wrong count for {}",
            category.to_string()
        );
    }
    assert_eq!(counts.iter().sum::<u64>(), 2_598_960);
}
