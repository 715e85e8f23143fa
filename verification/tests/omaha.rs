use poker_core::card::parse_cards;
use poker_core::eval::{evaluate, Category, HandRank};
use poker_core::omaha::{best_omaha_hand, evaluate_omaha};

fn omaha(hole: &str, board: &str) -> HandRank {
    let hole = parse_cards(hole).expect("valid hole cards");
    let board = parse_cards(board).expect("valid board");
    evaluate_omaha(&hole, &board)
}

/// Hold'em result for a *two*-card hand on the same board, for contrast.
/// Takes two cards rather than a full Omaha hand because seven cards is
/// what Hold'em actually evaluates.
fn holdem(hole2: &str, board: &str) -> HandRank {
    let mut cards = parse_cards(hole2).expect("valid hole cards");
    assert_eq!(cards.len(), 2, "Hold'em comparison takes exactly two cards");
    cards.extend(parse_cards(board).expect("valid board"));
    evaluate(&cards)
}

#[test]
fn one_hole_card_cannot_complete_a_flush() {
    // Four spades on the board, one in hand. A Hold'em player holding Qs
    // has a flush; the Omaha player cannot use that single card, so the
    // same holding is only ace-high.
    let (hole, board) = ("Qs Jd 9c 8c", "As Ks 7s 2s 3d");
    assert_eq!(holdem("Qs Jd", board).category(), Category::Flush);
    assert_eq!(omaha(hole, board).category(), Category::HighCard);
}

#[test]
fn two_suited_hole_cards_do_complete_a_flush() {
    let hand = omaha("Qs Js 9c 8c", "As Ks 7s 2h 3d");
    assert_eq!(hand.category(), Category::Flush);
    // Ace-king-queen-jack-seven of spades.
    assert_eq!(hand, evaluate(&parse_cards("As Ks Qs Js 7s").expect("valid")));
}

#[test]
fn a_board_straight_cannot_simply_be_played() {
    // Broadway on the board. Hold'em plays it; Omaha must use two hole
    // cards, and these four cannot extend or match it.
    let (hole, board) = ("2c 3d 4h 5s", "As Kd Qh Jc Ts");
    assert_eq!(holdem("2c 3d", board).category(), Category::Straight);
    assert_eq!(omaha(hole, board).category(), Category::HighCard);
}

#[test]
fn quads_on_the_board_play_as_trips() {
    // Only three board cards may be used, so the fourth nine is unreachable.
    let (hole, board) = ("Ac Kd Qh Js", "9c 9d 9h 9s 2c");
    assert_eq!(holdem("Ac Kd", board).category(), Category::FourOfAKind);

    let hand = omaha(hole, board);
    assert_eq!(hand.category(), Category::ThreeOfAKind);
    // Trip nines with ace-king kickers.
    assert_eq!(hand, evaluate(&parse_cards("9c 9d 9h Ac Kd").expect("valid")));
}

#[test]
fn a_pocket_pair_plus_board_trips_makes_a_full_house() {
    let hand = omaha("Ac Ad 7h 2s", "Kc Kd Kh 5s 3c");
    assert_eq!(hand.category(), Category::FullHouse);
    assert_eq!(hand, evaluate(&parse_cards("Kc Kd Kh Ac Ad").expect("valid")));
}

#[test]
fn works_on_the_flop_and_turn() {
    // Exactly one board combination exists on the flop.
    let flop = omaha("As Ks 2c 3d", "Qs Js Ts");
    assert_eq!(flop.category(), Category::StraightFlush);

    let turn = omaha("As Ks 2c 3d", "Qs Js Ts 9h");
    assert_eq!(turn.category(), Category::StraightFlush);
}

#[test]
fn returns_the_five_cards_that_played() {
    let hole = parse_cards("Ac Ad 7h 2s").expect("valid");
    let board = parse_cards("Kc Kd Kh 5s 3c").expect("valid");
    let (rank, cards) = best_omaha_hand(&hole, &board);

    assert_eq!(rank.category(), Category::FullHouse);
    assert_eq!(rank, evaluate(&cards), "returned cards must reproduce the rank");

    // Exactly two from hand, exactly three from board.
    assert_eq!(cards[..2].iter().filter(|c| hole.contains(c)).count(), 2);
    assert_eq!(cards[2..].iter().filter(|c| board.contains(c)).count(), 3);
}

#[test]
fn five_card_omaha_hole_sizes_are_supported() {
    // PLO5: five hole cards, but still exactly two of them play.
    // Q-J from hand with T-9-8 from board is the only straight available;
    // the two spades in hand cannot flush, since the board holds only two.
    let hand = omaha("As Ks Qd Jd 2c", "Ts 9s 8h 4d 3c");
    assert_eq!(hand.category(), Category::Straight);
    assert_eq!(hand, evaluate(&parse_cards("Qd Jd Ts 9s 8h").expect("valid")));
}

#[test]
fn evaluation_is_independent_of_card_order() {
    let a = omaha("Ac Ad 7h 2s", "Kc Kd Kh 5s 3c");
    let b = omaha("2s 7h Ad Ac", "3c 5s Kh Kd Kc");
    assert_eq!(a, b);
}
