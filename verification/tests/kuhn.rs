use poker_core::kuhn::{Kuhn, State, BET, JACK, KING, PASS, QUEEN};

#[test]
fn the_tree_has_the_expected_shape() {
    let game = Kuhn;
    let root = game.initial();
    assert!(game.is_chance(&root));
    assert_eq!(game.chance_outcomes(&root).len(), 6, "3 x 2 ordered deals");

    let dealt = game.chance_outcomes(&root)[0];
    assert!(!game.is_chance(&dealt));
    assert_eq!(game.current_player(&dealt), 0);

    // check, bet is the one two-action line that continues.
    let check_bet = game.apply(&game.apply(&dealt, PASS), BET);
    assert!(!game.is_terminal(&check_bet));
    assert_eq!(game.current_player(&check_bet), 0);

    for (a, b) in [(PASS, PASS), (BET, PASS), (BET, BET)] {
        let state = game.apply(&game.apply(&dealt, a), b);
        assert!(game.is_terminal(&state), "{a}{b} should end the hand");
    }
}

#[test]
fn chance_outcomes_are_a_probability_distribution() {
    let game = Kuhn;
    let outcomes = game.chance_outcomes(&game.initial());
    // Six deals, each as likely as the next.
    assert_eq!(outcomes.len(), 6);
    let total: f64 = outcomes.iter().map(|_| 1.0 / 6.0).sum();
    assert!((total - 1.0).abs() < 1e-12);
    // Never deal the same card twice.
    assert!(outcomes.iter().all(|s| s.cards[0] != s.cards[1]));
}

#[test]
fn a_player_cannot_see_the_opponents_card() {
    let game = Kuhn;
    // Two deals that give player 0 a king but differ for player 1.
    let a = State { cards: [KING, JACK], dealt: true, ..State::root() };
    let b = State { cards: [KING, QUEEN], dealt: true, ..State::root() };
    assert_eq!(
        game.info_key(&a),
        game.info_key(&b),
        "player 0 must not distinguish these"
    );
}

#[test]
fn terminal_utilities_are_zero_sum_and_correctly_signed() {
    let game = Kuhn;
    let deal = |c0, c1| State { cards: [c0, c1], dealt: true, ..State::root() };

    // Check-check: the better card wins one ante.
    let cc = game.apply(&game.apply(&deal(KING, JACK), PASS), PASS);
    assert_eq!(game.terminal_utility(&cc), 1);
    let cc_lose = game.apply(&game.apply(&deal(JACK, KING), PASS), PASS);
    assert_eq!(game.terminal_utility(&cc_lose), -1);

    // Bet-fold: player 0 wins regardless of cards.
    let bf = game.apply(&game.apply(&deal(JACK, KING), BET), PASS);
    assert_eq!(game.terminal_utility(&bf), 1);

    // Bet-call: two units at showdown.
    let bc = game.apply(&game.apply(&deal(KING, JACK), BET), BET);
    assert_eq!(game.terminal_utility(&bc), 2);

    // Check-bet-fold: player 0 folded and loses the ante.
    let cbf = game.apply(&game.apply(&game.apply(&deal(KING, JACK), PASS), BET), PASS);
    assert_eq!(game.terminal_utility(&cbf), -1, "folding the best hand still loses");
}
