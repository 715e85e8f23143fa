use poker_core::betting::{Action, ActionError, BettingRound, Seat, Street};
use poker_core::pot::{build_pots, total};

const BB: u64 = 2;

/// Heads-up preflop: seat 0 is the small blind and acts first.
fn heads_up(stacks: [u64; 2]) -> BettingRound {
    let seats = stacks.into_iter().map(Seat::new).collect();
    BettingRound::preflop(seats, &[(0, 1), (1, BB)], 0, BB)
}

/// Three-handed preflop: seats 1 and 2 post, seat 0 acts first.
fn three_handed(stacks: [u64; 3]) -> BettingRound {
    let seats = stacks.into_iter().map(Seat::new).collect();
    BettingRound::preflop(seats, &[(1, 1), (2, BB)], 0, BB)
}

fn apply(round: &mut BettingRound, action: Action) {
    round.apply(action).unwrap_or_else(|e| panic!("{action:?} rejected: {e:?}"));
}

#[test]
fn blinds_are_posted_without_counting_as_actions() {
    let round = heads_up([200, 200]);
    assert_eq!(round.current_bet(), BB);
    assert_eq!(round.seats()[0].committed, 1);
    assert_eq!(round.seats()[1].committed, 2);
    assert_eq!(round.street_total(), 3);
    assert!(!round.is_complete());
}

#[test]
fn the_big_blind_keeps_the_option_after_a_call() {
    let mut round = heads_up([200, 200]);
    apply(&mut round, Action::Call); // small blind completes

    // Commitments are level, but the blind was posted, not acted, so the
    // big blind still gets to act.
    assert!(!round.is_complete(), "big blind must still get the option");
    assert_eq!(round.to_act(), Some(1));

    let legal = round.legal_actions();
    assert!(legal.can_check);
    assert!(legal.raise_to.is_some(), "the option includes raising");

    apply(&mut round, Action::Check);
    assert!(round.is_complete());
}

#[test]
fn checking_through_completes_the_round() {
    let seats = vec![Seat::new(200), Seat::new(200)];
    let mut round = BettingRound::new(seats, 0, BB);
    apply(&mut round, Action::Check);
    assert!(!round.is_complete());
    apply(&mut round, Action::Check);
    assert!(round.is_complete());
    assert_eq!(round.street_total(), 0);
}

#[test]
fn a_bet_and_call_completes_the_round() {
    let seats = vec![Seat::new(200), Seat::new(200)];
    let mut round = BettingRound::new(seats, 0, BB);
    apply(&mut round, Action::RaiseTo(10));
    apply(&mut round, Action::Call);

    assert!(round.is_complete());
    assert_eq!(round.street_total(), 20);
    assert_eq!(round.seats()[0].stack, 190);
    assert_eq!(round.seats()[1].stack, 190);
}

#[test]
fn folding_ends_the_hand_when_one_player_remains() {
    let mut round = heads_up([200, 200]);
    apply(&mut round, Action::Fold);
    assert!(round.is_complete());
    assert_eq!(round.live_seat_count(), 1);
    assert_eq!(round.to_act(), None);
}

#[test]
fn a_raise_must_add_at_least_the_previous_increment() {
    let seats = vec![Seat::new(200), Seat::new(200)];
    let mut round = BettingRound::new(seats, 0, BB);
    apply(&mut round, Action::RaiseTo(10)); // bet 10

    // A re-raise must reach at least 20: the raise increment was 10.
    let legal = round.legal_actions();
    assert_eq!(legal.raise_to.expect("raise available").0, 20);
    assert!(round.apply(Action::RaiseTo(15)).is_err(), "15 is a short raise");
    apply(&mut round, Action::RaiseTo(20));
    assert_eq!(round.current_bet(), 20);
}

#[test]
fn the_minimum_raise_grows_with_each_raise() {
    let seats = vec![Seat::new(1000), Seat::new(1000), Seat::new(1000)];
    let mut round = BettingRound::new(seats, 0, BB);
    apply(&mut round, Action::RaiseTo(10)); // increment 10
    apply(&mut round, Action::RaiseTo(40)); // increment 30
    // Next raise must add at least 30, so reach 70.
    assert_eq!(round.legal_actions().raise_to.expect("raise").0, 70);
}

#[test]
fn a_postflop_opening_bet_must_be_at_least_a_big_blind() {
    let seats = vec![Seat::new(200), Seat::new(200)];
    let round = BettingRound::new(seats, 0, BB);
    assert_eq!(round.legal_actions().raise_to.expect("bet available").0, BB);
}

#[test]
fn a_short_stack_may_always_move_all_in() {
    // Seat 1 cannot make a full raise to 20 but may still jam 15.
    let seats = vec![Seat::new(200), Seat::new(15)];
    let mut round = BettingRound::new(seats, 0, BB);
    apply(&mut round, Action::RaiseTo(10));

    let legal = round.legal_actions();
    assert_eq!(legal.raise_to, Some((15, 15)), "all-in is the only raise");
    apply(&mut round, Action::RaiseTo(15));
    assert!(round.seats()[1].is_all_in());
}

#[test]
fn an_all_in_under_raise_does_not_reopen_betting() {
    // Seat 0 bets 100, seat 1 jams 150 — short of the 200 a full raise
    // needs. Seat 0 must call or fold, and may not re-raise.
    let seats = vec![Seat::new(1000), Seat::new(150)];
    let mut round = BettingRound::new(seats, 0, BB);
    apply(&mut round, Action::RaiseTo(100));
    apply(&mut round, Action::RaiseTo(150));

    assert_eq!(round.to_act(), Some(0), "seat 0 still owes the extra 50");
    let legal = round.legal_actions();
    assert_eq!(legal.call_cost, Some(50));
    assert!(legal.can_fold);
    assert_eq!(legal.raise_to, None, "the action was not reopened");
    assert!(round.apply(Action::RaiseTo(300)).is_err());
}

#[test]
fn an_all_in_under_raise_still_leaves_full_rights_to_players_yet_to_act() {
    // Seat 0 bets 100 and seat 1 jams 150 short. Seat 2 has not acted, so
    // seat 2 keeps the right to raise even though seat 0 lost it.
    let seats = vec![Seat::new(1000), Seat::new(150), Seat::new(1000)];
    let mut round = BettingRound::new(seats, 0, BB);
    apply(&mut round, Action::RaiseTo(100));
    apply(&mut round, Action::RaiseTo(150));

    assert_eq!(round.to_act(), Some(2));
    let legal = round.legal_actions();
    assert!(
        legal.raise_to.is_some(),
        "a player who has not acted keeps full rights"
    );

    apply(&mut round, Action::Call);
    // Now back to seat 0, who may only call or fold.
    assert_eq!(round.to_act(), Some(0));
    assert_eq!(round.legal_actions().raise_to, None);
}

#[test]
fn a_full_all_in_raise_does_reopen_betting() {
    // Seat 1 jams to 200, a full raise over the bet of 100.
    let seats = vec![Seat::new(1000), Seat::new(200), Seat::new(1000)];
    let mut round = BettingRound::new(seats, 0, BB);
    apply(&mut round, Action::RaiseTo(100));
    apply(&mut round, Action::RaiseTo(200));

    apply(&mut round, Action::Call); // seat 2 calls
    assert_eq!(round.to_act(), Some(0));
    assert!(
        round.legal_actions().raise_to.is_some(),
        "a full raise reopens the action"
    );
}

#[test]
fn calling_off_a_short_stack_is_an_all_in_call() {
    let seats = vec![Seat::new(1000), Seat::new(40)];
    let mut round = BettingRound::new(seats, 0, BB);
    apply(&mut round, Action::RaiseTo(100));

    assert_eq!(round.legal_actions().call_cost, Some(40), "capped at the stack");
    apply(&mut round, Action::Call);
    assert!(round.seats()[1].is_all_in());
    assert_eq!(round.seats()[1].committed, 40);
    assert!(round.is_complete());
}

#[test]
fn an_all_in_player_is_skipped_on_later_streets() {
    let seats = vec![Seat::new(1000), Seat::new(100), Seat::new(1000)];
    let mut round = BettingRound::new(seats, 0, BB);
    apply(&mut round, Action::RaiseTo(100));
    apply(&mut round, Action::Call); // seat 1 all in
    apply(&mut round, Action::Call);
    assert!(round.is_complete());

    round.next_street(0);
    apply(&mut round, Action::Check);
    assert_eq!(round.to_act(), Some(2), "the all-in seat is skipped");
}

#[test]
fn folding_is_unavailable_when_checking_is_free() {
    let seats = vec![Seat::new(200), Seat::new(200)];
    let round = BettingRound::new(seats, 0, BB);
    let legal = round.legal_actions();
    assert!(legal.can_check);
    assert!(!legal.can_fold, "folding for free is dominated by checking");
}

#[test]
fn next_street_clears_commitments_but_keeps_hand_totals() {
    let seats = vec![Seat::new(200), Seat::new(200)];
    let mut round = BettingRound::new(seats, 0, BB);
    apply(&mut round, Action::RaiseTo(50));
    apply(&mut round, Action::Call);

    round.next_street(0);
    assert_eq!(round.current_bet(), 0);
    assert_eq!(round.street_total(), 0, "street commitments reset");
    assert_eq!(round.contributions(), vec![50, 50], "hand totals persist");
    assert!(round.legal_actions().can_check);
}

#[test]
fn contributions_feed_pot_construction() {
    let seats = vec![Seat::new(1000), Seat::new(50), Seat::new(1000)];
    let mut round = BettingRound::new(seats, 0, BB);
    apply(&mut round, Action::RaiseTo(100));
    apply(&mut round, Action::Call); // seat 1 all in for 50
    apply(&mut round, Action::Fold); // seat 2 folds

    let pots = build_pots(&round.contributions(), &round.folded_flags());
    assert_eq!(total(&pots), round.street_total());
    assert_eq!(round.contributions(), vec![100, 50, 0]);
}

#[test]
fn chips_are_never_created_or_destroyed() {
    let starting = [1000u64, 250, 60];
    let seats = starting.into_iter().map(Seat::new).collect();
    let mut round = BettingRound::new(seats, 0, BB);

    apply(&mut round, Action::RaiseTo(100));
    apply(&mut round, Action::RaiseTo(250)); // seat 1 all in
    apply(&mut round, Action::Call); // seat 2 all in for 60
    apply(&mut round, Action::Call); // seat 0 completes

    let held: u64 = round.seats().iter().map(|s| s.stack).sum();
    assert_eq!(held + round.street_total(), starting.iter().sum::<u64>());
}

#[test]
fn acting_after_the_round_is_rejected() {
    let mut round = heads_up([200, 200]);
    apply(&mut round, Action::Fold);
    assert_eq!(round.apply(Action::Check), Err(ActionError::RoundComplete));
}

#[test]
fn three_handed_action_runs_in_seat_order() {
    let mut round = three_handed([200, 200, 200]);
    assert_eq!(round.to_act(), Some(0));
    apply(&mut round, Action::Call);
    assert_eq!(round.to_act(), Some(1));
    apply(&mut round, Action::Call);
    assert_eq!(round.to_act(), Some(2), "big blind gets the option last");
    apply(&mut round, Action::Check);
    assert!(round.is_complete());
}

#[test]
fn street_metadata_is_consistent() {
    assert_eq!(Street::Preflop.next(), Some(Street::Flop));
    assert_eq!(Street::River.next(), None);
    assert_eq!(Street::Flop.board_cards(), 3);
    assert_eq!(Street::River.board_cards(), 5);
    assert!(Street::Preflop < Street::River);
}

#[test]
fn a_refused_action_is_explained() {
    let seats = vec![Seat::new(200), Seat::new(15)];
    let mut round = BettingRound::new(seats, 0, BB);
    apply(&mut round, Action::RaiseTo(10));
    let error = round.apply(Action::Check).expect_err("a check is not legal");
    assert_eq!(
        error.to_string(),
        "Check is not legal here; permitted: LegalActions { can_fold: true, can_check: false, \
         call_cost: Some(10), raise_to: Some((15, 15)) }"
    );
    assert_eq!(ActionError::RoundComplete.to_string(), "betting round is already complete");
    assert_eq!(Action::RaiseTo(15).to_string(), format!("{:?}", Action::RaiseTo(15)));
    let legal = round.legal_actions();
    assert_eq!(legal.to_string(), format!("{legal:?}"));
}
