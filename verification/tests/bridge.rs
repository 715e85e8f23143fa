use poker_core::betting::{Action, LegalActions, Street};
use poker_core::bridge::{
    hero_is_in_position, translate, Decision, History, Reading, SeatReading, Untranslatable,
};
use poker_core::card::{parse_cards, Card};
use poker_core::table::Position;

/// A heads-up street, bet and raised, is counted exactly.
#[test]
fn a_street_is_counted_through_a_raising_war() {
    // Seat 0 is the button and acts last; seat 1 is out of position.
    let flop = |seat: usize, committed: Vec<u64>| Decision {
        hole: parse_two("As Kd"),
        board: parse_cards("Ah 7c 2d").expect("three cards"),
        street: Street::Flop,
        position: Position::Button,
        seat,
        players: 2,
        active: 2,
        pot: 1_000 + committed.iter().sum::<u64>(),
        to_call: committed.iter().copied().max().unwrap_or(0) - committed[seat],
        stack: 9_000,
        stacks: vec![9_000, 9_000],
        committed,
        live: vec![true, true],
        acted: Vec::new(),
        raises: 0,
        settled: None,
        legal: LegalActions {
            can_fold: true,
            can_check: false,
            call_cost: Some(0),
            raise_to: Some((100, 9_000)),
        },
    };

    let mut history = History::new();

    // Out of position, nothing bet: the street has only just opened.
    let mut open = flop(1, vec![0, 0]);
    history.observe(&mut open);
    assert_eq!(open.raises, 0);
    assert_eq!(open.acted, vec![false, false]);

    // It checks to the button, who therefore knows the other has acted.
    let mut checked_to = flop(0, vec![0, 0]);
    history.observe(&mut checked_to);
    assert_eq!(checked_to.raises, 0);
    assert_eq!(checked_to.acted, vec![false, true]);

    // The button bets; the tracker is told, since the bot made the move.
    history.hero_raised_to(500);

    // Back to the other player, facing it.
    let mut facing = flop(1, vec![500, 0]);
    history.observe(&mut facing);
    assert_eq!(facing.raises, 1);
    assert_eq!(facing.acted, vec![true, false]);

    // They raise, which the hero sees only as a larger number on the felt.
    let mut raised_on = flop(0, vec![500, 1_500]);
    history.observe(&mut raised_on);
    assert_eq!(raised_on.raises, 2, "the opponent's raise was not counted");
    assert_eq!(raised_on.acted, vec![false, true]);
}

/// A new street starts the count again.
#[test]
fn the_turn_does_not_inherit_the_flop() {
    let mut history = History::new();
    let mut flop = sample_decision(Street::Flop, 3, vec![0, 800]);
    history.observe(&mut flop);
    assert_eq!(flop.raises, 1);

    let mut turn = sample_decision(Street::Turn, 4, vec![0, 0]);
    history.observe(&mut turn);
    assert_eq!(turn.raises, 0, "the flop's betting followed it to the turn");
}

/// A new hand starts the count again even on the same street.
#[test]
fn a_fresh_hand_is_not_the_last_one_continued() {
    let mut history = History::new();
    let mut first = sample_decision(Street::Flop, 3, vec![0, 800]);
    history.observe(&mut first);
    assert_eq!(first.raises, 1);

    let mut second = sample_decision(Street::Flop, 3, vec![0, 0]);
    second.hole = parse_two("7c 2h");
    history.observe(&mut second);
    assert_eq!(second.raises, 0, "the previous hand's betting carried over");
}

/// Preflop is left as it was found.
#[test]
fn the_blinds_are_not_read_as_betting() {
    let mut history = History::new();
    let mut preflop = sample_decision(Street::Preflop, 0, vec![100, 200]);
    history.observe(&mut preflop);
    assert_eq!(preflop.raises, 0);
    assert!(preflop.acted.is_empty());
}

fn parse_two(text: &str) -> [Card; 2] {
    let cards = parse_cards(text).expect("two cards");
    [cards[0], cards[1]]
}

fn sample_decision(street: Street, board: usize, committed: Vec<u64>) -> Decision {
    let full = parse_cards("Ah 7c 2d 9s 4h").expect("five cards");
    Decision {
        hole: parse_two("As Kd"),
        board: full[..board].to_vec(),
        street,
        position: Position::Button,
        seat: 0,
        players: 2,
        active: 2,
        pot: 1_000,
        to_call: 0,
        stack: 9_000,
        stacks: vec![9_000, 9_000],
        committed,
        live: vec![true, true],
        acted: Vec::new(),
        raises: 0,
        settled: None,
        legal: LegalActions {
            can_fold: true,
            can_check: true,
            call_cost: None,
            raise_to: Some((100, 9_000)),
        },
    }
}

#[test]
fn a_legal_action_set_always_permits_what_it_advertises() {
    let legal = LegalActions {
        can_fold: true,
        can_check: false,
        call_cost: Some(400),
        raise_to: Some((800, 12_000)),
    };
    assert!(legal.permits(Action::Fold));
    assert!(legal.permits(Action::Call));
    assert!(legal.permits(Action::RaiseTo(800)));
    assert!(legal.permits(Action::RaiseTo(12_000)));
    assert!(!legal.permits(Action::RaiseTo(799)));
    assert!(!legal.permits(Action::Check));
}

#[test]
fn every_reason_a_reading_cannot_be_translated_can_be_explained() {
    for reason in [
        Untranslatable::NoHero,
        Untranslatable::NoHoleCards,
        Untranslatable::NoButton,
        Untranslatable::MissingFigure("pot"),
        Untranslatable::ImpossibleBoard(2),
    ] {
        assert!(!reason.explain().is_empty(), "{reason:?}");
    }
}

fn reading() -> Reading {
    let seat = |hero: bool, in_hand: bool, stack: u64, bet: Option<u64>| SeatReading {
        hero,
        in_hand,
        stack: Some(stack),
        bet,
    };
    // Four seats, the button in the third place; the hero is the big blind.
    Reading {
        seats: vec![
            seat(true, true, 9_900, Some(100)),
            seat(false, true, 9_700, Some(300)),
            seat(false, true, 10_000, None),
            seat(false, false, 9_950, Some(50)),
        ],
        hole: parse_cards("As Kd").expect("two cards"),
        board: Vec::new(),
        button: Some(2),
        pot: Some(450),
        to_call: Some(200),
        collected: None,
        active: 3,
        can_raise: true,
    }
}

#[test]
fn seats_are_numbered_from_the_button() {
    let decision = translate(&reading()).expect("a whole reading");
    assert_eq!(decision.seat, 2);
    assert_eq!(decision.position, Position::BigBlind);
    assert_eq!(decision.players, 4);
    assert_eq!(decision.active, 3);
    assert_eq!(decision.stacks, vec![10_000, 9_950, 9_900, 9_700]);
    assert_eq!(decision.committed, vec![0, 50, 100, 300]);
    assert_eq!(decision.live, vec![true, false, true, true]);
    assert_eq!(decision.street, Street::Preflop);
    assert_eq!(decision.to_call, 200);
    assert_eq!(decision.legal.call_cost, Some(200));
    assert_eq!(decision.legal.raise_to, Some((600, 10_000)));
    assert!(!decision.legal.can_check);
    let view = decision.view();
    assert_eq!((view.pot, view.stack, view.big_blind), (450, 9_900, 100));
}

#[test]
fn a_reading_without_its_figures_is_refused() {
    let refused = |reading: Reading| translate(&reading).err();
    assert_eq!(refused(reading()), None);

    let mut blind = reading();
    blind.seats[0].hero = false;
    assert_eq!(refused(blind), Some(Untranslatable::NoHero));
    assert_eq!(
        refused(Reading { hole: Vec::new(), ..reading() }),
        Some(Untranslatable::NoHoleCards)
    );
    assert_eq!(refused(Reading { button: None, ..reading() }), Some(Untranslatable::NoButton));
    assert!(matches!(
        refused(Reading { pot: None, ..reading() }),
        Some(Untranslatable::MissingFigure(_))
    ));
    assert!(matches!(
        refused(Reading { to_call: None, ..reading() }),
        Some(Untranslatable::MissingFigure(_))
    ));
    assert_eq!(
        refused(Reading { board: parse_cards("Ah 7c").expect("two cards"), ..reading() }),
        Some(Untranslatable::ImpossibleBoard(2))
    );
}

#[test]
fn the_last_live_seat_before_the_blinds_acts_last() {
    // The button holds cards, so nobody acts after it.
    let decision = translate(&reading()).expect("a whole reading");
    assert!(!hero_is_in_position(&decision));

    // Moved to the hero's own seat, the button acts last.
    let own = Reading { button: Some(0), ..reading() };
    assert!(hero_is_in_position(&translate(&own).expect("a whole reading")));
}

#[test]
fn a_second_look_at_one_spot_counts_nothing() {
    let mut history = History::new();
    let mut first = sample_decision(Street::Flop, 3, vec![0, 800]);
    history.observe(&mut first);
    let mut again = sample_decision(Street::Flop, 3, vec![0, 800]);
    history.observe(&mut again);
    assert_eq!(again.raises, first.raises);
    assert_eq!(again.acted, first.acted);
}
