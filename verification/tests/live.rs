use poker_core::betting::{Action, Street};
use poker_core::bot::{Reason, Source, Told};
use poker_core::card::{parse_cards, Card};
use poker_core::bridge::{Reading, SeatReading};
use poker_core::table::Position;
use poker_core::live::{
    after_click, amount_took, assess, blinds_text, button_for, choice_of, dialog_is_due,
    frame_name, is_unread, last_resort, next_step, percent_text, raw_frame, record_line, rounded_size, turn_name,
    unread_name, Account, Acting, Choice, Findings, Held, Ledger, Look, Notes, Origin, Review, Safety, Session,
    Sight, Step, Waiting, DEADLINE,
};

/// A hundred big blinds and ten actions.
fn safety() -> Safety {
    Safety { stop_loss_bb: 100.0f64.to_bits(), max_actions: 10 }
}

fn hole(text: &str) -> Vec<Card> {
    parse_cards(text).expect("two cards")
}

/// A hand's result is the stack between one deal and the next.
#[test]
fn the_ledger_counts_a_hand_from_deal_to_deal() {
    let mut ledger = Ledger::new();
    // The first deal has nothing before it to settle.
    assert_eq!(ledger.observe(&hole("As Kd"), Some(10_000)), None);
    // Seeing the same hand again is not a new one.
    assert_eq!(ledger.observe(&hole("As Kd"), Some(9_700)), None);
    // The next deal settles the last: opened at 100, opens now at 96.
    assert_eq!(ledger.observe(&hole("7c 2h"), Some(9_600)), Some(-400));
    // And a winning one.
    assert_eq!(ledger.observe(&hole("Qs Qh"), Some(11_000)), Some(1_400));

    assert_eq!(ledger.tally(), (2, 1_000));
    assert_eq!(ledger.extremes(), (1_400, -400));
    let (net, hands) = ledger.per_hundred().expect("hands were played");
    assert_eq!(net / hands as i128, 50_000, "five hundred big blinds");
}

/// A reading without the hero's cards or stack settles nothing.
#[test]
fn a_reading_that_cannot_be_trusted_is_not_counted() {
    let mut ledger = Ledger::new();
    assert_eq!(ledger.observe(&Vec::new(), None), None);
    assert_eq!(ledger.tally(), (0, 0));
    assert_eq!(ledger.per_hundred(), None);

    // Nor does a hand that is only half read.
    assert_eq!(ledger.observe(&hole("As Kd"), Some(10_000)), None);
    assert_eq!(ledger.observe(&hole("7c 2h"), None), None);
    assert_eq!(ledger.observe(&hole("7c"), Some(9_000)), None);
    assert_eq!(ledger.tally(), (0, 0));
}

#[test]
fn a_session_within_its_limits_is_not_stopped() {
    assert_eq!(safety().breached(false, Some(20_000), Some(15_000), 3), None);
}

#[test]
fn losing_past_the_limit_stops_the_session() {
    // Down exactly the limit counts: the limit is a ceiling on losses, not
    // a level to keep playing at.
    assert_eq!(
        safety().breached(false, Some(20_000), Some(10_000), 3),
        Some(Held::StopLoss)
    );
    assert_eq!(
        safety().breached(false, Some(20_000), Some(9_900), 3),
        Some(Held::StopLoss)
    );
    assert_eq!(safety().breached(false, Some(20_000), Some(10_001), 3), None);
}

#[test]
fn winning_never_stops_the_session() {
    assert_eq!(safety().breached(false, Some(10_000), Some(40_000), 3), None);
}

#[test]
fn the_action_count_stops_the_session_on_its_own() {
    assert_eq!(safety().breached(false, None, None, 10), Some(Held::StopLoss));
    assert_eq!(safety().breached(false, None, None, 9), None);
}

#[test]
fn an_unreadable_stack_does_not_look_like_a_loss() {
    // A refused stack reading must not be mistaken for the stack being
    // zero, which would trip the limit and halt a healthy session.
    assert_eq!(safety().breached(false, Some(20_000), None, 0), None);
    assert_eq!(safety().breached(false, None, Some(5_000), 0), None);
}

#[test]
fn the_kill_switch_stops_everything_regardless() {
    assert_eq!(
        safety().breached(true, Some(10_000), Some(50_000), 0),
        Some(Held::KillSwitch),
        "even a winning session with no actions taken"
    );
}

#[test]
fn every_reason_for_holding_off_can_be_explained() {
    for held in [
        Held::KillSwitch,
        Held::StopLoss,
        Held::NoPicture,
        Held::NotSettled,
        Held::NotOurTurn,
        Held::NotConfident("our two cards"),
        Held::NoSuchButton(Choice::Aggressive { to: 900 }),
        Held::WrongAmount { wanted: 900, showing: Some(9_000) },
        Held::WrongAmount { wanted: 900, showing: None },
        Held::NotAdding,
        Held::NotTaken,
        Held::SatOut,
    ] {
        assert!(!held.explain().is_empty(), "{held:?}");
    }
    assert_eq!(Held::NotConfident("our two cards").explain(), "our two cards did not read");
}

/// A size the client cannot display must not be asked for.
///
/// The field shows one decimal place. Writing 9.25 into it leaves 9.2 or
/// 9.3 showing, the check then disagrees with what was wanted, and a raise
/// that was perfectly fine gets abandoned every time.
#[test]
fn a_raise_size_is_rounded_to_what_the_client_can_show() {
    let round = |v: f64| rounded_size((v * 100.0).round() as u64) as f64 / 100.0;
    assert_eq!(round(9.25), 9.3);
    assert_eq!(round(18.7), 18.7);
    assert_eq!(round(2.0), 2.0);
    assert_eq!(round(0.5), 0.5);
}

#[test]
fn amounts_are_written_with_the_decimals_they_have() {
    assert_eq!(blinds_text(900), "9");
    assert_eq!(blinds_text(930), "9.3");
    assert_eq!(blinds_text(925), "9.25");
    assert_eq!(blinds_text(905), "9.05");
    assert_eq!(blinds_text(0), "0");
}

#[test]
fn a_raise_is_only_pressed_at_the_amount_that_was_wanted() {
    assert_eq!(amount_took(930, Some(930)), Ok(()));
    assert_eq!(
        amount_took(930, Some(9_300)),
        Err(Held::WrongAmount { wanted: 930, showing: Some(9_300) })
    );
    // As the difference comes out in double precision.
    assert_eq!(amount_took(250, Some(255)), Ok(()));
    for wanted in (0u64..3_000).step_by(10).chain([9_007_199_254_740_900, 1_000_000_000_000_000]) {
        for shown in (0..21).map(|k| wanted + k).chain((0..21).map(|k| wanted.saturating_sub(k))) {
            let close = (shown as f64 / 100.0 - wanted as f64 / 100.0).abs() < 0.05;
            assert_eq!(amount_took(wanted, Some(shown)).is_ok(), close, "{shown} for {wanted}");
        }
    }
    assert_eq!(amount_took(0, Some(u64::MAX)).is_ok(), false);
    assert_eq!(amount_took(930, None), Err(Held::WrongAmount { wanted: 930, showing: None }));
}

#[test]
fn a_raise_whose_size_will_not_go_in_becomes_a_call() {
    let mut session = Session::new(safety());
    let raise = Choice::Aggressive { to: 900 };
    assert_eq!(session.carry_out(raise, Ok(())), raise);
    assert_eq!(session.carry_out(Choice::Fold, Err(Held::NoPicture)), Choice::Fold);
    assert_eq!(session.retreats(), (0, None));
    let why = Held::WrongAmount { wanted: 900, showing: None };
    assert_eq!(session.carry_out(raise, Err(why)), Choice::Passive);
    assert_eq!(session.retreats(), (1, Some(why)));
}

fn sight() -> Sight {
    Sight {
        pictured: true,
        kept: false,
        settled: true,
        sat_out: false,
        stopped: false,
        stack: Some(20_000),
        to_act: true,
        missing: None,
        consistent: true,
    }
}

#[test]
fn a_session_counts_its_losses_from_the_first_settled_stack() {
    let mut session = Session::new(safety());
    let moving = Sight { settled: false, stack: Some(50_000), ..sight() };
    assert_eq!(session.assess(&moving), Some(Held::NotSettled));
    assert_eq!(session.started_with, None);
    assert_eq!(session.assess(&sight()), None);
    assert_eq!(session.started_with, Some(20_000));
    let lower = Sight { stack: Some(10_001), ..sight() };
    assert_eq!(session.assess(&lower), None);
    let lost = Sight { stack: Some(10_000), ..sight() };
    assert_eq!(session.assess(&lost), Some(Held::StopLoss));
    assert_eq!(session.started_with, Some(20_000));

    for _ in 0..10 {
        session.note_action();
    }
    assert_eq!(session.actions_taken(), 10);
    assert_eq!(session.assess(&sight()), Some(Held::StopLoss), "as much as it may do");
    assert_eq!(session.assess(&Sight { stopped: true, ..sight() }), Some(Held::KillSwitch));
}

#[test]
fn a_session_counts_what_it_keeps() {
    let mut session = Session::new(safety());
    session.assess(&Sight { kept: true, ..sight() });
    session.assess(&Sight { kept: true, pictured: false, ..sight() });
    assert_eq!(session.frames_kept(), 1);

    for _ in 0..400 {
        assert!(session.note_frame());
        session.note_picture();
    }
    assert!(!session.note_frame(), "lines go on, pictures do not");
    assert_eq!(session.recorded(), (401, 400));
    session.note_turn();
    assert_eq!(session.turns_kept(), 1);
}

#[test]
fn a_choice_needs_its_button() {
    let (fold, call) = (Some((10, 20)), Some((30, 20)));
    assert_eq!(button_for(Choice::Fold, fold, call, None), Ok((10, 20)));
    assert_eq!(button_for(Choice::Passive, fold, call, None), Ok((30, 20)));
    let raise = Choice::Aggressive { to: 500 };
    assert_eq!(button_for(raise, fold, call, None), Err(Held::NoSuchButton(raise)));
}

#[test]
fn a_recorded_reading_is_a_line() {
    let notes = Notes { asking: true, refusals: 2, occupied: 3 };
    assert_eq!(
        record_line(7, None, &notes, Some(Held::NoPicture)),
        "00007 -- no reading -- the window could not be captured\n"
    );
    let seat = |hero, in_hand, stack, bet| SeatReading { hero, in_hand, stack, bet };
    let reading = Reading {
        seats: vec![
            seat(true, true, Some(9_850), Some(150)),
            seat(false, false, None, None),
            seat(false, true, Some(10_000), Some(100)),
        ],
        hole: hole("As Kd"),
        board: parse_cards("Ah 7c 2d").expect("a flop"),
        button: Some(2),
        pot: Some(250),
        to_call: Some(0),
        collected: None,
        active: 2,
        can_raise: true,
    };
    assert_eq!(
        record_line(123_456, Some(&reading), &notes, None),
        "123456 pot 2.5 coll - board [Ah 7c 2d] hole [As Kd] button 2 act yes refused 2 live 2/3 \
         | *c98.5/1.5 -?/- c100/1 | ACTIONABLE\n"
    );
    assert_eq!(frame_name(42), "frame-00042.png");
    assert_eq!(turn_name(3, 3, 7), "turn-0003-3of7.png");
    assert_eq!(unread_name(12, 5), "unread-0012-5.rgb");
}

#[test]
fn the_last_resort_never_pays() {
    assert_eq!(last_resort(Some(0)), Choice::Passive);
    assert_eq!(last_resort(Some(50)), Choice::Fold);
    assert_eq!(last_resort(None), Choice::Fold);
}

fn look() -> Look {
    Look { seen: true, held: None, to_act: true, to_call: Some(200), decided: Some(Choice::Passive) }
}

#[test]
fn watching_presses_nothing() {
    assert_eq!(next_step(Acting::Never, &look(), None, 0), (Step::Wait, None));
    let sat_out = Look { held: Some(Held::SatOut), ..look() };
    assert_eq!(next_step(Acting::Never, &sat_out, Some(0), 60_000).0, Step::Wait);
    assert_eq!(next_step(Acting::Play, &sat_out, Some(0), 100).0, Step::SitIn);
}

#[test]
fn a_trusted_turn_is_played_and_an_untrusted_one_waits_for_the_clock() {
    assert_eq!(next_step(Acting::Play, &look(), Some(3), 9), (Step::Act(Choice::Passive), None));
    assert_eq!(next_step(Acting::FoldOnly, &look(), Some(3), 9), (Step::Act(Choice::Fold), None));

    let doubtful = Look { held: Some(Held::NotSettled), ..look() };
    let (step, since) = next_step(Acting::Play, &doubtful, None, 1_000);
    assert_eq!((step, since), (Step::Wait, Some(1_000)));
    let (step, since) = next_step(Acting::Play, &doubtful, since, 1_000 + DEADLINE - 1);
    assert_eq!((step, since), (Step::Wait, Some(1_000)));
    let (step, since) = next_step(Acting::Play, &doubtful, since, 1_000 + DEADLINE);
    assert_eq!((step, since), (Step::Force(Choice::Fold), None));
    let free = Look { to_call: Some(0), ..doubtful };
    assert_eq!(
        next_step(Acting::Play, &free, Some(0), DEADLINE).0,
        Step::Force(Choice::Passive)
    );

    // Nobody is asking, so no clock runs.
    let idle = Look { to_act: false, ..doubtful };
    assert_eq!(next_step(Acting::Play, &idle, Some(0), DEADLINE), (Step::Wait, None));
}

#[test]
fn a_breach_ends_the_session() {
    for held in [Held::KillSwitch, Held::StopLoss] {
        let stopped = Look {
            seen: false,
            held: Some(held),
            to_act: false,
            to_call: None,
            decided: None,
        };
        assert_eq!(next_step(Acting::Play, &stopped, None, 5), (Step::Stop(held), None));
    }
}

#[test]
fn the_ways_of_acting_are_named() {
    assert_eq!(Acting::parse("off"), Some(Acting::Never));
    assert_eq!(Acting::parse("fold"), Some(Acting::FoldOnly));
    assert_eq!(Acting::parse("play"), Some(Acting::Play));
    assert_eq!(Acting::parse("Play"), None);
    assert_eq!(choice_of(Action::Check), Choice::Passive);
    assert_eq!(choice_of(Action::Call), Choice::Passive);
    assert_eq!(choice_of(Action::RaiseTo(700)), Choice::Aggressive { to: 700 });
    assert_eq!(choice_of(Action::Fold).name(), "fold");
}

#[test]
fn a_click_is_watched_until_it_takes() {
    assert_eq!(after_click(Some(false), 0), Waiting::Taken);
    assert_eq!(after_click(Some(true), 0), Waiting::Again);
    assert_eq!(after_click(None, 0), Waiting::Again);
    assert_eq!(after_click(Some(true), 10_000), Waiting::Abandoned);
}

#[test]
fn dialogs_are_looked_for_every_other_second() {
    assert!(dialog_is_due(None));
    assert!(!dialog_is_due(Some(1_999)));
    assert!(dialog_is_due(Some(2_000)));
}

#[test]
fn a_hand_without_its_two_cards_is_unread() {
    assert!(is_unread(true, 0));
    assert!(is_unread(true, 1));
    assert!(!is_unread(true, 2));
    assert!(!is_unread(false, 0));
}

#[test]
fn a_picture_is_refused_for_the_first_thing_wrong_with_it() {
    let good = Findings {
        pictured: true,
        settled: true,
        sat_out: false,
        breach: None,
        to_act: true,
        missing: None,
        consistent: true,
    };
    assert_eq!(assess(&good), None);
    assert_eq!(assess(&Findings { pictured: false, ..good }), Some(Held::NoPicture));
    assert_eq!(
        assess(&Findings { pictured: false, sat_out: true, ..good }),
        Some(Held::SatOut)
    );
    assert_eq!(assess(&Findings { settled: false, ..good }), Some(Held::NotSettled));
    assert_eq!(
        assess(&Findings { breach: Some(Held::StopLoss), to_act: false, ..good }),
        Some(Held::StopLoss)
    );
    assert_eq!(assess(&Findings { to_act: false, ..good }), Some(Held::NotOurTurn));
    assert_eq!(
        assess(&Findings { missing: Some("the pot"), consistent: false, ..good }),
        Some(Held::NotConfident("the pot"))
    );
    assert_eq!(assess(&Findings { consistent: false, ..good }), Some(Held::NotAdding));
}

#[test]
fn a_review_counts_hands_and_who_decided() {
    let mut review = Review::new();
    assert_eq!(review.note_result(100), None);
    let solve = Origin::Solve { spot: "BTN open".to_string() };
    let fallback = Origin::Fallback { reason: "no solve".to_string() };
    let shown = review.on_decision(&account("As Kd", "", solve.clone()));
    assert_eq!(
        shown,
        "\nHAND 1  As Kd\n  preflop  board -              pot    1.5  to call   1.0\n           \
         BTN open\n           fold 0%  raise 100%\n           => RaiseTo(250)\n"
    );
    let shown = review.on_decision(&account("As Kd", "Ah 7c 2d", fallback));
    assert_eq!(
        shown,
        "  flop     board Ah 7c 2d       pot    1.5  to call   1.0\n           \
         HEURISTIC - no solve\n           fold 0%  raise 100%\n           => RaiseTo(250)\n"
    );
    assert_eq!(review.note_result(-1205).as_deref(), Some("  result   -12.05 bb\n"));
    assert_eq!(review.note_result(0).as_deref(), Some("  result   +0.00 bb\n"));
    let shown = review.on_decision(&account("7c 2h", "", solve));
    assert!(shown.starts_with("\nHAND 2  7c 2h\n"));
    assert_eq!(review.hands(), 2);
    assert_eq!(review.coverage(), (2, 3));
    assert_eq!(review.tally(), (2, 3, 2));
}

#[test]
fn a_review_is_written_from_what_is_told() {
    let cards = parse_cards("As Kd").expect("two cards");
    let told = Told {
        hand: 3,
        hole: [cards[0], cards[1]],
        board: parse_cards("Ah 7c 2d").expect("a board"),
        street: Street::Flop,
        position: Position::Button,
        pot: 150,
        to_call: 100,
        stacks: vec![9_000, 9_000],
        source: Source::Fallback { reason: Reason::NothingLoaded },
        frequencies: Vec::new(),
        action: Action::Call,
    };
    let account = Account::of(&told);
    assert_eq!(
        account.to_string(),
        "  flop     board Ah 7c 2d       pot    1.5  to call   1.0\n           \
         HEURISTIC - no postflop solve loaded\n           \n           => Call\n"
    );
    let source = Source::Solve { key: 9, spot: "heads-up flop".to_string() };
    let frequencies = vec![
        ("fold".to_string(), 0.4f32.to_bits()),
        ("bet small".to_string(), 0.6f32.to_bits()),
    ];
    let told = Told { source, frequencies, ..told };
    let account = Account::of(&told);
    assert_eq!(account.origin, Origin::Solve { spot: "heads-up flop".to_string() });
    assert!(account.to_string().contains("\n           fold 40%  bet small 60%\n"));
}

fn account(hole: &str, board: &str, origin: Origin) -> Account {
    let cards = parse_cards(hole).expect("two cards");
    let board = parse_cards(board).expect("a board");
    Account {
        hole: [cards[0], cards[1]],
        street: if board.is_empty() { Street::Preflop } else { Street::Flop },
        board,
        pot: 150,
        to_call: 100,
        origin,
        frequencies: vec![
            ("fold".to_string(), 0.0f32.to_bits()),
            ("raise".to_string(), 1.0f32.to_bits()),
        ],
        action: Action::RaiseTo(250),
    }
}

#[test]
fn a_kept_picture_says_its_size_first() {
    assert_eq!(raw_frame(1, 258, &[9, 8, 7]), vec![1, 0, 0, 0, 2, 1, 0, 0, 9, 8, 7]);
}

#[test]
fn a_review_shows_amounts_and_shares_as_the_machine_does() {
    let solve = Origin::Solve { spot: "s".to_string() };
    for chips in (0..3_000).chain([9_007_199_254_740_993, 123_456_789_012_345_675, u64::MAX]) {
        let account = Account { pot: chips, ..account("As Kd", "", solve.clone()) };
        let pot = format!(" pot {:>6.1}  to call ", chips as f64 / 100.0);
        assert!(account.to_string().contains(&pot), "{chips}: {pot}");
    }
    for share in [
        0.0f32, -0.0, 0.005, 0.015, 0.025, 0.125, 0.3333, 0.5, 0.995, 1.0, 1e-30, 1e-45, 7.5, 16777216.0, 1e10,
        3.4e38, -0.25, f32::INFINITY, f32::NEG_INFINITY, f32::NAN,
    ] {
        let expected = format!("{:.0}", share as f64 * 100.0);
        assert_eq!(percent_text(share.to_bits()), expected, "{share}");
    }
    for share in (0..=2_000).map(|k| k as f32 / 2_000.0) {
        assert_eq!(percent_text(share.to_bits()), format!("{:.0}", share as f64 * 100.0));
    }
}

#[test]
fn a_loss_is_worked_out_as_the_machine_does() {
    let limits = [0.0, -0.0, 0.1, 0.3, 1.0, 20.0, 200.0, -0.5, -3.0, f64::INFINITY, f64::NEG_INFINITY, f64::NAN];
    for limit in limits {
        let safety = Safety { stop_loss_bb: f64::to_bits(limit), max_actions: 1 };
        for started in (0u64..400).chain((20_000..60_000).step_by(10)).chain([1 << 52, u64::MAX]) {
            for lost in [-30i64, -1, 0, 1, 9, 10, 11, 30, 31, 100, 2_000, 20_000] {
                let Some(now) = started.checked_add_signed(-lost) else { continue };
                let blinds = |chips: u64| -> f64 {
                    format!("{}.{:02}", chips / 100, chips % 100).parse().expect("a number")
                };
                let held = (blinds(started) - blinds(now) >= limit).then_some(Held::StopLoss);
                assert_eq!(
                    safety.breached(false, Some(started), Some(now), 0),
                    held,
                    "from {started} to {now} with {limit}"
                );
            }
        }
    }
    // A session down by what looks like the limit may be a hair short of it.
    let safety = Safety { stop_loss_bb: 200.0f64.to_bits(), max_actions: 1 };
    assert_eq!(safety.breached(false, Some(25_640), Some(5_640), 0), None);
    assert_eq!(Safety::default().stop_loss_bb, 200.0f64.to_bits());
}

#[test]
fn sizes_and_amounts_of_any_size_are_the_machines() {
    let mut amounts: Vec<u64> = (0..5_000).collect();
    for power in 40..64 {
        for step in 0..200u64 {
            amounts.push((1u64 << power) + step);
            amounts.push((1u64 << power) + step * 7_919 * ((1 << power) / 10_000_000));
            amounts.push((1u64 << power) - step);
            let blinds = ((1u128 << power) * 100 + 25 * step as u128).min(u64::MAX as u128);
            amounts.push(blinds as u64);
        }
    }
    amounts.push(u64::MAX);
    for chips in amounts {
        let read: f64 = format!("{}.{:02}", chips / 100, chips % 100).parse().expect("a number");
        assert_eq!(blinds_text(chips), format!("{read}"), "{chips} chips");
        if chips <= u64::MAX - 0x3000 {
            let tenths = (chips as f64 / 100.0 * 10.0).round() as u64;
            assert_eq!(rounded_size(chips), tenths * 10, "{chips} chips");
        }
    }
}
