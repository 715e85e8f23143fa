use poker_core::betting::{Action, BettingRound, LegalActions, Seat, Street};
use poker_core::blueprint::Blueprint;
use poker_core::bot::{
    actions_at, consult, multiway_action, play, ring_action, rung_for, spot_for, stage_for,
    table_action, Abstract, BlueprintAgent, Drawn, PreflopSizing, Reason, RingDraw, Rung, Source,
    Stage,
};
use poker_core::card::{parse_cards, Card};
use poker_core::charts::Move as ring;
use poker_core::postflop::{Move, Postflop, Sizing};
use poker_core::table::{PlayerView, Position};

fn empty(label: &str) -> Blueprint {
    Blueprint::from_profile(&Vec::new(), label.to_string())
}

fn sizing() -> PreflopSizing {
    PreflopSizing { open_to: 250, three_bet_to: 900, four_bet_to: 2_200 }
}

/// A blueprint with one strategy.
fn solved(label: &str, key: u64, strategy: &[f32]) -> Blueprint {
    let bits = strategy.iter().map(|share| share.to_bits()).collect();
    Blueprint::from_profile(&vec![(key, bits)], label.to_string())
}

fn agent() -> BlueprintAgent {
    BlueprintAgent::new("blueprint".to_string(), empty("preflop/100bb"), sizing())
}

fn hole(text: &str) -> [Card; 2] {
    let cards = parse_cards(text).expect("two cards");
    [cards[0], cards[1]]
}

/// Every move the postflop tree offers must be one the table will accept.
///
/// The tree and the table describe the same game in different languages,
/// and a solved strategy is only worth anything if the translation between
/// them holds. When it does not, the bot does not crash — it names an
/// action the client refuses, falls through to the heuristic, and plays
/// badly while appearing to consult a solve.
///
/// So this plays hands and, at every postflop spot the tree claims to
/// cover, asks it for its whole action list and checks each one against
/// what the table says is legal.
#[test]
fn every_postflop_move_the_tree_offers_is_one_the_table_allows() {
    let game = Postflop::new(12, 100, 400, Sizing::default());
    let board = parse_cards("Ah 7c 2d 9s 4h").expect("five cards");
    let cards = [hole("AsKd"), hole("8c8d")];
    let mut seed = 0xB0A7u64;
    let mut below = move |bound: u64| {
        seed ^= seed >> 12;
        seed ^= seed << 25;
        seed ^= seed >> 27;
        seed.wrapping_mul(0x2545_F491_4F6C_DD1D) % bound
    };

    let mut checked = 0;
    for _ in 0..400 {
        // A single raised pot: each seat has put in 300 before the flop.
        let stacks = [1_000 + below(9_000), 1_000 + below(9_000)];
        let seats = stacks.iter().map(|&stack| Seat::new(stack)).collect();
        let mut round = BettingRound::new(seats, 1, 100);
        let mut street = Street::Flop;
        let mut settled = 600;
        loop {
            let mut raises = 0u8;
            let mut acted = [false; 2];
            while let Some(seat) = round.to_act() {
                let legal = round.legal_actions();
                let wagers: Vec<u64> = round.seats().iter().map(|s| s.committed).collect();
                let behind: Vec<u64> = round.seats().iter().map(|s| s.stack).collect();
                let live = [true; 2];
                let to_call = legal.call_cost.unwrap_or(0);
                let view = PlayerView {
                    hole: cards[seat],
                    board: &board[..street.board_cards()],
                    street,
                    position: if seat == 0 { Position::Button } else { Position::BigBlind },
                    seat,
                    players: 2,
                    active: 2,
                    pot: settled + round.street_total(),
                    to_call,
                    stack: behind[seat],
                    stacks: &behind,
                    committed: &wagers,
                    live: &live,
                    street_committed: &wagers,
                    acted: &acted,
                    raises,
                    settled: Some(settled),
                    big_blind: 100,
                    legal: &legal,
                };
                let spot = spot_for(&view, Some(5)).expect("a heads-up flop is covered");
                assert_eq!(spot.pot, view.pot, "the spot and the table disagree about the pot");
                assert!(spot.bet >= spot.mine);
                assert_eq!(spot.owed().min(spot.behind), view.to_call);
                for chosen in game.moves_at(&spot) {
                    let action = table_action(&view, &game, &spot, chosen);
                    assert!(
                        action.is_some(),
                        "the tree offers {} on the {:?} at {spot:?}, which the table refuses: {legal:?}",
                        chosen.name(),
                        street,
                    );
                }
                checked += 1;

                // Play on, and play widely: the offer is what is under test,
                // and it only varies if the betting does.
                let raise = legal
                    .raise_to
                    .map(|(least, most)| Action::RaiseTo(least + below(most - least + 1)));
                let passive = if legal.can_check { Action::Check } else { Action::Call };
                let action = match below(6) {
                    0 if legal.can_fold => Action::Fold,
                    1 | 2 => raise.unwrap_or(passive),
                    _ => passive,
                };
                if let Action::RaiseTo(_) = action {
                    raises += 1;
                    acted = [false; 2];
                }
                acted[seat] = true;
                round.apply(action).expect("a legal action");
            }
            if round.live_seat_count() < 2 {
                break;
            }
            settled += round.street_total();
            match street.next() {
                Some(next) => street = next,
                None => break,
            }
            round.next_street(1);
        }
    }
    assert!(checked > 100, "only {checked} postflop spots were reached");
}

#[test]
fn a_hand_resets_the_preflop_counter() {
    // Without this, the second hand of a session would be read as though
    // it were already three bets deep.
    let mut bot = agent();
    bot.preflop_decisions = 3;
    bot.new_hand();
    assert_eq!(bot.preflop_decisions, 0);
    assert_eq!(bot.hand, 1);
}

fn preflop_view<'a>(stacks: &'a [u64; 2], legal: &'a LegalActions) -> PlayerView<'a> {
    PlayerView {
        hole: hole("AsKd"),
        board: &[],
        street: Street::Preflop,
        position: Position::Button,
        seat: 0,
        players: 2,
        active: 2,
        pot: 2_000,
        to_call: 500,
        stack: 1_000,
        stacks,
        committed: &[500, 1_000],
        live: &[true, true],
        street_committed: &[500, 1_000],
        acted: &[false, false],
        raises: 0,
        settled: None,
        big_blind: 100,
        legal,
    }
}

#[test]
fn an_all_in_opponent_is_recognised_regardless_of_the_betting_before_it() {
    // The jam stages are keyed off the opponent having nothing behind,
    // which holds however the pot got there.
    let round = BettingRound::new(vec![Seat::new(1_000), Seat::new(0)], 0, 100);
    let legal = round.legal_actions();
    let view = preflop_view(&[1_000, 0], &legal);
    for decisions in 0..4 {
        assert_eq!(stage_for(&view, decisions), Some(Stage::SbVsJam));
    }
}

#[test]
fn stages_follow_the_decisions_of_a_hand() {
    let legal = LegalActions {
        can_fold: true,
        can_check: false,
        call_cost: Some(500),
        raise_to: Some((1_500, 10_000)),
    };
    let view = preflop_view(&[1_000, 1_000], &legal);
    assert_eq!(stage_for(&view, 0), Some(Stage::SbOpen));
    assert_eq!(stage_for(&view, 1), Some(Stage::SbVs3Bet));
    let blind = PlayerView { position: Position::BigBlind, seat: 1, ..view };
    assert_eq!(stage_for(&blind, 0), Some(Stage::BbVsOpen));
    assert_eq!(stage_for(&blind, 1), Some(Stage::BbVs4Bet));
    assert_eq!(stage_for(&PlayerView { active: 3, ..view }, 0), None);
    assert_eq!(
        actions_at(Stage::SbOpen),
        vec![Abstract::Fold, Abstract::Raise, Abstract::Jam]
    );
}

#[test]
fn postflop_spots_fall_through_to_the_heuristic() {
    let round = BettingRound::new(vec![Seat::new(1_000), Seat::new(1_000)], 0, 100);
    let legal = round.legal_actions();
    let board = parse_cards("2c 7d 9h").expect("valid");
    let view = PlayerView {
        board: &board,
        street: Street::Flop,
        pot: 200,
        to_call: 0,
        committed: &[100, 100],
        street_committed: &[100, 100],
        ..preflop_view(&[1_000, 1_000], &legal)
    };
    assert_eq!(stage_for(&view, 0), None, "there is no solved flop yet");
    assert_eq!(consult(&Vec::new(), &view, Some(5)).err(), Some(Reason::NothingLoaded));
}

#[test]
fn raises_come_to_the_solved_sizes_where_the_table_allows_them() {
    let legal = LegalActions {
        can_fold: true,
        can_check: false,
        call_cost: Some(50),
        raise_to: Some((200, 10_000)),
    };
    let view = preflop_view(&[1_000, 1_000], &legal);
    let sizing = sizing();
    assert_eq!(sizing.raise_target(Stage::SbOpen, &view), Some(250));
    assert_eq!(sizing.raise_target(Stage::BbVsOpen, &view), Some(900));
    assert_eq!(sizing.raise_target(Stage::SbVs3Bet, &view), Some(2_200));
    assert_eq!(sizing.raise_target(Stage::SbVsJam, &view), None);
    assert_eq!(
        sizing.concrete(Abstract::Jam, Stage::SbOpen, &view),
        Some(Action::RaiseTo(10_000))
    );
    assert_eq!(sizing.concrete(Abstract::Passive, Stage::SbOpen, &view), Some(Action::Call));
}

#[test]
fn the_nearest_solve_is_consulted() {
    let rung = |spr: f64| Rung {
        spr: spr.to_bits(),
        blueprint: empty("postflop"),
        game: Postflop::for_play(12, 100, (spr * 100.0) as u32, Sizing::default()),
    };
    let rungs = vec![rung(1.5), rung(4.0), rung(12.0)];
    assert_eq!(rung_for(&rungs, 400, 100), Some(1));
    assert_eq!(rung_for(&rungs, 170, 100), Some(0));
    assert_eq!(rung_for(&rungs, 1_000, 100), Some(2));
    assert_eq!(rung_for(&Vec::new(), 400, 100), None);

    let mut bot = agent();
    for spr in [4.0f64, 1.5] {
        let game = Postflop::for_play(12, 100, (spr * 100.0) as u32, Sizing::default());
        bot = bot.with_postflop(spr.to_bits(), empty("postflop"), game);
    }
    assert_eq!(bot.solved_depths(), vec![1.5f64.to_bits(), 4.0f64.to_bits()]);

    // The same in the machine's own double precision, the first of equals.
    let depths = [0.3, 1.1, 1.2, 3.3, 6.0, 9.7, 1e-3, 64.0, 1e300, 5e-324, f64::INFINITY];
    let rungs: Vec<Rung> = depths.iter().map(|&spr| rung(spr)).collect();
    for stack in (0..600).chain([9_007_199_254_740_993, u64::MAX, u64::MAX - 2_048]) {
        for pot in [1, 3, 7, 100, 333, 9_007_199_254_740_991, u64::MAX] {
            let spr = stack as f64 / pot as f64;
            let gap = |rung: f64| (rung / spr).max(spr / rung);
            let nearest = (0..depths.len()).min_by(|&a, &b| gap(depths[a]).total_cmp(&gap(depths[b])));
            assert_eq!(rung_for(&rungs, stack, pot), nearest, "{stack} over {pot}");
        }
    }
}

#[test]
fn a_solved_spot_is_found_and_played() {
    let game = Postflop::for_play(12, 100, 400, Sizing::default());
    let board = parse_cards("2c 7d 9h").expect("valid");
    let legal = LegalActions {
        can_fold: false,
        can_check: true,
        call_cost: None,
        raise_to: Some((100, 800)),
    };
    let view = PlayerView {
        board: &board,
        street: Street::Flop,
        position: Position::BigBlind,
        seat: 1,
        pot: 200,
        to_call: 0,
        stack: 800,
        committed: &[0, 0],
        street_committed: &[0, 0],
        settled: Some(200),
        ..preflop_view(&[800, 800], &legal)
    };
    let spot = spot_for(&view, Some(5)).expect("a flop");
    let moves = game.moves_at(&spot);
    let solved = Blueprint::from_profile(
        &vec![(game.key_at(&spot), vec![1.0f32.to_bits(); moves.len()])],
        "postflop/spr4/b12".to_string(),
    );
    let rungs = vec![Rung { spr: 4.0f64.to_bits(), blueprint: solved, game }];
    let lookup = consult(&rungs, &view, Some(5)).expect("it is solved");
    assert_eq!(lookup.key, game.key_at(&spot));
    assert_eq!(lookup.moves, moves);
    let passive = moves.iter().position(|m| *m == Move::Passive).expect("a check");
    assert_eq!(play(&rungs, &view, &lookup, Some(passive)), Ok(Action::Check));

    // A strength that was never visited, and one that cannot be read.
    assert_eq!(consult(&rungs, &view, Some(6)).err(), Some(Reason::UnknownPrice));
    assert_eq!(
        consult(&rungs, &PlayerView { active: 3, ..view }, Some(5)).err(),
        Some(Reason::TooManyPlayers)
    );
}

const NOTHING: Drawn = Drawn {
    ring: None,
    strength: None,
    postflop: None,
    key: 7,
    preflop: None,
    opening: None,
    betting: None,
};

#[test]
fn a_blueprint_with_nothing_in_it_still_plays() {
    // An empty blueprint means every spot falls back — the bot must play on
    // rather than fail, and the coverage number must say so plainly.
    let mut bot = agent();
    let legal = LegalActions {
        can_fold: true,
        can_check: false,
        call_cost: Some(500),
        raise_to: Some((1_500, 10_000)),
    };
    let view = preflop_view(&[1_000, 1_000], &legal);
    for _ in 0..200 {
        let action = bot.act(&view, &Drawn { opening: Some(1_600), ..NOTHING });
        assert!(legal.permits(action));
    }
    assert_eq!(bot.coverage(), (0, 200), "nothing was ever looked up");
    assert_eq!(bot.fallback_reasons(), vec![(Reason::BeyondTheLadder, 200)]);
}

#[test]
fn a_solved_choice_is_played_and_counted() {
    let blueprint = solved("preflop/100bb", 7, &[0.25, 0.75, 0.0]);
    let mut bot = BlueprintAgent::new("blueprint".to_string(), blueprint, sizing());
    let legal = LegalActions {
        can_fold: true,
        can_check: false,
        call_cost: Some(500),
        raise_to: Some((1_500, 10_000)),
    };
    let view = preflop_view(&[1_000, 1_000], &legal);
    // The first choice of the opening stage is a fold.
    let drawn = Drawn { preflop: Some(0), ..NOTHING };
    assert_eq!(bot.act(&view, &drawn), Action::Fold);
    assert_eq!(bot.coverage(), (1, 1));
    assert!(bot.fallback_reasons().is_empty());
    assert_eq!(bot.preflop_decisions, 1);
    // The second decision of the hand is another stage, whose second choice is
    // a call.
    let drawn = Drawn { preflop: Some(1), ..NOTHING };
    assert_eq!(bot.act(&view, &drawn), Action::Call);
    // Nothing is solved beyond the ladder, nor a hand that the strategy lacks.
    bot.act(&view, &drawn);
    bot.new_hand();
    bot.act(&view, &Drawn { key: 8, ..drawn });
    assert_eq!(bot.fallback_reasons(), vec![(Reason::BeyondTheLadder, 2)]);
}

#[test]
fn a_pot_folded_down_to_two_still_uses_the_tables_own_solve() {
    let bot = agent().with_ring(3, solved("ring3/100bb", 11, &[0.0, 0.5, 0.5, 0.0]));

    // Three seats, the button folded: two live, and the small blind acts.
    let legal = LegalActions {
        can_fold: true,
        can_check: false,
        call_cost: Some(50),
        raise_to: Some((200, 10_000)),
    };
    let view = PlayerView {
        hole: hole("AsAd"),
        board: &[],
        street: Street::Preflop,
        position: Position::SmallBlind,
        seat: 1,
        players: 3,
        active: 2,
        pot: 150,
        to_call: 50,
        stack: 9_950,
        stacks: &[10_000, 9_950, 9_900],
        committed: &[0, 50, 100],
        live: &[false, true, true],
        street_committed: &[0, 50, 100],
        acted: &[false, false, false],
        raises: 0,
        settled: None,
        big_blind: 100,
        legal: &legal,
    };
    assert_eq!(
        bot.ring_for(&view).map(|ring| ring.label()),
        Some("ring3/100bb"),
        "a heads-up pot at a three-handed table is inside the three-handed solve"
    );

    // What was drawn from it is what is played, and counts as solved.
    let mut bot = bot;
    let (solved_before, _) = bot.coverage();
    let moves = vec![ring::Fold, ring::Passive, ring::Raise, ring::Jam];
    let raise = ring_action(&view, &moves, Some(2), Some(250));
    assert_eq!(raise, Some(Action::RaiseTo(250)));
    let spot = RingDraw { key: 11, moves: moves.clone(), place: Some(2), target: Some(250) };
    let drawn = Drawn { ring: Some(spot.clone()), ..NOTHING };
    assert_eq!(bot.act(&view, &drawn), Action::RaiseTo(250));
    assert_eq!(bot.coverage().0, solved_before + 1);

    // A spot that the solve lacks, and a size that the table forbids, go on to
    // what else there is.
    for other in [
        RingDraw { key: 12, ..spot.clone() },
        RingDraw { target: Some(20_000), ..spot },
    ] {
        bot.act(&view, &Drawn { ring: Some(other), ..NOTHING });
        assert_eq!(bot.coverage().0, solved_before + 1);
    }
    assert_eq!(bot.fallback_reasons(), vec![(Reason::BeyondTheLadder, 2)]);

    assert_eq!(ring_action(&view, &moves, Some(1), None), Some(Action::Call));
    assert_eq!(ring_action(&view, &moves, Some(3), Some(20_000)), None, "more than the stack");
    assert_eq!(ring_action(&view, &moves, Some(4), None), None);
    assert_eq!(ring_action(&view, &moves, None, None), None);
}

#[test]
fn a_pot_size_with_no_solve_falls_through_rather_than_borrowing_one() {
    let mut bot = agent().with_ring(3, empty("ring3/100bb"));
    assert_eq!(bot.solved_sizes(), vec![3], "only three-handed is solved");

    // A four-seat game has no strategy here. Reaching for the three-handed
    // one would be answering a different question with confidence.
    let legal = LegalActions {
        can_fold: true,
        can_check: false,
        call_cost: Some(100),
        raise_to: Some((200, 10_000)),
    };
    let view = PlayerView {
        hole: hole("AsAd"),
        board: &[],
        street: Street::Preflop,
        position: Position::Button,
        seat: 0,
        players: 4,
        active: 4,
        pot: 250,
        to_call: 100,
        stack: 10_000,
        stacks: &[10_000; 4],
        committed: &[0, 50, 100, 100],
        live: &[true, true, true, true],
        street_committed: &[0, 50, 100, 100],
        acted: &[false, false, false, false],
        raises: 0,
        settled: None,
        big_blind: 100,
        legal: &legal,
    };
    assert!(bot.ring_for(&view).is_none());
    let (solved_before, _) = bot.coverage();
    bot.act(&view, &NOTHING);
    let (solved_after, total) = bot.coverage();
    assert_eq!(total, 1);
    assert_eq!(
        solved_after, solved_before,
        "a four-seat game must not be answered from a three-handed solve"
    );
}

#[test]
fn a_multiway_move_is_played_where_the_table_allows_it() {
    let legal = LegalActions {
        can_fold: true,
        can_check: false,
        call_cost: Some(100),
        raise_to: Some((200, 10_000)),
    };
    assert_eq!(multiway_action(&legal, 100, ring::Fold, None), Some(Action::Fold));
    assert_eq!(multiway_action(&legal, 100, ring::Passive, None), Some(Action::Call));
    assert_eq!(multiway_action(&legal, 0, ring::Passive, None), None, "nothing to check for");
    assert_eq!(
        multiway_action(&legal, 100, ring::Raise, Some(250)),
        Some(Action::RaiseTo(250))
    );
    assert_eq!(multiway_action(&legal, 100, ring::Jam, Some(10_001)), None);
    assert_eq!(multiway_action(&legal, 100, ring::Jam, None), None);
}

/// A three-handed pot must reach the three-handed solve, not the heuristic.
#[test]
fn a_three_handed_preflop_pot_is_decided_by_the_ring_blueprint() {
    let mut bot = agent().with_ring(3, solved("ring3/100bb", 11, &[0.0, 0.25, 0.75, 0.0]));
    // The button's own spot, stated directly rather than borrowed from an
    // unrelated round: facing the big blind, free to raise up to its stack.
    let legal = LegalActions {
        can_fold: true,
        can_check: false,
        call_cost: Some(100),
        raise_to: Some((200, 10_000)),
    };

    // The button, first to act three-handed, with the blinds posted.
    let view = PlayerView {
        hole: hole("AsAd"),
        board: &[],
        street: Street::Preflop,
        position: Position::Button,
        seat: 0,
        players: 3,
        active: 3,
        pot: 150,
        to_call: 100,
        stack: 10_000,
        stacks: &[10_000, 9_950, 9_900],
        committed: &[0, 50, 100],
        live: &[true, true, true],
        street_committed: &[0, 50, 100],
        acted: &[false, false, false],
        raises: 0,
        settled: None,
        big_blind: 100,
        legal: &legal,
    };
    let moves = vec![ring::Fold, ring::Passive, ring::Raise, ring::Jam];
    let spot = RingDraw { key: 11, moves, place: Some(2), target: Some(250) };
    let drawn = Drawn { ring: Some(spot), ..NOTHING };

    // `coverage` reports (decided by a blueprint, decided at all).
    let (solved_before, _) = bot.coverage();
    let told = bot.decide(&view, &drawn);
    let (solved_after, total) = bot.coverage();
    assert_eq!(total, 1, "one decision was asked for");
    assert_eq!(
        solved_after,
        solved_before + 1,
        "aces on the button should be decided by the three-handed solve, not fall through to the heuristic"
    );
    assert!(legal.permits(told.action), "the solved action must be legal here");
    assert_ne!(told.action, Action::Fold, "aces are not a fold");
    assert_eq!(
        told.source,
        Source::Solve { key: 11, spot: "3-handed preflop".to_string() }
    );
    let names: Vec<&str> = told.frequencies.iter().map(|(name, _)| name.as_str()).collect();
    assert_eq!(names, vec!["fold", "passive", "raise", "jam"]);
}

#[test]
fn a_watcher_sees_what_the_bot_saw_and_why_it_acted() {
    let game = Postflop::for_play(12, 100, 400, Sizing::default());
    let board = parse_cards("2c 7d 9h").expect("valid");
    let legal = LegalActions {
        can_fold: false,
        can_check: true,
        call_cost: None,
        raise_to: Some((100, 800)),
    };
    let view = PlayerView {
        board: &board,
        street: Street::Flop,
        position: Position::BigBlind,
        seat: 1,
        pot: 200,
        to_call: 0,
        stack: 800,
        committed: &[0, 0],
        street_committed: &[0, 0],
        settled: Some(200),
        ..preflop_view(&[800, 800], &legal)
    };
    let spot = spot_for(&view, Some(5)).expect("a flop");
    let key = game.key_at(&spot);
    let moves = game.moves_at(&spot);
    let share = 1.0 / moves.len() as f32;
    let stored = solved("postflop/spr4/b12", key, &vec![share; moves.len()]);
    let mut bot = agent().with_postflop(4.0f64.to_bits(), stored, game);
    bot.new_hand();

    let passive = moves.iter().position(|m| *m == Move::Passive);
    let drawn = Drawn { strength: Some(5), postflop: passive, ..NOTHING };
    let expected = bot.account_of(&view, &drawn);
    let told = bot.decide(&view, &drawn);
    assert_eq!(told, expected, "what is told is known before it is counted");
    assert_eq!(told.hand, 1, "hands are numbered from one");
    assert_eq!(told.hole, view.hole);
    assert_eq!(told.board, board);
    assert_eq!((told.street, told.position), (Street::Flop, Position::BigBlind));
    assert_eq!((told.pot, told.to_call), (200, 0));
    assert_eq!(told.stacks, vec![800, 800]);
    assert_eq!(told.source, Source::Solve { key, spot: "heads-up flop".to_string() });
    assert_eq!(told.action, Action::Check);
    assert_eq!(told.frequencies.len(), moves.len());
    for ((name, word), chosen) in told.frequencies.iter().zip(&moves) {
        assert_eq!(name, chosen.name());
        assert_eq!(f32::from_bits(*word), share);
    }

    // A spot that was never solved says plainly that it was not.
    let told = bot.decide(&view, &Drawn { strength: Some(6), ..drawn });
    assert_eq!(told.source, Source::Fallback { reason: Reason::UnknownPrice });
    assert!(told.frequencies.is_empty());
    assert_eq!(bot.coverage(), (1, 2));
    assert_eq!(bot.fallback_reasons(), vec![(Reason::UnknownPrice, 1)]);
}

#[test]
fn a_blueprint_decision_reports_the_frequencies_it_chose_from() {
    let blueprint = solved("preflop/100bb", 7, &[0.25, 0.5, 0.25]);
    let mut bot = BlueprintAgent::new("blueprint".to_string(), blueprint, sizing());
    let legal = LegalActions {
        can_fold: true,
        can_check: false,
        call_cost: Some(500),
        raise_to: Some((1_500, 10_000)),
    };
    let view = preflop_view(&[1_000, 1_000], &legal);
    let told = bot.decide(&view, &Drawn { preflop: Some(1), ..NOTHING });
    assert_eq!(told.source, Source::Solve { key: 7, spot: "sb-open".to_string() });
    assert_eq!(told.action, Action::RaiseTo(1_500));
    // Without these, a hand folded at its 5% frequency looks like a bug
    // rather than correct play.
    assert!(!told.frequencies.is_empty(), "no frequencies recorded");
    let total: f32 = told.frequencies.iter().map(|(_, word)| f32::from_bits(*word)).sum();
    assert!((total - 1.0).abs() < 1e-5, "frequencies summed to {total}");
    let names: Vec<&str> = told.frequencies.iter().map(|(name, _)| name.as_str()).collect();
    assert_eq!(names, vec!["fold", "raise", "jam"]);
}
