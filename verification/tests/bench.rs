use poker_core::abstraction::HandClass;
use poker_core::bench::{
    credit, AlwaysCall, AlwaysFold, AlwaysJam, ChartBot, MatchReport, RingReport,
};
use poker_core::betting::{Action, LegalActions, Street};
use poker_core::card::{parse_cards, Card};
use poker_core::eval::Category;
use poker_core::table::{PlayerView, Position};

#[test]
fn chen_scores_sort_hands_the_way_players_do() {
    let score = |text: &str| ChartBot::chen_score(HandClass::from_str(text).expect("valid class"));

    // The canonical values from the formula.
    assert_eq!(score("AA"), 20);
    assert_eq!(score("KK"), 16);
    assert_eq!(score("QQ"), 14);
    assert_eq!(score("AKs"), 12);
    assert_eq!(score("22"), 5, "the minimum for a pair");

    // Ordering, which is what actually gets used.
    assert!(score("AA") > score("KK"));
    assert!(score("AKs") > score("AKo"));
    assert!(score("AKo") > score("A2o"));
    assert!(score("JTs") > score("J2s"), "gaps cost");
    assert!(score("72o") < 0, "the worst hand in poker scores badly");
}

fn facing(call_cost: Option<u64>, raise_to: Option<(u64, u64)>) -> LegalActions {
    LegalActions { can_fold: call_cost.is_some(), can_check: call_cost.is_none(), call_cost, raise_to }
}

#[test]
fn simple_opponents_do_one_thing() {
    let bet = facing(Some(100), Some((200, 10_000)));
    let free = facing(None, Some((100, 10_000)));
    let closed = facing(Some(100), None);

    assert_eq!(AlwaysFold.act(&bet), Action::Fold);
    assert_eq!(AlwaysFold.act(&free), Action::Check, "there is nothing to fold to");
    assert_eq!(AlwaysCall.act(&bet), Action::Call);
    assert_eq!(AlwaysCall.act(&free), Action::Check);
    assert_eq!(AlwaysJam.act(&bet), Action::RaiseTo(10_000));
    assert_eq!(AlwaysJam.act(&free), Action::RaiseTo(10_000));
    assert_eq!(AlwaysJam.act(&closed), Action::Call);
    let names = [AlwaysFold.name(), AlwaysCall.name(), AlwaysJam.name(), ChartBot::default().name()];
    assert_eq!(names.len(), 4);
}

fn view<'a>(hole: &str, board: &'a [Card], legal: &'a LegalActions, to_call: u64) -> PlayerView<'a> {
    let hole = parse_cards(hole).expect("two cards");
    PlayerView {
        hole: [hole[0], hole[1]],
        board,
        street: if board.is_empty() { Street::Preflop } else { Street::Flop },
        position: Position::Button,
        seat: 0,
        players: 2,
        active: 2,
        pot: 300,
        to_call,
        stack: 9_900,
        stacks: &[9_900, 9_800],
        committed: &[100, 200],
        live: &[true, true],
        street_committed: &[100, 200],
        acted: &[false, true],
        raises: 0,
        settled: None,
        big_blind: 100,
        legal,
    }
}

#[test]
fn the_chart_bot_enters_with_good_hands_only() {
    let bot = ChartBot::default();
    let bet = facing(Some(100), Some((200, 10_000)));
    assert_eq!(bot.act(&view("AsAd", &[], &bet, 100), Some(300), None), Action::Call);
    assert_eq!(bot.act(&view("7c2d", &[], &bet, 100), Some(300), None), Action::Fold);

    let free = facing(None, Some((100, 10_000)));
    assert_eq!(bot.act(&view("AsAd", &[], &free, 0), Some(300), None), Action::RaiseTo(300));
    assert_eq!(bot.act(&view("7c2d", &[], &free, 0), Some(300), None), Action::Check);
}

#[test]
fn the_chart_bot_bets_made_hands() {
    let bot = ChartBot::default();
    let board = parse_cards("Ah 7c 2d").expect("a flop");
    let free = facing(None, Some((100, 10_000)));
    let bet = facing(Some(100), Some((200, 10_000)));
    assert_eq!(bot.act(&view("AsKd", &board, &free, 0), None, Some(198)), Action::RaiseTo(198));
    assert_eq!(bot.act(&view("QsKd", &board, &free, 0), None, Some(198)), Action::Check);
    assert_eq!(bot.act(&view("AsKd", &board, &bet, 100), None, Some(198)), Action::Call);
    assert_eq!(bot.act(&view("QsKd", &board, &bet, 100), None, Some(198)), Action::Fold);
    let hole = parse_cards("7h7d").expect("two cards");
    assert_eq!(ChartBot::made_hand(&[hole[0], hole[1]], &board), Category::ThreeOfAKind);
}

#[test]
fn a_result_goes_to_the_agent_that_sat_there() {
    let mut totals = vec![0i64; 3];
    credit(&mut totals, &[30, -10, -20], 0);
    credit(&mut totals, &[30, -10, -20], 1);
    assert_eq!(totals, vec![10, 20, -30]);
    credit(&mut totals, &[30, -10, -20], 2);
    assert_eq!(totals, vec![0, 0, 0], "every agent has sat in every seat");
}

fn report(results: &[i64]) -> MatchReport {
    let mut report = MatchReport::new("hero".to_string(), "villain".to_string());
    for &net in results {
        report.note_pair(net, 0, 1);
    }
    report
}

/// The mean of results and 1.96 of its standard errors.
fn interval(results: &[i64]) -> (f64, f64) {
    let count = results.len() as f64;
    let mean = results.iter().map(|&x| x as f64).sum::<f64>() / count;
    let variance = if results.len() > 1 {
        results.iter().map(|&x| (x as f64 - mean).powi(2)).sum::<f64>() / (count - 1.0)
    } else {
        0.0
    };
    (mean, 1.96 * (variance / count).sqrt())
}

#[test]
fn an_edge_is_told_from_luck_by_its_error() {
    let mut seed = 0x2545_F491_4F6C_DD1Du64;
    let mut next = move || {
        seed ^= seed >> 12;
        seed ^= seed << 25;
        seed ^= seed >> 27;
        seed.wrapping_mul(0x2545_F491_4F6C_DD1D)
    };
    let (mut won, mut lost, mut neither) = (0, 0, 0);
    for round in 0..300 {
        let count = 1 + (next() % 40) as usize;
        let drift = (round % 7) as i64 * 60 - 180;
        let results: Vec<i64> =
            (0..count).map(|_| (next() % 1_001) as i64 - 500 + drift).collect();
        let report = report(&results);
        let (mean, error) = interval(&results);
        assert_eq!(report.is_significant(), mean.abs() > error, "{results:?}");
        assert_eq!(report.first_agent_wins(), mean - error > 0.0, "{results:?}");
        if report.first_agent_wins() {
            won += 1;
        } else if report.is_significant() {
            lost += 1;
        } else {
            neither += 1;
        }
        let (chips, over) = report.per_hundred();
        assert!((chips as f64 / over as f64 - mean * 50.0).abs() < 1e-6);
    }
    assert!(won > 20 && lost > 20 && neither > 20, "{won} {lost} {neither}");
}

#[test]
fn a_pair_counts_both_of_its_hands() {
    let mut report = MatchReport::new("hero".to_string(), "villain".to_string());
    report.note_pair(300, -100, 2);
    report.note_pair(-50, 50, 0);
    assert_eq!(report.hands(), 4);
    assert_eq!(report.total, 200);
    assert_eq!(report.squares, 40_000);
    assert_eq!(report.showdowns, 2);
    assert_eq!(report.per_hundred(), (10_000, 2));
}

#[test]
fn agents_that_play_alike_have_no_edge() {
    let report = report(&[0; 50]);
    assert!(!report.is_significant());
    assert!(!report.first_agent_wins());
}

#[test]
fn a_steady_edge_is_never_luck() {
    assert!(report(&[1; 50]).first_agent_wins());
    assert!(report(&[-1; 50]).is_significant());
    assert!(!report(&[-1; 50]).first_agent_wins());
}

#[test]
fn the_seating_moves_on_with_every_hand() {
    let names = ["a", "b", "c"].iter().map(|n| n.to_string()).collect();
    let mut report = RingReport::new(names);
    for hand in 0..4 {
        report.note_hand(&[30, -10, -20], hand % 2 == 0);
    }
    assert_eq!(report.hands, 4);
    assert_eq!(report.showdowns, 2);
    assert_eq!(report.rotations, 1);
    assert_eq!(report.totals, vec![30, -10, -20], "three hands cancel out");
}
