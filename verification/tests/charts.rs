use poker_core::betting::{LegalActions, Street};
use poker_core::card::parse_cards;
use poker_core::charts::{
    chart_file, looks_exported, seat_position, spot_of, Chart, Charts, Move, Seat, Spot,
};
use poker_core::table::{PlayerView, Position};

/// The seat numbers run one way round the table and the position names run
/// the other, so this is the join between them and worth pinning exactly.
#[test]
fn positions_are_named_by_distance_from_the_button() {
    let named = |seat, players| seat_position(seat, players).expect("a seat");

    // Six-handed, where the names came from: one seat each.
    assert_eq!(named(0, 6), Seat::Btn);
    assert_eq!(named(1, 6), Seat::Sb);
    assert_eq!(named(2, 6), Seat::Bb);
    assert_eq!(named(3, 6), Seat::Utg);
    assert_eq!(named(4, 6), Seat::Hj);
    assert_eq!(named(5, 6), Seat::Co);

    // Seven-handed, which is what the club deals. The blinds and the three
    // seats before the button keep their exact meaning; the extra seat
    // lands on under-the-gun alongside the real one, which is the agreed
    // simplification.
    assert_eq!(named(0, 7), Seat::Btn);
    assert_eq!(named(1, 7), Seat::Sb);
    assert_eq!(named(2, 7), Seat::Bb);
    assert_eq!(named(3, 7), Seat::Utg, "under the gun");
    assert_eq!(named(4, 7), Seat::Utg, "and the seat after it, folded in");
    assert_eq!(named(5, 7), Seat::Hj);
    assert_eq!(named(6, 7), Seat::Co);

    // Nine-handed, which the client prefers: four early seats collapse.
    assert_eq!(named(6, 9), Seat::Utg);
    assert_eq!(named(7, 9), Seat::Hj);
    assert_eq!(named(8, 9), Seat::Co);

    assert_eq!(seat_position(6, 6), None, "no such seat");
}

/// Four-handed the cutoff and hijack would land on seats already spoken
/// for, since there are not enough seats to go round. The blinds and the
/// button must win those collisions, or a chart written for the small blind
/// would be played on the button.
///
/// Under the gun is the deliberate exception: it is the bucket every early
/// seat collapses into, so it may name several at once.
#[test]
fn only_under_the_gun_may_name_more_than_one_seat() {
    for players in 2..=9 {
        let mut seen = Vec::new();
        for seat in 0..players {
            let named = seat_position(seat, players).expect("a seat");
            assert!(
                named == Seat::Utg || !seen.contains(&named),
                "{named:?} named twice at {players} players"
            );
            seen.push(named);
        }
        // However few seats there are, the blinds and the button are the
        // ones that must survive: those are the spots whose charts differ
        // most from each other.
        for (seat, expected) in [(0, Seat::Btn), (1, Seat::Sb), (2, Seat::Bb)] {
            if seat < players {
                assert_eq!(seat_position(seat, players), Some(expected));
            }
        }
    }
}

/// A limp is money nobody was forced to put in, and the blinds were.
///
/// A small blind that limped must not look like one that has merely posted: the
/// big blind behind it would then be given an opening chart for a pot that it
/// could check into for free.
#[test]
fn a_limp_means_the_pot_is_no_longer_unopened() {
    let hole = parse_cards("AhJc").expect("two cards");
    let legal = LegalActions {
        can_fold: true,
        can_check: true,
        call_cost: None,
        raise_to: Some((200, 10_000)),
    };
    let stacks = [10_000u64; 6];
    let live = [true; 6];
    let acted = [false; 6];
    // Six-handed, hero in the big blind, everyone folded round to the
    // small blind. Nothing out there but the two blinds.
    let blinds_only = [0, 50, 100, 0, 0, 0];
    let base = PlayerView {
        hole: [hole[0], hole[1]],
        board: &[],
        street: Street::Preflop,
        position: Position::BigBlind,
        seat: 2,
        players: 6,
        active: 2,
        pot: 150,
        to_call: 0,
        stack: 9_900,
        stacks: &stacks,
        committed: &blinds_only,
        live: &live,
        street_committed: &blinds_only,
        acted: &acted,
        raises: 0,
        settled: None,
        big_blind: 100,
        legal: &legal,
    };
    assert_eq!(
        spot_of(&base).map(|spot| spot.name()),
        Some("bb".to_string()),
        "blinds alone leave the pot unopened"
    );

    // Now the small blind completes. That is a limp, and no chart here
    // covers a limped pot.
    let limped = [0, 100, 100, 0, 0, 0];
    assert!(
        spot_of(&PlayerView {
            committed: &limped,
            street_committed: &limped,
            ..base
        })
        .is_none(),
        "a completed small blind is a limp"
    );

    // And so is a limp from a seat with no blind to post.
    let open_limp = [0, 50, 100, 0, 0, 100];
    assert!(spot_of(&PlayerView {
        committed: &open_limp,
        street_committed: &open_limp,
        ..base
    })
    .is_none());
}

/// Facing a raise, the chart is chosen by who raised, read off the table.
#[test]
fn the_raiser_is_found_by_who_has_put_in_the_most() {
    let hole = parse_cards("AhJc").expect("two cards");
    let legal = LegalActions {
        can_fold: true,
        can_check: false,
        call_cost: Some(150),
        raise_to: Some((450, 10_000)),
    };
    let stacks = [10_000u64; 6];
    // Six-handed, hero on the button, the cutoff has opened to 250.
    let committed = [0, 50, 100, 0, 0, 250];
    let live = [true, true, true, false, false, true];
    let acted = [false, false, false, true, true, true];
    let view = PlayerView {
        hole: [hole[0], hole[1]],
        board: &[],
        street: Street::Preflop,
        position: Position::Button,
        seat: 0,
        players: 6,
        active: 4,
        pot: 400,
        to_call: 250,
        stack: 10_000,
        stacks: &stacks,
        committed: &committed,
        live: &live,
        street_committed: &committed,
        acted: &acted,
        raises: 1,
        settled: None,
        big_blind: 100,
        legal: &legal,
    };
    assert_eq!(
        spot_of(&view).map(|spot| spot.name()),
        Some("btn-vs-co".to_string())
    );
}

#[test]
fn spot_names_round_trip() {
    for name in ["utg", "btn", "sb-vs-utg", "bb-vs-btn", "co-vs-hj"] {
        let spot = Spot::from_name(name).expect("a spot");
        assert_eq!(spot.name(), name);
    }
    assert!(Spot::from_name("mp").is_none(), "not a position we chart");
    assert!(Spot::from_name("utg-vs-mp").is_none());
}

/// Which single-range charts are finished and which are not.
///
/// The distinction is not obvious and this had it backwards at first:
/// three-bet-or-fold is the equilibrium from every position but the big
/// blind, so a lone three-betting range is a complete strategy nearly
/// everywhere. The big blind is where a missing calling range really costs
/// something, because that is how the big blind mostly defends.
#[test]
fn only_the_big_blind_needs_a_calling_range() {
    let mut charts = Charts::new();
    charts.insert(
        Spot::from_name("utg").expect("a spot"),
        Chart::default().with(Move::Raise, "22+"),
    );
    assert!(
        charts.gaps().is_empty(),
        "raise or fold is the whole strategy in an unopened pot"
    );

    // A lone three-betting range on the button. This is what the exports
    // actually hold, and it is finished: there is no calling range in the
    // solution to be missing.
    charts.insert(
        Spot::from_name("btn-vs-co").expect("a spot"),
        Chart::default().with(Move::Raise, "QQ+, AKs"),
    );
    assert!(
        charts.gaps().is_empty(),
        "three-bet-or-fold is the strategy outside the big blind: {:?}",
        charts.gaps()
    );

    // A lone calling range is a gap anywhere, since the three-bets vanish.
    charts.insert(
        Spot::from_name("co-vs-utg").expect("a spot"),
        Chart::default().with(Move::Passive, "22+"),
    );
    let gaps = charts.gaps();
    assert_eq!(gaps.len(), 1, "{gaps:?}");
    assert!(gaps[0].contains("co-vs-utg"), "{}", gaps[0]);

    // The big blind is the one seat that needs both, because calling is
    // most of how it defends.
    charts.insert(
        Spot::from_name("bb-vs-btn").expect("a spot"),
        Chart::default().with(Move::Raise, "QQ+, AKs"),
    );
    let gaps = charts.gaps();
    assert_eq!(gaps.len(), 2, "{gaps:?}");
    assert!(
        gaps.iter().any(|gap| gap.starts_with("bb-vs-btn")),
        "{gaps:?}"
    );

    // With both, it is finished.
    charts.insert(
        Spot::from_name("bb-vs-btn").expect("a spot"),
        Chart::default()
            .with(Move::Raise, "QQ+, AKs")
            .with(Move::Passive, "22+, A2s+, KTo+"),
    );
    assert!(
        !charts.gaps().iter().any(|gap| gap.starts_with("bb-vs-btn")),
        "{:?}",
        charts.gaps()
    );
}

/// A folder of charts may hold exports and hand-written ranges together.
#[test]
fn both_ways_of_writing_a_range_are_read() {
    // What a solver exports: two exact cards and a weight.
    assert!(looks_exported("AcKd: 1,AcKh: 1,AcKs: 1,Ac5c: 0.5"));

    // What a person writes.
    assert!(!looks_exported("22+, A2s+, KTo+"));

    // And a weighted hand-written term, which has a colon but names a hand
    // class rather than two cards, is still notation.
    assert!(!looks_exported("AA, KQo:0.35"));
}

/// The mix of a hand, as frequencies.
fn frequencies<R>(chart: &Chart<R>, weights: &[u64]) -> Vec<(Move, f64)> {
    let mix = chart.strategy(&weights.to_vec(), 100);
    mix.shares.iter().map(|(action, share)| (*action, *share as f64 / mix.of as f64)).collect()
}

/// Whatever a chart does not name, it folds. That is what makes a
/// single-range opening chart a complete strategy rather than half of one.
#[test]
fn the_leftover_weight_is_a_fold() {
    let chart = Chart::default().with(Move::Raise, "AA, KK, A5o:0.25");

    assert_eq!(frequencies(&chart, &[100]), vec![(Move::Raise, 1.0)], "no fold to report");
    assert_eq!(frequencies(&chart, &[0]), vec![(Move::Fold, 1.0)], "never named");
    assert_eq!(frequencies(&chart, &[25]), vec![(Move::Fold, 0.75), (Move::Raise, 0.25)]);
}

/// Two actions in one spot, which is what a chart facing a raise looks
/// like once both its ranges are present.
#[test]
fn actions_share_a_hand_and_the_rest_folds() {
    let chart = Chart::default().with(Move::Passive, "AJs:0.6").with(Move::Raise, "AJs:0.3");
    let strategy = frequencies(&chart, &[60, 30]);
    let expected = [(Move::Fold, 0.1), (Move::Passive, 0.6), (Move::Raise, 0.3)];
    assert_eq!(strategy.len(), expected.len(), "{strategy:?}");
    for ((action, share), (want_action, want_share)) in strategy.iter().zip(expected) {
        assert_eq!(*action, want_action);
        assert!((share - want_share).abs() < 1e-9, "{share} vs {want_share}");
    }
}

/// Ranges are exported and rounded one action at a time, so their parts can
/// add to a shade over one. That must not come out as a negative fold.
#[test]
fn overlapping_ranges_are_scaled_rather_than_left_negative() {
    let chart = Chart::default().with(Move::Passive, "KK:0.7").with(Move::Raise, "KK:0.4");
    let strategy = frequencies(&chart, &[70, 40]);

    assert!(
        strategy.iter().all(|(_, share)| *share >= 0.0),
        "no negative frequencies: {strategy:?}"
    );
    let total: f64 = strategy.iter().map(|(_, share)| share).sum();
    assert!((total - 1.0).abs() < 1e-9, "still a strategy: {total}");
    assert!(
        !strategy.iter().any(|(action, _)| *action == Move::Fold),
        "nothing is left over to fold"
    );
}

/// A file is named after its spot and its action, in either case.
#[test]
fn a_chart_file_names_its_spot_and_action() {
    let held = |stem: &str| chart_file(stem).map(|(spot, action)| (spot.name(), action));
    assert_eq!(held("utg.raise"), Some(("utg".to_string(), Move::Raise)));
    assert_eq!(held("BTN-vs-CO.Call"), Some(("btn-vs-co".to_string(), Move::Passive)));
    assert_eq!(held("bb-vs-sb.jam"), Some(("bb-vs-sb".to_string(), Move::Jam)));
    assert_eq!(held("utg"), None);
    assert_eq!(held("mp.raise"), None);
    assert_eq!(held("utg.limp"), None);
}

/// Two files of one spot make one chart; a file of any other name is no chart.
#[test]
fn a_folder_becomes_charts() {
    let mut charts = Charts::new();
    assert!(charts.add_file("bb-vs-btn.raise", "QQ+"));
    assert!(!charts.add_file("notes", "todo"));
    assert!(charts.add_file("BB-vs-BTN.call", "22+"));
    assert!(charts.add_file("utg.raise", "AA"));
    assert!(charts.add_file("utg.raise", "KK+"));

    let names: Vec<&str> = charts.spots().iter().map(|(name, _)| name.as_str()).collect();
    assert_eq!(names, vec!["bb-vs-btn", "utg"]);
    let spot = Spot::from_name("bb-vs-btn").expect("a spot");
    let chart = charts.get(spot).expect("a chart");
    assert!(chart.names(Move::Raise) && chart.names(Move::Passive) && !chart.names(Move::Jam));
    assert!(charts.gaps().is_empty());
    assert_eq!(charts.spots()[1].1.by_action, vec![(Move::Raise, "KK+")], "the last one counts");
}
