use poker_core::betting::Action;
use poker_core::blueprint::Blueprint;
use poker_core::cli::{
    bands, describe, grid_class, label_for, overlap, pick_table, postflop_label,
    postflop_label_for, postflop_summary, rung_stack, table_buckets, FlagError, Flags, Kind, KindError, Overlap,
};

fn args(bits: &[&str]) -> Vec<String> {
    bits.iter().map(|b| b.to_string()).collect()
}

/// A bare switch means on; a flag wanting a value still says so.
#[test]
fn a_bare_switch_is_on_and_a_bare_value_flag_is_an_error() {
    let flags = Flags::parse(&args(&["--explain"])).expect("a bare switch");
    assert_eq!(flags.text("explain", "off"), "on");

    let flags = Flags::parse(&args(&["--act", "off", "--explain"])).expect("a switch at the end");
    assert_eq!(flags.text("act", "off"), "off");
    assert_eq!(flags.text("explain", "off"), "on");

    let flags =
        Flags::parse(&args(&["--explain", "--act", "fold"])).expect("a switch before a flag");
    assert_eq!(flags.text("explain", "off"), "on");
    assert_eq!(flags.text("act", "off"), "fold");

    // Still explicit where it matters.
    let flags = Flags::parse(&args(&["--explain", "off"])).expect("explicit off");
    assert_eq!(flags.text("explain", "on"), "off");

    // A flag that wants a real value is not guessed at.
    assert!(Flags::parse(&args(&["--seconds"])).is_err());
    assert!(Flags::parse(&args(&["--out"])).is_err());
    assert!(Flags::parse(&args(&["--seconds", "--act", "off"])).is_err());
}

#[test]
fn flags_say_what_is_wrong_with_them() {
    assert_eq!(
        Flags::parse(&args(&["--out", "a", "stray"])),
        Err(FlagError::Expected("stray".to_string()))
    );
    assert_eq!(
        Flags::parse(&args(&["--out"])),
        Err(FlagError::NeedsValue("out".to_string()))
    );

    let flags = Flags::parse(&args(&["--out", "a", "--out", "b", "--hand", "AKs"])).expect("flags");
    assert_eq!(flags.get("out"), Some("b".to_string()), "the last one counts");
    assert_eq!(flags.get("stage"), None);
    assert_eq!(flags.required("hand"), Ok("AKs".to_string()));
    assert_eq!(flags.required("stage"), Err("--stage is required".to_string()));
    assert_eq!(flags.reject_unknown(&["out", "hand"]), Ok(()));
    assert_eq!(
        flags.reject_unknown(&["out", "stage"]),
        Err("unknown flag --hand; this command takes: --out, --stage".to_string())
    );
}

/// A postflop label says what a bot has to match, and nothing else parses.
///
/// The directory is scanned rather than listed, so whatever is dropped in
/// it gets opened. A preflop blueprint that parsed as a postflop one would
/// be attached as a rung and consulted with keys built for another game,
/// which is a silent misplay rather than an error.
#[test]
fn only_a_postflop_label_reads_as_a_postflop_rung() {
    assert_eq!(postflop_label("postflop/spr4/b48"), Some((4.0f64.to_bits(), 48)));
    assert_eq!(postflop_label("postflop/spr1.5/b20"), Some((1.5f64.to_bits(), 20)));

    for wrong in [
        "preflop/100bb",
        "ring3/100bb",
        "pushfold/10bb",
        "postflop/spr4",
        "postflop/b48/spr4",
        "postflop/spr0/b48",
        "postflop/sprx/b48",
        "postflop/spr4/b1",
        "postflop/spr4/48",
        "",
    ] {
        assert_eq!(postflop_label(wrong), None, "{wrong:?} should not parse");
    }

    assert_eq!(postflop_label("postflop/spr.25/b20/more"), Some((0.25f64.to_bits(), 20)));
    assert_eq!(postflop_label("postflop/spr-1/b20"), None);
}

#[test]
fn depths_are_read_as_the_machine_reads_them() {
    for text in [
        "4", "1.5", "+2.5E-1", "40.e-1", ".4e+1", "0.001", "1e1", "1e-5", "000.00000000004e11", "1.234999",
        "0.1", "0.3", "2.675", "123456789.987654321", "9007199254740993", "9007199254740992.5",
        "1.7976931348623157e308", "1.7976931348623159e308", "1e309", "1e400", "2.2250738585072014e-308",
        "2.2250738585072011e-308", "5e-324", "2.4703282292062328e-324", "2.4703282292062327e-324", "1e-400",
        "1e99999999999999999999999999999999999999999", "1e-99999999999999999999999999999999999999999",
        "0e99999999999999999999999999999999999999999", "inf", "Infinity", "+INF", "infinite", "nan", "-inf", "-4",
        "1e", "1e+", "e1", "1e1.5", "1.2.3", ".", "+", "++1", "0e5", "", "0", "1_0", " 1", "0x4",
        "179769313486231580793728971405303415079934132710037826936173778980444968292764750946649017977587207096330",
        "0.3333333333333333148296162562473909929394721984863281250000000000000000000000000000000000000001",
    ] {
        let expected = text.parse::<f64>().ok().filter(|depth| *depth > 0.0);
        let label = format!("postflop/spr{text}/b48");
        assert_eq!(
            postflop_label(&label),
            expected.map(|depth| (depth.to_bits(), 48)),
            "{text:?} reads as {expected:?}"
        );
    }
}

#[test]
fn a_depth_is_a_stack_behind_a_pot_of_a_hundred() {
    for depth in [
        4.0, 1.234999, 1.005, 1.675, 0.001, 0.005, 0.00499999, 64.0, 1e-300, 5e-324, 42949672.94, 42949672.95,
        1e9, 1e300, f64::MAX, f64::INFINITY,
    ] {
        assert_eq!(rung_stack(depth.to_bits()), (100.0 * depth).round() as u32, "{depth}");
    }
    assert_eq!(rung_stack(1.234999f64.to_bits()), 123);
}

#[test]
fn a_ladder_with_no_rungs_says_so() {
    assert!(postflop_summary(&Vec::new()).contains("none solved"));
    assert!(postflop_summary(&vec!["1.5".to_string(), "6".to_string()]).contains("1.5/6"));
}

#[test]
fn games_are_known_by_name_and_by_label() {
    assert_eq!(Kind::parse("pushfold"), Ok(Kind::PushFold));
    assert_eq!(Kind::parse("preflop"), Ok(Kind::Preflop));
    assert_eq!(Kind::parse("ring6"), Ok(Kind::Ring(6)));
    assert_eq!(Kind::parse("ring8"), Err(KindError::SeatsOutOfRange));
    assert_eq!(Kind::parse("ring2"), Err(KindError::SeatsOutOfRange));
    assert_eq!(Kind::parse("ringx"), Err(KindError::UnknownRing));
    assert_eq!(Kind::parse("poker"), Err(KindError::UnknownGame));

    assert_eq!(Kind::from_label("preflop/100bb"), Ok(Kind::Preflop));
    assert_eq!(Kind::from_label("ring3/100bb"), Ok(Kind::Ring(3)));
    assert_eq!(
        Kind::from_label("postflop/spr4/b48"),
        Err("blueprint label \"postflop/spr4/b48\" does not name a known game".to_string())
    );
    for seats in 3..=7 {
        assert_eq!(Kind::parse(Kind::Ring(seats).name()), Ok(Kind::Ring(seats)));
    }
}

#[test]
fn stages_have_their_actions() {
    assert_eq!(Kind::PushFold.stages(), vec!["sb", "bb"]);
    assert_eq!(Kind::PushFold.actions("bb"), Some(vec!["fold", "call"]));
    assert_eq!(Kind::Preflop.actions("sb-open"), Some(vec!["fold", "raise", "jam"]));
    assert_eq!(
        Kind::Preflop.actions("sb-vs-3bet"),
        Some(vec!["fold", "call", "raise", "jam"])
    );
    assert_eq!(Kind::Preflop.actions("bb-vs-4bet"), Some(vec!["fold", "call", "jam"]));
    assert_eq!(Kind::Preflop.actions("bb-vs-jam"), Some(vec!["fold", "call"]));
    assert_eq!(Kind::Preflop.actions("sb"), None);
    assert_eq!(Kind::Ring(3).actions("sb"), None);
    assert_eq!(Kind::Preflop.stage_index("bb-vs-4bet"), Some(3));
    assert_eq!(Kind::PushFold.default_stage(), "sb");
    assert_eq!(Kind::Preflop.chart_stage("bb"), Some("bb-vs-open"));
    assert_eq!(Kind::Preflop.chart_stage("sb"), Some("sb-open"));
    assert_eq!(Kind::Ring(4).chart_stage("sb"), None);
}

#[test]
fn actions_are_described_in_big_blinds() {
    assert_eq!(describe(&Action::Fold, 100, 100), "folds");
    assert_eq!(describe(&Action::Check, 0, 100), "checks");
    assert_eq!(describe(&Action::Call, 150, 100), "calls 1.50 bb");
    assert_eq!(describe(&Action::RaiseTo(705), 0, 100), "bets to 7.05 bb");
    assert_eq!(describe(&Action::RaiseTo(2_200), 100, 100), "raises to 22.00 bb");
    assert_eq!(describe(&Action::RaiseTo(3), 0, 0), "bets to inf bb");
    assert_eq!(describe(&Action::Call, 0, 0), "calls NaN bb");
    for big_blind in [1, 3, 7, 8, 100, 200, 9_007_199_254_740_993] {
        for amount in (0..2_000).chain([
            9_007_199_254_740_993,
            900_719_925_474_099_312,
            12_345_678_901_234_567_891,
            u64::MAX,
        ]) {
            let blinds = amount as f64 / big_blind as f64;
            assert_eq!(
                describe(&Action::RaiseTo(amount), 1, big_blind),
                format!("raises to {blinds:.2} bb")
            );
        }
    }
}

#[test]
fn the_grid_runs_from_aces_to_twos() {
    assert_eq!(grid_class(0, 0).to_string(), "AA");
    assert_eq!(grid_class(0, 1).to_string(), "AKs");
    assert_eq!(grid_class(1, 0).to_string(), "AKo");
    assert_eq!(grid_class(12, 12).to_string(), "22");
    assert_eq!(grid_class(12, 7).to_string(), "72o");
}

#[test]
fn the_table_is_the_largest_window_wider_than_tall() {
    // A lobby is tall, and larger than a table that was opened small.
    assert_eq!(pick_table(&[(569, 1040), (700, 500)]), Some(1));
    assert_eq!(pick_table(&[(700, 500), (1430, 1040), (500, 700)]), Some(1));
    assert_eq!(pick_table(&[(800, 500), (500, 300), (1000, 400)]), Some(0), "the first of equals");
    assert_eq!(pick_table(&[(569, 1040), (500, 500)]), None);
    assert_eq!(pick_table(&[]), None);
}

#[test]
fn strengths_are_shown_in_bands() {
    assert_eq!(bands(20, 8), vec![(0, 3), (3, 6), (6, 9), (9, 12), (12, 15), (15, 18), (18, 20)]);
    assert_eq!(bands(3, 8), vec![(0, 1), (1, 2), (2, 3)]);
    assert_eq!(bands(0, 4), vec![]);
    assert_eq!(bands(48, 1), vec![(0, 48)]);
}

#[test]
fn larger_tables_are_measured_more_coarsely() {
    assert_eq!(table_buckets(0, 4), 169);
    assert_eq!(table_buckets(0, 5), 40);
    assert_eq!(table_buckets(0, 6), 30);
    assert_eq!(table_buckets(0, 7), 25);
    assert_eq!(table_buckets(12, 7), 12);
}

#[test]
fn blueprints_of_one_game_overlap() {
    let blueprint = |entries: &[(u64, usize)]| {
        let entries: Vec<(u64, Vec<u32>)> =
            entries.iter().map(|&(key, actions)| (key, vec![0; actions])).collect();
        Blueprint::from_profile(&entries, "game".to_string())
    };
    let left = blueprint(&[(1, 2), (2, 3), (5, 2)]);
    let right = blueprint(&[(2, 3), (5, 2), (7, 2), (9, 2)]);
    assert_eq!(
        overlap(&left, &right),
        Ok(Overlap { shared: 2, only_left: 1, only_right: 2 })
    );
    let other = blueprint(&[(2, 3), (5, 4), (7, 2)]);
    assert_eq!(overlap(&left, &other), Err(5));
}

#[test]
fn labels_read_back() {
    for (depth, buckets) in [(4.0f64, 48), (1.5, 20), (0.25, 2), (64.0, 169), (12.05, 7), (1.0 / 3.0, 9)] {
        let label = postflop_label_for(&format!("{depth}"), buckets);
        assert_eq!(postflop_label(&label), Some((depth.to_bits(), buckets)), "{label}");
    }
    assert_eq!(postflop_label_for("1.5", 20), "postflop/spr1.5/b20");
    assert_eq!(label_for(Kind::Preflop, "100"), "preflop/100bb");
    for kind in [Kind::PushFold, Kind::Preflop, Kind::Ring(3), Kind::Ring(7)] {
        assert_eq!(Kind::from_label(&label_for(kind, "12.5")), Ok(kind));
    }
}

#[test]
fn what_is_wrong_is_said_in_words() {
    let game = |name: &str| Kind::parse(name).expect_err("no game").explain(name);
    assert_eq!(game("poker"), "unknown game \"poker\"; try pushfold, preflop, or ring3 to ring7");
    assert_eq!(game("ringx"), "unknown game \"ringx\"; try ring3 to ring7");
    assert_eq!(game("ring8"), "ring games run from three to 7 seats; heads-up is `preflop`");
    assert_eq!(
        Kind::PushFold.unknown_stage("sb-open"),
        "unknown stage \"sb-open\" for pushfold; try one of: sb, bb"
    );
    let flag = |bits: &[&str]| Flags::parse(&args(bits)).expect_err("no flags").explain();
    assert_eq!(flag(&["stray"]), "expected a --flag, found \"stray\"");
    assert_eq!(flag(&["--out"]), "--out needs a value");
}
