use poker_core::card::parse_cards;
use poker_core::eval::{evaluate, HandRank};
use poker_core::pot::{award, build_pots, total, OddChip, Pot};

fn rank(s: &str) -> Option<HandRank> {
    Some(evaluate(&parse_cards(s).expect("valid cards")))
}

#[test]
fn equal_contributions_make_a_single_pot() {
    let pots = build_pots(&[100, 100, 100], &[false, false, false]);
    assert_eq!(pots.len(), 1);
    assert_eq!(pots[0].amount, 300);
    assert_eq!(pots[0].eligible, vec![0, 1, 2]);
}

#[test]
fn a_folded_player_funds_the_pot_but_cannot_win_it() {
    // Seat 1 folded after putting in a full 100.
    let pots = build_pots(&[100, 100, 100], &[false, true, false]);
    assert_eq!(total(&pots), 300, "folded chips stay in the pot");
    assert_eq!(pots.len(), 1);
    assert_eq!(pots[0].eligible, vec![0, 2], "seat 1 is not eligible");
}

#[test]
fn a_short_all_in_creates_one_side_pot() {
    // Seat 0 is all in for 50; seats 1 and 2 contest 100 each.
    let pots = build_pots(&[50, 100, 100], &[false, false, false]);
    assert_eq!(pots.len(), 2);

    // Main pot: 50 from each of the three.
    assert_eq!(pots[0].amount, 150);
    assert_eq!(pots[0].eligible, vec![0, 1, 2]);

    // Side pot: the extra 50 from seats 1 and 2 only.
    assert_eq!(pots[1].amount, 100);
    assert_eq!(pots[1].eligible, vec![1, 2]);

    assert_eq!(total(&pots), 250);
}

#[test]
fn three_all_in_levels_create_three_pots() {
    let pots = build_pots(&[25, 50, 100, 100], &[false, false, false, false]);
    assert_eq!(pots.len(), 3);

    assert_eq!(pots[0].amount, 100); // 25 x 4
    assert_eq!(pots[0].eligible, vec![0, 1, 2, 3]);

    assert_eq!(pots[1].amount, 75); // 25 x 3
    assert_eq!(pots[1].eligible, vec![1, 2, 3]);

    assert_eq!(pots[2].amount, 100); // 50 x 2
    assert_eq!(pots[2].eligible, vec![2, 3]);

    assert_eq!(total(&pots), 275);
}

#[test]
fn an_uncalled_bet_becomes_a_pot_only_its_bettor_can_win() {
    // Seat 0 bet 100, everyone folded to it having put in 20.
    let pots = build_pots(&[100, 20, 20], &[false, true, true]);
    assert_eq!(total(&pots), 140);
    let solo = pots.last().expect("a pot exists");
    assert_eq!(solo.eligible, vec![0], "only the bettor can win the excess");
}

#[test]
fn adjacent_layers_with_equal_eligibility_are_merged() {
    // Seats 1 and 2 folded at different amounts. That splits the money into
    // three layers (0-30, 30-60, 60-100), but seat 0 is the only eligible
    // player in all of them, so a dealer would call it one pot — and so
    // should we, rather than reporting three side pots with one winner each.
    let pots = build_pots(&[100, 30, 60], &[false, true, true]);
    assert_eq!(pots.len(), 1, "three layers, one eligibility set, one pot");
    assert_eq!(pots[0].amount, 190);
    assert_eq!(pots[0].eligible, vec![0]);
}

#[test]
fn layers_with_different_eligibility_stay_separate() {
    // The mirror of the merge case: here eligibility genuinely changes at
    // each level, so the pots must not be collapsed.
    let pots = build_pots(&[100, 30, 60], &[false, false, false]);
    assert_eq!(pots.len(), 3);
    assert_eq!(pots[0].eligible, vec![0, 1, 2]);
    assert_eq!(pots[1].eligible, vec![0, 2]);
    assert_eq!(pots[2].eligible, vec![0]);
    assert_eq!(total(&pots), 190);
}

#[test]
fn players_who_never_put_money_in_are_ignored() {
    let pots = build_pots(&[0, 100, 100], &[true, false, false]);
    assert_eq!(pots.len(), 1);
    assert_eq!(pots[0].amount, 200);
    assert_eq!(pots[0].eligible, vec![1, 2]);
}

#[test]
fn an_empty_table_makes_no_pots() {
    assert!(build_pots(&[], &[]).is_empty());
    assert!(build_pots(&[0, 0], &[false, false]).is_empty());
}

#[test]
fn the_best_hand_takes_the_pot() {
    let pots = build_pots(&[100, 100], &[false, false]);
    let ranks = [rank("As Ks Qs Js Ts"), rank("2c 3d 4h 5s 7c")];
    let paid = award(&pots, &ranks, OddChip::default());
    assert_eq!(paid, vec![200, 0]);
}

#[test]
fn tied_hands_split_the_pot() {
    let pots = build_pots(&[100, 100], &[false, false]);
    // Same hand in different suits.
    let ranks = [rank("Ac Kd 9h 5s 2c"), rank("Ad Kh 9s 5c 2d")];
    let paid = award(&pots, &ranks, OddChip::default());
    assert_eq!(paid, vec![100, 100]);
}

#[test]
fn an_odd_chip_goes_to_the_configured_seat() {
    let pots = vec![Pot { amount: 101, eligible: vec![0, 1] }];
    let ranks = [rank("Ac Kd 9h 5s 2c"), rank("Ad Kh 9s 5c 2d")];

    let low = award(&pots, &ranks, OddChip::ToLowestSeat);
    assert_eq!(low, vec![51, 50]);

    let seat1 = award(&pots, &ranks, OddChip::ToSeat(1));
    assert_eq!(seat1, vec![50, 51], "the extra chip follows the button rule");

    assert_eq!(low.iter().sum::<u64>(), 101, "chips are conserved");
}

#[test]
fn a_short_stack_can_only_win_the_main_pot() {
    // Seat 0 is all in for 50 with the nuts; seats 1 and 2 contest the side
    // pot, which seat 0 cannot touch.
    let pots = build_pots(&[50, 100, 100], &[false, false, false]);
    let ranks = [
        rank("As Ks Qs Js Ts"), // straight flush, best hand
        rank("9c 9d 9h 9s 2c"), // quads
        rank("2c 3d 4h 5s 7c"), // nothing
    ];
    let paid = award(&pots, &ranks, OddChip::default());

    assert_eq!(paid[0], 150, "wins the main pot only");
    assert_eq!(paid[1], 100, "best remaining hand wins the side pot");
    assert_eq!(paid[2], 0);
    assert_eq!(paid.iter().sum::<u64>(), total(&pots));
}

#[test]
fn a_folded_player_is_paid_nothing_even_with_the_best_hand() {
    let pots = build_pots(&[100, 100], &[false, true]);
    // Seat 1 folded the winning hand; it must not be counted.
    let ranks = [rank("2c 3d 4h 5s 7c"), rank("As Ks Qs Js Ts")];
    let paid = award(&pots, &ranks, OddChip::default());
    assert_eq!(paid, vec![200, 0]);
}

/// Chips must never be created or destroyed, whatever the contribution
/// pattern. Driven by a small deterministic generator so failures reproduce.
#[test]
fn chips_are_conserved_across_many_random_tables() {
    let mut seed = 0x2545_F491_4F6C_DD1Du64;
    let mut next = move || {
        // xorshift64*, enough for spreading test inputs around.
        seed ^= seed >> 12;
        seed ^= seed << 25;
        seed ^= seed >> 27;
        seed.wrapping_mul(0x2545_F491_4F6C_DD1D)
    };

    for _ in 0..2000 {
        let players = 2 + (next() % 8) as usize;
        let contributed: Vec<u64> = (0..players).map(|_| next() % 500).collect();
        let mut folded: Vec<bool> = (0..players).map(|_| next() % 3 == 0).collect();

        // Keep the biggest contributor live. A player cannot fold while
        // holding the largest contribution — nobody raised them — so
        // generating that state would be testing an impossible table.
        let top = (0..players).max_by_key(|&i| contributed[i]).expect("non-empty");
        folded[top] = false;

        let pots = build_pots(&contributed, &folded);
        assert_eq!(
            total(&pots),
            contributed.iter().sum::<u64>(),
            "chip leak for {contributed:?} / {folded:?}"
        );

        // Every pot must be winnable by somebody, or the table state was
        // impossible to begin with (everyone folded).
        let all_folded = folded.iter().all(|&f| f);
        if !all_folded {
            for pot in &pots {
                assert!(
                    !pot.eligible.is_empty() || pot.amount == 0,
                    "unwinnable pot for {contributed:?} / {folded:?}"
                );
            }
        }
    }
}

#[test]
fn the_whole_remainder_goes_to_one_winner() {
    let pots = vec![Pot { amount: 101, eligible: vec![0, 1, 2] }];
    let tied = rank("Ac Kd 9h 5s 2c");
    let ranks = [tied, tied, tied];
    assert_eq!(award(&pots, &ranks, OddChip::ToLowestSeat), vec![35, 33, 33]);
    assert_eq!(award(&pots, &ranks, OddChip::ToSeat(2)), vec![33, 33, 35]);
    // Counting goes round the table.
    assert_eq!(award(&pots, &ranks, OddChip::ToSeat(4)), vec![33, 35, 33]);
}

#[test]
fn later_pots_have_fewer_seats() {
    let pots = build_pots(&[50, 100, 200, 200, 70], &[false, false, false, false, true]);
    let seats: Vec<Vec<usize>> = pots.iter().map(|pot| pot.eligible.clone()).collect();
    assert_eq!(seats, vec![vec![0, 1, 2, 3], vec![1, 2, 3], vec![2, 3]]);
}
