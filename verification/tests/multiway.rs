use poker_core::card::{parse_cards, Card};
use poker_core::equity::Equity;
use poker_core::multiway::{
    approximate_shares, exact_shares, pairwise_matrix, pot_share, Part, Share, POT_PARTS,
};
use poker_core::natural::Natural;

fn share(equity: &Equity) -> f64 {
    let won: f64 = equity
        .shared
        .iter()
        .enumerate()
        .map(|(others, &trials)| trials as f64 / (others + 1) as f64)
        .sum();
    won / equity.trials as f64
}

fn hands(text: &[&str]) -> Vec<[Card; 2]> {
    text.iter()
        .map(|hand| {
            let cards = parse_cards(hand).expect("valid hand");
            assert_eq!(cards.len(), 2);
            [cards[0], cards[1]]
        })
        .collect()
}

fn board(text: &str) -> Vec<Card> {
    parse_cards(text).expect("valid board")
}

#[test]
fn shares_always_sum_to_one() {
    for (players, table) in [
        (vec!["AsAd", "KsKd"], "2c 7d 9h Jc 4s"),
        (vec!["AsAd", "KsKd", "QhQc"], "2c 7d 9h"),
        (vec!["AsAd", "KsKd", "QhQc", "JhJd"], "2c 7d 9h Jc 4s"),
    ] {
        let shares = exact_shares(&hands(&players), &board(table));
        let total: f64 = shares.iter().map(share).sum();
        assert!((total - 1.0).abs() < 1e-9, "summed to {total}");
    }
}

#[test]
fn a_decided_board_gives_the_winner_everything() {
    let shares = exact_shares(&hands(&["AsAd", "KsKd", "QhQc"]), &board("2c 7d 9h Jc 4s"));
    let shares: Vec<f64> = shares.iter().map(share).collect();
    assert_eq!(shares, vec![1.0, 0.0, 0.0]);
}

#[test]
fn a_board_that_plays_itself_is_split_evenly() {
    // Everyone plays the same royal flush.
    let shares = exact_shares(&hands(&["2c3d", "4h5s", "6c7d"]), &board("As Ks Qs Js Ts"));
    for share in shares.iter().map(share) {
        assert!((share - 1.0 / 3.0).abs() < 1e-9, "got {share}");
    }
}

fn estimate(hands: &[[Card; 2]], board: &[Card]) -> Vec<f64> {
    fractions(&approximate_shares(&pairwise_matrix(hands, board)))
}

/// Each weight among all of them.
fn fractions(weights: &[Natural]) -> Vec<f64> {
    let weights: Vec<f64> = weights.iter().map(number).collect();
    let total: f64 = weights.iter().sum();
    weights.iter().map(|weight| weight / total).collect()
}

fn number(natural: &Natural) -> f64 {
    natural
        .digits()
        .iter()
        .rev()
        .fold(0.0, |number, &digit| number * 4_294_967_296.0 + digit as f64)
}

#[test]
fn the_approximation_is_exact_heads_up() {
    // With two players the "product of the others" is a single pairwise
    // number, so the estimate is not an estimate at all.
    let of = |units: u64| Share { units, of: 100 };
    let matrix = vec![vec![of(50), of(82)], vec![of(18), of(50)]];
    let shares = fractions(&approximate_shares(&matrix));
    assert!((shares[0] - 0.82).abs() < 1e-9, "got {}", shares[0]);
    assert!((shares[1] - 0.18).abs() < 1e-9);
}

/// The finding that rules the shortcut out, pinned so nobody re-adopts it.
#[test]
fn the_product_approximation_misorders_a_multiway_pot() {
    // 72o has paired the board's deuce. When it improves it beats both
    // opponents off the same card, so its wins are correlated — exactly
    // what a product of pairwise equities cannot represent.
    let cards = hands(&["AsAd", "KsKd", "7c2h"]);
    let table = board("9h 4d 2s");
    let estimate = estimate(&cards, &table);
    let truth: Vec<f64> = exact_shares(&cards, &table).iter().map(share).collect();

    // The truth: the pair of deuces is worth more than the overpair that
    // is drawing dead to it.
    assert!(truth[2] > truth[1], "72o should beat KK for share: {truth:?}");
    // The estimate gets that backwards.
    assert!(
        estimate[2] < estimate[1],
        "the approximation was expected to misorder these: {estimate:?}"
    );
    // And badly: four percent against a real eighteen.
    assert!(
        (truth[2] - estimate[2]) > 0.10,
        "understated by {:.3}, less than the documented error",
        truth[2] - estimate[2]
    );
}

/// How far off the approximation is.
#[test]
fn the_approximation_error_is_bounded() {
    let spots = [
        (vec!["AsAd", "KsKd", "QhQc"], "9h 4d 2s"),
        (vec!["AsKs", "QdQh", "7c2h"], "Js 8s 3d"),
        (vec!["AhKh", "9s9d", "5c4c"], "Kc 9h 2s"),
        (vec!["AsAd", "7h6h", "Tc9c"], "8h 5s 2d"),
    ];

    let mut worst: f64 = 0.0;
    for (players, table) in spots {
        let cards = hands(&players);
        let felt = board(table);
        let truth: Vec<f64> = exact_shares(&cards, &felt).iter().map(share).collect();
        for (approx, exact) in estimate(&cards, &felt).iter().zip(truth.iter()) {
            worst = worst.max((approx - exact).abs());
        }
    }

    // Around twelve points of share, which is far too much to solve with —
    // a bet sized on a 4% share when the truth is 18% is simply a
    // different decision.
    assert!(
        worst > 0.08,
        "expected the approximation to be badly wrong; worst was only {worst:.4}"
    );
    assert!(worst < 0.20, "worse than previously measured: {worst:.4}");
    println!("worst three-way share error: {worst:.4}");
}

#[test]
fn a_pot_that_nobody_has_a_weight_in_is_shared_evenly() {
    let none = Share { units: 0, of: 2 };
    let matrix = vec![vec![none; 3]; 3];
    let weights = approximate_shares(&matrix);
    assert_eq!(weights.iter().map(number).collect::<Vec<f64>>(), vec![1.0, 1.0, 1.0]);
}

#[test]
fn a_duel_is_shared_between_its_two_hands() {
    let cards = hands(&["AsAd", "KsKd", "7c2h"]);
    let matrix = pairwise_matrix(&cards, &board("9h 4d 2s"));
    for i in 0..3 {
        for j in 0..3 {
            let (one, other) = (matrix[i][j], matrix[j][i]);
            assert_eq!(one.of, other.of);
            assert_eq!(one.units + other.units, one.of, "{i} against {j}");
        }
    }
    // Aces against kings on a board that helps neither: 45 cards, 990 runouts.
    assert_eq!(matrix[0][1].of, 2 * 990);
    assert!(matrix[0][1].units > matrix[1][0].units);
}

#[test]
fn shares_of_different_wholes_are_weighed_alike() {
    let of = |units: u64, of: u64| Share { units, of };
    // A half against a third, a quarter against three fifths.
    let matrix = vec![
        vec![of(1, 2), of(1, 2), of(1, 3)],
        vec![of(1, 2), of(1, 2), of(3, 5)],
        vec![of(2, 3), of(2, 5), of(1, 2)],
    ];
    let weights: Vec<f64> = approximate_shares(&matrix).iter().map(number).collect();
    // Units times the wholes of the other two: 1 * 1 * (2 * 5) * (3 * 5), and so on.
    assert_eq!(weights, vec![150.0, 270.0, 240.0]);
}

#[test]
fn many_hands_can_be_weighed() {
    let share = Share { units: u64::MAX - 1, of: u64::MAX };
    let matrix = vec![vec![share; 4]; 4];
    let weights = approximate_shares(&matrix);
    assert_eq!(weights.len(), 4);
    assert_eq!(weights[0], weights[3]);
    assert_eq!(weights[0].digits().len(), 24, "twelve numbers of two digits each");
}

#[test]
fn counts_stand_for_parts_of_the_pot() {
    let won = exact_shares(&hands(&["AsAd", "KsKd", "QhQc"]), &board("2c 7d 9h Jc 4s"));
    let whole = POT_PARTS as u128;
    assert_eq!(pot_share(&won[0]), Part { units: whole, of: whole });
    assert_eq!(pot_share(&won[1]), Part { units: 0, of: whole });

    let chopped = exact_shares(&hands(&["2c3d", "4h5s", "6c7d"]), &board("As Ks Qs Js Ts"));
    for counts in &chopped {
        assert_eq!(pot_share(counts), Part { units: whole / 3, of: whole });
    }

    let open = exact_shares(&hands(&["AsAd", "KsKd", "QhQc"]), &board("2c 7d 9h"));
    let parts: Vec<Part> = open.iter().map(pot_share).collect();
    let total: u128 = parts.iter().map(|part| part.units).sum();
    assert_eq!(total, parts[0].of, "the parts make up the pot");
}

#[test]
fn a_board_that_cannot_be_completed_is_shared_equally() {
    // Twenty-four hands leave four cards, one too few for a board.
    let deck: Vec<Card> = "23456789TJQKA"
        .chars()
        .flat_map(|rank| {
            "cdhs".chars().map(move |suit| parse_cards(&format!("{rank}{suit}")).expect("a card")[0])
        })
        .collect();
    let crowd: Vec<[Card; 2]> = deck.chunks(2).take(24).map(|two| [two[0], two[1]]).collect();
    let counts = exact_shares(&crowd, &[]);
    assert_eq!(counts.len(), 24);
    for count in &counts {
        assert_eq!(count.trials, 0);
        assert_eq!(pot_share(count), Part { units: 1, of: 24 });
    }
}
