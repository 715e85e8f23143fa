use std::collections::HashMap;

use poker_core::betting::Street;
use poker_core::card::{parse_cards, Card};
use poker_core::eval::evaluate;
use poker_core::postflop::{
    draw_holding, Move, Payoff, Postflop, Sizing, Spot, State, MULTIWAY,
};

/// A stream of numbers to deal and act by.
struct Stream(u64);

impl Stream {
    fn below(&mut self, bound: usize) -> usize {
        self.0 = self.0.wrapping_add(0x9E37_79B9_7F4A_7C15);
        let mut z = self.0;
        z = (z ^ (z >> 30)).wrapping_mul(0xBF58_476D_1CE4_E5B9);
        z = (z ^ (z >> 27)).wrapping_mul(0x94D0_49BB_1331_11EB);
        ((z ^ (z >> 31)) % bound as u64) as usize
    }
}

/// A finished board and every holding that can be dealt beside it.
struct Felt {
    board: Vec<Card>,
    holdings: Vec<[Card; 2]>,
}

impl Felt {
    fn new() -> Felt {
        let board = parse_cards("Ah 7c 2d 9s 4h").expect("five cards");
        let deck: Vec<Card> = Card::all().into_iter().filter(|c| !board.contains(c)).collect();
        let mut holdings = Vec::new();
        for (i, &a) in deck.iter().enumerate() {
            for &b in &deck[i + 1..] {
                holdings.push([a, b]);
            }
        }
        Felt { board, holdings }
    }

    fn deal(&self, game: &Postflop, stream: &mut Stream) -> State {
        let mut dealt: Vec<usize> = Vec::new();
        for _ in 0..game.players() {
            let mut draws = Vec::new();
            let choice = loop {
                match draw_holding(&self.holdings, &dealt, &draws) {
                    Some(choice) => break choice,
                    None => draws.push(stream.below(self.holdings.len())),
                }
            };
            dealt.push(choice);
        }
        let choices: Vec<u16> = dealt.iter().map(|&c| c as u16).collect();
        game.sample_chance(&game.initial(), 0, &choices)
    }

    fn ranks(&self, state: &State) -> [u32; 3] {
        let mut ranks = [0; 3];
        for (seat, rank) in ranks.iter_mut().enumerate() {
            let mut cards = self.holdings[state.holdings[seat] as usize].to_vec();
            cards.extend(&self.board);
            *rank = evaluate(&cards).to_bits();
        }
        ranks
    }
}

fn chips(payoff: Payoff) -> f64 {
    payoff.units as f64 / payoff.of as f64
}

/// The exact information keys a heads-up solve produces.
///
/// # Why these are written down
///
/// A blueprint is a map from these numbers to strategies. The numbers are
/// not stored in it — only the keys they came out as — so any change to how
/// a key is packed silently repoints every solved strategy at a different
/// situation. Nothing fails: the file loads, lookups succeed, and the bot
/// plays a river strategy on a flop.
#[test]
fn heads_up_keys_are_fixed() {
    let game = Postflop::for_play(48, 100, 1_000, Sizing::default());
    let spot = |street, player, strength, pot, bet, mine, behind, raises, acted| Spot {
        street,
        player,
        live: 2,
        strength,
        pot,
        bet,
        mine,
        behind,
        opponent_behind: behind,
        raises,
        acted,
    };

    for (expected, name, spot) in [
        (
            25_169_408,
            "flop, first to act, nothing bet",
            spot(Street::Flop, 1, 0, 100, 0, 0, 1_000, 0, 0),
        ),
        (
            18_386_712,
            "flop, in position, facing a bet",
            spot(Street::Flop, 0, 24, 133, 33, 0, 1_000, 1, 0b10),
        ),
        (
            44_371_759,
            "turn, facing a raise",
            spot(Street::Turn, 1, 47, 400, 200, 60, 800, 2, 0b01),
        ),
        (
            52_003_119,
            "river, all in",
            spot(Street::River, 0, 47, 900, 500, 0, 500, 1, 0b10),
        ),
    ] {
        assert_eq!(game.key_at(&spot), expected, "{name}");
    }
}

fn game() -> Postflop {
    // Ten big blinds in, a hundred behind.
    Postflop::new(10, 1_000, 10_000, Sizing::default())
}

/// A three-way tree with the same chips.
fn three_way() -> Postflop {
    Postflop::multiway(3, 10, 1_000, 10_000, Sizing::default())
}

/// Chips move between three players and are never created.
#[test]
fn three_way_payoffs_sum_to_zero() {
    let game = three_way();
    let felt = Felt::new();
    let mut stream = Stream(21);
    for round in 0..400 {
        let mut state = felt.deal(&game, &mut stream);
        while !game.is_terminal(&state) {
            let count = game.num_actions(&state);
            assert!(count >= 2, "only {count} action(s) at {state:?}");
            state = game.apply(&state, stream.below(count));
        }
        let ranks = felt.ranks(&state);
        let payoffs: Vec<f64> =
            (0..3).map(|seat| chips(game.utility_for(&state, seat, &ranks))).collect();
        let total: f64 = payoffs.iter().sum();
        assert!(
            total.abs() < 1e-9,
            "round {round}: {payoffs:?} sum to {total}, not zero"
        );
        for (seat, payoff) in payoffs.iter().enumerate() {
            assert!(
                payoff.abs() <= 21_000.0,
                "round {round}: seat {seat} won or lost {payoff}, more than the table holds"
            );
        }
    }
}

#[test]
fn nobody_in_a_three_way_pot_wagers_more_than_they_have() {
    let game = three_way();
    let felt = Felt::new();
    let mut stream = Stream(33);
    for _ in 0..400 {
        let mut state = felt.deal(&game, &mut stream);
        while !game.is_terminal(&state) {
            let count = game.num_actions(&state);
            state = game.apply(&state, stream.below(count));
            for player in 0..3 {
                assert!(
                    state.spent[player] + state.wagered[player] <= 10_000,
                    "player {player} has put in more than their stack: {state:?}"
                );
            }
        }
    }
}

#[test]
fn three_players_never_hold_the_same_card() {
    let game = three_way();
    let felt = Felt::new();
    let mut stream = Stream(9);
    for _ in 0..300 {
        let state = felt.deal(&game, &mut stream);
        let mut seen = Vec::new();
        for seat in 0..3 {
            for card in felt.holdings[state.holdings[seat] as usize] {
                assert!(!seen.contains(&card), "two seats hold {card:?}: {state:?}");
                seen.push(card);
            }
        }
    }
}

/// One fold leaves a hand to play; the second ends it.
///
/// This is the whole difference between a three-way tree and a heads-up
/// one, and the place a heads-up assumption would survive unnoticed.
#[test]
fn a_three_way_pot_survives_the_first_fold() {
    let game = three_way();
    let felt = Felt::new();
    let state = felt.deal(&game, &mut Stream(5));

    // Seat 1 leads on every postflop street.
    assert_eq!(game.current_player(&state), 1);

    let fold = |game: &Postflop, state: &State| {
        let at = game
            .moves(state)
            .iter()
            .position(|move_| *move_ == Move::Fold)
            .expect("a fold is on offer");
        game.apply(state, at)
    };
    let bet = |game: &Postflop, state: &State| {
        let at = game
            .moves(state)
            .iter()
            .position(|move_| *move_ == Move::Small)
            .expect("a bet is on offer");
        game.apply(state, at)
    };

    // Seat 1 bets, seat 2 folds. Two are left, so the hand goes on.
    let after_bet = bet(&game, &state);
    assert_eq!(game.current_player(&after_bet), 2, "seat 2 acts second");
    let one_gone = fold(&game, &after_bet);
    assert!(
        !game.is_terminal(&one_gone),
        "two players are still in: {one_gone:?}"
    );
    assert_eq!(game.current_player(&one_gone), 0, "seat 0 acts last");

    // Seat 0 folds too. Now there is one player and the hand is over.
    let both_gone = fold(&game, &one_gone);
    assert!(game.is_terminal(&both_gone), "only seat 1 is left");
    let ranks = felt.ranks(&both_gone);
    assert!(
        chips(game.utility_for(&both_gone, 1, &ranks)) > 0.0,
        "the last player standing wins the pot"
    );
    assert!(chips(game.utility_for(&both_gone, 0, &ranks)) < 0.0);
    assert!(chips(game.utility_for(&both_gone, 2, &ranks)) < 0.0);
}

/// A folded player is not owed anything and cannot be paid.
#[test]
fn a_folded_player_is_never_paid() {
    let game = three_way();
    let felt = Felt::new();
    let mut stream = Stream(77);
    for _ in 0..400 {
        let mut state = felt.deal(&game, &mut stream);
        while !game.is_terminal(&state) {
            let count = game.num_actions(&state);
            state = game.apply(&state, stream.below(count));
        }
        let ranks = felt.ranks(&state);
        for seat in 0..3 {
            if !state.is_live(seat) {
                assert!(
                    chips(game.utility_for(&state, seat, &ranks)) < 0.0,
                    "seat {seat} folded and came out ahead: {state:?}"
                );
            }
        }
    }
}

/// The two key spaces cannot collide, and neither can two spots that offer
/// different numbers of actions.
#[test]
fn multiway_keys_stand_apart_from_heads_up_ones() {
    let heads_up = Postflop::for_play(48, 1_000, 10_000, Sizing::default());
    let three = Postflop::multiway_for_play(3, 48, 1_000, 10_000, Sizing::default());

    let spot = |live: u8, player: usize, bet: u64, mine: u64, raises: u8, acted: u8| Spot {
        street: Street::Flop,
        player,
        live,
        strength: 20,
        pot: 1_000,
        bet,
        mine,
        behind: 9_000,
        opponent_behind: 9_000,
        raises,
        acted,
    };

    // Nothing a three-way tree produces can be mistaken for a heads-up key.
    let mut by_key = HashMap::new();
    for live in 2..=3u8 {
        for player in 0..3 {
            for (bet, mine) in [(0, 0), (300, 0), (300, 300), (900, 300)] {
                for raises in 0..3u8 {
                    for acted in 0..8u8 {
                        let spot = spot(live, player, bet, mine, raises, acted);
                        let key = three.key_at(&spot);
                        assert!(
                            key & MULTIWAY != 0,
                            "a multiway key must carry its marker: {spot:?}"
                        );
                        let count = three.moves_at(&spot).len();
                        let held = by_key.entry(key).or_insert(count);
                        assert_eq!(
                            *held, count,
                            "two spots share key {key} while offering {held} and {count} actions"
                        );
                    }
                }
            }
        }
    }

    for player in 0..2 {
        for (bet, mine) in [(0, 0), (300, 0), (300, 300), (900, 300)] {
            let spot = spot(2, player, bet, mine, 1, 0b10);
            let key = heads_up.key_at(&spot);
            assert!(key & MULTIWAY == 0, "a heads-up key carries no marker");
            assert!(
                !by_key.contains_key(&key),
                "heads-up key {key} collides with a multiway one"
            );
        }
    }
}

/// A solver must be told how many seats to traverse.
#[test]
fn the_tree_reports_its_seat_count_through_the_trait() {
    let heads_up = Postflop::for_play(48, 1_000, 10_000, Sizing::default());
    assert_eq!(heads_up.players(), 2);

    let three = Postflop::multiway_for_play(3, 48, 1_000, 10_000, Sizing::default());
    assert_eq!(three.players(), 3, "the solver would skip a seat");
}

fn dealt(game: &Postflop) -> State {
    Felt::new().deal(game, &mut Stream(5))
}

fn play(game: &Postflop, mut state: State, moves: &[Move]) -> State {
    for wanted in moves {
        let available = game.moves(&state);
        let index = available
            .iter()
            .position(|m| m == wanted)
            .unwrap_or_else(|| panic!("{wanted:?} not among {available:?}"));
        state = game.apply(&state, index);
    }
    state
}

/// A raise is not offered when there is nobody left to answer it.
///
/// Constructed rather than played, because a table where everyone starts
/// with the same stack cannot produce it: by the time one player is all in
/// they have put in at least as much as the other, and the sizes fall
/// outside what is left anyway. Unequal stacks are ordinary at a real
/// table, and that is where this matters.
#[test]
fn nobody_raises_into_a_player_who_is_already_all_in() {
    let game = game();
    // The hero has plenty behind; the opponent has shoved and has nothing.
    let facing_a_shove = Spot {
        live: 2,
        street: Street::Flop,
        player: 0,
        strength: 5,
        pot: 260,
        bet: 200,
        mine: 20,
        behind: 400,
        opponent_behind: 0,
        raises: 1,
        acted: 0b10,
    };
    assert_eq!(
        game.moves_at(&facing_a_shove),
        vec![Move::Fold, Move::Passive],
        "there is nothing to do against a shove but pay it or not"
    );

    // The same spot with the opponent still holding chips is a real
    // decision, which is what makes the difference above meaningful.
    let contested = Spot {
        opponent_behind: 300,
        ..facing_a_shove
    };
    let moves = game.moves_at(&contested);
    assert!(
        moves.contains(&Move::Jam),
        "with chips behind on both sides a raise is a move; got {moves:?}"
    );
}

#[test]
fn out_of_position_acts_first_on_every_street() {
    let game = game();
    let state = dealt(&game);
    assert_eq!(game.current_player(&state), 1, "on the flop");

    // Checked through to the turn.
    let turn = play(&game, state, &[Move::Passive, Move::Passive]);
    assert_eq!(turn.street(), Street::Turn);
    assert_eq!(game.current_player(&turn), 1, "and again on the turn");
}

#[test]
fn checking_through_reaches_showdown_with_the_pot_untouched() {
    let game = game();
    let state = play(
        &game,
        dealt(&game),
        &[
            Move::Passive, Move::Passive, // flop
            Move::Passive, Move::Passive, // turn
            Move::Passive, Move::Passive, // river
        ],
    );
    assert!(game.is_terminal(&state));
    assert_eq!(state.pot(), 1_000, "nobody bet, so the pot is what it was");
}

#[test]
fn folding_with_nothing_owed_is_not_offered() {
    let game = game();
    let moves = game.moves(&dealt(&game));
    assert!(!moves.contains(&Move::Fold), "facing no bet: {moves:?}");
    assert!(moves.contains(&Move::Passive));
}

/// Folding gives up the pot, which is what makes it a decision.
#[test]
fn folding_gives_up_the_pot() {
    let game = game();
    let felt = Felt::new();
    let state = play(&game, dealt(&game), &[Move::Large, Move::Fold]);
    assert!(game.is_terminal(&state));
    // Player 0 folds without having put a chip in, so loses none of their
    // own — and gives up their claim on the thousand already in the middle.
    // Measured against the two splitting it, that is half.
    assert_eq!(chips(game.terminal_utility(&state, &felt.ranks(&state))), -500.0);
}

#[test]
fn a_bet_reopens_the_action_for_the_other_player() {
    let game = game();
    let state = play(&game, dealt(&game), &[Move::Passive, Move::Large]);
    assert!(!game.is_terminal(&state));
    assert_eq!(game.current_player(&state), 1, "back to the bettor's opponent");
}

#[test]
fn payoffs_are_zero_sum_and_bounded_by_the_stack() {
    // Chips move between players and are never created, and nobody can lose
    // more than they brought.
    let game = game();
    let felt = Felt::new();
    let mut stream = Stream(21);
    for round in 0..400 {
        let mut state = felt.deal(&game, &mut stream);
        while !game.is_terminal(&state) {
            let count = game.num_actions(&state);
            assert!(count >= 2, "only {count} action(s) at {state:?}");
            state = game.apply(&state, stream.below(count));
        }
        let ranks = felt.ranks(&state);
        let hero = chips(game.utility_for(&state, 0, &ranks));
        let villain = chips(game.utility_for(&state, 1, &ranks));
        assert!(
            (hero + villain).abs() < 1e-9,
            "round {round}: {hero} and {villain} do not sum to zero"
        );
        assert!(
            hero.abs() <= 11_000.0,
            "round {round}: {hero} exceeds what anyone brought"
        );
    }
}

#[test]
fn nobody_wagers_more_than_they_have() {
    let game = game();
    let felt = Felt::new();
    let mut stream = Stream(33);
    for _ in 0..400 {
        let mut state = felt.deal(&game, &mut stream);
        while !game.is_terminal(&state) {
            let count = game.num_actions(&state);
            state = game.apply(&state, stream.below(count));
            for player in 0..2 {
                assert!(
                    state.spent[player] + state.wagered[player] <= 10_000,
                    "player {player} has put in more than their stack: {state:?}"
                );
            }
        }
    }
}

#[test]
fn the_two_players_never_hold_the_same_card() {
    let game = game();
    let felt = Felt::new();
    let mut stream = Stream(41);
    for _ in 0..500 {
        let state = felt.deal(&game, &mut stream);
        let (mine, theirs) = (felt.holdings[state.holding(0)], felt.holdings[state.holding(1)]);
        assert!(
            !mine.iter().any(|card| theirs.contains(card)),
            "{mine:?} and {theirs:?} share a card"
        );
    }
}

#[test]
fn no_two_situations_share_a_key_while_offering_different_actions() {
    // The solver caches the action count against the key, so a collision
    // does not blur a strategy — it indexes past the end of another one.
    let game = game();
    let felt = Felt::new();
    let mut stream = Stream(0xC0FFEE);
    let mut seen: HashMap<u64, usize> = HashMap::new();
    for _ in 0..3_000 {
        let mut state = felt.deal(&game, &mut stream);
        while !game.is_terminal(&state) {
            let count = game.num_actions(&state);
            let strength = (state.holding(game.current_player(&state)) % 10) as u8;
            let key = game.info_key(&state, strength);
            match seen.get(&key) {
                Some(&before) => assert_eq!(before, count, "key {key} at {state:?}"),
                None => {
                    seen.insert(key, count);
                }
            }
            state = game.apply(&state, stream.below(count));
        }
    }
}

/// The prices and depths that spots are told apart by.
#[test]
fn prices_and_depths_fall_into_bands() {
    let spot = Spot {
        live: 2,
        street: Street::Flop,
        player: 0,
        strength: 5,
        pot: 100,
        bet: 0,
        mine: 0,
        behind: 400,
        opponent_behind: 400,
        raises: 0,
        acted: 0,
    };
    assert_eq!(spot.owed(), 0);
    assert_eq!(spot.price_band(), 0);
    let facing = Spot { bet: 75, pot: 175, ..spot };
    assert_eq!(facing.owed(), 75);
    assert_eq!(facing.price_band(), 3);
    assert_eq!(spot.depth_band(), 0);
    let shallow = Spot { behind: 20, opponent_behind: 20, ..spot };
    assert_eq!(shallow.depth_band(), 2);
}

/// The nearest keys come first, and the exact one before all.
#[test]
fn a_search_begins_with_the_exact_key() {
    let game = Postflop::for_play(48, 100, 1_000, Sizing::default());
    let spot = Spot {
        live: 2,
        street: Street::Turn,
        player: 1,
        strength: 47,
        pot: 400,
        bet: 200,
        mine: 60,
        behind: 800,
        opponent_behind: 800,
        raises: 2,
        acted: 1,
    };
    let keys = game.keys_near(&spot);
    assert_eq!(keys[0], game.key_at(&spot));
    assert!(keys.len() > 1);
    let distinct: std::collections::HashSet<u64> = keys.iter().copied().collect();
    assert_eq!(distinct.len(), keys.len());
}

#[test]
fn bands_are_those_of_double_precision() {
    let spot = |pot: u64, bet: u64, behind: u64| Spot {
        street: Street::Flop,
        player: 0,
        live: 2,
        strength: 0,
        pot,
        bet,
        mine: 0,
        behind,
        opponent_behind: 1,
        raises: 0,
        acted: 0,
    };
    let odd = [1 << 50, (1 << 53) - 1, (1 << 53) + 1, (1 << 62) - 1, u64::MAX - 1_024, u64::MAX];
    let amounts: Vec<u64> = (0..70).chain(odd).collect();
    for &pot in &amounts {
        for &other in &amounts {
            let spot = spot(pot, other, other);
            let middle = pot.max(1) as f64;
            let price = ((other as f64 / middle) * 6.0).round().min(7.0) as u64;
            assert_eq!(spot.price_band(), price, "{other} into {pot}");
            let depth = ((middle / other.max(1) as f64).log2().max(0.0) as u64).min(7);
            assert_eq!(spot.depth_band(), depth, "{pot} over {other}");
        }
    }
    assert_eq!(spot((1 << 53) - 1, 0, 1 << 50).depth_band(), 3);
    // Just below each power of two.
    for power in 1..=7 {
        for less in 1..6 {
            let pot = (1u64 << 53) - less;
            let behind = 1u64 << (53 - power);
            let depth = ((pot as f64 / behind as f64).log2().max(0.0) as u64).min(7);
            assert_eq!(spot(pot, 0, behind).depth_band(), depth, "{less} below {power}");
        }
    }
}
