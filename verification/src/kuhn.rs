//! Kuhn poker: three cards, two players, one ante and one bet each.
//!
//! It is the smallest game that still holds bluffing, value betting and
//! bluff-catching, and its equilibrium is known exactly, which makes it the
//! yardstick a solver is held against.
use vstd::prelude::*;

verus! {

/// The passive action: check when nothing is owed, fold when facing a bet.
pub const PASS: usize = 0;

/// The aggressive action: bet when nothing is owed, call when facing a bet.
pub const BET: usize = 1;

/// The jack, the weakest card.
pub const JACK: u8 = 0;

/// The queen.
pub const QUEEN: u8 = 1;

/// The king, the strongest card.
pub const KING: u8 = 2;

/// A node of the game tree.
#[derive(Debug, Clone, Copy, PartialEq, Eq)]
pub struct State {
    /// Each player's card. Meaningless until `dealt`.
    pub cards: [u8; 2],
    /// The actions so far, one per bit, the earliest in the lowest bit.
    pub history: u8,
    /// How many actions have been taken.
    pub len: u8,
    /// Whether the cards are out.
    pub dealt: bool,
}

impl State {
    /// Whether the actions of the state are ones that a hand can see.
    pub open spec fn reachable(self) -> bool {
        ||| self.len == 0 && self.history == 0
        ||| self.len == 1 && self.history <= 1
        ||| self.len == 2 && self.history <= 3
        ||| self.len == 3 && (self.history == 2 || self.history == 6)
    }

    /// Whether the hand is over: everything of two actions but check-bet, and
    /// everything of three.
    pub open spec fn finished(self) -> bool {
        (self.len == 2 && self.history != 2) || self.len == 3
    }

    /// What the showdown for `amount` gives player 0.
    pub open spec fn showdown(self, amount: int) -> int {
        if self.cards[0] > self.cards[1] {
            amount
        } else {
            -amount
        }
    }

    /// What the finished hand gives player 0: the ante where somebody folded,
    /// the ante or the ante and a bet where the cards were shown.
    pub open spec fn payoff(self) -> int {
        if self.len == 2 && self.history == 0 {
            self.showdown(1)
        } else if self.len == 2 && self.history == 1 {
            1
        } else if self.len == 3 && self.history == 2 {
            -1
        } else {
            self.showdown(2)
        }
    }

    /// The player to act: they take turns.
    pub open spec fn player(self) -> int {
        self.len as int % 2
    }

    /// The state with `action` taken.
    pub open spec fn after(self, action: int) -> State {
        State {
            history: self.history | ((action as u8) << self.len),
            len: (self.len + 1) as u8,
            ..self
        }
    }

    /// The state with the cards dealt.
    pub open spec fn with_cards(self, cards: [u8; 2]) -> State {
        State { cards, dealt: true, ..self }
    }

    /// The start of the hand, before the deal.
    pub fn root() -> (state: State)
        ensures
            state.cards@ == seq![0u8, 0u8],
            state.history == 0,
            state.len == 0,
            !state.dealt,
            state.reachable(),
    {
        State { cards: [0, 0], history: 0, len: 0, dealt: false }
    }

    /// The card held by `player`.
    pub fn card(&self, player: usize) -> (card: u8)
        requires
            player < 2,
        ensures
            card == self.cards@[player as int],
    {
        self.cards[player]
    }

    /// The actions so far, as a bitmask.
    pub fn history(&self) -> (history: u8)
        ensures
            history == self.history,
    {
        self.history
    }

    /// How many actions have been taken.
    pub fn len(&self) -> (len: u8)
        ensures
            len == self.len,
    {
        self.len
    }

    /// Whether nobody has acted.
    pub fn is_empty(&self) -> (empty: bool)
        ensures
            empty == (self.len == 0),
    {
        self.len == 0
    }
}

/// The key of a decision: the card, how many actions went before, and which.
pub open spec fn decision(card: u8, history: u8, len: u8) -> u64 {
    ((card as u64) << 8) | ((len as u64) << 4) | (history as u64)
}

/// The information set key of a player holding `card` after `len` actions
/// encoded as `history`.
pub fn info_key(card: u8, history: u8, len: u8) -> (key: u64)
    ensures
        key == decision(card, history, len),
{
    (card as u64) << 8 | (len as u64) << 4 | history as u64
}

/// The six deals, by the first player's card and then the second's.
pub open spec fn deals() -> Seq<Seq<u8>> {
    seq![
        seq![JACK, QUEEN],
        seq![JACK, KING],
        seq![QUEEN, JACK],
        seq![QUEEN, KING],
        seq![KING, JACK],
        seq![KING, QUEEN],
    ]
}

/// The rules of the game.
#[derive(Debug, Clone, Copy, Default)]
pub struct Kuhn;

impl Kuhn {
    /// The state a hand starts in.
    pub fn initial(&self) -> (state: State)
        ensures
            state.cards@ == seq![0u8, 0u8],
            state.history == 0,
            state.len == 0,
            !state.dealt,
            state.reachable(),
    {
        State::root()
    }

    /// Whether the hand is over.
    pub fn is_terminal(&self, state: &State) -> (over: bool)
        ensures
            over == state.finished(),
    {
        match state.len {
            2 => state.history != 2,
            3 => true,
            _ => false,
        }
    }

    /// What a finished hand gives player 0, in antes.
    pub fn terminal_utility(&self, state: &State) -> (value: i64)
        requires
            state.reachable(),
            state.finished(),
        ensures
            value == state.payoff(),
    {
        let ahead: bool = state.cards[0] > state.cards[1];
        if state.len == 2 && state.history == 0 {
            if ahead {
                1
            } else {
                -1
            }
        } else if state.len == 2 && state.history == 1 {
            1
        } else if state.len == 3 && state.history == 2 {
            -1
        } else if ahead {
            2
        } else {
            -2
        }
    }

    /// Whether the next step is the deal.
    pub fn is_chance(&self, state: &State) -> (chance: bool)
        ensures
            chance == !state.dealt,
    {
        !state.dealt
    }

    /// The states that the deal leads to, each as likely as the next.
    pub fn chance_outcomes(&self, state: &State) -> (outcomes: Vec<State>)
        ensures
            outcomes@.len() == deals().len(),
            forall|i: int|
                0 <= i < outcomes@.len() ==> {
                    &&& (#[trigger] outcomes@[i]).cards@ == deals()[i]
                    &&& outcomes@[i] == state.with_cards(outcomes@[i].cards)
                },
    {
        let mut outcomes: Vec<State> = Vec::new();
        let mut first: u8 = 0;
        while first < 3
            invariant
                first <= 3,
                outcomes@.len() == 2 * first,
                forall|i: int|
                    0 <= i < outcomes@.len() ==> {
                        &&& (#[trigger] outcomes@[i]).cards@ == deals()[i]
                        &&& outcomes@[i] == state.with_cards(outcomes@[i].cards)
                    },
            decreases 3 - first,
        {
            let low: u8 = if first == 0 {
                1
            } else {
                0
            };
            let high: u8 = if first == 2 {
                1
            } else {
                2
            };
            let lower: [u8; 2] = [first, low];
            let upper: [u8; 2] = [first, high];
            assert(lower@ =~= deals()[2 * first as int]);
            assert(upper@ =~= deals()[2 * first as int + 1]);
            outcomes.push(State { cards: lower, dealt: true, ..*state });
            outcomes.push(State { cards: upper, dealt: true, ..*state });
            first = first + 1;
        }
        outcomes
    }

    /// The player to act.
    pub fn current_player(&self, state: &State) -> (player: usize)
        ensures
            player == state.player(),
    {
        (state.len % 2) as usize
    }

    /// The information set of the player to act: their own card and the
    /// actions so far, never the opponent's card.
    pub fn info_key(&self, state: &State) -> (key: u64)
        ensures
            key == decision(state.cards@[state.player()], state.history, state.len),
    {
        let player: usize = self.current_player(state);
        info_key(state.cards[player], state.history, state.len)
    }

    /// How many actions the player to act has.
    pub fn num_actions(&self, state: &State) -> (count: usize)
        ensures
            count == 2,
    {
        2
    }

    /// The state after `action`.
    pub fn apply(&self, state: &State, action: usize) -> (next: State)
        requires
            action < 2,
            state.len < 8,
        ensures
            next == state.after(action as int),
    {
        State {
            history: state.history | ((action as u8) << state.len),
            len: state.len + 1,
            ..*state
        }
    }
}

/// A player cannot tell apart two states that differ only in the opponent's
/// card, and can tell apart any others: the keys of two reachable states are
/// equal exactly if the actions and the card of the player to act are.
pub proof fn law_only_the_opponents_card_is_hidden(one: State, other: State)
    requires
        one.reachable(),
        other.reachable(),
    ensures
        decision(one.cards@[one.player()], one.history, one.len) == decision(
            other.cards@[other.player()],
            other.history,
            other.len,
        ) <==> one.len == other.len && one.history == other.history
            && one.cards@[one.player()] == other.cards@[other.player()],
{
    let a: u8 = one.cards@[one.player()];
    let b: u8 = other.cards@[other.player()];
    let (h, k): (u8, u8) = (one.history, other.history);
    let (m, n): (u8, u8) = (one.len, other.len);
    assert(decision(a, h, m) == decision(b, k, n) ==> a == b && h == k && m == n) by (bit_vector)
        requires
            h < 16,
            k < 16,
            m < 16,
            n < 16,
    ;
}

/// Whatever is done at a reachable state that is not finished leads to a
/// reachable state, and no hand is longer than three actions.
pub proof fn law_every_hand_ends(state: State, action: int)
    requires
        state.reachable(),
        !state.finished(),
        0 <= action < 2,
    ensures
        state.after(action).reachable(),
        state.after(action).len == state.len + 1,
        state.after(action).len == 3 ==> state.after(action).finished(),
{
    let (h, n, a): (u8, u8, u8) = (state.history, state.len, action as u8);
    assert(n == 0 && h == 0 ==> (h | (a << n)) <= 1) by (bit_vector)
        requires
            a < 2,
    ;
    assert(n == 1 && h <= 1 ==> (h | (a << n)) <= 3) by (bit_vector)
        requires
            a < 2,
    ;
    assert(n == 2 && h == 2 ==> (h | (a << n)) == 2 || (h | (a << n)) == 6) by (bit_vector)
        requires
            a < 2,
    ;
}

/// A showdown is fair: with the cards exchanged the same actions give the
/// opposite result, and a fold gives the same result whatever the cards.
pub proof fn law_showdowns_mirror(state: State, exchanged: State)
    requires
        state.reachable(),
        state.finished(),
        exchanged.history == state.history,
        exchanged.len == state.len,
        exchanged.cards@ == seq![state.cards@[1], state.cards@[0]],
        state.cards@[0] != state.cards@[1],
    ensures
        state.history == 1 || (state.len == 3 && state.history == 2) ==> exchanged.payoff()
            == state.payoff(),
        !(state.history == 1 || (state.len == 3 && state.history == 2)) ==> exchanged.payoff()
            == -state.payoff(),
{
}

/// The deal never gives both players the same card, and gives every other
/// pair once.
pub proof fn law_deals_are_the_pairs_of_distinct_cards(first: u8, second: u8)
    requires
        first <= KING,
        second <= KING,
    ensures
        deals().contains(seq![first, second]) <==> first != second,
        forall|i: int, j: int|
            0 <= i < j < deals().len() ==> #[trigger] deals()[i] != #[trigger] deals()[j],
{
    let pair = seq![first, second];
    assert(forall|i: int| 0 <= i < 6 ==> (#[trigger] deals()[i])[0] != deals()[i][1]);
    assert(pair[0] == first && pair[1] == second);
    if first != second {
        let at: int = 2 * first + (if second < first {
            second as int
        } else {
            second - 1
        });
        assert(deals()[at] =~= pair);
    }
    assert forall|i: int, j: int| 0 <= i < j < deals().len() implies #[trigger] deals()[i]
        != #[trigger] deals()[j] by {
        assert(deals()[i][0] != deals()[j][0] || deals()[i][1] != deals()[j][1]);
    }
}

/// What a finished hand gives player 0. Where only one bet was made it was not
/// called, and the bettor wins the ante, whatever the cards; where none or two
/// were made the higher card wins, the ante without a bet and a bet more with
/// one.
pub proof fn law_bets_win_by_a_fold_or_a_better_card(state: State)
    requires
        state.reachable(),
        state.finished(),
        state.cards@[0] != state.cards@[1],
    ensures
        ({
            let history = state.history as int;
            let bets = history % 2 + history / 2 % 2 + history / 4 % 2;
            let higher = state.cards@[0] > state.cards@[1];
            let first_bet = history % 2 == 1;
            &&& bets == 1 ==> state.payoff() == (if first_bet {
                1int
            } else {
                -1
            })
            &&& bets == 0 ==> state.payoff() == (if higher {
                1int
            } else {
                -1
            })
            &&& bets == 2 ==> state.payoff() == (if higher {
                2int
            } else {
                -2
            })
            &&& bets <= 2
        }),
{
}

/// A hand is over when both have acted and no bet waits for an answer.
pub proof fn law_a_hand_is_over_when_a_bet_is_answered(state: State)
    requires
        state.reachable(),
    ensures
        ({
            let last = if state.len == 0 {
                0int
            } else if state.len == 1 {
                state.history as int % 2
            } else if state.len == 2 {
                state.history as int / 2 % 2
            } else {
                state.history as int / 4 % 2
            };
            let opened = state.history as int % 2 == 1;
            state.finished() <==> state.len == 3 || (state.len == 2 && (opened || last == 0))
        }),
{
}

/// Players take turns from player 0 on, and an action is remembered in its turn.
pub proof fn law_players_take_turns(state: State, action: int)
    requires
        state.reachable(),
        !state.finished(),
        0 <= action < 2,
    ensures
        state.len == 0 ==> state.player() == 0,
        state.after(action).player() == 1 - state.player(),
        state.after(action).history == state.history + (if state.len == 0 {
            action
        } else if state.len == 1 {
            2 * action
        } else {
            4 * action
        }),
        state.after(action).cards == state.cards,
{
    let (history, len) = (state.history, state.len);
    assert(history | (0u8 << len) == history && (history == 0 ==> history | (1u8 << 0u8) == 1) && (history <= 1 ==> history | (
    1u8 << 1u8) == history + 2) && (history == 2 ==> history | (1u8 << 2u8) == 6)) by (bit_vector)
        requires
            len < 8,
    ;
}

/// What a player knows at a decision: the own card, the actions so far and how
/// many, each in its own part of the key.
pub proof fn law_keys_show_card_and_actions(card: u8, history: u8, len: u8)
    requires
        history < 16,
        len < 16,
    ensures
        decision(card, history, len) == card * 256 + len * 16 + history,
{
    let (a, b, c) = (card as u64, len as u64, history as u64);
    assert((a << 8) | (b << 4) | c == a * 256 + b * 16 + c) by (bit_vector)
        requires
            a < 256,
            b < 16,
            c < 16,
    ;
}

/// Dealing gives the cards and changes nothing else.
pub proof fn law_dealing_only_deals(state: State, cards: [u8; 2])
    ensures
        ({
            let after = state.with_cards(cards);
            &&& after.cards == cards
            &&& after.dealt
            &&& after.history == state.history
            &&& after.len == state.len
        }),
{
}

} // verus!
