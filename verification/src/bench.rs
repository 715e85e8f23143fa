//! Simple opponents to measure a strategy against.
//!
//! The first three do one thing whatever happens, and anything that cannot
//! beat them is broken. [`ChartBot`] plays recognisable poker: it folds bad
//! hands and bets good ones, without bluffing or balance.
use vstd::prelude::*;

use crate::abstraction;
use crate::abstraction::HandClass;
use crate::betting::Action;
use crate::betting::LegalActions;
use crate::betting::Street;
use crate::card::Card;
use crate::eval;
use crate::eval::Category;
use crate::table::PlayerView;

verus! {

/// Folds whenever folding is legal.
#[derive(Debug, Default, Clone, Copy)]
pub struct AlwaysFold;

impl AlwaysFold {
    /// The name of the opponent.
    pub fn name(&self) -> (name: &'static str)
        ensures
            name@ == "always-fold"@,
    {
        "always-fold"
    }

    /// What it does.
    pub fn act(&self, legal: &LegalActions) -> (action: Action)
        ensures
            action == (if legal.can_fold {
                Action::Fold
            } else {
                Action::Check
            }),
    {
        if legal.can_fold {
            Action::Fold
        } else {
            Action::Check
        }
    }
}

/// Calls everything and never raises.
#[derive(Debug, Default, Clone, Copy)]
pub struct AlwaysCall;

impl AlwaysCall {
    /// The name of the opponent.
    pub fn name(&self) -> (name: &'static str)
        ensures
            name@ == "always-call"@,
    {
        "always-call"
    }

    /// What it does.
    pub fn act(&self, legal: &LegalActions) -> (action: Action)
        ensures
            action == (if legal.can_check {
                Action::Check
            } else {
                Action::Call
            }),
    {
        if legal.can_check {
            Action::Check
        } else {
            Action::Call
        }
    }
}

/// Moves all in at every opportunity.
#[derive(Debug, Default, Clone, Copy)]
pub struct AlwaysJam;

impl AlwaysJam {
    /// The name of the opponent.
    pub fn name(&self) -> (name: &'static str)
        ensures
            name@ == "always-jam"@,
    {
        "always-jam"
    }

    /// What it does.
    pub fn act(&self, legal: &LegalActions) -> (action: Action)
        ensures
            action == (match legal.raise_to {
                Some((_, most)) => Action::RaiseTo(most),
                None => if legal.call_cost is Some {
                    Action::Call
                } else {
                    Action::Check
                },
            }),
    {
        match legal.raise_to {
            Some((_, most)) => Action::RaiseTo(most),
            None => {
                if legal.call_cost.is_some() {
                    Action::Call
                } else {
                    Action::Check
                }
            },
        }
    }
}

/// Whether what may be done is what a round of betting offers: checking or
/// calling, one of them, and folding only where something is owed.
pub open spec fn is_choice(legal: LegalActions) -> bool {
    &&& legal.can_check == (legal.call_cost is None)
    &&& legal.can_fold == (legal.call_cost is Some)
    &&& legal.raise_to matches Some((least, most)) ==> least <= most
}

/// The simple opponents never do what they may not.
pub proof fn law_simple_opponents_play_by_the_rules(legal: LegalActions)
    requires
        is_choice(legal),
    ensures
        legal.allows(
            if legal.can_fold {
                Action::Fold
            } else {
                Action::Check
            },
        ),
        legal.allows(
            if legal.can_check {
                Action::Check
            } else {
                Action::Call
            },
        ),
        legal.allows(
            match legal.raise_to {
                Some((_, most)) => Action::RaiseTo(most),
                None => if legal.call_cost is Some {
                    Action::Call
                } else {
                    Action::Check
                },
            },
        ),
{
}

/// Twice what a card is worth by the Chen formula: ten, eight, seven and six
/// for the court cards, and half its pips for any other.
pub open spec fn card_worth(rank: int) -> int {
    if rank == 12 {
        20
    } else if rank == 11 {
        16
    } else if rank == 10 {
        14
    } else if rank == 9 {
        12
    } else {
        rank + 2
    }
}

/// Twice what the cards between the two cost.
pub open spec fn gap_cost(gap: int) -> int {
    if gap == 0 {
        0
    } else if gap == 1 {
        2
    } else if gap == 2 {
        4
    } else if gap == 3 {
        8
    } else {
        10
    }
}

/// Twice the Chen score of a starting hand, before it is rounded up: the high
/// card, doubled for a pair and worth five at least; else two more for one
/// suit, less for a gap, and one more for low cards close together.
pub open spec fn doubled_chen(high: int, low: int, suited: bool) -> int {
    if high == low {
        if 2 * card_worth(high) < 10 {
            10
        } else {
            2 * card_worth(high)
        }
    } else {
        let gap = high - low - 1;
        card_worth(high) + (if suited {
            4int
        } else {
            0
        }) - gap_cost(gap) + (if gap <= 1 && high < 10 {
            2int
        } else {
            0
        })
    }
}

/// The Chen score of a starting hand.
pub open spec fn chen(high: int, low: int, suited: bool) -> int {
    (doubled_chen(high, low, suited) + 1) / 2
}

/// The strength of a made hand is at least a pair.
pub open spec fn is_made(cards: Set<Card>) -> bool {
    eval::strength(cards) / 0x100000 >= 1
}

/// A rule-based opponent.
#[derive(Debug, Clone, Copy, PartialEq, Eq)]
pub struct ChartBot {
    /// The Chen score it takes to enter a pot.
    pub open_threshold: i32,
    /// The Chen score it takes to call a raise.
    pub call_threshold: i32,
}

impl Default for ChartBot {
    fn default() -> (bot: ChartBot)
        ensures
            bot.open_threshold == 8,
            bot.call_threshold == 10,
    {
        ChartBot { open_threshold: 8, call_threshold: 10 }
    }
}

/// Twice what a card is worth.
fn worth_of(rank: u8) -> (worth: i32)
    requires
        rank < 13,
    ensures
        worth == card_worth(rank as int),
{
    match rank {
        12 => 20,
        11 => 16,
        10 => 14,
        9 => 12,
        other => other as i32 + 2,
    }
}

impl ChartBot {
    /// The Chen formula, which sorts starting hands about right.
    pub fn chen_score(class: HandClass) -> (score: i32)
        ensures
            score == chen(class@.high, class@.low, class@.suited),
    {
        let high: u8 = class.high().index();
        let low: u8 = class.low().index();
        let pair: bool = class.is_pair();
        let suited: bool = class.is_suited();
        let worth: i32 = worth_of(high);
        let doubled: i32 = if pair {
            if 2 * worth < 10 {
                10
            } else {
                2 * worth
            }
        } else {
            let gap: i32 = high as i32 - low as i32 - 1;
            let cost: i32 = match gap {
                0 => 0,
                1 => 2,
                2 => 4,
                3 => 8,
                _ => 10,
            };
            let bonus: i32 = if suited {
                4
            } else {
                0
            };
            let nudge: i32 = if gap <= 1 && high < 10 {
                2
            } else {
                0
            };
            worth + bonus - cost + nudge
        };
        if doubled >= 0 {
            (doubled + 1) / 2
        } else {
            -((-doubled) / 2)
        }
    }

    /// How strong the made hand is, once there is a board.
    pub fn made_hand(hole: &[Card; 2], board: &[Card]) -> (category: Category)
        requires
            3 <= board@.len() <= 5,
            (hole@ + board@).no_duplicates(),
        ensures
            category.order() == eval::strength((hole@ + board@).to_set()) / 0x100000,
    {
        let mut cards: Vec<Card> = Vec::new();
        cards.push(hole[0]);
        cards.push(hole[1]);
        assert(cards@ =~= hole@ + board@.take(0));
        let mut i: usize = 0;
        while i < board.len()
            invariant
                i <= board@.len(),
                cards@ == hole@ + board@.take(i as int),
            decreases board@.len() - i,
        {
            cards.push(board[i]);
            assert(board@.take(i + 1) =~= board@.take(i as int).push(board@[i as int]));
            assert(cards@ =~= hole@ + board@.take(i + 1));
            i = i + 1;
        }
        assert(board@.take(i as int) =~= board@);
        eval::evaluate(cards.as_slice()).category()
    }

    /// The name of the opponent.
    pub fn name(&self) -> (name: &'static str)
        ensures
            name@ == "chart-bot"@,
    {
        "chart-bot"
    }

    /// What it does before the flop with a hand of the score given.
    pub open spec fn before_flop(self, view: PlayerView, score: int, opening: Option<u64>) -> Action {
        if view.to_call > 0 {
            if score >= self.call_threshold {
                Action::Call
            } else {
                Action::Fold
            }
        } else {
            match opening {
                Some(target) if score >= self.open_threshold => Action::RaiseTo(target),
                _ => if view.legal.can_check {
                    Action::Check
                } else {
                    Action::Fold
                },
            }
        }
    }

    /// What it does after the flop, with a made hand or without one.
    pub open spec fn after_flop(self, view: PlayerView, made: bool, betting: Option<u64>) -> Action {
        if view.to_call > 0 {
            if made {
                Action::Call
            } else {
                Action::Fold
            }
        } else {
            match betting {
                Some(target) if made => Action::RaiseTo(target),
                _ => if view.legal.can_check {
                    Action::Check
                } else {
                    Action::Fold
                },
            }
        }
    }

    /// What it does. `opening` is what a raise of the whole pot comes to here
    /// and `betting` what one of two thirds of it does, where raising is legal.
    pub fn act(&self, view: &PlayerView, opening: Option<u64>, betting: Option<u64>) -> (action:
        Action)
        requires
            view.hole@[0] != view.hole@[1],
            view.street != Street::Preflop ==> 3 <= view.board@.len() <= 5 && (view.hole@
                + view.board@).no_duplicates(),
        ensures
            action == (if view.street == Street::Preflop {
                let class = abstraction::class_of(view.hole@[0], view.hole@[1]);
                self.before_flop(*view, chen(class.high, class.low, class.suited), opening)
            } else {
                self.after_flop(*view, is_made((view.hole@ + view.board@).to_set()), betting)
            }),
    {
        if view.street == Street::Preflop {
            let class: HandClass = HandClass::from_cards(view.hole[0], view.hole[1]);
            let score: i32 = ChartBot::chen_score(class);
            if view.to_call > 0 {
                return if score >= self.call_threshold {
                    Action::Call
                } else {
                    Action::Fold
                };
            }
            if score >= self.open_threshold {
                if let Some(target) = opening {
                    return Action::RaiseTo(target);
                }
            }
            return if view.legal.can_check {
                Action::Check
            } else {
                Action::Fold
            };
        }
        let made: bool = ChartBot::made_hand(&view.hole, view.board).index() >= 1;
        if view.to_call > 0 {
            return if made {
                Action::Call
            } else {
                Action::Fold
            };
        }
        if made {
            if let Some(target) = betting {
                return Action::RaiseTo(target);
            }
        }
        if view.legal.can_check {
            Action::Check
        } else {
            Action::Fold
        }
    }
}

/// Whose result a seat's is once the seating has moved on by `rotations`.
pub open spec fn agent_in(seat: int, rotations: int, players: int) -> int {
    (seat + rotations) % players
}

/// Adds the result of a hand to the totals of the agents that sat in it, the
/// seating having moved on by `rotations`.
pub fn credit(totals: &mut Vec<i64>, net: &[i64], rotations: usize)
    requires
        net@.len() == old(totals)@.len(),
        0 < net@.len(),
        rotations < net@.len(),
        forall|seat: int|
            0 <= seat < net@.len() ==> {
                let agent = agent_in(seat, rotations as int, net@.len() as int);
                i64::MIN <= old(totals)@[agent] + #[trigger] net@[seat] <= i64::MAX
            },
    ensures
        final(totals)@.len() == old(totals)@.len(),
        forall|seat: int|
            0 <= seat < net@.len() ==> {
                let agent = agent_in(seat, rotations as int, net@.len() as int);
                final(totals)@[agent] == old(totals)@[agent] + #[trigger] net@[seat]
            },
{
    let players: usize = net.len();
    let ghost before = totals@;
    let mut seat: usize = 0;
    while seat < players
        invariant
            seat <= players,
            players == net@.len(),
            rotations < players,
            totals@.len() == players,
            before.len() == players,
            forall|s: int|
                0 <= s < players ==> {
                    let agent = agent_in(s, rotations as int, players as int);
                    i64::MIN <= before[agent] + #[trigger] net@[s] <= i64::MAX
                },
            forall|s: int|
                0 <= s < players ==> totals@[#[trigger] agent_in(
                    s,
                    rotations as int,
                    players as int,
                )] == added(before, net@, s, rotations as int, seat as int),
        decreases players - seat,
    {
        let agent: usize = if seat < players - rotations {
            seat + rotations
        } else {
            seat - (players - rotations)
        };
        proof {
            lemma_agent(seat as int, rotations as int, players as int);
            assert(net@[seat as int] == net@[seat as int]);
        }
        let ghost held = totals@;
        totals.set(agent, totals[agent] + net[seat]);
        assert forall|s: int| 0 <= s < players implies totals@[#[trigger] agent_in(
            s,
            rotations as int,
            players as int,
        )] == added(before, net@, s, rotations as int, seat + 1) by {
            lemma_agent(s, rotations as int, players as int);
            assert(held[agent_in(s, rotations as int, players as int)] == added(
                before,
                net@,
                s,
                rotations as int,
                seat as int,
            ));
        }
        seat = seat + 1;
    }
    assert forall|s: int| 0 <= s < players implies totals@[agent_in(
        s,
        rotations as int,
        players as int,
    )] == before[agent_in(s, rotations as int, players as int)] + #[trigger] net@[s] by {
        assert(totals@[agent_in(s, rotations as int, players as int)] == added(
            before,
            net@,
            s,
            rotations as int,
            players as int,
        ));
    }
}

/// What the agent in a seat has once the results of the first `count` seats
/// are added.
spec fn added(before: Seq<i64>, net: Seq<i64>, seat: int, rotations: int, count: int) -> int {
    before[agent_in(seat, rotations, net.len() as int)] + (if seat < count {
        net[seat] as int
    } else {
        0
    })
}

proof fn lemma_agent(seat: int, rotations: int, players: int)
    requires
        0 <= seat < players,
        0 <= rotations < players,
    ensures
        agent_in(seat, rotations, players) == (if seat + rotations < players {
            seat + rotations
        } else {
            seat + rotations - players
        }),
{
    let sum = seat + rotations;
    assert(sum < players ==> sum % players == sum) by (nonlinear_arith)
        requires
            0 <= sum,
            0 < players,
    ;
    assert(players <= sum < 2 * players ==> sum % players == sum - players) by (nonlinear_arith)
        requires
            0 <= sum,
            0 < players,
    ;
}

/// Over a whole turn of the seating every agent sits in every seat once.
pub proof fn law_every_agent_sits_in_every_seat(agent: int, seat: int, players: int)
    requires
        0 <= agent < players,
        0 <= seat < players,
    ensures
        exists|turn: int|
            0 <= turn < players && #[trigger] agent_in(seat, turn, players) == agent,
        forall|one: int, other: int|
            0 <= one < other < players ==> #[trigger] agent_in(seat, one, players)
                != #[trigger] agent_in(seat, other, players),
{
    let turn = if agent >= seat {
        agent - seat
    } else {
        agent - seat + players
    };
    lemma_agent(seat, turn, players);
    assert(agent_in(seat, turn, players) == agent);
    assert forall|one: int, other: int| 0 <= one < other < players implies #[trigger] agent_in(
        seat,
        one,
        players,
    ) != #[trigger] agent_in(seat, other, players) by {
        lemma_agent(seat, one, players);
        lemma_agent(seat, other, players);
    }
}

/// A pair scores more than the same high card beside one of another suit, being
/// of one suit always scores more, and a smaller gap below the same card never
/// less.
pub proof fn law_chen_scores_sort_hands(high: int, low: int, lower: int, suited: bool)
    requires
        0 <= lower <= low < high < 13,
    ensures
        chen(high, high, false) > chen(high, low, false),
        chen(high, low, true) > chen(high, low, false),
        chen(high, low, suited) >= chen(high, lower, suited),
{
}

/// The result of a match of two agents, in which every deal is played twice
/// with the seats and the holdings exchanged. What the deck did, it did to
/// both.
///
/// Everything is counted over pairs of hands and not over hands: the two halves
/// of a pair are meant to be correlated.
#[derive(Debug, Clone, PartialEq, Eq)]
pub struct MatchReport {
    pub names: [String; 2],
    /// Deals, each of them two hands.
    pub pairs: u64,
    /// Chips that the first agent has won.
    pub total: i128,
    /// The squares of what the first agent has won in each pair.
    pub squares: i128,
    /// Hands that reached showdown.
    pub showdowns: u64,
}

/// The sum of results.
pub open spec fn sum(results: Seq<int>) -> int
    decreases results.len(),
{
    if results.len() == 0 {
        0
    } else {
        sum(results.drop_last()) + results.last()
    }
}

/// The sum of the squares of results.
pub open spec fn sum_of_squares(results: Seq<int>) -> int
    decreases results.len(),
{
    if results.len() == 0 {
        0
    } else {
        sum_of_squares(results.drop_last()) + results.last() * results.last()
    }
}

/// How far results are from each other, over their number: as many times the
/// sum of the squared distances from their mean as there are results.
pub open spec fn spread(count: int, total: int, squares: int) -> int {
    count * squares - total * total
}

/// Whether a mean is further from nothing than its error allows, at 95%
/// confidence: 1.96 standard errors, whose square is 2401/625. A single result has
/// no error.
pub open spec fn is_edge(count: int, total: int, squares: int) -> bool {
    if count <= 1 {
        total != 0
    } else {
        625 * (count - 1) * (total * total) > 2401 * spread(count, total, squares)
    }
}

impl MatchReport {
    /// Whether the report is one of these results, pair by pair.
    pub open spec fn reports(self, results: Seq<int>) -> bool {
        &&& self.pairs == results.len()
        &&& self.total == sum(results)
        &&& self.squares == sum_of_squares(results)
    }

    /// Whether the figures can be weighed against each other by machine.
    pub open spec fn countable(self) -> bool {
        &&& (625 * self.pairs + 1776) * (self.total * self.total) <= i128::MAX
        &&& 2401 * (self.pairs * self.squares) <= i128::MAX
        &&& 0 <= self.squares
    }

    /// A match that has not begun.
    pub fn new(first: String, second: String) -> (report: MatchReport)
        ensures
            report.reports(Seq::empty()),
            report.showdowns == 0,
            report.names@[0]@ == first@,
            report.names@[1]@ == second@,
    {
        MatchReport { names: [first, second], pairs: 0, total: 0, squares: 0, showdowns: 0 }
    }

    /// Counts a pair: what the first agent won in seat 0, and what it won with
    /// the seats exchanged, and how many of the two hands reached showdown.
    pub fn note_pair(&mut self, forward: i64, reverse: i64, showdowns: u64)
        requires
            old(self).pairs < u64::MAX,
            old(self).showdowns + showdowns <= u64::MAX,
            i128::MIN <= old(self).total + forward + reverse <= i128::MAX,
            old(self).squares + (forward + reverse) * (forward + reverse) <= i128::MAX,
            0 <= old(self).squares,
        ensures
            final(self).pairs == old(self).pairs + 1,
            final(self).total == old(self).total + forward + reverse,
            final(self).squares == old(self).squares + (forward + reverse) * (forward + reverse),
            forall|results: Seq<int>|
                old(self).reports(results) ==> #[trigger] final(self).reports(
                    results.push(forward + reverse),
                ),
            final(self).showdowns == old(self).showdowns + showdowns,
            final(self).names == old(self).names,
            0 <= final(self).squares,
    {
        let net: i128 = forward as i128 + reverse as i128;
        assert(0 <= net * net <= 0x2_0000_0000_0000_0000 * 0x2_0000_0000_0000_0000) by (nonlinear_arith)
            requires
                -0x2_0000_0000_0000_0000 <= net <= 0x2_0000_0000_0000_0000,
        ;
        assert(net * net == (forward + reverse) * (forward + reverse));
        let square: i128 = net * net;
        let ghost before = *self;
        self.pairs = self.pairs + 1;
        self.total = self.total + net;
        self.squares = self.squares + square;
        self.showdowns = self.showdowns + showdowns;
        assert forall|results: Seq<int>| before.reports(results) implies #[trigger] self.reports(
            results.push(forward + reverse),
        ) by {
            assert(results.push(forward + reverse).drop_last() =~= results);
        }
    }

    /// Hands played, both halves of every pair.
    pub fn hands(&self) -> (hands: u64)
        requires
            2 * self.pairs <= u64::MAX,
        ensures
            hands == 2 * self.pairs,
    {
        2 * self.pairs
    }

    /// Whether the measured edge can be told from nothing. Without this a win
    /// rate means little: over a few thousand hands a losing strategy shows a
    /// profit often enough.
    pub fn is_significant(&self) -> (significant: bool)
        requires
            self.countable(),
            self.pairs > 0,
        ensures
            significant == is_edge(self.pairs as int, self.total as int, self.squares as int),
    {
        if self.pairs <= 1 {
            return self.total != 0;
        }
        let ghost (n, s, q) = (self.pairs as int, self.total as int, self.squares as int);
        let ghost square = s * s;
        assert(0 <= square <= i128::MAX && (625 * n + 1776) * square >= 0) by (nonlinear_arith)
            requires
                n >= 2,
                square == s * s,
                (625 * n + 1776) * square <= i128::MAX,
        ;
        assert(0 <= n * q <= i128::MAX) by (nonlinear_arith)
            requires
                n >= 2,
                q >= 0,
                2401 * (n * q) <= i128::MAX,
        ;
        assert((625 * n + 1776) * square == 625 * (n - 1) * square + 2401 * square) by (nonlinear_arith);
        let pairs: i128 = self.pairs as i128;
        let edge: i128 = (625 * pairs + 1776) * (self.total * self.total);
        edge > 2401 * (pairs * self.squares)
    }

    /// Whether the first agent beat the second, at 95% confidence.
    pub fn first_agent_wins(&self) -> (wins: bool)
        requires
            self.countable(),
            self.pairs > 0,
        ensures
            wins == (self.total > 0 && is_edge(
                self.pairs as int,
                self.total as int,
                self.squares as int,
            )),
    {
        self.total > 0 && self.is_significant()
    }

    /// The first agent's win rate in chips for a hundred hands, as a fraction.
    pub fn per_hundred(&self) -> (rate: (i128, u64))
        requires
            self.pairs > 0,
            i128::MIN <= 50 * self.total <= i128::MAX,
        ensures
            rate.0 == 50 * self.total,
            rate.1 == self.pairs,
    {
        (50 * self.total, self.pairs)
    }
}

/// Agents that play alike have no edge: with the deal exchanged, whatever one
/// wins in a seat the other wins there too.
pub proof fn law_playing_alike_has_no_edge(results: Seq<int>)
    requires
        forall|i: int| 0 <= i < results.len() ==> #[trigger] results[i] == 0,
    ensures
        !is_edge(results.len() as int, sum(results), sum_of_squares(results)),
{
    lemma_no_results(results);
    let n = results.len() as int;
    assert(625 * (n - 1) * (0 * 0) == 0 && n * 0 - 0 * 0 == 0) by (nonlinear_arith);
}

proof fn lemma_no_results(results: Seq<int>)
    requires
        forall|i: int| 0 <= i < results.len() ==> #[trigger] results[i] == 0,
    ensures
        sum(results) == 0,
        sum_of_squares(results) == 0,
    decreases results.len(),
{
    if results.len() > 0 {
        assert forall|i: int| 0 <= i < results.drop_last().len() implies #[trigger] results.drop_last()[i]
            == 0 by {
            assert(results[i] == 0);
        }
        lemma_no_results(results.drop_last());
    }
}

/// An agent that wins the same in every pair, however little, wins for sure;
/// and one that loses it loses for sure.
pub proof fn law_a_steady_edge_is_significant(results: Seq<int>, each: int)
    requires
        results.len() > 0,
        each != 0,
        forall|i: int| 0 <= i < results.len() ==> #[trigger] results[i] == each,
    ensures
        is_edge(results.len() as int, sum(results), sum_of_squares(results)),
        sum(results) > 0 <==> each > 0,
{
    let n = results.len() as int;
    lemma_steady(results, each);
    assert(n * (n * (each * each)) == (n * each) * (n * each)) by (nonlinear_arith);
    assert((n * each) * (n * each) > 0 && (n * each > 0 <==> each > 0)) by (nonlinear_arith)
        requires
            n > 0,
            each != 0,
    ;
    if n > 1 {
        let square = (n * each) * (n * each);
        assert(625 * (n - 1) * square > 0) by (nonlinear_arith)
            requires
                n > 1,
                square > 0,
        ;
    }
}

proof fn lemma_steady(results: Seq<int>, each: int)
    requires
        forall|i: int| 0 <= i < results.len() ==> #[trigger] results[i] == each,
    ensures
        sum(results) == results.len() * each,
        sum_of_squares(results) == results.len() * (each * each),
    decreases results.len(),
{
    if results.len() > 0 {
        let shorter = results.drop_last();
        assert forall|i: int| 0 <= i < shorter.len() implies #[trigger] shorter[i] == each by {
            assert(results[i] == each);
        }
        lemma_steady(shorter, each);
        let n = results.len() as int;
        assert(n * each == (n - 1) * each + each) by (nonlinear_arith);
        assert(n * (each * each) == (n - 1) * (each * each) + each * each) by (nonlinear_arith);
        assert(results.last() == each);
    }
}

/// The result of a game of several agents, in which the seating moves on by
/// one with every hand, so that every agent sits in every seat.
#[derive(Debug, Clone, PartialEq, Eq)]
pub struct RingReport {
    pub names: Vec<String>,
    pub hands: u64,
    /// What each agent has won, in the order of the names.
    pub totals: Vec<i64>,
    /// Hands that reached showdown.
    pub showdowns: u64,
    /// How far the seating has moved on.
    pub rotations: usize,
}

impl RingReport {
    /// Whether there is a total for every agent, and the seating is one.
    pub open spec fn sound(self) -> bool {
        self.names@.len() == self.totals@.len() && self.rotations < self.totals@.len()
    }

    /// A game that has not begun.
    pub fn new(names: Vec<String>) -> (report: RingReport)
        requires
            names@.len() >= 2,
        ensures
            report.sound(),
            report.names == names,
            report.hands == 0,
            report.showdowns == 0,
            report.rotations == 0,
            forall|i: int| 0 <= i < report.totals@.len() ==> #[trigger] report.totals@[i] == 0,
    {
        let mut totals: Vec<i64> = Vec::new();
        while totals.len() < names.len()
            invariant
                totals@.len() <= names@.len(),
                forall|i: int| 0 <= i < totals@.len() ==> #[trigger] totals@[i] == 0,
            decreases names@.len() - totals@.len(),
        {
            totals.push(0);
        }
        RingReport { names, hands: 0, totals, showdowns: 0, rotations: 0 }
    }

    /// Counts a hand: what each seat won, and whether it reached showdown.
    pub fn note_hand(&mut self, net: &[i64], showdown: bool)
        requires
            old(self).sound(),
            net@.len() == old(self).totals@.len(),
            old(self).hands < u64::MAX,
            old(self).showdowns < u64::MAX,
            forall|seat: int|
                0 <= seat < net@.len() ==> {
                    let agent = agent_in(seat, old(self).rotations as int, net@.len() as int);
                    i64::MIN <= old(self).totals@[agent] + #[trigger] net@[seat] <= i64::MAX
                },
        ensures
            final(self).sound(),
            final(self).names == old(self).names,
            final(self).hands == old(self).hands + 1,
            final(self).showdowns == old(self).showdowns + (if showdown {
                1int
            } else {
                0
            }),
            final(self).rotations == (old(self).rotations + 1) % (net@.len() as int),
            final(self).totals@.len() == old(self).totals@.len(),
            forall|seat: int|
                0 <= seat < net@.len() ==> {
                    let agent = agent_in(seat, old(self).rotations as int, net@.len() as int);
                    final(self).totals@[agent] == old(self).totals@[agent] + #[trigger] net@[seat]
                },
    {
        let players: usize = net.len();
        let rotations: usize = self.rotations;
        credit(&mut self.totals, net, rotations);
        self.hands = self.hands + 1;
        if showdown {
            self.showdowns = self.showdowns + 1;
        }
        proof {
            let next = rotations + 1;
            if next < players {
                vstd::arithmetic::div_mod::lemma_small_mod(next as nat, players as nat);
            } else {
                vstd::arithmetic::div_mod::lemma_mod_self_0(players as int);
            }
        }
        self.rotations = if rotations + 1 < players {
            rotations + 1
        } else {
            0
        };
    }
}

/// The Chen formula. A pair scores twice its card, and five at least; a card is
/// worth ten, eight, seven or six from the ace to the jack and half its pips
/// below. One suit is two points more.
pub proof fn law_chen_scores_by_the_formula(high: int, low: int)
    requires
        0 <= low < high < 13,
    ensures
        ({
            let twice = if high == 12 {
                20int
            } else if high == 11 {
                16
            } else if high == 10 {
                14
            } else if high == 9 {
                12
            } else {
                high + 2
            };
            let lost = if high - low == 1 {
                0int
            } else if high - low == 2 {
                1
            } else if high - low == 3 {
                2
            } else if high - low == 4 {
                4
            } else {
                5
            };
            let bonus = if high - low <= 2 && high < 10 {
                1int
            } else {
                0
            };
            &&& chen(high, high, false) == (if twice < 5 {
                5
            } else {
                twice
            })
            &&& chen(high, low, true) == chen(high, low, false) + 2
            &&& 0 <= 2 * chen(high, low, false) - (twice - 2 * lost + 2 * bonus) <= 1
        }),
        chen(low, low, false) <= chen(high, high, false),
{
}

/// What the rule-based opponent does before the flop: facing a bet it calls with
/// its calling score and folds with less; with nothing to call it raises with
/// its opening score where there is a raise, and checks otherwise.
pub proof fn law_the_chart_bot_plays_its_thresholds(
    bot: ChartBot,
    view: PlayerView,
    score: int,
    opening: Option<u64>,
)
    ensures
        ({
            let action = bot.before_flop(view, score, opening);
            &&& action is Call <==> view.to_call > 0 && score >= bot.call_threshold
            &&& view.to_call > 0 && score < bot.call_threshold ==> action is Fold
            &&& action is RaiseTo <==> view.to_call == 0 && opening is Some && score >= bot.open_threshold
            &&& action matches Action::RaiseTo(to) ==> opening == Some(to)
            &&& action is Check <==> view.to_call == 0 && view.legal.can_check && !(opening is Some && score
                >= bot.open_threshold)
        }),
{
}

/// What it does after the flop: with a pair or better it calls a bet, and bets
/// where nobody has; with less it folds to a bet and checks.
pub proof fn law_the_chart_bot_plays_made_hands(bot: ChartBot, view: PlayerView, made: bool, betting: Option<u64>)
    ensures
        ({
            let action = bot.after_flop(view, made, betting);
            &&& action is Call <==> view.to_call > 0 && made
            &&& view.to_call > 0 && !made ==> action is Fold
            &&& action is RaiseTo <==> view.to_call == 0 && made && betting is Some
            &&& action matches Action::RaiseTo(to) ==> betting == Some(to)
            &&& action is Check <==> view.to_call == 0 && view.legal.can_check && !(made && betting is Some)
        }),
{
}

/// A hand is made where the best five of its cards hold a pair or better.
pub proof fn law_a_made_hand_is_a_pair_or_better(cards: Set<Card>, best: eval::Value)
    requires
        eval::makes(cards, best),
        eval::is_best(cards, best.packed()),
        best.in_range(),
    ensures
        is_made(cards) <==> best.category != Category::HighCard,
{
    let found = eval::strength(cards);
    assert(eval::is_best(cards, found));
    let other = choose|v: eval::Value| #[trigger] eval::makes(cards, v) && v.packed() == found;
    assert(found == best.packed());
    let rest = best.first * 0x10000 + best.second * 0x1000 + best.third * 0x100 + best.fourth * 0x10 + best.fifth;
    assert(0 <= rest < 0x100000);
}

/// The seating moves on by one with every hand: nobody has moved before the
/// first, and whoever's result a seat's was, the next one's is it a hand later.
pub proof fn law_the_seating_moves_on_by_one(seat: int, rotations: int, players: int)
    requires
        0 <= seat < players,
        0 <= rotations < players,
    ensures
        agent_in(seat, 0, players) == seat,
        ({
            let (now, next) = (agent_in(seat, rotations, players), agent_in(seat, rotations + 1, players));
            &&& 0 <= now < players
            &&& next == (if now == players - 1 {
                0
            } else {
                now + 1
            })
        }),
{
    vstd::arithmetic::div_mod::lemma_small_mod(seat as nat, players as nat);
    let now = (seat + rotations) % players;
    vstd::arithmetic::div_mod::lemma_mod_bound(seat + rotations, players);
    vstd::arithmetic::div_mod::lemma_add_mod_noop_right(1, seat + rotations, players);
    assert((1 + now) % players == (1 + (seat + rotations)) % players);
    if now == players - 1 {
        vstd::arithmetic::div_mod::lemma_mod_self_0(players);
    } else {
        vstd::arithmetic::div_mod::lemma_small_mod((now + 1) as nat, players as nat);
    }
}

/// Whether an edge is one depends on neither its sign nor the stakes, and an
/// edge with less spread around it is one too.
pub proof fn law_an_edge_is_one_at_any_stakes(count: int, total: int, squares: int, less: int, factor: int)
    requires
        count > 1,
        factor != 0,
        less <= squares,
    ensures
        is_edge(count, -total, squares) == is_edge(count, total, squares),
        is_edge(count, factor * total, factor * factor * squares) == is_edge(count, total, squares),
        is_edge(count, total, squares) ==> is_edge(count, total, less),
        is_edge(count, total, squares) <==> 625 * (count - 1) * (total * total) > 2401 * (count * squares - total
            * total),
{
    let (a, b) = (625 * (count - 1) * (total * total), 2401 * spread(count, total, squares));
    assert((-total) * (-total) == total * total) by (nonlinear_arith);
    let scaled = factor * total;
    let square = factor * factor;
    assert(scaled * scaled == square * (total * total)) by (nonlinear_arith)
        requires
            scaled == factor * total,
            square == factor * factor,
    ;
    let whole = total * total;
    assert(625 * (count - 1) * (square * whole) == square * (625 * (count - 1) * whole)) by (nonlinear_arith);
    assert(2401 * (count * (square * squares) - square * whole) == square * (2401 * (count * squares - whole))) by (nonlinear_arith);
    assert(square > 0) by (nonlinear_arith)
        requires
            square == factor * factor,
            factor != 0,
    ;
    assert(square * a > square * b <==> a > b) by (nonlinear_arith)
        requires
            square > 0,
    ;
    assert(count * less <= count * squares) by (nonlinear_arith)
        requires
            count > 0,
            less <= squares,
    ;
}

/// A report of one more result has one more pair, the sum that much larger and
/// the squares larger by its square.
pub proof fn law_reports_add_up(before: MatchReport, after: MatchReport, none: MatchReport, results: Seq<int>, more: int)
    requires
        before.reports(results),
        after.reports(results.push(more)),
        none.reports(Seq::empty()),
    ensures
        after.pairs == before.pairs + 1,
        after.total == before.total + more,
        after.squares == before.squares + more * more,
        none.pairs == 0 && none.total == 0 && none.squares == 0,
{
    assert(results.push(more).drop_last() =~= results);
}

} // verus!
