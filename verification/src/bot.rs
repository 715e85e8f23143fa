//! A stored strategy playing at a table.
//!
//! Between a table and a solve stands a translation: which solved spot a
//! decision belongs to, and what the solved move is in the table's chips. It is
//! conservative. A spot that it cannot identify is handed to a simple fallback,
//! and every such handover is counted with its reason.
//!
//! Drawing a move from a mixed strategy is the caller's part: what is looked up
//! here is handed out, and what was drawn is taken back.
use vstd::prelude::*;

use crate::abstraction;
use crate::bench::ChartBot;
use crate::betting::Action;
use crate::betting::LegalActions;
use crate::betting::Street;
use crate::blueprint;
use crate::blueprint::Blueprint;
use crate::bridge;
use crate::card::Card;
use crate::charts;
use crate::double;
use crate::double::ENDLESS;
use crate::eval;
use crate::postflop;
use crate::postflop::Move;
use crate::postflop::Postflop;
use crate::postflop::Spot;
use crate::table::PlayerView;
use crate::table::Position;
use crate::table::MOST_SEATS;
use crate::text;

verus! {

/// Why a decision went to the fallback.
#[derive(Debug, Clone, Copy, PartialEq, Eq, Structural)]
pub enum Reason {
    NothingLoaded,
    UnknownPrice,
    NoRung,
    TooManyPlayers,
    BeyondTheLadder,
    Disagreement,
    NeverVisited,
    NotAllowed,
}

impl Reason {
    /// The place of the reason among the reasons by name.
    pub open spec fn order(self) -> int {
        match self {
            Reason::NothingLoaded => 0,
            Reason::UnknownPrice => 1,
            Reason::NoRung => 2,
            Reason::TooManyPlayers => 3,
            Reason::BeyondTheLadder => 4,
            Reason::Disagreement => 5,
            Reason::NeverVisited => 6,
            Reason::NotAllowed => 7,
        }
    }

    /// The place of the reason among the reasons by name.
    pub fn index(self) -> (index: usize)
        ensures
            index == self.order(),
            index < 8,
    {
        match self {
            Reason::NothingLoaded => 0,
            Reason::UnknownPrice => 1,
            Reason::NoRung => 2,
            Reason::TooManyPlayers => 3,
            Reason::BeyondTheLadder => 4,
            Reason::Disagreement => 5,
            Reason::NeverVisited => 6,
            Reason::NotAllowed => 7,
        }
    }

    /// The reason in a place.
    pub fn from_index(index: usize) -> (reason: Reason)
        requires
            index < 8,
        ensures
            reason.order() == index,
    {
        match index {
            0 => Reason::NothingLoaded,
            1 => Reason::UnknownPrice,
            2 => Reason::NoRung,
            3 => Reason::TooManyPlayers,
            4 => Reason::BeyondTheLadder,
            5 => Reason::Disagreement,
            6 => Reason::NeverVisited,
            _ => Reason::NotAllowed,
        }
    }

    /// The words for the reason.
    pub open spec fn words(self) -> Seq<char> {
        match self {
            Reason::NothingLoaded => "no postflop solve loaded"@,
            Reason::UnknownPrice => "no price the solve knows is near this one"@,
            Reason::NoRung => "no rung near this stack depth"@,
            Reason::TooManyPlayers => "postflop pot with more than two players"@,
            Reason::BeyondTheLadder => "preflop line beyond the solved ladder"@,
            Reason::Disagreement => "the board and the street did not agree"@,
            Reason::NeverVisited => "the solve never visited this spot"@,
            Reason::NotAllowed => "the solved move is not one the table allows"@,
        }
    }

    /// The reason in words.
    pub fn name(self) -> (name: &'static str)
        ensures
            name@ == self.words(),
    {
        match self {
            Reason::NothingLoaded => "no postflop solve loaded",
            Reason::UnknownPrice => "no price the solve knows is near this one",
            Reason::NoRung => "no rung near this stack depth",
            Reason::TooManyPlayers => "postflop pot with more than two players",
            Reason::BeyondTheLadder => "preflop line beyond the solved ladder",
            Reason::Disagreement => "the board and the street did not agree",
            Reason::NeverVisited => "the solve never visited this spot",
            Reason::NotAllowed => "the solved move is not one the table allows",
        }
    }
}

/// The action that a solved move is at the table: a raise to the solved size,
/// kept within what is legal.
pub open spec fn action_of(
    legal: LegalActions,
    to_call: u64,
    target: int,
    chosen: Move,
) -> Option<Action> {
    let action = match chosen {
        Move::Fold => Some(Action::Fold),
        Move::Passive => Some(
            if to_call == 0 {
                Action::Check
            } else {
                Action::Call
            },
        ),
        Move::Small | Move::Large | Move::Jam => match legal.raise_to {
            Some((least, most)) => Some(
                Action::RaiseTo(abstraction::clamped(target, least as int, most as int) as u64),
            ),
            None => None,
        },
    };
    match action {
        Some(action) if legal.allows(action) => Some(action),
        _ => None,
    }
}

/// Turns a solved move into something the table accepts, if it can be.
///
/// The size is the tree's own, so that a strategy which said "bet small" bets
/// what it was solved for; the table's smallest and largest raise are kept to.
pub fn table_action(view: &PlayerView, game: &Postflop, spot: &Spot, chosen: Move) -> (action:
    Option<Action>)
    requires
        game.countable(*spot),
        view.legal.raise_to matches Some((least, most)) ==> least <= most,
    ensures
        action == action_of(*view.legal, view.to_call, game.target(*spot, chosen), chosen),
{
    let action: Action = match chosen {
        Move::Fold => Action::Fold,
        Move::Passive => {
            if view.to_call == 0 {
                Action::Check
            } else {
                Action::Call
            }
        },
        Move::Small | Move::Large | Move::Jam => {
            let (least, most): (u64, u64) = match view.legal.raise_to {
                Some(bounds) => bounds,
                None => {
                    return None;
                },
            };
            let target: u64 = game.target_of(spot, chosen);
            if target < least {
                Action::RaiseTo(least)
            } else if target > most {
                Action::RaiseTo(most)
            } else {
                Action::RaiseTo(target)
            }
        },
    };
    if view.legal.permits(action) {
        Some(action)
    } else {
        None
    }
}

/// Whatever a solved move becomes is legal, and where raising is legal every
/// raise becomes one.
pub proof fn law_solved_moves_are_played_legally(
    legal: LegalActions,
    to_call: u64,
    target: int,
    chosen: Move,
)
    requires
        legal.raise_to matches Some((least, most)) ==> least <= most,
    ensures
        action_of(legal, to_call, target, chosen) matches Some(action) ==> legal.allows(action),
        (chosen == Move::Small || chosen == Move::Large || chosen == Move::Jam)
            && legal.raise_to is Some ==> action_of(legal, to_call, target, chosen) is Some,
{
}

/// The largest amount in front of a live seat other than `except`, among the
/// first `count`.
pub open spec fn most_among(amounts: Seq<u64>, live: Seq<bool>, except: int, count: int) -> u64
    decreases count,
{
    if count <= 0 {
        0
    } else {
        let before = most_among(amounts, live, except, count - 1);
        let at = count - 1;
        if live[at] && at != except && amounts[at] > before {
            amounts[at]
        } else {
            before
        }
    }
}

/// What live seats have in front of them, among the first `count`.
pub open spec fn sum_among(amounts: Seq<u64>, live: Seq<bool>, count: int) -> int
    decreases count,
{
    if count <= 0 {
        0
    } else {
        sum_among(amounts, live, count - 1) + (if live[count - 1] {
            amounts[count - 1] as int
        } else {
            0
        })
    }
}

/// Whether a live seat on one side, the last to act or not, has acted.
pub open spec fn has_acted(acted: Seq<bool>, live: Seq<bool>, last: int, is_last: bool) -> bool {
    exists|seat: int|
        0 <= seat < acted.len() && #[trigger] acted[seat] && live[seat] && (seat == last) == is_last
}

/// Whether the lists of a view are long enough to be read.
pub open spec fn readable(view: PlayerView) -> bool {
    &&& 0 < view.live@.len()
    &&& view.players <= view.live@.len()
    &&& view.street_committed@.len() <= view.live@.len()
    &&& view.acted@.len() <= view.live@.len()
    &&& view.stacks@.len() <= view.live@.len()
}

/// The spot that a view describes as the tree describes one: after the flop,
/// with two players left, and with the board of its street. Seat 0 of the tree
/// is the one that acts last.
pub open spec fn spot_seen(view: PlayerView, strength: Option<u8>) -> Option<Spot> {
    let last = bridge::last_to_act(view.live@, view.players as int);
    if view.street == Street::Preflop || view.active != 2 || view.board@.len()
        != view.street.cards() || strength is None || last is None || view.seat
        >= view.street_committed@.len() {
        None
    } else {
        let last = last->Some_0;
        let wagers = view.street_committed@;
        Some(
            Spot {
                street: view.street,
                player: if view.seat == last {
                    0
                } else {
                    1
                },
                live: 2,
                strength: strength->Some_0,
                pot: view.pot,
                bet: most_among(wagers, view.live@, -1, wagers.len() as int),
                mine: wagers[view.seat as int],
                behind: view.stack,
                opponent_behind: most_among(
                    view.stacks@,
                    view.live@,
                    view.seat as int,
                    view.stacks@.len() as int,
                ),
                raises: view.raises,
                acted: (eval::one(has_acted(view.acted@, view.live@, last, true)) + 2 * eval::one(
                    has_acted(view.acted@, view.live@, last, false),
                )) as u8,
            },
        )
    }
}

/// The largest amount in front of a live seat.
fn find_most(amounts: &[u64], live: &[bool], except: Option<usize>) -> (most: u64)
    requires
        amounts@.len() <= live@.len(),
    ensures
        most == most_among(
            amounts@,
            live@,
            match except {
                Some(seat) => seat as int,
                None => -1,
            },
            amounts@.len() as int,
        ),
{
    let mut most: u64 = 0;
    let mut at: usize = 0;
    while at < amounts.len()
        invariant
            at <= amounts@.len() <= live@.len(),
            most == most_among(
                amounts@,
                live@,
                match except {
                    Some(seat) => seat as int,
                    None => -1,
                },
                at as int,
            ),
        decreases amounts@.len() - at,
    {
        let excepted: bool = match except {
            Some(seat) => seat == at,
            None => false,
        };
        if live[at] && !excepted && amounts[at] > most {
            most = amounts[at];
        }
        at = at + 1;
    }
    most
}

/// Whether a live seat on one side has acted.
fn find_acted(acted: &[bool], live: &[bool], last: usize, is_last: bool) -> (found: bool)
    requires
        acted@.len() <= live@.len(),
    ensures
        found == has_acted(acted@, live@, last as int, is_last),
{
    let mut seat: usize = 0;
    while seat < acted.len()
        invariant
            seat <= acted@.len() <= live@.len(),
            forall|s: int|
                0 <= s < seat ==> !(#[trigger] acted@[s] && live@[s] && (s == last) == is_last),
        decreases acted@.len() - seat,
    {
        if acted[seat] && live[seat] && (seat == last) == is_last {
            assert(acted@[seat as int]);
            return true;
        }
        seat = seat + 1;
    }
    false
}

/// The live seat that acts last.
fn find_last(live: &[bool], players: usize) -> (last: Option<usize>)
    requires
        0 < live@.len(),
        players <= live@.len(),
    ensures
        match last {
            Some(last) => bridge::last_to_act(live@, players as int) == Some(last as int),
            None => bridge::last_to_act(live@, players as int) is None,
        },
{
    if live[0] {
        return Some(0);
    }
    let mut left: usize = players;
    while left > 1
        invariant
            left <= players <= live@.len(),
            0 < live@.len(),
            !live@[0],
            bridge::last_to_act(live@, players as int) == bridge::last_to_act(live@, left as int),
        decreases left,
    {
        if live[left - 1] {
            return Some(left - 1);
        }
        left = left - 1;
    }
    None
}

/// The spot that a view describes, given the strength group of the hand on its
/// board, where that could be told.
pub fn spot_for(view: &PlayerView, strength: Option<u8>) -> (spot: Option<Spot>)
    requires
        readable(*view),
    ensures
        spot == spot_seen(*view, strength),
{
    if view.street == Street::Preflop || view.active != 2 {
        return None;
    }
    if view.board.len() != view.street.board_cards() {
        return None;
    }
    let strength: u8 = match strength {
        Some(strength) => strength,
        None => {
            return None;
        },
    };
    let last: usize = match find_last(view.live, view.players) {
        Some(last) => last,
        None => {
            return None;
        },
    };
    if view.seat >= view.street_committed.len() {
        return None;
    }
    let mut acted: u8 = 0;
    if find_acted(view.acted, view.live, last, true) {
        acted = acted + 1;
    }
    if find_acted(view.acted, view.live, last, false) {
        acted = acted + 2;
    }
    Some(
        Spot {
            street: view.street,
            player: if view.seat == last {
                0
            } else {
                1
            },
            live: 2,
            strength,
            pot: view.pot,
            bet: find_most(view.street_committed, view.live, None),
            mine: view.street_committed[view.seat],
            behind: view.stack,
            opponent_behind: find_most(view.stacks, view.live, Some(view.seat)),
            raises: view.raises,
            acted,
        },
    )
}

/// A described spot is one that a tree of two seats knows.
pub proof fn law_a_described_spot_belongs_to_the_tree(view: PlayerView, strength: Option<u8>)
    ensures
        spot_seen(view, strength) matches Some(spot) ==> {
            &&& postflop::heads_up_spot(spot)
            &&& spot.street != Street::Preflop
            &&& spot.live == 2
        },
{
}

/// Whether a view shows a node of a tree of two seats as it is: its button is
/// the tree's seat 0, and its chips are the tree's.
pub open spec fn shows(view: PlayerView, game: Postflop, node: postflop::Node) -> bool {
    &&& view.street == node.street
    &&& view.board@.len() == node.street.cards()
    &&& view.players == 2
    &&& view.active == 2
    &&& view.seat == node.to_act
    &&& view.pot == node.pot()
    &&& view.stack == game.left(node, node.to_act)
    &&& view.stacks@ == seq![game.left(node, 0) as u64, game.left(node, 1) as u64]
    &&& view.live@ == seq![true, true]
    &&& view.street_committed@ == seq![node.wagered[0] as u64, node.wagered[1] as u64]
    &&& view.acted@ == seq![node.acted[0], node.acted[1]]
    &&& view.raises == node.raises
}

/// The tree and the table describe a decision alike: what a table shows of a
/// node is the spot that the node itself describes, so that both look up the
/// same information set.
pub proof fn law_table_and_tree_describe_alike(
    view: PlayerView,
    game: Postflop,
    node: postflop::Node,
    strength: u8,
)
    requires
        game.sound(),
        game.players == 2,
        game.valid(node),
        game.live(node) == 2,
        !node.acted[2],
        shows(view, game, node),
    ensures
        spot_seen(view, Some(strength)) == Some(game.spot(node, strength)),
        game.key(spot_seen(view, Some(strength))->Some_0) == game.key(game.spot(node, strength)),
{
    let live = view.live@;
    let wagers = view.street_committed@;
    assert(node.wagered[0] >= 0 && node.wagered[1] >= 0 && node.wagered[2] >= 0);
    assert(bridge::last_to_act(live, 2) == Some(0int));
    reveal_with_fuel(most_among, 3);
    assert(most_among(wagers, live, -1, 2) == game.bet(node));
    assert(most_among(view.stacks@, live, view.seat as int, 2) == game.deepest(node, node.to_act));
    let acted = view.acted@;
    assert(has_acted(acted, live, 0, true) == node.acted[0]) by {
        if node.acted[0] {
            assert(acted[0]);
        }
    }
    assert(has_acted(acted, live, 0, false) == node.acted[1]) by {
        if node.acted[1] {
            assert(acted[1]);
        }
    }
}

/// A postflop solve and the depth it was solved at: how often the pot goes into
/// the stack behind, as the pattern of a number in double precision.
#[derive(Debug, Clone)]
pub struct Rung {
    pub spr: u64,
    pub blueprint: Blueprint,
    pub game: Postflop,
}

/// How far a depth is from the one that a pot is played at: nearness is a matter
/// of ratio, not of difference.
pub open spec fn gap(spr: u64, played: int) -> int {
    double::apart(spr as int, played)
}

/// The nearest of the first `count` depths, the first of several.
pub open spec fn nearest(depths: Seq<u64>, played: int, count: int) -> Option<int>
    decreases count,
{
    if count <= 0 {
        None
    } else {
        match nearest(depths, played, count - 1) {
            None => Some(count - 1),
            Some(best) => if gap(depths[count - 1], played) < gap(depths[best], played) {
                Some(count - 1)
            } else {
                Some(best)
            },
        }
    }
}

/// The depths of rungs.
pub open spec fn depths_of(rungs: Seq<Rung>) -> Seq<u64> {
    rungs.map_values(|rung: Rung| rung.spr)
}

/// Whether every rung has a depth.
pub open spec fn deep(rungs: Seq<Rung>) -> bool {
    forall|i: int| 0 <= i < rungs.len() ==> 0 < (#[trigger] rungs[i]).spr <= ENDLESS
}

/// Which rung is nearest the depth that a pot is played at: the stack over the
/// pot.
pub fn rung_for(rungs: &Vec<Rung>, stack: u64, pot: u64) -> (rung: Option<usize>)
    requires
        deep(rungs@),
        0 < pot,
    ensures
        match rung {
            Some(rung) => rung < rungs@.len() && nearest(
                depths_of(rungs@),
                double::ratio(stack as int, pot as int),
                rungs@.len() as int,
            ) == Some(rung as int),
            None => rungs@.len() == 0,
        },
{
    if rungs.len() == 0 {
        return None;
    }
    let played: u64 = double::ratio_of(stack, pot);
    let mut best: usize = 0;
    let mut i: usize = 1;
    let ghost depths = depths_of(rungs@);
    assert(nearest(depths, played as int, 1) == Some(0int)) by {
        reveal_with_fuel(nearest, 2);
    }
    assert(deep(rungs@) && rungs@[0].spr <= ENDLESS);
    let mut least: u64 = double::apart_of(rungs[0].spr, played);
    while i < rungs.len()
        invariant
            0 < i <= rungs@.len(),
            best < i,
            deep(rungs@),
            played <= ENDLESS,
            depths == depths_of(rungs@),
            least == gap(rungs@[best as int].spr, played as int),
            nearest(depths, played as int, i as int) == Some(best as int),
        decreases rungs@.len() - i,
    {
        assert(rungs@[i as int].spr <= ENDLESS);
        let gap: u64 = double::apart_of(rungs[i].spr, played);
        assert(depths[i as int] == rungs@[i as int].spr);
        assert(depths[best as int] == rungs@[best as int].spr);
        if gap < least {
            best = i;
            least = gap;
        }
        i = i + 1;
    }
    Some(best)
}

/// No rung is nearer than the one that is consulted.
pub proof fn law_the_nearest_rung_is_consulted(depths: Seq<u64>, played: int, count: int, other: int)
    requires
        0 <= other < count <= depths.len(),
    ensures
        nearest(depths, played, count) matches Some(best) && 0 <= best < count && gap(depths[best], played) <= gap(
            depths[other],
            played,
        ),
    decreases count,
{
    if count > 1 {
        law_the_nearest_rung_is_consulted(
            depths,
            played,
            count - 1,
            if other < count - 1 {
                other
            } else {
                0
            },
        );
    } else {
        assert(nearest(depths, played, 0) is None);
    }
}

/// What was found in a postflop solve: the rung, the spot, the key and the
/// moves that its strategy is over.
#[derive(Debug, Clone, PartialEq, Eq)]
pub struct Lookup {
    pub rung: usize,
    pub spot: Spot,
    pub key: u64,
    pub moves: Vec<Move>,
}

/// The first of `keys`, from `from` on, that is solved with so many moves.
pub open spec fn first_known(
    keys: Seq<u64>,
    stored: blueprint::Stored,
    moves: int,
    from: int,
) -> Option<u64>
    decreases keys.len() - from,
{
    if from >= keys.len() {
        None
    } else if stored.strategies().contains_key(keys[from]) && stored.strategies()[keys[from]].len()
        == moves {
        Some(keys[from])
    } else {
        first_known(keys, stored, moves, from + 1)
    }
}

/// The pot as the street opened: what is in the middle less what live seats
/// have put in since.
pub open spec fn opened_with(view: PlayerView) -> int {
    let wagers = view.street_committed@;
    let since = sum_among(wagers, view.live@, wagers.len() as int);
    if view.pot > since {
        view.pot - since
    } else {
        0
    }
}

/// The depth that a spot is played at: the stack at the start of the street over
/// the pot, of one chip at least.
pub open spec fn depth_of(view: PlayerView, spot: Spot) -> int {
    double::ratio(
        spot.behind + spot.mine,
        if opened_with(view) > 1 {
            opened_with(view)
        } else {
            1
        },
    )
}

/// What a ladder of solves has for a view, or why it has nothing.
pub open spec fn found_in(rungs: Seq<Rung>, view: PlayerView, strength: Option<u8>) -> Result<
    (int, Spot, u64),
    Reason,
> {
    if view.street == Street::Preflop {
        Err(Reason::BeyondTheLadder)
    } else if rungs.len() == 0 {
        Err(Reason::NothingLoaded)
    } else if view.active != 2 {
        Err(Reason::TooManyPlayers)
    } else {
        match spot_seen(view, strength) {
            None => Err(Reason::Disagreement),
            Some(spot) => {
                let at = nearest(depths_of(rungs), depth_of(view, spot), rungs.len() as int)->Some_0;
                let game = rungs[at].game;
                let keys = postflop::neighbours(
                    game.key(spot),
                    postflop::offsets().len() as int,
                );
                match first_known(
                    keys,
                    rungs[at].blueprint@,
                    game.menu(spot).len() as int,
                    0,
                ) {
                    Some(key) => Ok((at, spot, key)),
                    None => Err(Reason::UnknownPrice),
                }
            },
        }
    }
}

/// What live seats have in front of them.
fn find_sum(amounts: &[u64], live: &[bool]) -> (sum: u64)
    requires
        amounts@.len() <= live@.len(),
        sum_among(amounts@, live@, amounts@.len() as int) <= u64::MAX,
    ensures
        sum == sum_among(amounts@, live@, amounts@.len() as int),
{
    let mut sum: u64 = 0;
    let mut at: usize = 0;
    while at < amounts.len()
        invariant
            at <= amounts@.len() <= live@.len(),
            sum_among(amounts@, live@, amounts@.len() as int) <= u64::MAX,
            sum == sum_among(amounts@, live@, at as int),
        decreases amounts@.len() - at,
    {
        proof {
            lemma_sum_grows(amounts@, live@, at + 1, amounts@.len() as int);
        }
        if live[at] {
            sum = sum + amounts[at];
        }
        at = at + 1;
    }
    sum
}

proof fn lemma_sum_grows(amounts: Seq<u64>, live: Seq<bool>, few: int, many: int)
    requires
        0 <= few <= many,
    ensures
        0 <= sum_among(amounts, live, few) <= sum_among(amounts, live, many),
    decreases many,
{
    if few < many {
        lemma_sum_grows(amounts, live, few, many - 1);
    } else if few > 0 {
        lemma_sum_grows(amounts, live, few - 1, few - 1);
    }
}

/// The first key that is solved with so many moves.
fn find_known(keys: &Vec<u64>, blueprint: &Blueprint, moves: usize) -> (key: Option<u64>)
    ensures
        key == first_known(keys@, blueprint@, moves as int, 0),
{
    let mut at: usize = 0;
    while at < keys.len()
        invariant
            at <= keys@.len(),
            first_known(keys@, blueprint@, moves as int, 0) == first_known(
                keys@,
                blueprint@,
                moves as int,
                at as int,
            ),
        decreases keys@.len() - at,
    {
        if let Some(strategy) = blueprint.strategy(keys[at]) {
            if strategy.len() == moves {
                return Some(keys[at]);
            }
        }
        at = at + 1;
    }
    None
}

/// Whether the chips of a view can be counted, in every size of the ladder.
pub open spec fn countable(rungs: Seq<Rung>, view: PlayerView, strength: Option<u8>) -> bool {
    &&& deep(rungs)
    &&& readable(view)
    &&& sum_among(view.street_committed@, view.live@, view.street_committed@.len() as int)
        <= u64::MAX
    &&& forall|i: int|
        0 <= i < rungs.len() ==> (spot_seen(view, strength) matches Some(spot) ==> (
        #[trigger] rungs[i]).game.countable(spot))
}

/// Looks a view up in a ladder of solves, or says why it cannot be.
///
/// The depth is that of the street as it opened, so that one hand does not move
/// from solve to solve as bets go in. The exact spot is tried first and then
/// the nearest prices and depths; one that offers another number of moves
/// would mean something else and is passed over.
pub fn consult(rungs: &Vec<Rung>, view: &PlayerView, strength: Option<u8>) -> (found: Result<
    Lookup,
    Reason,
>)
    requires
        countable(rungs@, *view, strength),
    ensures
        match found {
            Ok(lookup) => {
                &&& found_in(rungs@, *view, strength) == Ok::<(int, Spot, u64), Reason>(
                    (lookup.rung as int, lookup.spot, lookup.key),
                )
                &&& lookup.rung < rungs@.len()
                &&& lookup.moves@ == rungs@[lookup.rung as int].game.menu(lookup.spot)
            },
            Err(reason) => found_in(rungs@, *view, strength) == Err::<(int, Spot, u64), Reason>(
                reason,
            ),
        },
{
    if view.street == Street::Preflop {
        return Err(Reason::BeyondTheLadder);
    }
    if rungs.len() == 0 {
        return Err(Reason::NothingLoaded);
    }
    if view.active != 2 {
        return Err(Reason::TooManyPlayers);
    }
    let spot: Spot = match spot_for(view, strength) {
        Some(spot) => spot,
        None => {
            return Err(Reason::Disagreement);
        },
    };
    let since: u64 = find_sum(view.street_committed, view.live);
    let settled: u64 = if view.pot > since {
        view.pot - since
    } else {
        0
    };
    let pot: u64 = if settled > 1 {
        settled
    } else {
        1
    };
    assert(rungs@[0].game.countable(spot));
    let stack: u64 = spot.mine + spot.behind;
    let rung: usize = match rung_for(rungs, stack, pot) {
        Some(rung) => rung,
        None => {
            return Err(Reason::NoRung);
        },
    };
    assert(rungs@[rung as int].game.countable(spot));
    let moves: Vec<Move> = rungs[rung].game.moves_at(&spot);
    let keys: Vec<u64> = rungs[rung].game.keys_near(&spot);
    match find_known(&keys, &rungs[rung].blueprint, moves.len()) {
        Some(key) => Ok(Lookup { rung, spot, key, moves }),
        None => Err(Reason::UnknownPrice),
    }
}

/// What is found can be played: the strategy has a share for every move of the
/// spot and for nothing else.
pub proof fn law_a_found_strategy_fits_the_moves(
    rungs: Seq<Rung>,
    view: PlayerView,
    strength: Option<u8>,
)
    ensures
        found_in(rungs, view, strength) matches Ok(found) ==> {
            let stored = rungs[found.0].blueprint@;
            &&& stored.strategies().contains_key(found.2)
            &&& stored.strategies()[found.2].len() == rungs[found.0].game.menu(found.1).len()
        },
{
    if let Ok(found) = found_in(rungs, view, strength) {
        let game = rungs[found.0].game;
        let keys = postflop::neighbours(game.key(found.1), postflop::offsets().len() as int);
        lemma_first_known(
            keys,
            rungs[found.0].blueprint@,
            game.menu(found.1).len() as int,
            0,
        );
    }
}

proof fn lemma_first_known(keys: Seq<u64>, stored: blueprint::Stored, moves: int, from: int)
    requires
        0 <= from,
        first_known(keys, stored, moves, from) is Some,
    ensures
        ({
            let key = first_known(keys, stored, moves, from)->Some_0;
            stored.strategies().contains_key(key) && stored.strategies()[key].len() == moves
        }),
    decreases keys.len() - from,
{
    if !(stored.strategies().contains_key(keys[from]) && stored.strategies()[keys[from]].len()
        == moves) {
        lemma_first_known(keys, stored, moves, from + 1);
    }
}

/// Plays the move at the place that was drawn, or says why it cannot be.
pub fn play(
    rungs: &Vec<Rung>,
    view: &PlayerView,
    lookup: &Lookup,
    drawn: Option<usize>,
) -> (action: Result<Action, Reason>)
    requires
        lookup.rung < rungs@.len(),
        rungs@[lookup.rung as int].game.countable(lookup.spot),
        view.legal.raise_to matches Some((least, most)) ==> least <= most,
        drawn matches Some(place) ==> place < lookup.moves@.len(),
    ensures
        action == (match drawn {
            None => Err::<Action, Reason>(Reason::NeverVisited),
            Some(place) => {
                let chosen = lookup.moves@[place as int];
                let target = rungs@[lookup.rung as int].game.target(lookup.spot, chosen);
                match action_of(*view.legal, view.to_call, target, chosen) {
                    Some(action) => Ok::<Action, Reason>(action),
                    None => Err::<Action, Reason>(Reason::NotAllowed),
                }
            },
        }),
{
    let place: usize = match drawn {
        Some(place) => place,
        None => {
            return Err(Reason::NeverVisited);
        },
    };
    match table_action(view, &rungs[lookup.rung].game, &lookup.spot, lookup.moves[place]) {
        Some(action) => Ok(action),
        None => Err(Reason::NotAllowed),
    }
}

/// The solved preflop decisions of a heads-up pot.
#[derive(Debug, Clone, Copy, PartialEq, Eq, Structural)]
pub enum Stage {
    SbOpen,
    BbVsOpen,
    SbVs3Bet,
    BbVs4Bet,
    SbVsJam,
    BbVsJam,
}

impl Stage {
    /// The words for the stage.
    pub open spec fn words(self) -> Seq<char> {
        match self {
            Stage::SbOpen => "sb-open"@,
            Stage::BbVsOpen => "bb-vs-open"@,
            Stage::SbVs3Bet => "sb-vs-3bet"@,
            Stage::BbVs4Bet => "bb-vs-4bet"@,
            Stage::SbVsJam => "sb-vs-jam"@,
            Stage::BbVsJam => "bb-vs-jam"@,
        }
    }
}

/// Names the spot of a stage.
pub fn spot_name(stage: Stage) -> (name: &'static str)
    ensures
        name@ == stage.words(),
{
    match stage {
        Stage::SbOpen => "sb-open",
        Stage::BbVsOpen => "bb-vs-open",
        Stage::SbVs3Bet => "sb-vs-3bet",
        Stage::BbVs4Bet => "bb-vs-4bet",
        Stage::SbVsJam => "sb-vs-jam",
        Stage::BbVsJam => "bb-vs-jam",
    }
}

/// What a preflop strategy chooses from.
#[derive(Debug, Clone, Copy, PartialEq, Eq, Structural)]
pub enum Abstract {
    Fold,
    Passive,
    Raise,
    Jam,
}

impl Abstract {
    /// The words for the choice.
    pub open spec fn words(self) -> Seq<char> {
        match self {
            Abstract::Fold => "fold"@,
            Abstract::Passive => "call"@,
            Abstract::Raise => "raise"@,
            Abstract::Jam => "jam"@,
        }
    }
}

/// A name for a choice.
pub fn action_name(action: Abstract) -> (name: &'static str)
    ensures
        name@ == action.words(),
{
    match action {
        Abstract::Fold => "fold",
        Abstract::Passive => "call",
        Abstract::Raise => "raise",
        Abstract::Jam => "jam",
    }
}

/// What preflop raises are to, in hundredths of a big blind.
#[derive(Debug, Clone, Copy, PartialEq, Eq)]
pub struct PreflopSizing {
    pub open_to: u32,
    pub three_bet_to: u32,
    pub four_bet_to: u32,
}

/// Whether another seat has nothing left.
pub open spec fn other_is_all_in(stacks: Seq<u64>, seat: int) -> bool {
    exists|at: int| 0 <= at < stacks.len() && at != seat && #[trigger] stacks[at] == 0
}

/// The solved stage that a table is in, after so many decisions of the hand:
/// with two players left, both of them in the blinds or on the button, and the
/// betting no deeper than a fourth bet.
pub open spec fn stage_shown(view: PlayerView, decisions: u32) -> Option<Stage> {
    if view.street != Street::Preflop || view.active != 2 || view.position == Position::Middle {
        None
    } else {
        let small = view.position != Position::BigBlind;
        if other_is_all_in(view.stacks@, view.seat as int) && view.to_call > 0 {
            Some(
                if small {
                    Stage::SbVsJam
                } else {
                    Stage::BbVsJam
                },
            )
        } else if decisions == 0 {
            Some(
                if small {
                    Stage::SbOpen
                } else {
                    Stage::BbVsOpen
                },
            )
        } else if decisions == 1 {
            Some(
                if small {
                    Stage::SbVs3Bet
                } else {
                    Stage::BbVs4Bet
                },
            )
        } else {
            None
        }
    }
}

/// Which solved stage a table is in.
pub fn stage_for(view: &PlayerView, preflop_decisions: u32) -> (stage: Option<Stage>)
    ensures
        stage == stage_shown(*view, preflop_decisions),
{
    if view.street != Street::Preflop || view.active != 2 {
        return None;
    }
    let small: bool = match view.position {
        Position::Button | Position::SmallBlind => true,
        Position::BigBlind => false,
        Position::Middle => {
            return None;
        },
    };
    let mut all_in: bool = false;
    let mut at: usize = 0;
    while at < view.stacks.len()
        invariant
            at <= view.stacks@.len(),
            all_in == (exists|k: int|
                0 <= k < at && k != view.seat && #[trigger] view.stacks@[k] == 0),
        decreases view.stacks@.len() - at,
    {
        if at != view.seat && view.stacks[at] == 0 {
            assert(view.stacks@[at as int] == 0);
            all_in = true;
        }
        at = at + 1;
    }
    if all_in && view.to_call > 0 {
        return Some(
            if small {
                Stage::SbVsJam
            } else {
                Stage::BbVsJam
            },
        );
    }
    match (small, preflop_decisions) {
        (true, 0) => Some(Stage::SbOpen),
        (false, 0) => Some(Stage::BbVsOpen),
        (true, 1) => Some(Stage::SbVs3Bet),
        (false, 1) => Some(Stage::BbVs4Bet),
        _ => None,
    }
}

/// The choices at a stage, in the order that strategies list them in.
pub open spec fn choices(stage: Stage) -> Seq<Abstract> {
    match stage {
        Stage::SbOpen => seq![Abstract::Fold, Abstract::Raise, Abstract::Jam],
        Stage::BbVsOpen | Stage::SbVs3Bet => seq![
            Abstract::Fold,
            Abstract::Passive,
            Abstract::Raise,
            Abstract::Jam,
        ],
        Stage::BbVs4Bet => seq![Abstract::Fold, Abstract::Passive, Abstract::Jam],
        Stage::SbVsJam | Stage::BbVsJam => seq![Abstract::Fold, Abstract::Passive],
    }
}

/// The choices at a stage, in the order that strategies list them in.
pub fn actions_at(stage: Stage) -> (actions: Vec<Abstract>)
    ensures
        actions@ == choices(stage),
{
    match stage {
        Stage::SbOpen => vec![Abstract::Fold, Abstract::Raise, Abstract::Jam],
        Stage::BbVsOpen | Stage::SbVs3Bet => {
            vec![Abstract::Fold, Abstract::Passive, Abstract::Raise, Abstract::Jam]
        },
        Stage::BbVs4Bet => vec![Abstract::Fold, Abstract::Passive, Abstract::Jam],
        Stage::SbVsJam | Stage::BbVsJam => vec![Abstract::Fold, Abstract::Passive],
    }
}

impl PreflopSizing {
    /// What a raise at a stage is to, in hundredths of a big blind.
    pub open spec fn at(self, stage: Stage) -> Option<u32> {
        match stage {
            Stage::SbOpen => Some(self.open_to),
            Stage::BbVsOpen => Some(self.three_bet_to),
            Stage::SbVs3Bet => Some(self.four_bet_to),
            _ => None,
        }
    }

    /// What a raise at a stage comes to at a table, kept within what is legal.
    pub open spec fn target(self, stage: Stage, legal: LegalActions, big_blind: u64) -> Option<u64> {
        match (self.at(stage), legal.raise_to) {
            (Some(percent), Some((least, most))) => Some(
                abstraction::clamped(
                    abstraction::share(big_blind as int, percent as int),
                    least as int,
                    most as int,
                ) as u64,
            ),
            _ => None,
        }
    }

    /// The action that a choice is at a table. Folding for nothing is checking.
    pub open spec fn action(
        self,
        chosen: Abstract,
        stage: Stage,
        legal: LegalActions,
        big_blind: u64,
    ) -> Option<Action> {
        match chosen {
            Abstract::Fold => if legal.can_fold {
                Some(Action::Fold)
            } else if legal.can_check {
                Some(Action::Check)
            } else {
                None
            },
            Abstract::Passive => if legal.can_check {
                Some(Action::Check)
            } else if legal.call_cost is Some {
                Some(Action::Call)
            } else {
                None
            },
            Abstract::Raise => match self.target(stage, legal, big_blind) {
                Some(target) => Some(Action::RaiseTo(target)),
                None => None,
            },
            Abstract::Jam => match legal.raise_to {
                Some((_, most)) => Some(Action::RaiseTo(most)),
                None => None,
            },
        }
    }

    /// What a raise at a stage comes to at a table.
    pub fn raise_target(&self, stage: Stage, view: &PlayerView) -> (target: Option<u64>)
        requires
            view.legal.raise_to matches Some((least, most)) ==> least <= most,
        ensures
            target == self.target(stage, *view.legal, view.big_blind),
    {
        let percent: u32 = match stage {
            Stage::SbOpen => self.open_to,
            Stage::BbVsOpen => self.three_bet_to,
            Stage::SbVs3Bet => self.four_bet_to,
            _ => {
                return None;
            },
        };
        let (least, most): (u64, u64) = match view.legal.raise_to {
            Some(bounds) => bounds,
            None => {
                return None;
            },
        };
        let wanted: u128 = abstraction::share_of(view.big_blind as u128, percent);
        Some(
            if wanted < least as u128 {
                least
            } else if wanted > most as u128 {
                most
            } else {
                wanted as u64
            },
        )
    }

    /// The action that a choice is at a table, if it is any.
    pub fn concrete(&self, chosen: Abstract, stage: Stage, view: &PlayerView) -> (action: Option<
        Action,
    >)
        requires
            view.legal.raise_to matches Some((least, most)) ==> least <= most,
        ensures
            action == self.action(chosen, stage, *view.legal, view.big_blind),
    {
        match chosen {
            Abstract::Fold => {
                if view.legal.can_fold {
                    Some(Action::Fold)
                } else if view.legal.can_check {
                    Some(Action::Check)
                } else {
                    None
                }
            },
            Abstract::Passive => {
                if view.legal.can_check {
                    Some(Action::Check)
                } else if view.legal.call_cost.is_some() {
                    Some(Action::Call)
                } else {
                    None
                }
            },
            Abstract::Raise => match self.raise_target(stage, view) {
                Some(target) => Some(Action::RaiseTo(target)),
                None => None,
            },
            Abstract::Jam => match view.legal.raise_to {
                Some((_, most)) => Some(Action::RaiseTo(most)),
                None => None,
            },
        }
    }
}

/// Whatever a choice becomes is legal.
pub proof fn law_choices_are_played_legally(
    sizing: PreflopSizing,
    chosen: Abstract,
    stage: Stage,
    legal: LegalActions,
    big_blind: u64,
)
    requires
        legal.raise_to matches Some((least, most)) ==> least <= most,
    ensures
        sizing.action(chosen, stage, legal, big_blind) matches Some(action) ==> legal.allows(action),
{
}

/// A bot that plays stored strategies, with the count of what decided.
#[derive(Debug, Clone)]
pub struct BlueprintAgent {
    pub name: String,
    /// The heads-up preflop strategy.
    pub blueprint: Blueprint,
    pub sizing: PreflopSizing,
    /// The multiway preflop strategies, each in the place of its seats.
    pub rings: Vec<Option<Blueprint>>,
    /// The postflop strategies, by the depth they were solved at.
    pub postflop: Vec<Rung>,
    /// Plays what no strategy covers.
    pub fallback: ChartBot,
    /// Preflop decisions of this hand.
    pub preflop_decisions: u32,
    pub decisions: u64,
    pub fallbacks: u64,
    /// How often each reason sent a decision to the fallback.
    pub reasons: [u64; 8],
    pub hand: u64,
}

/// Whether rungs are in order of depth.
pub open spec fn by_depth(rungs: Seq<Rung>) -> bool {
    forall|i: int, j: int|
        0 <= i < j < rungs.len() ==> (#[trigger] rungs[i]).spr <= (#[trigger] rungs[j]).spr
}

/// How many times reasons were counted.
pub open spec fn counted(reasons: Seq<u64>) -> int {
    reasons[0] + reasons[1] + reasons[2] + reasons[3] + reasons[4] + reasons[5] + reasons[6]
        + reasons[7]
}

/// Whether a reason is listed before another: the more frequent first, and of
/// two as frequent the first by name.
pub open spec fn listed_before(one: (Reason, u64), other: (Reason, u64)) -> bool {
    one.1 > other.1 || (one.1 == other.1 && one.0.order() < other.0.order())
}

impl BlueprintAgent {
    /// Whether the counts fit together: every fallback has a reason, and is a
    /// decision; and the rungs are in order and read strength alike.
    pub open spec fn sound(self) -> bool {
        &&& deep(self.postflop@)
        &&& by_depth(self.postflop@)
        &&& self.rings@.len() == MOST_SEATS + 1
        &&& forall|i: int, j: int|
            0 <= i < j < self.postflop@.len() ==> (#[trigger] self.postflop@[i]).game.buckets == (
            #[trigger] self.postflop@[j]).game.buckets
        &&& counted(self.reasons@) == self.fallbacks
        &&& self.fallbacks <= self.decisions
    }

    /// A bot with a preflop strategy and the raises it was solved with.
    pub fn new(name: String, blueprint: Blueprint, sizing: PreflopSizing) -> (agent: BlueprintAgent)
        ensures
            agent.sound(),
            agent.name@ == name@,
            agent.blueprint@ == blueprint@,
            agent.sizing == sizing,
            agent.postflop@.len() == 0,
            forall|i: int| 0 <= i <= MOST_SEATS ==> #[trigger] agent.rings@[i] is None,
            forall|i: int| 0 <= i < 8 ==> #[trigger] agent.reasons@[i] == 0,
            agent.fallback == (ChartBot { open_threshold: 8, call_threshold: 10 }),
            agent.preflop_decisions == 0,
            agent.decisions == 0,
            agent.fallbacks == 0,
            agent.hand == 0,
    {
        let mut rings: Vec<Option<Blueprint>> = Vec::new();
        let mut seats: usize = 0;
        while seats <= MOST_SEATS
            invariant
                seats <= MOST_SEATS + 1,
                rings@.len() == seats,
                forall|i: int| 0 <= i < seats ==> #[trigger] rings@[i] is None,
            decreases MOST_SEATS + 1 - seats,
        {
            rings.push(None);
            seats = seats + 1;
        }
        BlueprintAgent {
            name,
            blueprint,
            sizing,
            rings,
            postflop: Vec::new(),
            fallback: ChartBot { open_threshold: 8, call_threshold: 10 },
            preflop_decisions: 0,
            decisions: 0,
            fallbacks: 0,
            reasons: [0, 0, 0, 0, 0, 0, 0, 0],
            hand: 0,
        }
    }

    /// The name of the bot.
    pub fn name(&self) -> (name: &str)
        ensures
            name@ == self.name@,
    {
        self.name.as_str()
    }

    /// Puts in a multiway preflop strategy for a game of so many seats, in place
    /// of any for as many.
    pub fn with_ring(self, seats: usize, blueprint: Blueprint) -> (agent: BlueprintAgent)
        requires
            self.sound(),
            seats <= MOST_SEATS,
        ensures
            agent.sound(),
            agent.rings@ == self.rings@.update(seats as int, Some(blueprint)),
            agent == (BlueprintAgent { rings: agent.rings, ..self }),
    {
        let mut agent: BlueprintAgent = self;
        agent.rings.set(seats, Some(blueprint));
        agent
    }

    /// The sizes of game that there is a multiway strategy for, in order.
    pub fn solved_sizes(&self) -> (sizes: Vec<usize>)
        ensures
            forall|i: int, j: int|
                0 <= i < j < sizes@.len() ==> #[trigger] sizes@[i] < #[trigger] sizes@[j],
            forall|seats: usize| #[trigger]
                sizes@.contains(seats) <==> seats < self.rings@.len() && self.rings@[seats as int]
                    is Some,
    {
        let mut sizes: Vec<usize> = Vec::new();
        let mut seats: usize = 0;
        while seats < self.rings.len()
            invariant
                seats <= self.rings@.len(),
                forall|i: int| 0 <= i < sizes@.len() ==> #[trigger] sizes@[i] < seats,
                forall|i: int, j: int|
                    0 <= i < j < sizes@.len() ==> #[trigger] sizes@[i] < #[trigger] sizes@[j],
                forall|size: usize| #[trigger]
                    sizes@.contains(size) <==> size < seats && self.rings@[size as int] is Some,
            decreases self.rings@.len() - seats,
        {
            if self.rings[seats].is_some() {
                let ghost before = sizes@;
                sizes.push(seats);
                proof {
                    assert forall|size: usize| #[trigger] sizes@.contains(size)
                        <==> before.contains(size) || size == seats by {
                        assert(sizes@[before.len() as int] == seats);
                        if before.contains(size) {
                            let i = choose|i: int| 0 <= i < before.len() && before[i] == size;
                            assert(sizes@[i] == size);
                        }
                        if sizes@.contains(size) {
                            let i = choose|i: int| 0 <= i < sizes@.len() && sizes@[i] == size;
                            if i < before.len() {
                                assert(before[i] == size);
                            }
                        }
                    }
                }
            }
            seats = seats + 1;
        }
        sizes
    }

    /// The multiway strategy that a decision belongs to: the one for the size of
    /// the game, however many are left in the pot. A pot that has come down to
    /// two players is a node inside it, with the folded blinds dead in the
    /// middle.
    pub fn ring_for(&self, view: &PlayerView) -> (ring: Option<&Blueprint>)
        ensures
            match ring {
                Some(ring) => view.street == Street::Preflop && view.players < self.rings@.len()
                    && self.rings@[view.players as int] == Some(*ring),
                None => !(view.street == Street::Preflop && view.players < self.rings@.len()
                    && self.rings@[view.players as int] is Some),
            },
    {
        if view.street != Street::Preflop || view.players >= self.rings.len() {
            return None;
        }
        match &self.rings[view.players] {
            Some(ring) => Some(ring),
            None => None,
        }
    }

    /// Adds a postflop strategy for one depth, after any of the same depth.
    pub fn with_postflop(self, spr: u64, blueprint: Blueprint, game: Postflop) -> (agent:
        BlueprintAgent)
        requires
            self.sound(),
            0 < spr <= ENDLESS,
            forall|i: int|
                0 <= i < self.postflop@.len() ==> (#[trigger] self.postflop@[i]).game.buckets
                    == game.buckets,
        ensures
            agent.sound(),
            exists|at: int|
                0 <= at <= self.postflop@.len() && agent.postflop@ == #[trigger] self.postflop@.insert(
                    at,
                    (Rung { spr, blueprint, game }),
                ) && (forall|i: int|
                    at <= i < self.postflop@.len() ==> (#[trigger] self.postflop@[i]).spr > spr),
            agent.name == self.name,
            agent.blueprint == self.blueprint,
            agent.sizing == self.sizing,
            agent.rings == self.rings,
            agent.fallback == self.fallback,
            agent.preflop_decisions == self.preflop_decisions,
            agent.decisions == self.decisions,
            agent.fallbacks == self.fallbacks,
            agent.reasons == self.reasons,
            agent.hand == self.hand,
    {
        let ghost before = self.postflop@;
        let mut agent: BlueprintAgent = self;
        let mut at: usize = 0;
        while at < agent.postflop.len() && agent.postflop[at].spr <= spr
            invariant
                at <= agent.postflop@.len(),
                agent == self,
                forall|i: int| 0 <= i < at ==> (#[trigger] agent.postflop@[i]).spr <= spr,
            decreases agent.postflop@.len() - at,
        {
            at = at + 1;
        }
        let rung: Rung = Rung { spr, blueprint, game };
        agent.postflop.insert(at, rung);
        proof {
            let after = agent.postflop@;
            assert forall|i: int| 0 <= i < after.len() implies 0 < (#[trigger] after[i]).spr <= ENDLESS by {
                if i < at {
                    assert(after[i] == before[i]);
                } else if i > at {
                    assert(after[i] == before[i - 1]);
                }
            }
            assert forall|i: int| at <= i < before.len() implies (#[trigger] before[i]).spr > spr by {
                if i > at {
                    assert(before[at as int].spr <= before[i].spr);
                }
            }
            assert forall|i: int, j: int| 0 <= i < j < after.len() implies (#[trigger] after[i]).spr
                <= (#[trigger] after[j]).spr by {
                let a = if i < at {
                    i
                } else {
                    i - 1
                };
                let b = if j < at {
                    j
                } else {
                    j - 1
                };
                if i != at && j != at {
                    assert(before[a].spr <= before[b].spr);
                } else if i == at {
                    assert(before[b].spr > spr);
                }
            }
            assert forall|i: int, j: int| 0 <= i < j < after.len() implies (
            #[trigger] after[i]).game.buckets == (#[trigger] after[j]).game.buckets by {
                let a = if i < at {
                    i
                } else {
                    i - 1
                };
                let b = if j < at {
                    j
                } else {
                    j - 1
                };
                if i != at {
                    assert(before[a].game.buckets == game.buckets);
                }
                if j != at {
                    assert(before[b].game.buckets == game.buckets);
                }
            }
        }
        agent
    }

    /// The depths that there is a postflop strategy for, in order.
    pub fn solved_depths(&self) -> (depths: Vec<u64>)
        ensures
            depths@ == depths_of(self.postflop@),
    {
        let mut depths: Vec<u64> = Vec::new();
        let mut i: usize = 0;
        while i < self.postflop.len()
            invariant
                i <= self.postflop@.len(),
                depths@ == depths_of(self.postflop@.take(i as int)),
            decreases self.postflop@.len() - i,
        {
            depths.push(self.postflop[i].spr);
            assert(depths@ =~= depths_of(self.postflop@.take(i + 1)));
            i = i + 1;
        }
        assert(self.postflop@.take(i as int) =~= self.postflop@);
        depths
    }

    /// Begins a hand.
    pub fn new_hand(&mut self)
        requires
            old(self).hand < u64::MAX,
        ensures
            *final(self) == (BlueprintAgent {
                preflop_decisions: 0,
                hand: (old(self).hand + 1) as u64,
                ..*old(self)
            }),
    {
        self.preflop_decisions = 0;
        self.hand = self.hand + 1;
    }

    /// Decisions that a strategy made, and decisions in all.
    pub fn coverage(&self) -> (coverage: (u64, u64))
        requires
            self.sound(),
        ensures
            coverage.0 == self.decisions - self.fallbacks,
            coverage.1 == self.decisions,
    {
        (self.decisions - self.fallbacks, self.decisions)
    }
}

impl BlueprintAgent {
    /// Why the fallback was reached, most often first.
    pub fn fallback_reasons(&self) -> (list: Vec<(Reason, u64)>)
        ensures
            forall|i: int, j: int|
                0 <= i < j < list@.len() ==> listed_before(#[trigger] list@[i], #[trigger] list@[j]),
            forall|reason: Reason, count: u64| #[trigger]
                list@.contains((reason, count)) <==> count > 0 && count
                    == self.reasons@[reason.order()],
    {
        let mut list: Vec<(Reason, u64)> = Vec::new();
        let mut k: usize = 0;
        while k < 8
            invariant
                k <= 8,
                forall|i: int, j: int|
                    0 <= i < j < list@.len() ==> listed_before(
                        #[trigger] list@[i],
                        #[trigger] list@[j],
                    ),
                forall|reason: Reason, count: u64| #[trigger]
                    list@.contains((reason, count)) <==> count > 0 && count
                        == self.reasons@[reason.order()] && reason.order() < k,
            decreases 8 - k,
        {
            let count: u64 = self.reasons[k];
            let ghost before = list@;
            if count > 0 {
                let reason: Reason = Reason::from_index(k);
                let mut at: usize = 0;
                while at < list.len() && list[at].1 >= count
                    invariant
                        at <= list@.len(),
                        list@ == before,
                        forall|i: int| 0 <= i < at ==> (#[trigger] list@[i]).1 >= count,
                    decreases list@.len() - at,
                {
                    at = at + 1;
                }
                list.insert(at, (reason, count));
                proof {
                    lemma_listed(before, at as int, (reason, count), self.reasons@, k as int);
                }
            }
            proof {
                assert forall|reason: Reason, held: u64| #[trigger] list@.contains((reason, held))
                    <==> held > 0 && held == self.reasons@[reason.order()] && reason.order() < k + 1 by {
                    if count == 0 {
                        assert(list@ == before);
                    }
                    assert(before.contains((reason, held)) <==> held > 0 && held
                        == self.reasons@[reason.order()] && reason.order() < k);
                }
            }
            k = k + 1;
        }
        list
    }

    /// Counts a decision that goes to the fallback.
    fn count_fallback(&mut self, reason: Reason)
        requires
            old(self).sound(),
            old(self).fallbacks < old(self).decisions,
        ensures
            final(self).sound(),
            final(self).reasons@ == old(self).reasons@.update(
                reason.order(),
                (old(self).reasons@[reason.order()] + 1) as u64,
            ),
            *final(self) == (BlueprintAgent {
                fallbacks: (old(self).fallbacks + 1) as u64,
                reasons: final(self).reasons,
                ..*old(self)
            }),
    {
        let at: usize = reason.index();
        let mut reasons: [u64; 8] = self.reasons;
        assert(reasons@[at as int] <= counted(reasons@));
        reasons[at] = reasons[at] + 1;
        self.reasons = reasons;
        self.fallbacks = self.fallbacks + 1;
    }

    /// Begins a decision: it is counted.
    fn begin(&mut self)
        requires
            old(self).sound(),
            old(self).decisions < u64::MAX,
        ensures
            final(self).sound(),
            *final(self) == (BlueprintAgent {
                decisions: (old(self).decisions + 1) as u64,
                ..*old(self)
            }),
    {
        self.decisions = self.decisions + 1;
    }

    /// Counts a preflop decision of the hand.
    fn count_preflop(&mut self)
        requires
            old(self).sound(),
            old(self).preflop_decisions < u32::MAX,
        ensures
            final(self).sound(),
            *final(self) == (BlueprintAgent {
                preflop_decisions: (old(self).preflop_decisions + 1) as u32,
                ..*old(self)
            }),
    {
        self.preflop_decisions = self.preflop_decisions + 1;
    }
}

/// What the fallback does.
pub open spec fn fallback_action(
    bot: ChartBot,
    view: PlayerView,
    opening: Option<u64>,
    betting: Option<u64>,
) -> Action {
    if view.street == Street::Preflop {
        let class = abstraction::class_of(view.hole@[0], view.hole@[1]);
        bot.before_flop(view, crate::bench::chen(class.high, class.low, class.suited), opening)
    } else {
        bot.after_flop(
            view,
            crate::bench::is_made((view.hole@ + view.board@).to_set()),
            betting,
        )
    }
}

/// A reason put in its place keeps the list in order.
proof fn lemma_listed(
    before: Seq<(Reason, u64)>,
    at: int,
    entry: (Reason, u64),
    reasons: Seq<u64>,
    k: int,
)
    requires
        0 <= at <= before.len(),
        entry.0.order() == k,
        forall|i: int, j: int|
            0 <= i < j < before.len() ==> listed_before(#[trigger] before[i], #[trigger] before[j]),
        forall|i: int| 0 <= i < at ==> (#[trigger] before[i]).1 >= entry.1,
        at < before.len() ==> before[at].1 < entry.1,
        forall|reason: Reason, count: u64| #[trigger]
            before.contains((reason, count)) <==> count > 0 && count == reasons[reason.order()]
                && reason.order() < k,
    ensures
        ({
            let after = before.insert(at, entry);
            &&& forall|i: int, j: int|
                0 <= i < j < after.len() ==> listed_before(#[trigger] after[i], #[trigger] after[j])
            &&& forall|reason: Reason, count: u64| #[trigger]
                after.contains((reason, count)) <==> (reason, count) == entry || before.contains(
                    (reason, count),
                )
        }),
{
    let after = before.insert(at, entry);
    assert forall|i: int| 0 <= i < before.len() implies (#[trigger] before[i]).0.order() < k by {
        assert(before.contains((before[i].0, before[i].1)));
    }
    assert forall|i: int, j: int| 0 <= i < j < after.len() implies listed_before(
        #[trigger] after[i],
        #[trigger] after[j],
    ) by {
        let a = if i < at {
            i
        } else {
            i - 1
        };
        let b = if j < at {
            j
        } else {
            j - 1
        };
        if i != at && j != at {
            assert(listed_before(before[a], before[b]));
        } else if i == at {
            if b > at {
                assert(listed_before(before[at], before[b]));
            }
        }
    }
    assert forall|reason: Reason, count: u64| #[trigger] after.contains((reason, count)) <==> (
    reason, count) == entry || before.contains((reason, count)) by {
        if after.contains((reason, count)) {
            let i = choose|i: int| 0 <= i < after.len() && after[i] == (reason, count);
            if i < at {
                assert(before[i] == (reason, count));
            } else if i > at {
                assert(before[i - 1] == (reason, count));
            }
        }
        if before.contains((reason, count)) {
            let i = choose|i: int| 0 <= i < before.len() && before[i] == (reason, count);
            if i < at {
                assert(after[i] == (reason, count));
            } else {
                assert(after[i + 1] == (reason, count));
            }
        }
        assert(after[at] == entry);
    }
}

/// The action that a multiway move is at a table, if it is legal there. A
/// raise is to `target`, where it has one.
pub open spec fn ring_move(
    legal: LegalActions,
    to_call: u64,
    chosen: charts::Move,
    target: Option<u64>,
) -> Option<Action> {
    let action = match chosen {
        charts::Move::Fold => Some(Action::Fold),
        charts::Move::Passive => Some(
            if to_call == 0 {
                Action::Check
            } else {
                Action::Call
            },
        ),
        _ => match target {
            Some(to) => Some(Action::RaiseTo(to)),
            None => None,
        },
    };
    match action {
        Some(action) if legal.allows(action) => Some(action),
        _ => None,
    }
}

/// The action that a multiway move is at a table, if it is legal there. A solved
/// size can be one that a table does not allow, with a shorter stack than the
/// solve assumed.
pub fn multiway_action(
    legal: &LegalActions,
    to_call: u64,
    chosen: charts::Move,
    target: Option<u64>,
) -> (action: Option<Action>)
    ensures
        action == ring_move(*legal, to_call, chosen, target),
{
    let action: Action = match chosen {
        charts::Move::Fold => Action::Fold,
        charts::Move::Passive => {
            if to_call == 0 {
                Action::Check
            } else {
                Action::Call
            }
        },
        _ => match target {
            Some(to) => Action::RaiseTo(to),
            None => {
                return None;
            },
        },
    };
    if legal.permits(action) {
        Some(action)
    } else {
        None
    }
}

/// The action that the multiway move at the place drawn is at a table, if
/// there is one and it is legal there.
pub fn ring_action(
    view: &PlayerView,
    moves: &Vec<charts::Move>,
    drawn: Option<usize>,
    target: Option<u64>,
) -> (action: Option<Action>)
    ensures
        action == (match drawn {
            Some(place) if place < moves@.len() => ring_move(
                *view.legal,
                view.to_call,
                moves@[place as int],
                target,
            ),
            _ => None,
        }),
{
    match drawn {
        Some(place) if place < moves.len() => multiway_action(
            view.legal,
            view.to_call,
            moves[place],
            target,
        ),
        _ => None,
    }
}

/// Where a table is in the multiway tree of its size, and what was drawn there.
#[derive(Debug, Clone, PartialEq, Eq)]
pub struct RingDraw {
    /// The information set of the spot.
    pub key: u64,
    /// The moves of the spot, in the order that strategies list them in.
    pub moves: Vec<charts::Move>,
    /// The place drawn from the strategy.
    pub place: Option<usize>,
    /// What the move drawn raises to, where it raises.
    pub target: Option<u64>,
}

/// What a decision takes from outside of the strategies: the draws, the
/// strength read off the board, and two sizes.
#[derive(Debug, Clone, PartialEq, Eq)]
pub struct Drawn {
    /// The spot of the multiway tree, where the table is in it.
    pub ring: Option<RingDraw>,
    /// The strength of the hand on its board, where it can be read.
    pub strength: Option<u8>,
    /// The place drawn from the postflop strategy that was found.
    pub postflop: Option<usize>,
    /// The information set of the hand at its stage of the heads-up preflop
    /// tree.
    pub key: u64,
    /// The place drawn from the heads-up preflop strategy.
    pub preflop: Option<usize>,
    /// What a raise of the whole pot comes to.
    pub opening: Option<u64>,
    /// What a raise of two thirds of the pot comes to.
    pub betting: Option<u64>,
}

/// Where a decision came from.
#[derive(Debug, Clone, PartialEq, Eq)]
pub enum Source {
    /// The information set consulted, and the name of its spot.
    Solve { key: u64, spot: String },
    /// The fallback, and why nothing solved was played.
    Fallback { reason: Reason },
}

/// Where a decision came from, as a mathematical value.
pub enum SourceModel {
    Solve { key: u64, spot: Seq<char> },
    Fallback { reason: Reason },
}

impl View for Source {
    type V = SourceModel;

    open spec fn view(&self) -> SourceModel {
        match self {
            Source::Solve { key, spot } => SourceModel::Solve { key: *key, spot: spot@ },
            Source::Fallback { reason } => SourceModel::Fallback { reason: *reason },
        }
    }
}

/// The record of one decision: what was perceived, where the decision came
/// from, what was considered and what was done. It is enough to hold the bot's
/// reading against the table without trusting it.
#[derive(Debug, Clone, PartialEq, Eq)]
pub struct Told {
    /// The number of the hand in its session.
    pub hand: u64,
    pub hole: [Card; 2],
    pub board: Vec<Card>,
    pub street: Street,
    pub position: Position,
    pub pot: u64,
    pub to_call: u64,
    pub stacks: Vec<u64>,
    pub source: Source,
    /// The name of each move considered, with its probability as it is stored.
    pub frequencies: Vec<(String, u32)>,
    pub action: Action,
}

impl Told {
    /// The moves considered with their probabilities.
    pub open spec fn considered(self) -> Seq<(Seq<char>, u32)> {
        named(self.frequencies@)
    }

    /// Whether the record shows what a view shows.
    pub open spec fn perceives(self, view: PlayerView) -> bool {
        &&& self.hole@ == view.hole@
        &&& self.board@ == view.board@
        &&& self.street == view.street
        &&& self.position == view.position
        &&& self.pot == view.pot
        &&& self.to_call == view.to_call
        &&& self.stacks@ == view.stacks@
    }
}

/// Named probabilities as mathematical values.
pub open spec fn named(frequencies: Seq<(String, u32)>) -> Seq<(Seq<char>, u32)> {
    frequencies.map_values(|entry: (String, u32)| (entry.0@, entry.1))
}

/// Names paired with probabilities in order, as far as there are both.
pub open spec fn paired(names: Seq<Seq<char>>, words: Seq<u32>) -> Seq<(Seq<char>, u32)> {
    Seq::new(
        if names.len() < words.len() {
            names.len()
        } else {
            words.len()
        },
        |i: int| (names[i], words[i]),
    )
}

/// Pairs names with probabilities in order.
fn pair_up(names: &Vec<&'static str>, words: &[u32]) -> (pairs: Vec<(String, u32)>)
    ensures
        named(pairs@) == paired(names@.map_values(|name: &'static str| name@), words@),
{
    let mut pairs: Vec<(String, u32)> = Vec::new();
    let mut i: usize = 0;
    while i < names.len() && i < words.len()
        invariant
            i <= names@.len(),
            i <= words@.len(),
            pairs@.len() == i,
            forall|k: int| 0 <= k < i ==> (#[trigger] pairs@[k]).0@ == names@[k]@ && pairs@[k].1 == words@[k],
        decreases names@.len() - i,
    {
        pairs.push((String::from_str(names[i]), words[i]));
        i = i + 1;
    }
    assert(named(pairs@) =~= paired(names@.map_values(|name: &'static str| name@), words@));
    pairs
}

/// The names of the moves of a multiway spot.
fn ring_names(moves: &Vec<charts::Move>) -> (names: Vec<&'static str>)
    ensures
        names@.map_values(|name: &'static str| name@) == moves@.map_values(|chosen: charts::Move| chosen.words()),
{
    let mut names: Vec<&'static str> = Vec::new();
    let mut i: usize = 0;
    while i < moves.len()
        invariant
            i <= moves@.len(),
            names@.len() == i,
            forall|k: int| 0 <= k < i ==> (#[trigger] names@[k])@ == moves@[k].words(),
        decreases moves@.len() - i,
    {
        names.push(moves[i].name());
        i = i + 1;
    }
    assert(names@.map_values(|name: &'static str| name@) =~= moves@.map_values(
        |chosen: charts::Move| chosen.words(),
    ));
    names
}

/// The names of the moves of a postflop spot.
fn move_names(moves: &Vec<Move>) -> (names: Vec<&'static str>)
    ensures
        names@.map_values(|name: &'static str| name@) == moves@.map_values(|chosen: Move| chosen.words()),
{
    let mut names: Vec<&'static str> = Vec::new();
    let mut i: usize = 0;
    while i < moves.len()
        invariant
            i <= moves@.len(),
            names@.len() == i,
            forall|k: int| 0 <= k < i ==> (#[trigger] names@[k])@ == moves@[k].words(),
        decreases moves@.len() - i,
    {
        names.push(moves[i].name());
        i = i + 1;
    }
    assert(names@.map_values(|name: &'static str| name@) =~= moves@.map_values(|chosen: Move| chosen.words()));
    names
}

/// The names of the choices at a stage.
fn choice_names(actions: &Vec<Abstract>) -> (names: Vec<&'static str>)
    ensures
        names@.map_values(|name: &'static str| name@) == actions@.map_values(|chosen: Abstract| chosen.words()),
{
    let mut names: Vec<&'static str> = Vec::new();
    let mut i: usize = 0;
    while i < actions.len()
        invariant
            i <= actions@.len(),
            names@.len() == i,
            forall|k: int| 0 <= k < i ==> (#[trigger] names@[k])@ == actions@[k].words(),
        decreases actions@.len() - i,
    {
        names.push(action_name(actions[i]));
        i = i + 1;
    }
    assert(names@.map_values(|name: &'static str| name@) =~= actions@.map_values(
        |chosen: Abstract| chosen.words(),
    ));
    names
}

/// The name of a multiway preflop spot: that of the game it is in.
pub open spec fn ring_words(seats: int) -> Seq<char> {
    text::digits(seats) + "-handed preflop"@
}

/// The name of a heads-up spot after the flop.
pub open spec fn street_words(street: Street) -> Seq<char> {
    "heads-up "@ + street.words()
}

impl BlueprintAgent {
    /// What the multiway strategy comes to: the move drawn, where there is a
    /// strategy for the size of the game, it knows the spot, and the table
    /// allows the move.
    pub open spec fn ringed(self, view: PlayerView, drawn: Drawn) -> Option<Action> {
        if !(view.street == Street::Preflop && view.players < self.rings@.len()) {
            None
        } else {
            match (self.rings@[view.players as int], drawn.ring) {
                (Some(blueprint), Some(ring)) => match ring.place {
                    Some(place) => if blueprint@.strategies().contains_key(ring.key) && place
                        < ring.moves@.len() {
                        ring_move(*view.legal, view.to_call, ring.moves@[place as int], ring.target)
                    } else {
                        None
                    },
                    None => None,
                },
                _ => None,
            }
        }
    }

    /// What the multiway and the postflop strategies come to, or why nothing.
    pub open spec fn consulted(self, view: PlayerView, drawn: Drawn) -> Result<Action, Reason> {
        match self.ringed(view, drawn) {
            Some(action) => Ok(action),
            None => match found_in(self.postflop@, view, drawn.strength) {
                Err(reason) => Err(reason),
                Ok((at, spot, _)) => match drawn.postflop {
                    None => Err(Reason::NeverVisited),
                    Some(place) => {
                        let game = self.postflop@[at].game;
                        let chosen = game.menu(spot)[place as int];
                        match action_of(
                            *view.legal,
                            view.to_call,
                            game.target(spot, chosen),
                            chosen,
                        ) {
                            Some(action) => Ok(action),
                            None => Err(Reason::NotAllowed),
                        }
                    },
                },
            },
        }
    }

    /// What the heads-up preflop strategy comes to: the choice drawn, where the
    /// table is at a solved stage and the strategy knows the hand there.
    pub open spec fn opened(self, view: PlayerView, drawn: Drawn) -> Option<Action> {
        match (stage_shown(view, self.preflop_decisions), drawn.preflop) {
            (Some(stage), Some(place)) => if self.blueprint@.strategies().contains_key(drawn.key)
                && place < choices(stage).len() {
                self.sizing.action(
                    choices(stage)[place as int],
                    stage,
                    *view.legal,
                    view.big_blind,
                )
            } else {
                None
            },
            _ => None,
        }
    }

    /// What is played, and why it was the fallback's, if it was.
    pub open spec fn decision(self, view: PlayerView, drawn: Drawn) -> (Action, Option<Reason>) {
        match self.consulted(view, drawn) {
            Ok(action) => (action, None),
            Err(reason) => match self.opened(view, drawn) {
                Some(action) if view.legal.allows(action) => (action, None),
                _ => (
                    fallback_action(self.fallback, view, drawn.opening, drawn.betting),
                    Some(reason),
                ),
            },
        }
    }

    /// Whether a decision can be made of a view and what was drawn for it.
    pub open spec fn decidable(self, view: PlayerView, drawn: Drawn) -> bool {
        &&& countable(self.postflop@, view, drawn.strength)
        &&& view.hole@[0] != view.hole@[1]
        &&& view.street != Street::Preflop ==> 3 <= view.board@.len() <= 5 && (view.hole@
            + view.board@).no_duplicates()
        &&& view.legal.raise_to matches Some((least, most)) ==> least <= most
        &&& found_in(self.postflop@, view, drawn.strength) matches Ok((at, spot, _))
            ==> drawn.postflop matches Some(place) ==> place < self.postflop@[at].game.menu(
            spot,
        ).len()
    }

    /// Where a decision comes from: the information set that decided and the
    /// name of its spot, or why it went to the fallback.
    pub open spec fn source(self, view: PlayerView, drawn: Drawn) -> SourceModel {
        if self.ringed(view, drawn) is Some {
            SourceModel::Solve { key: drawn.ring->0.key, spot: ring_words(view.players as int) }
        } else {
            match self.consulted(view, drawn) {
                Ok(_) => SourceModel::Solve {
                    key: (found_in(self.postflop@, view, drawn.strength)->Ok_0).2,
                    spot: street_words(view.street),
                },
                Err(reason) => match self.opened(view, drawn) {
                    Some(action) if view.legal.allows(action) => SourceModel::Solve {
                        key: drawn.key,
                        spot: (stage_shown(view, self.preflop_decisions)->0).words(),
                    },
                    _ => SourceModel::Fallback { reason },
                },
            }
        }
    }

    /// The moves that were considered, each with its stored probability, in the
    /// order of the strategy. The fallback considers none.
    pub open spec fn considered(self, view: PlayerView, drawn: Drawn) -> Seq<(Seq<char>, u32)> {
        if self.ringed(view, drawn) is Some {
            let ring = drawn.ring->0;
            paired(
                ring.moves@.map_values(|chosen: charts::Move| chosen.words()),
                (self.rings@[view.players as int]->0)@.strategies()[ring.key],
            )
        } else {
            match self.consulted(view, drawn) {
                Ok(_) => {
                    let (at, spot, key) = found_in(self.postflop@, view, drawn.strength)->Ok_0;
                    paired(
                        self.postflop@[at].game.menu(spot).map_values(|chosen: Move| chosen.words()),
                        self.postflop@[at].blueprint@.strategies()[key],
                    )
                },
                Err(_) => match self.opened(view, drawn) {
                    Some(action) if view.legal.allows(action) => paired(
                        choices(stage_shown(view, self.preflop_decisions)->0).map_values(
                            |chosen: Abstract| chosen.words(),
                        ),
                        self.blueprint@.strategies()[drawn.key],
                    ),
                    _ => Seq::empty(),
                },
            }
        }
    }

    /// What the multiway strategy decides, with what there is to tell of it.
    fn by_ring(&self, view: &PlayerView, drawn: &Drawn) -> (found: Option<(Action, Source, Vec<(String, u32)>)>)
        ensures
            match found {
                Some((action, source, frequencies)) => {
                    &&& self.ringed(*view, *drawn) == Some(action)
                    &&& source@ == self.source(*view, *drawn)
                    &&& named(frequencies@) == self.considered(*view, *drawn)
                },
                None => self.ringed(*view, *drawn) is None,
            },
    {
        let blueprint: &Blueprint = match self.ring_for(view) {
            Some(blueprint) => blueprint,
            None => {
                return None;
            },
        };
        let ring: &RingDraw = match &drawn.ring {
            Some(ring) => ring,
            None => {
                return None;
            },
        };
        let words: &[u32] = match blueprint.strategy(ring.key) {
            Some(words) => words,
            None => {
                return None;
            },
        };
        match ring_action(view, &ring.moves, ring.place, ring.target) {
            Some(action) => {
                let mut spot: String = text::decimal(view.players as u64);
                spot.append("-handed preflop");
                let names: Vec<&'static str> = ring_names(&ring.moves);
                let frequencies: Vec<(String, u32)> = pair_up(&names, words);
                Some((action, Source::Solve { key: ring.key, spot }, frequencies))
            },
            None => None,
        }
    }

    /// What the postflop strategy of the nearest depth decides, with what there
    /// is to tell of it, or why it decides nothing.
    fn by_rung(&self, view: &PlayerView, drawn: &Drawn) -> (found: Result<
        (Action, Source, Vec<(String, u32)>),
        Reason,
    >)
        requires
            self.decidable(*view, *drawn),
            self.ringed(*view, *drawn) is None,
        ensures
            match found {
                Ok((action, source, frequencies)) => {
                    &&& self.consulted(*view, *drawn) == Ok::<Action, Reason>(action)
                    &&& source@ == self.source(*view, *drawn)
                    &&& named(frequencies@) == self.considered(*view, *drawn)
                },
                Err(reason) => self.consulted(*view, *drawn) == Err::<Action, Reason>(reason),
            },
    {
        let lookup: Lookup = match consult(&self.postflop, view, drawn.strength) {
            Ok(lookup) => lookup,
            Err(reason) => {
                return Err(reason);
            },
        };
        assert(self.postflop@[lookup.rung as int].game.countable(lookup.spot));
        let action: Action = match play(&self.postflop, view, &lookup, drawn.postflop) {
            Ok(action) => action,
            Err(reason) => {
                return Err(reason);
            },
        };
        proof {
            law_a_found_strategy_fits_the_moves(self.postflop@, *view, drawn.strength);
        }
        let words: &[u32] = match self.postflop[lookup.rung].blueprint.strategy(lookup.key) {
            Some(words) => words,
            None => {
                return Err(Reason::NeverVisited);
            },
        };
        let names: Vec<&'static str> = move_names(&lookup.moves);
        let frequencies: Vec<(String, u32)> = pair_up(&names, words);
        let mut spot: String = String::from_str("heads-up ");
        let street: String = view.street.to_string();
        spot.append(street.as_str());
        Ok((action, Source::Solve { key: lookup.key, spot }, frequencies))
    }

    /// What the heads-up preflop strategy decides, with what there is to tell of
    /// it.
    fn by_stage(&self, view: &PlayerView, drawn: &Drawn) -> (found: Option<(Action, Source, Vec<(String, u32)>)>)
        requires
            self.decidable(*view, *drawn),
            self.consulted(*view, *drawn) is Err,
        ensures
            match found {
                Some((action, source, frequencies)) => {
                    &&& self.opened(*view, *drawn) == Some(action)
                    &&& view.legal.allows(action)
                    &&& source@ == self.source(*view, *drawn)
                    &&& named(frequencies@) == self.considered(*view, *drawn)
                },
                None => !(self.opened(*view, *drawn) matches Some(action) && view.legal.allows(action)),
            },
    {
        let stage: Stage = match stage_for(view, self.preflop_decisions) {
            Some(stage) => stage,
            None => {
                return None;
            },
        };
        let words: &[u32] = match self.blueprint.strategy(drawn.key) {
            Some(words) => words,
            None => {
                return None;
            },
        };
        let actions: Vec<Abstract> = actions_at(stage);
        let chosen: Abstract = match drawn.preflop {
            Some(place) if place < actions.len() => actions[place],
            _ => {
                return None;
            },
        };
        match self.sizing.concrete(chosen, stage, view) {
            Some(action) => {
                if !view.legal.permits(action) {
                    return None;
                }
                let names: Vec<&'static str> = choice_names(&actions);
                let frequencies: Vec<(String, u32)> = pair_up(&names, words);
                let spot: String = String::from_str(spot_name(stage));
                Some((action, Source::Solve { key: drawn.key, spot }, frequencies))
            },
            None => None,
        }
    }

    /// What there is to tell of a decision, before it is made and counted: what
    /// was perceived, where the decision comes from, what was considered, and
    /// what is done.
    pub fn account_of(&self, view: &PlayerView, drawn: &Drawn) -> (told: Told)
        requires
            self.sound(),
            self.decidable(*view, *drawn),
        ensures
            told.hand == self.hand,
            told.perceives(*view),
            told.action == self.decision(*view, *drawn).0,
            told.source@ == self.source(*view, *drawn),
            told.considered() == self.considered(*view, *drawn),
            match told.source {
                Source::Fallback { reason } => self.decision(*view, *drawn).1 == Some(reason)
                    && told.frequencies@.len() == 0,
                Source::Solve { .. } => self.decision(*view, *drawn).1 is None,
            },
    {
        let (action, source, frequencies): (Action, Source, Vec<(String, u32)>) = match self.by_ring(view, drawn) {
            Some(found) => found,
            None => match self.by_rung(view, drawn) {
                Ok(found) => found,
                Err(reason) => match self.by_stage(view, drawn) {
                    Some(found) => found,
                    None => {
                        let frequencies: Vec<(String, u32)> = Vec::new();
                        assert(named(frequencies@) =~= Seq::empty());
                        (
                            self.fallback.act(view, drawn.opening, drawn.betting),
                            Source::Fallback { reason },
                            frequencies,
                        )
                    },
                },
            },
        };
        Told {
            hand: self.hand,
            hole: view.hole,
            board: vstd::slice::slice_to_vec(view.board),
            street: view.street,
            position: view.position,
            pot: view.pot,
            to_call: view.to_call,
            stacks: vstd::slice::slice_to_vec(view.stacks),
            source,
            frequencies,
            action,
        }
    }

    /// The counts after a decision.
    pub open spec fn after(self, view: PlayerView, drawn: Drawn, next: BlueprintAgent) -> bool {
        &&& next.sound()
        &&& next.reasons@ == (match self.decision(view, drawn).1 {
            Some(reason) => self.reasons@.update(
                reason.order(),
                (self.reasons@[reason.order()] + 1) as u64,
            ),
            None => self.reasons@,
        })
        &&& next == (BlueprintAgent {
            decisions: (self.decisions + 1) as u64,
            preflop_decisions: if view.street == Street::Preflop {
                (self.preflop_decisions + 1) as u32
            } else {
                self.preflop_decisions
            },
            fallbacks: if self.decision(view, drawn).1 is Some {
                (self.fallbacks + 1) as u64
            } else {
                self.fallbacks
            },
            reasons: next.reasons,
            ..self
        })
    }

    /// Makes a decision, counts it, and hands out the one record that there is
    /// of it, for whoever watches.
    pub fn decide(&mut self, view: &PlayerView, drawn: &Drawn) -> (told: Told)
        requires
            old(self).sound(),
            old(self).decidable(*view, *drawn),
            old(self).decisions < u64::MAX,
            old(self).preflop_decisions < u32::MAX,
        ensures
            old(self).after(*view, *drawn, *final(self)),
            told.hand == old(self).hand,
            told.perceives(*view),
            told.action == old(self).decision(*view, *drawn).0,
            told.source@ == old(self).source(*view, *drawn),
            told.considered() == old(self).considered(*view, *drawn),
            match told.source {
                Source::Fallback { reason } => old(self).decision(*view, *drawn).1 == Some(reason)
                    && told.frequencies@.len() == 0,
                Source::Solve { .. } => old(self).decision(*view, *drawn).1 is None,
            },
    {
        let told: Told = self.account_of(view, drawn);
        self.begin();
        if view.street == Street::Preflop {
            self.count_preflop();
        }
        match &told.source {
            Source::Fallback { reason } => {
                self.count_fallback(*reason);
            },
            Source::Solve { .. } => {},
        }
        told
    }

    /// Makes a decision and counts it: by the multiway strategy where there is
    /// one, by the postflop strategy of the nearest depth, by the heads-up
    /// preflop strategy, and else by the fallback.
    pub fn act(&mut self, view: &PlayerView, drawn: &Drawn) -> (action: Action)
        requires
            old(self).sound(),
            old(self).decidable(*view, *drawn),
            old(self).decisions < u64::MAX,
            old(self).preflop_decisions < u32::MAX,
        ensures
            old(self).after(*view, *drawn, *final(self)),
            action == old(self).decision(*view, *drawn).0,
    {
        self.decide(view, drawn).action
    }
}

/// Every decision is told of truly: it is told to come from a solve exactly
/// where the count of solved decisions grows, and only then with frequencies;
/// told as a fallback, its reason is the one that is counted.
pub proof fn law_what_is_told_is_what_is_counted(
    before: BlueprintAgent,
    after: BlueprintAgent,
    view: PlayerView,
    drawn: Drawn,
)
    requires
        before.sound(),
        before.after(view, drawn, after),
        before.decisions < u64::MAX,
    ensures
        after.decisions == before.decisions + 1,
        match before.source(view, drawn) {
            SourceModel::Solve { .. } => {
                &&& after.decisions - after.fallbacks == before.decisions - before.fallbacks + 1
                &&& after.reasons@ == before.reasons@
            },
            SourceModel::Fallback { reason } => {
                &&& after.decisions - after.fallbacks == before.decisions - before.fallbacks
                &&& after.reasons@ == before.reasons@.update(
                    reason.order(),
                    (before.reasons@[reason.order()] + 1) as u64,
                )
                &&& before.considered(view, drawn).len() == 0
            },
        },
{
}

/// What a strategy decides is legal: only the fallback answers for itself.
pub proof fn law_strategies_decide_legally(agent: BlueprintAgent, view: PlayerView, drawn: Drawn)
    requires
        agent.decidable(view, drawn),
        agent.decision(view, drawn).1 is None,
    ensures
        view.legal.allows(agent.decision(view, drawn).0),
{
    if let Ok((at, spot, _)) = found_in(agent.postflop@, view, drawn.strength) {
        if let Some(place) = drawn.postflop {
            let game = agent.postflop@[at].game;
            let chosen = game.menu(spot)[place as int];
            law_solved_moves_are_played_legally(
                *view.legal,
                view.to_call,
                game.target(spot, chosen),
                chosen,
            );
        }
    }
}

/// What a solved move is at the table: a raise to the tree's own size where that
/// is within the bounds, to the nearer bound where it is not; a fold, a check
/// where nothing is to be called, and a call where something is, each where the
/// table allows it.
pub proof fn law_solved_moves_are_played_in_their_size(
    legal: LegalActions,
    to_call: u64,
    target: int,
    chosen: Move,
)
    requires
        legal.raise_to matches Some((least, most)) ==> least <= most,
        0 <= target <= u64::MAX,
    ensures
        chosen == Move::Small || chosen == Move::Large || chosen == Move::Jam ==> match legal.raise_to {
            Some((least, most)) => {
                &&& least <= target <= most ==> action_of(legal, to_call, target, chosen) == Some(
                    Action::RaiseTo(target as u64),
                )
                &&& target < least ==> action_of(legal, to_call, target, chosen) == Some(Action::RaiseTo(least))
                &&& target > most ==> action_of(legal, to_call, target, chosen) == Some(Action::RaiseTo(most))
            },
            None => action_of(legal, to_call, target, chosen) is None,
        },
        chosen == Move::Fold ==> action_of(legal, to_call, target, chosen) == (if legal.can_fold {
            Some(Action::Fold)
        } else {
            None
        }),
        chosen == Move::Passive && to_call == 0 ==> action_of(legal, to_call, target, chosen) == (if legal.can_check {
            Some(Action::Check)
        } else {
            None
        }),
        chosen == Move::Passive && to_call > 0 ==> action_of(legal, to_call, target, chosen) == (
        if legal.call_cost is Some {
            Some(Action::Call)
        } else {
            None
        }),
{
}

/// A tree's size is bet to the chip where the table allows it: a share of the pot
/// after calling, to the nearest chip, on top of the bet.
pub proof fn law_solved_shares_of_the_pot_are_bet(
    legal: LegalActions,
    to_call: u64,
    game: Postflop,
    spot: Spot,
    chosen: Move,
    percent: u32,
)
    requires
        spot.mine <= spot.bet,
        spot.pot + spot.bet <= 0x4000_0000_0000,
        (spot.pot + spot.bet - spot.mine) * percent <= 0x4000_0000_0000,
        chosen == Move::Small && percent == game.sizing.small || chosen == Move::Large && percent == game.sizing.large,
        legal.raise_to matches Some((least, most)) && least <= game.target(spot, chosen) <= most,
        game.target(spot, chosen) < spot.mine + spot.behind <= u64::MAX,
    ensures
        action_of(legal, to_call, game.target(spot, chosen), chosen) matches Some(Action::RaiseTo(to)) && -50 <= 100 * (
        to - spot.bet) - (spot.pot + spot.bet - spot.mine) * percent <= 50,
{
    crate::precision::law_portions_are_to_the_nearest(spot.pot + spot.due(), percent as int);
    crate::precision::lemma_portion(spot.pot + spot.due(), percent as int);
}

proof fn lemma_most_is_held(amounts: Seq<u64>, live: Seq<bool>, except: int, count: int, seat: int)
    requires
        0 <= seat < count <= amounts.len(),
        count <= live.len(),
    ensures
        live[seat] && seat != except ==> amounts[seat] <= most_among(amounts, live, except, count),
        most_among(amounts, live, except, count) == 0 || exists|at: int|
            0 <= at < count && live[at] && at != except && #[trigger] amounts[at] == most_among(
                amounts,
                live,
                except,
                count,
            ),
    decreases count,
{
    if count > 1 {
        lemma_most_is_held(
            amounts,
            live,
            except,
            count - 1,
            if seat < count - 1 {
                seat
            } else {
                0
            },
        );
    }
    assert(most_among(amounts, live, except, 0) == 0);
    let at = count - 1;
    if live[at] && at != except && amounts[at] > most_among(amounts, live, except, count - 1) {
        assert(amounts[at] == most_among(amounts, live, except, count));
    }
}

/// A view is a spot of the tree exactly after the flop, with two players left,
/// the board of its street, a strength and a live seat among the players.
pub proof fn law_which_views_are_spots(view: PlayerView, strength: Option<u8>)
    requires
        readable(view),
        0 < view.players,
        view.seat < view.street_committed@.len(),
    ensures
        spot_seen(view, strength) is Some <==> {
            &&& view.street == Street::Flop && view.board@.len() == 3 || view.street == Street::Turn
                && view.board@.len() == 4 || view.street == Street::River && view.board@.len() == 5
            &&& view.active == 2
            &&& strength is Some
            &&& exists|at: int| 0 <= at < view.players && #[trigger] view.live@[at]
        },
{
    bridge::lemma_last_to_act(view.live@, view.players as int);
    if exists|at: int| 0 <= at < view.players && #[trigger] view.live@[at] {
        let at = choose|at: int| 0 <= at < view.players && #[trigger] view.live@[at];
        assert(view.live@[at]);
    } else if bridge::last_to_act(view.live@, view.players as int) is Some {
        let at = bridge::last_to_act(view.live@, view.players as int)->Some_0;
        assert(view.live@[at]);
    }
}

/// What a spot shows of a table: the pot, the strength, the most that any live
/// seat has wagered, what the hero has wagered and has left, and the most that
/// any other live seat has left. The hero is the tree's seat 0 exactly where no
/// live seat acts after the hero.
pub proof fn law_a_spot_is_what_the_table_shows(view: PlayerView, strength: u8, seat: int)
    requires
        readable(view),
        0 < view.players == view.live@.len(),
        spot_seen(view, Some(strength)) is Some,
        0 <= seat < view.live@.len(),
        view.live@[seat],
        view.street_committed@.len() == view.live@.len(),
        view.stacks@.len() == view.live@.len(),
        view.live@[view.seat as int],
    ensures
        ({
            let spot = spot_seen(view, Some(strength))->Some_0;
            let wagers = view.street_committed@;
            &&& spot.street == view.street && spot.pot == view.pot && spot.strength == strength
            &&& spot.raises == view.raises && spot.behind == view.stack
            &&& spot.mine == wagers[view.seat as int]
            &&& wagers[seat] <= spot.bet
            &&& spot.bet == 0 || exists|at: int|
                0 <= at < wagers.len() && view.live@[at] && #[trigger] wagers[at] == spot.bet
            &&& seat != view.seat ==> view.stacks@[seat] <= spot.opponent_behind
            &&& spot.opponent_behind == 0 || exists|at: int|
                0 <= at < view.stacks@.len() && view.live@[at] && at != view.seat && #[trigger] view.stacks@[at]
                    == spot.opponent_behind
            &&& spot.player == 0 <==> view.seat == 0 || (!view.live@[0] && forall|i: int|
                view.seat < i < view.live@.len() ==> !#[trigger] view.live@[i])
            &&& spot.player <= 1
        }),
{
    let wagers = view.street_committed@;
    lemma_most_is_held(wagers, view.live@, -1, wagers.len() as int, seat);
    lemma_most_is_held(view.stacks@, view.live@, view.seat as int, view.stacks@.len() as int, seat);
    bridge::law_position_is_the_last_turn(view.live@, view.seat as int);
}

/// Which seats of the tree a spot says have acted: seat 0 exactly where the live
/// seat that acts last has, and seat 1 exactly where another live seat has.
pub proof fn law_a_spot_shows_who_has_acted(view: PlayerView, strength: u8, last: int)
    requires
        spot_seen(view, Some(strength)) is Some,
        bridge::last_to_act(view.live@, view.players as int) == Some(last),
    ensures
        ({
            let acted = spot_seen(view, Some(strength))->Some_0.acted as int;
            let after = exists|at: int| 0 <= at < view.acted@.len() && #[trigger] view.acted@[at] && view.live@[at] && at
                == last;
            let before = exists|at: int|
                0 <= at < view.acted@.len() && #[trigger] view.acted@[at] && view.live@[at] && at != last;
            acted == (if after {
                1int
            } else {
                0
            }) + (if before {
                2int
            } else {
                0
            })
        }),
{
    let (acted, live) = (view.acted@, view.live@);
    if has_acted(acted, live, last, true) {
        let at = choose|at: int| 0 <= at < acted.len() && #[trigger] acted[at] && live[at] && (at == last) == true;
        assert(acted[at] && at == last);
    }
    if has_acted(acted, live, last, false) {
        let at = choose|at: int| 0 <= at < acted.len() && #[trigger] acted[at] && live[at] && (at == last) == false;
        assert(acted[at] && at != last);
    }
}

/// The depth that a pot is played at is by what was in it when the street
/// opened: whatever a live seat adds to both its wager and the pot leaves it.
pub proof fn law_the_opening_pot_is_not_moved_by_bets(one: PlayerView, other: PlayerView, seat: int, more: u64)
    requires
        one.live@ == other.live@,
        0 <= seat < one.street_committed@.len() <= one.live@.len(),
        one.live@[seat],
        one.street_committed@[seat] + more <= u64::MAX,
        other.street_committed@ == one.street_committed@.update(
            seat,
            (one.street_committed@[seat] + more) as u64,
        ),
        other.pot == one.pot + more,
    ensures
        opened_with(one) == opened_with(other),
        (forall|i: int| 0 <= i < one.street_committed@.len() ==> #[trigger] one.street_committed@[i] == 0)
            ==> opened_with(one) == one.pot,
{
    lemma_sum_moves(one.street_committed@, one.live@, seat, more, one.street_committed@.len() as int);
}

proof fn lemma_sum_moves(amounts: Seq<u64>, live: Seq<bool>, seat: int, more: u64, count: int)
    requires
        0 <= seat < amounts.len(),
        0 <= count <= amounts.len(),
        live[seat],
        amounts[seat] + more <= u64::MAX,
    ensures
        sum_among(amounts.update(seat, (amounts[seat] + more) as u64), live, count) == sum_among(amounts, live, count)
            + (if seat < count {
            more as int
        } else {
            0
        }),
        (forall|i: int| 0 <= i < amounts.len() ==> #[trigger] amounts[i] == 0) ==> sum_among(amounts, live, count) == 0,
    decreases count,
{
    if count > 0 {
        lemma_sum_moves(amounts, live, seat, more, count - 1);
    }
}

/// The rung that is consulted is the first of those that are nearest.
pub proof fn law_the_first_of_equally_near_rungs_is_consulted(depths: Seq<u64>, played: int, count: int, earlier: int)
    requires
        0 < count <= depths.len(),
        0 <= earlier < nearest(depths, played, count)->Some_0,
    ensures
        gap(depths[nearest(depths, played, count)->Some_0], played) < gap(depths[earlier], played),
    decreases count,
{
    if count > 1 {
        let best = nearest(depths, played, count - 1)->Some_0;
        law_the_nearest_rung_is_consulted(depths, played, count - 1, 0);
        if nearest(depths, played, count) == Some(best) {
            law_the_first_of_equally_near_rungs_is_consulted(depths, played, count - 1, earlier);
        } else {
            law_the_nearest_rung_is_consulted(depths, played, count - 1, earlier);
        }
    }
}

/// Of two depths on one side of the depth that is played, the one between is no
/// further; of two on either side, the nearer is the one whose ratio to it is
/// smaller: twice as deep is as near as half as deep.
pub proof fn law_nearness_is_by_ratio(shallow: u64, played: u64, deeper: u64)
    requires
        0 < shallow <= played <= deeper < ENDLESS,
    ensures
        ({
            let (a, p, b) = (
                double::units(shallow as int),
                double::units(played as int),
                double::units(deeper as int),
            );
            &&& a * b <= p * p ==> gap(deeper, played as int) <= gap(shallow, played as int)
            &&& a * b >= p * p ==> gap(shallow, played as int) <= gap(deeper, played as int)
            &&& gap(played, shallow as int) <= gap(deeper, shallow as int)
            &&& gap(played, deeper as int) <= gap(shallow, deeper as int)
        }),
{
    double::lemma_apart_by_ratio(shallow as int, played as int, deeper as int);
}

/// The key that a strategy is found under is the first of those searched that
/// is solved with as many moves as the spot has.
pub proof fn law_the_nearest_known_key_is_played(keys: Seq<u64>, stored: blueprint::Stored, moves: int, at: int)
    requires
        0 <= at < keys.len(),
        stored.strategies().contains_key(keys[at]),
        stored.strategies()[keys[at]].len() == moves,
        forall|i: int|
            0 <= i < at ==> !(stored.strategies().contains_key(#[trigger] keys[i]) && stored.strategies()[keys[i]].len()
                == moves),
    ensures
        first_known(keys, stored, moves, 0) == Some(keys[at]),
{
    lemma_first_is_known(keys, stored, moves, 0, at);
}

proof fn lemma_first_is_known(keys: Seq<u64>, stored: blueprint::Stored, moves: int, from: int, at: int)
    requires
        0 <= from <= at < keys.len(),
        stored.strategies().contains_key(keys[at]),
        stored.strategies()[keys[at]].len() == moves,
        forall|i: int|
            0 <= i < at ==> !(stored.strategies().contains_key(#[trigger] keys[i]) && stored.strategies()[keys[i]].len()
                == moves),
    ensures
        first_known(keys, stored, moves, from) == Some(keys[at]),
    decreases at - from,
{
    if from < at {
        assert(!(stored.strategies().contains_key(keys[from]) && stored.strategies()[keys[from]].len() == moves));
        lemma_first_is_known(keys, stored, moves, from + 1, at);
    }
}

/// Which solved stage a heads-up pot is in before the flop: facing an all-in
/// where another seat has nothing left and chips are owed, and otherwise by how
/// many decisions the hero has made, the big blind one bet behind.
pub proof fn law_stages_follow_the_betting(view: PlayerView, decisions: u32)
    ensures
        ({
            let heads_up = view.street == Street::Preflop && view.active == 2 && view.position != Position::Middle;
            let jammed = view.to_call > 0 && exists|at: int|
                0 <= at < view.stacks@.len() && at != view.seat && #[trigger] view.stacks@[at] == 0;
            let big = view.position == Position::BigBlind;
            let stage = stage_shown(view, decisions);
            &&& stage == Some(Stage::SbVsJam) <==> heads_up && jammed && !big
            &&& stage == Some(Stage::BbVsJam) <==> heads_up && jammed && big
            &&& stage == Some(Stage::SbOpen) <==> heads_up && !jammed && !big && decisions == 0
            &&& stage == Some(Stage::BbVsOpen) <==> heads_up && !jammed && big && decisions == 0
            &&& stage == Some(Stage::SbVs3Bet) <==> heads_up && !jammed && !big && decisions == 1
            &&& stage == Some(Stage::BbVs4Bet) <==> heads_up && !jammed && big && decisions == 1
        }),
{
    if other_is_all_in(view.stacks@, view.seat as int) {
        let at = choose|at: int| 0 <= at < view.stacks@.len() && at != view.seat && #[trigger] view.stacks@[at] == 0;
        assert(view.stacks@[at] == 0);
    }
}

/// The choices of a stage: folding always and first, calling unless nobody has
/// bet, a raise until the fourth bet, and all in until somebody is.
pub proof fn law_choices_of_a_stage(stage: Stage)
    ensures
        ({
            let jammed = stage == Stage::SbVsJam || stage == Stage::BbVsJam;
            let list = choices(stage);
            &&& list[0] == Abstract::Fold
            &&& list.contains(Abstract::Passive) <==> stage != Stage::SbOpen
            &&& list.contains(Abstract::Raise) <==> !jammed && stage != Stage::BbVs4Bet
            &&& list.contains(Abstract::Jam) <==> !jammed
            &&& list.len() == 1 + (if stage != Stage::SbOpen {
                1int
            } else {
                0
            }) + (if !jammed && stage != Stage::BbVs4Bet {
                1int
            } else {
                0
            }) + (if !jammed {
                1int
            } else {
                0
            })
            &&& !jammed ==> list.last() == Abstract::Jam
            &&& stage != Stage::SbOpen ==> list[1] == Abstract::Passive
        }),
{
    let list = choices(stage);
    match stage {
        Stage::SbOpen => {
            assert(list[1] == Abstract::Raise && list[2] == Abstract::Jam);
        },
        Stage::BbVsOpen | Stage::SbVs3Bet => {
            assert(list[1] == Abstract::Passive && list[2] == Abstract::Raise && list[3] == Abstract::Jam);
        },
        Stage::BbVs4Bet => {
            assert(list[1] == Abstract::Passive && list[2] == Abstract::Jam);
        },
        _ => {
            assert(list[1] == Abstract::Passive);
        },
    }
}

/// What a choice before the flop is at the table: no fold for nothing, a check
/// rather than a call, everything for an all-in, and a raise to the size of its
/// stage in big blinds, to the nearest chip, kept within the bounds.
pub proof fn law_choices_are_played_in_their_size(
    sizing: PreflopSizing,
    stage: Stage,
    legal: LegalActions,
    big_blind: u64,
)
    requires
        legal.raise_to matches Some((least, most)) ==> least <= most,
        legal.can_fold != legal.can_check,
        legal.can_check != (legal.call_cost is Some),
        big_blind * sizing.open_to <= 0x4000_0000_0000,
        big_blind * sizing.three_bet_to <= 0x4000_0000_0000,
        big_blind * sizing.four_bet_to <= 0x4000_0000_0000,
        big_blind <= 0x4000_0000_0000,
    ensures
        sizing.action(Abstract::Fold, stage, legal, big_blind) == Some(
            if legal.can_check {
                Action::Check
            } else {
                Action::Fold
            },
        ),
        sizing.action(Abstract::Passive, stage, legal, big_blind) == Some(
            if legal.can_check {
                Action::Check
            } else {
                Action::Call
            },
        ),
        match legal.raise_to {
            None => sizing.action(Abstract::Jam, stage, legal, big_blind) is None && sizing.action(
                Abstract::Raise,
                stage,
                legal,
                big_blind,
            ) is None,
            Some((least, most)) => {
                let percent: int = match stage {
                    Stage::SbOpen => sizing.open_to as int,
                    Stage::BbVsOpen => sizing.three_bet_to as int,
                    Stage::SbVs3Bet => sizing.four_bet_to as int,
                    _ => -1,
                };
                &&& sizing.action(Abstract::Jam, stage, legal, big_blind) == Some(Action::RaiseTo(most))
                &&& percent < 0 ==> sizing.action(Abstract::Raise, stage, legal, big_blind) is None
                &&& percent >= 0 ==> (sizing.action(Abstract::Raise, stage, legal, big_blind) matches Some(
                    Action::RaiseTo(to),
                ) && least <= to <= most && {
                    ||| -50 <= 100 * to - big_blind * percent <= 50
                    ||| to == least && 100 * least >= big_blind * percent - 50
                    ||| to == most && 100 * most <= big_blind * percent + 50
                })
            },
        },
{
    crate::precision::law_portions_are_to_the_nearest(big_blind as int, sizing.open_to as int);
    crate::precision::law_portions_are_to_the_nearest(big_blind as int, sizing.three_bet_to as int);
    crate::precision::law_portions_are_to_the_nearest(big_blind as int, sizing.four_bet_to as int);
}

/// What a multiway move is at the table: the move itself where the table allows
/// it, a check where nothing is to be called, and a raise to its own amount or
/// none at all.
pub proof fn law_multiway_moves_are_played_as_they_are(
    legal: LegalActions,
    to_call: u64,
    chosen: charts::Move,
    target: Option<u64>,
)
    ensures
        ring_move(legal, to_call, chosen, target) matches Some(action) ==> {
            &&& legal.allows(action)
            &&& action is Fold <==> chosen == charts::Move::Fold
            &&& action is Check <==> chosen == charts::Move::Passive && to_call == 0
            &&& action is Call <==> chosen == charts::Move::Passive && to_call > 0
            &&& action matches Action::RaiseTo(to) ==> target == Some(to)
        },
        ring_move(legal, to_call, chosen, target) is None ==> match chosen {
            charts::Move::Fold => !legal.can_fold,
            charts::Move::Passive => if to_call == 0 {
                !legal.can_check
            } else {
                legal.call_cost is None
            },
            _ => match (target, legal.raise_to) {
                (Some(to), Some((least, most))) => to < least || to > most,
                _ => true,
            },
        },
{
}

/// The order in which strategies are asked: a multiway strategy that has an
/// action plays it; else a postflop strategy that has one; else, where neither
/// does, a legal choice of the heads-up preflop strategy; and only where none of
/// the three has an action does the fallback play, for a reason.
pub proof fn law_the_fallback_plays_last(agent: BlueprintAgent, view: PlayerView, drawn: Drawn)
    ensures
        ({
            let decided = agent.decision(view, drawn);
            let solved = found_in(agent.postflop@, view, drawn.strength);
            &&& agent.ringed(view, drawn) matches Some(action) ==> decided == (action, None::<Reason>)
            &&& agent.ringed(view, drawn) is None && solved is Ok && drawn.postflop is Some ==> {
                let (at, spot, key) = solved->Ok_0;
                let game = agent.postflop@[at].game;
                let chosen = game.menu(spot)[drawn.postflop->Some_0 as int];
                action_of(*view.legal, view.to_call, game.target(spot, chosen), chosen) matches Some(action)
                    ==> decided == (action, None::<Reason>)
            }
            &&& decided.1 is Some ==> agent.ringed(view, drawn) is None && (agent.opened(view, drawn) matches Some(
                action,
            ) ==> !view.legal.allows(action))
            &&& solved is Err && agent.ringed(view, drawn) is None ==> match agent.opened(view, drawn) {
                Some(action) if view.legal.allows(action) => decided == (action, None::<Reason>),
                _ => decided.1 == Some(solved->Err_0),
            }
        }),
{
}

/// Why a ladder of solves has nothing: before the flop it is past the ladder,
/// and after it there is no solve, there are too many players, the view is no
/// spot, or no key near it is known, the first of these that holds.
pub proof fn law_why_nothing_is_found(rungs: Seq<Rung>, view: PlayerView, strength: Option<u8>)
    ensures
        ({
            let found = found_in(rungs, view, strength);
            let preflop = view.street == Street::Preflop;
            &&& found == Err::<(int, Spot, u64), Reason>(Reason::BeyondTheLadder) <==> preflop
            &&& found == Err::<(int, Spot, u64), Reason>(Reason::NothingLoaded) <==> !preflop && rungs.len() == 0
            &&& found == Err::<(int, Spot, u64), Reason>(Reason::TooManyPlayers) <==> !preflop && rungs.len() > 0
                && view.active != 2
            &&& found == Err::<(int, Spot, u64), Reason>(Reason::Disagreement) <==> !preflop && rungs.len() > 0
                && view.active == 2 && spot_seen(view, strength) is None
            &&& found matches Ok((at, spot, key)) ==> Some(spot) == spot_seen(view, strength)
        }),
{
}

/// How reasons are listed: the more frequent first. Of two reasons one comes
/// first, and never both.
pub proof fn law_frequent_reasons_come_first(one: (Reason, u64), other: (Reason, u64), third: (Reason, u64))
    ensures
        one.1 > other.1 ==> listed_before(one, other) && !listed_before(other, one),
        one.0 != other.0 && one.1 == other.1 ==> listed_before(one, other) != listed_before(other, one),
        !listed_before(one, one),
        listed_before(one, other) && listed_before(other, third) ==> listed_before(one, third),
{
}

/// Names go with probabilities place by place, and none is left out while there
/// are both.
pub proof fn law_names_go_with_probabilities(names: Seq<Seq<char>>, words: Seq<u32>, i: int)
    ensures
        0 <= i < names.len() && i < words.len() ==> i < paired(names, words).len() && paired(names, words)[i] == (
            names[i],
            words[i],
        ),
        0 <= i < paired(names, words).len() ==> i < names.len() && i < words.len(),
{
}

/// What is told of a decision shows the table as it was seen.
pub proof fn law_what_is_told_is_what_was_seen(told: Told, view: PlayerView)
    requires
        told.perceives(view),
    ensures
        told.hole@ == view.hole@,
        told.board@ == view.board@,
        told.street == view.street,
        told.position == view.position,
        told.pot == view.pot,
        told.to_call == view.to_call,
        told.stacks@ == view.stacks@,
{
}

/// The depths of rungs are those that the rungs were solved at.
pub proof fn law_rungs_keep_their_depths(rungs: Seq<Rung>, i: int)
    requires
        0 <= i < rungs.len(),
    ensures
        depths_of(rungs).len() == rungs.len(),
        depths_of(rungs)[i] == rungs[i].spr,
{
}

} // verus!
