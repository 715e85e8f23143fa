//! Hold'em from the flop to showdown, as a game tree of a few bet sizes.
//!
//! A hand is played by two or three seats that start with the same stack and
//! fight over a pot that is already there. Seat 0 is the button and acts last
//! on every street; the others act before it in ascending order.
//!
//! A decision is described by a [`Spot`], which holds what a table shows. The
//! moves on offer, what they cost and the information key are all functions of
//! the spot alone, so a solver walking the tree and a bot looking at a table
//! arrive at the same key.
use vstd::prelude::*;

use crate::abstraction;
use crate::betting::Street;
use crate::card::Card;
use crate::double;
use crate::eval;
use crate::precision;

verus! {

/// How many raises a street allows before the only raise left is all in.
pub const RAISE_CAP: u8 = 3;

/// The most seats one tree deals to.
pub const MAX_PLAYERS: usize = 3;

/// Set on every key of a tree with more than two seats.
pub const MULTIWAY: u64 = 1u64 << 40;

/// How often a seat draws again before it keeps a holding that shares a card.
pub const ATTEMPTS: usize = 64;

/// Bet sizes, in hundredths of the pot after calling.
#[derive(Debug, Clone, Copy, PartialEq, Eq, Structural)]
pub struct Sizing {
    pub small: u32,
    pub large: u32,
}

impl Default for Sizing {
    /// A third of the pot and three quarters of it.
    fn default() -> (sizing: Sizing)
        ensures
            sizing.small == 33,
            sizing.large == 75,
    {
        Sizing { small: 33, large: 75 }
    }
}

/// What a player may do.
#[derive(Debug, Clone, Copy, PartialEq, Eq, Structural)]
pub enum Move {
    Fold,
    /// Check when nothing is owed, call when something is.
    Passive,
    Small,
    Large,
    Jam,
}

impl Move {
    /// The words for the move.
    pub open spec fn words(self) -> Seq<char> {
        match self {
            Move::Fold => "fold"@,
            Move::Passive => "check/call"@,
            Move::Small => "bet small"@,
            Move::Large => "bet large"@,
            Move::Jam => "all in"@,
        }
    }

    /// The name of the move.
    pub fn name(&self) -> (name: &'static str)
        ensures
            name@ == self.words(),
    {
        match self {
            Move::Fold => "fold",
            Move::Passive => "check/call",
            Move::Small => "bet small",
            Move::Large => "bet large",
            Move::Jam => "all in",
        }
    }
}

/// A decision, described the way a table describes one. Amounts are in any one
/// unit: the tree's chips or the table's.
#[derive(Debug, Clone, Copy, PartialEq, Eq, Structural)]
pub struct Spot {
    pub street: Street,
    /// The seat to act.
    pub player: usize,
    /// How many players still hold cards, the actor among them.
    pub live: u8,
    /// The strength group of the actor's hand.
    pub strength: u8,
    /// Everything in the middle, this street's wagers counted.
    pub pot: u64,
    /// The largest wager of this street.
    pub bet: u64,
    /// The actor's own wager of this street.
    pub mine: u64,
    /// What the actor has left.
    pub behind: u64,
    /// The most that any live opponent has left.
    pub opponent_behind: u64,
    /// Raises made on this street, the first bet counted.
    pub raises: u8,
    /// A bit per seat, set once it has acted since the last raise.
    pub acted: u8,
}

impl Spot {
    /// What calling costs.
    pub open spec fn due(self) -> int {
        if self.bet > self.mine {
            self.bet - self.mine
        } else {
            0
        }
    }

    /// What calling costs.
    pub fn owed(&self) -> (owed: u64)
        ensures
            owed == self.due(),
    {
        if self.bet > self.mine {
            self.bet - self.mine
        } else {
            0
        }
    }

    /// What is in the middle, of one chip at least.
    pub open spec fn middle(self) -> int {
        if self.pot == 0 {
            1
        } else {
            self.pot as int
        }
    }

    /// The price of continuing in sixths of the pot, to the nearest, at most 7.
    pub open spec fn price(self) -> int {
        let sixths = double::product(double::ratio(self.due(), self.middle()), 6);
        if double::rounded(sixths) < 7 {
            double::rounded(sixths)
        } else {
            7
        }
    }

    /// How often the stack behind doubles before it passes the pot, at most 7.
    pub open spec fn depth(self) -> int {
        doublings(
            double::ratio(
                self.middle(),
                if self.behind == 0 {
                    1
                } else {
                    self.behind as int
                },
            ),
        )
    }

    /// Which band the price of continuing falls in.
    pub fn price_band(&self) -> (band: u64)
        ensures
            band == self.price(),
            band <= 7,
    {
        let pot: u64 = if self.pot == 0 {
            1
        } else {
            self.pot
        };
        let sixths: u64 = double::product_of(double::ratio_of(self.owed(), pot), 6);
        double::whole_of(sixths, 7)
    }

    /// Which band the depth of the stack against the pot falls in.
    pub fn depth_band(&self) -> (band: u64)
        ensures
            band == self.depth(),
            band <= 7,
    {
        let pot: u64 = if self.pot == 0 {
            1
        } else {
            self.pot
        };
        let behind: u64 = if self.behind == 0 {
            1
        } else {
            self.behind
        };
        let ratio: u64 = double::ratio_of(pot, behind);
        if ratio >= 0x405F_FFFF_FFFF_FFFE {
            7
        } else if ratio >= 0x404F_FFFF_FFFF_FFFE {
            6
        } else if ratio >= 0x403F_FFFF_FFFF_FFFE {
            5
        } else if ratio >= 0x402F_FFFF_FFFF_FFFF {
            4
        } else if ratio >= 0x401F_FFFF_FFFF_FFFF {
            3
        } else if ratio >= 0x4010_0000_0000_0000 {
            2
        } else if ratio >= 0x4000_0000_0000_0000 {
            1
        } else {
            0
        }
    }
}

/// The whole part of the logarithm to the base of two of a number in double
/// precision, by its pattern, from 0 to 7. The logarithm is in double precision
/// too, so that the last number or two below a power of two from 8 on have the
/// logarithm of that power.
pub open spec fn doublings(bits: int) -> int {
    if bits >= 0x405F_FFFF_FFFF_FFFE {
        7
    } else if bits >= 0x404F_FFFF_FFFF_FFFE {
        6
    } else if bits >= 0x403F_FFFF_FFFF_FFFE {
        5
    } else if bits >= 0x402F_FFFF_FFFF_FFFF {
        4
    } else if bits >= 0x401F_FFFF_FFFF_FFFF {
        3
    } else if bits >= 0x4010_0000_0000_0000 {
        2
    } else if bits >= 0x4000_0000_0000_0000 {
        1
    } else {
        0
    }
}

/// The larger of two numbers.
pub open spec fn larger(a: int, b: int) -> int {
    if a >= b {
        a
    } else {
        b
    }
}

/// `chosen` alone where it is offered, nothing where it is not.
pub open spec fn only_if(offered: bool, chosen: Move) -> Seq<Move> {
    if offered {
        seq![chosen]
    } else {
        Seq::empty()
    }
}

/// A number as a street's place in a key.
pub open spec fn street_number(street: Street) -> u64 {
    match street {
        Street::Preflop => 0,
        Street::Flop => 1,
        Street::Turn => 2,
        Street::River => 3,
    }
}

/// The place of a street in a key.
pub fn street_index(street: Street) -> (index: usize)
    ensures
        index == street_number(street),
{
    match street {
        Street::Preflop => 0,
        Street::Flop => 1,
        Street::Turn => 2,
        Street::River => 3,
    }
}

/// The end that every key has in common: price, depth, which moves exist and
/// strength, packed behind `head`.
pub open spec fn packed_tail(head: u64, price: u64, depth: u64, shape: u64, strength: u64) -> u64 {
    (((((((head << 3u64) | price) << 3u64) | depth) << 4u64) | shape) << 8u64) | strength
}

/// The start of a key of a tree with two seats.
pub open spec fn heads_up_head(street: u64, player: u64, raises: u64, acted: u64) -> u64 {
    (((((street << 1u64) | player) << 3u64) | raises) << 2u64) | acted
}

/// The start of a key of a tree with more seats.
pub open spec fn multiway_head(
    street: u64,
    player: u64,
    live: u64,
    raises: u64,
    acted: u64,
) -> u64 {
    (((((((street << 2u64) | player) << 2u64) | live) << 3u64) | raises) << 3u64) | acted
}

/// `key` with its price and depth replaced.
pub open spec fn rebanded(key: u64, price: u64, depth: u64) -> u64 {
    (key & !(7u64 << 15u64) & !(7u64 << 12u64)) | (price << 15u64) | (depth << 12u64)
}

/// The distances from a price and a depth that are searched, nearest first.
pub open spec fn offsets() -> Seq<(i64, i64)> {
    seq![
        (0i64, 0i64),
        (0i64, 1i64),
        (0i64, -1i64),
        (1i64, 0i64),
        (-1i64, 0i64),
        (1i64, 1i64),
        (1i64, -1i64),
        (-1i64, 1i64),
        (-1i64, -1i64),
        (0i64, 2i64),
        (0i64, -2i64),
        (1i64, 2i64),
        (1i64, -2i64),
        (-1i64, 2i64),
        (-1i64, -2i64),
        (2i64, 0i64),
        (-2i64, 0i64),
        (2i64, 1i64),
        (2i64, -1i64),
        (-2i64, 1i64),
        (-2i64, -1i64),
        (2i64, 2i64),
        (2i64, -2i64),
        (-2i64, 2i64),
        (-2i64, -2i64),
    ]
}

/// The price field of a key.
pub open spec fn price_field(key: u64) -> u64 {
    (key >> 15u64) & 7u64
}

/// The depth field of a key.
pub open spec fn depth_field(key: u64) -> u64 {
    (key >> 12u64) & 7u64
}

/// The keys that the first `count` distances lead to from `key`, those out of
/// range left out.
pub open spec fn neighbours(key: u64, count: int) -> Seq<u64>
    decreases count,
{
    if count <= 0 {
        Seq::empty()
    } else {
        let before = neighbours(key, count - 1);
        let (dp, dd) = offsets()[count - 1];
        let price = price_field(key) + dp;
        let depth = depth_field(key) + dd;
        if 0 <= price < 8 && 0 <= depth < 8 {
            before.push(rebanded(key, price as u64, depth as u64))
        } else {
            before
        }
    }
}

/// The rules of a tree: how many seats, what they fight over and in which sizes.
#[derive(Debug, Clone, Copy, PartialEq, Eq)]
pub struct Postflop {
    /// How many groups hand strength is cut into.
    pub buckets: usize,
    /// How many seats the tree deals to.
    pub players: usize,
    /// Chips in the pot when the flop is dealt.
    pub pot: u32,
    /// Chips each seat has behind at that moment.
    pub stack: u32,
    /// The sizes the tree bets in.
    pub sizing: Sizing,
}

impl Postflop {
    /// What a raise of `percent` hundredths of the pot comes to.
    pub open spec fn sized(self, spot: Spot, percent: u32) -> int {
        spot.bet + abstraction::share(spot.pot + spot.due(), percent as int)
    }

    /// Whether the amounts of the spot can be counted.
    pub open spec fn countable(self, spot: Spot) -> bool {
        &&& spot.pot + spot.due() <= u64::MAX
        &&& spot.mine + spot.behind <= u64::MAX
        &&& self.sized(spot, self.sizing.small) <= u64::MAX
        &&& self.sized(spot, self.sizing.large) <= u64::MAX
    }

    /// Whether a raise of `percent` hundredths of the pot is a move: somebody
    /// can answer it, the street has raises left, it is more than the bet and
    /// less than all in.
    pub open spec fn offers_size(self, spot: Spot, percent: u32) -> bool {
        &&& spot.opponent_behind > 0
        &&& spot.raises < RAISE_CAP
        &&& spot.bet < self.sized(spot, percent) < spot.mine + spot.behind
    }

    /// Whether the move exists in the spot. Folding does only where something
    /// is owed, and raising only where somebody can answer it.
    pub open spec fn offers(self, spot: Spot, chosen: Move) -> bool {
        match chosen {
            Move::Fold => spot.due() > 0,
            Move::Passive => true,
            Move::Small => self.offers_size(spot, self.sizing.small),
            Move::Large => self.offers_size(spot, self.sizing.large),
            Move::Jam => spot.opponent_behind > 0 && spot.mine + spot.behind > spot.bet,
        }
    }

    /// The moves that exist in the spot, in a fixed order.
    pub open spec fn menu(self, spot: Spot) -> Seq<Move> {
        only_if(self.offers(spot, Move::Fold), Move::Fold) + seq![Move::Passive] + only_if(
            self.offers(spot, Move::Small),
            Move::Small,
        ) + only_if(self.offers(spot, Move::Large), Move::Large) + only_if(
            self.offers(spot, Move::Jam),
            Move::Jam,
        )
    }

    /// What the move commits the actor to on this street, never more than the
    /// actor has.
    pub open spec fn target(self, spot: Spot, chosen: Move) -> int {
        let most = spot.mine + spot.behind;
        let wanted = match chosen {
            Move::Fold => spot.mine as int,
            Move::Passive => spot.bet as int,
            Move::Small => self.sized(spot, self.sizing.small),
            Move::Large => self.sized(spot, self.sizing.large),
            Move::Jam => most,
        };
        if wanted < most {
            wanted
        } else {
            most
        }
    }

    /// Which of the optional moves exist, a bit each.
    pub open spec fn shape(self, spot: Spot) -> int {
        eval::one(self.offers(spot, Move::Fold)) + 2 * eval::one(self.offers(spot, Move::Small)) + 4
            * eval::one(self.offers(spot, Move::Large)) + 8 * eval::one(
            self.offers(spot, Move::Jam),
        )
    }

    /// The information key of the spot.
    pub open spec fn key(self, spot: Spot) -> u64 {
        let raises: u64 = if spot.raises < 7 {
            spot.raises as u64
        } else {
            7
        };
        let seat: u64 = if spot.player < 3 {
            spot.player as u64
        } else {
            3
        };
        let live: u64 = if spot.live < 3 {
            spot.live as u64
        } else {
            3
        };
        if self.players > 2 {
            MULTIWAY | packed_tail(
                multiway_head(
                    street_number(spot.street),
                    seat,
                    live,
                    raises,
                    (spot.acted & 7) as u64,
                ),
                spot.price() as u64,
                spot.depth() as u64,
                self.shape(spot) as u64,
                spot.strength as u64,
            )
        } else {
            packed_tail(
                heads_up_head(
                    street_number(spot.street),
                    spot.player as u64,
                    raises,
                    spot.acted as u64,
                ),
                spot.price() as u64,
                spot.depth() as u64,
                self.shape(spot) as u64,
                spot.strength as u64,
            )
        }
    }

    /// A tree of two seats.
    pub fn new(buckets: usize, pot: u32, stack: u32, sizing: Sizing) -> (game: Postflop)
        requires
            pot > 0,
            stack > 0,
        ensures
            game == (Postflop { buckets, players: 2, pot, stack, sizing }),
    {
        Postflop { buckets, players: 2, pot, stack, sizing }
    }

    /// A tree of two to three seats.
    pub fn multiway(
        players: usize,
        buckets: usize,
        pot: u32,
        stack: u32,
        sizing: Sizing,
    ) -> (game: Postflop)
        requires
            2 <= players <= MAX_PLAYERS,
            pot > 0,
            stack > 0,
        ensures
            game == (Postflop { buckets, players, pot, stack, sizing }),
    {
        Postflop { buckets, players, pot, stack, sizing }
    }

    /// A tree of two seats that is only asked about spots, never walked.
    pub fn for_play(buckets: usize, pot: u32, stack: u32, sizing: Sizing) -> (game: Postflop)
        ensures
            game == (Postflop { buckets, players: 2, pot, stack, sizing }),
    {
        Postflop { buckets, players: 2, pot, stack, sizing }
    }

    /// A tree of two to three seats that is only asked about spots.
    pub fn multiway_for_play(
        players: usize,
        buckets: usize,
        pot: u32,
        stack: u32,
        sizing: Sizing,
    ) -> (game: Postflop)
        requires
            2 <= players <= MAX_PLAYERS,
        ensures
            game == (Postflop { buckets, players, pot, stack, sizing }),
    {
        Postflop { buckets, players, pot, stack, sizing }
    }

    /// How many seats the tree deals to.
    pub fn players(&self) -> (players: usize)
        ensures
            players == self.players,
    {
        self.players
    }

    /// How many groups hand strength is cut into.
    pub fn buckets(&self) -> (buckets: usize)
        ensures
            buckets == self.buckets,
    {
        self.buckets
    }

    /// The sizes the tree bets in.
    pub fn sizing(&self) -> (sizing: Sizing)
        ensures
            sizing == self.sizing,
    {
        self.sizing
    }

    /// What a raise of `percent` hundredths of the pot comes to.
    fn raise_to(&self, spot: &Spot, percent: u32) -> (target: u64)
        requires
            self.sized(*spot, percent) <= u64::MAX,
        ensures
            target == self.sized(*spot, percent),
    {
        let after_call: u128 = spot.pot as u128 + spot.owed() as u128;
        let rounded: u128 = abstraction::share_of(after_call, percent);
        assert(0 <= after_call * percent) by (nonlinear_arith)
            requires
                0 <= after_call,
                0 <= percent,
        ;
        spot.bet + rounded as u64
    }

    /// What a move commits the actor to on this street, in the spot's units.
    pub fn target_of(&self, spot: &Spot, chosen: Move) -> (target: u64)
        requires
            self.countable(*spot),
        ensures
            target == self.target(*spot, chosen),
    {
        let most: u64 = spot.mine + spot.behind;
        let wanted: u64 = match chosen {
            Move::Fold => spot.mine,
            Move::Passive => spot.bet,
            Move::Small => self.raise_to(spot, self.sizing.small),
            Move::Large => self.raise_to(spot, self.sizing.large),
            Move::Jam => most,
        };
        if wanted < most {
            wanted
        } else {
            most
        }
    }

    /// Whether the move exists in the spot.
    fn is_offered(&self, spot: &Spot, chosen: Move) -> (offered: bool)
        requires
            self.countable(*spot),
        ensures
            offered == self.offers(*spot, chosen),
    {
        let most: u64 = spot.mine + spot.behind;
        let contested: bool = spot.opponent_behind > 0;
        match chosen {
            Move::Fold => spot.owed() > 0,
            Move::Passive => true,
            Move::Small => {
                let target: u64 = self.raise_to(spot, self.sizing.small);
                contested && spot.raises < RAISE_CAP && target > spot.bet && target < most
            },
            Move::Large => {
                let target: u64 = self.raise_to(spot, self.sizing.large);
                contested && spot.raises < RAISE_CAP && target > spot.bet && target < most
            },
            Move::Jam => contested && most > spot.bet,
        }
    }

    /// The moves available in a spot, in a fixed order, so that the place of a
    /// move in the list is stable.
    pub fn moves_at(&self, spot: &Spot) -> (moves: Vec<Move>)
        requires
            self.countable(*spot),
        ensures
            moves@ == self.menu(*spot),
    {
        let mut moves: Vec<Move> = Vec::new();
        if self.is_offered(spot, Move::Fold) {
            moves.push(Move::Fold);
        }
        moves.push(Move::Passive);
        if self.is_offered(spot, Move::Small) {
            moves.push(Move::Small);
        }
        if self.is_offered(spot, Move::Large) {
            moves.push(Move::Large);
        }
        if self.is_offered(spot, Move::Jam) {
            moves.push(Move::Jam);
        }
        assert(moves@ =~= self.menu(*spot));
        moves
    }

    /// Which of the optional moves exist, a bit each.
    fn shape_of(&self, spot: &Spot) -> (shape: u64)
        requires
            self.countable(*spot),
        ensures
            shape == self.shape(*spot),
            shape < 16,
    {
        let fold: u64 = if self.is_offered(spot, Move::Fold) {
            1
        } else {
            0
        };
        let small: u64 = if self.is_offered(spot, Move::Small) {
            2
        } else {
            0
        };
        let large: u64 = if self.is_offered(spot, Move::Large) {
            4
        } else {
            0
        };
        let jam: u64 = if self.is_offered(spot, Move::Jam) {
            8
        } else {
            0
        };
        fold + small + large + jam
    }

    /// The information key of a spot: what the actor can see, packed into one
    /// number. Which moves exist is part of it, so that two spots which share
    /// a key share their list of moves.
    pub fn key_at(&self, spot: &Spot) -> (key: u64)
        requires
            self.countable(*spot),
        ensures
            key == self.key(*spot),
    {
        let price: u64 = spot.price_band();
        let depth: u64 = spot.depth_band();
        let shape: u64 = self.shape_of(spot);
        let strength: u64 = spot.strength as u64;
        let raises: u64 = if spot.raises < 7 {
            spot.raises as u64
        } else {
            7
        };
        let mut key: u64 = street_index(spot.street) as u64;
        if self.players > 2 {
            let seat: u64 = if spot.player < 3 {
                spot.player as u64
            } else {
                3
            };
            let live: u64 = if spot.live < 3 {
                spot.live as u64
            } else {
                3
            };
            key = (key << 2u64) | seat;
            key = (key << 2u64) | live;
            key = (key << 3u64) | raises;
            key = (key << 3u64) | (spot.acted & 7) as u64;
            key = (key << 3u64) | price;
            key = (key << 3u64) | depth;
            key = (key << 4u64) | shape;
            MULTIWAY | ((key << 8u64) | strength)
        } else {
            key = (key << 1u64) | spot.player as u64;
            key = (key << 3u64) | raises;
            key = (key << 2u64) | spot.acted as u64;
            key = (key << 3u64) | price;
            key = (key << 3u64) | depth;
            key = (key << 4u64) | shape;
            (key << 8u64) | strength
        }
    }

    /// The keys worth trying for a spot, the exact one first and then those of
    /// the nearest prices and depths. Everything else about the spot is an
    /// exact fact and is kept.
    pub fn keys_near(&self, spot: &Spot) -> (keys: Vec<u64>)
        requires
            self.countable(*spot),
        ensures
            keys@ == neighbours(self.key(*spot), offsets().len() as int),
    {
        let exact: u64 = self.key_at(spot);
        let price: u64 = (exact >> 15u64) & 7u64;
        let depth: u64 = (exact >> 12u64) & 7u64;
        assert(price < 8 && depth < 8) by (bit_vector)
            requires
                price == (exact >> 15u64) & 7u64,
                depth == (exact >> 12u64) & 7u64,
        ;
        let stripped: u64 = exact & !(7u64 << 15u64) & !(7u64 << 12u64);
        let order: [(i64, i64); 25] = [
            (0, 0),
            (0, 1),
            (0, -1),
            (1, 0),
            (-1, 0),
            (1, 1),
            (1, -1),
            (-1, 1),
            (-1, -1),
            (0, 2),
            (0, -2),
            (1, 2),
            (1, -2),
            (-1, 2),
            (-1, -2),
            (2, 0),
            (-2, 0),
            (2, 1),
            (2, -1),
            (-2, 1),
            (-2, -1),
            (2, 2),
            (2, -2),
            (-2, 2),
            (-2, -2),
        ];
        assert(order@ =~= offsets());
        let mut keys: Vec<u64> = Vec::new();
        let mut i: usize = 0;
        while i < 25
            invariant
                i <= 25,
                order@ == offsets(),
                forall|k: int| 0 <= k < 25 ==> -2 <= (#[trigger] offsets()[k]).0 <= 2,
                forall|k: int| 0 <= k < 25 ==> -2 <= (#[trigger] offsets()[k]).1 <= 2,
                exact == self.key(*spot),
                price == price_field(exact),
                depth == depth_field(exact),
                price < 8,
                depth < 8,
                stripped == exact & !(7u64 << 15u64) & !(7u64 << 12u64),
                keys@ == neighbours(exact, i as int),
            decreases 25 - i,
        {
            let (dp, dd): (i64, i64) = order[i];
            assert((dp, dd) == offsets()[i as int]);
            let p: i64 = price as i64 + dp;
            let d: i64 = depth as i64 + dd;
            if 0 <= p && p < 8 && 0 <= d && d < 8 {
                keys.push(stripped | ((p as u64) << 15u64) | ((d as u64) << 12u64));
            }
            i = i + 1;
        }
        keys
    }
}

/// Whether the spot could come up in a tree of two seats.
pub open spec fn heads_up_spot(spot: Spot) -> bool {
    spot.player < 2 && spot.acted < 4
}

/// What a key of two seats says of a spot.
pub open spec fn same_heads_up(game: Postflop, a: Spot, b: Spot) -> bool {
    &&& a.street == b.street
    &&& a.player == b.player
    &&& a.raises == b.raises || (a.raises >= 7 && b.raises >= 7)
    &&& a.acted == b.acted
    &&& a.price() == b.price()
    &&& a.depth() == b.depth()
    &&& a.strength == b.strength
    &&& game.menu(a) == game.menu(b)
}

proof fn lemma_bands(spot: Spot)
    ensures
        0 <= spot.price() <= 7,
        0 <= spot.depth() <= 7,
{
    double::lemma_ratio(spot.due(), spot.middle());
    double::lemma_product(double::ratio(spot.due(), spot.middle()), 6);
    double::lemma_rounded(double::product(double::ratio(spot.due(), spot.middle()), 6));
}

/// The list of moves is its shape: two lists are equal exactly if the same of
/// the optional moves are in them.
proof fn lemma_shape(game: Postflop, a: Spot, b: Spot)
    ensures
        0 <= game.shape(a) < 16,
        game.shape(a) == game.shape(b) <==> game.menu(a) == game.menu(b),
{
    if game.shape(a) == game.shape(b) {
        assert(game.menu(a) =~= game.menu(b));
    } else {
        if game.menu(a) == game.menu(b) {
            let (one, other) = (game.menu(a), game.menu(b));
            lemma_menu_holds(game, a);
            lemma_menu_holds(game, b);
            assert(one.contains(Move::Fold) == other.contains(Move::Fold));
            assert(one.contains(Move::Small) == other.contains(Move::Small));
            assert(one.contains(Move::Large) == other.contains(Move::Large));
            assert(one.contains(Move::Jam) == other.contains(Move::Jam));
        }
    }
}

/// The list of moves holds exactly the moves on offer.
proof fn lemma_menu_holds(game: Postflop, spot: Spot)
    ensures
        forall|chosen: Move|
            #[trigger] game.menu(spot).contains(chosen) <==> game.offers(spot, chosen),
{
    let menu = game.menu(spot);
    let (f, s, l) = (
        eval::one(game.offers(spot, Move::Fold)),
        eval::one(game.offers(spot, Move::Small)),
        eval::one(game.offers(spot, Move::Large)),
    );
    assert forall|chosen: Move| game.offers(spot, chosen) implies #[trigger] menu.contains(
        chosen,
    ) by {
        let at = match chosen {
            Move::Fold => 0int,
            Move::Passive => f,
            Move::Small => f + 1,
            Move::Large => f + 1 + s,
            Move::Jam => f + 1 + s + l,
        };
        assert(menu[at] == chosen);
    }
}

proof fn lemma_heads_up_key(
    one: (u64, u64, u64, u64, u64, u64, u64, u64),
    other: (u64, u64, u64, u64, u64, u64, u64, u64),
)
    requires
        one.0 < 4 && one.1 < 2 && one.2 < 8 && one.3 < 4,
        one.4 < 8 && one.5 < 8 && one.6 < 16 && one.7 < 256,
        other.0 < 4 && other.1 < 2 && other.2 < 8 && other.3 < 4,
        other.4 < 8 && other.5 < 8 && other.6 < 16 && other.7 < 256,
    ensures
        packed_tail(heads_up_head(one.0, one.1, one.2, one.3), one.4, one.5, one.6, one.7)
            == packed_tail(
            heads_up_head(other.0, other.1, other.2, other.3),
            other.4,
            other.5,
            other.6,
            other.7,
        ) ==> one == other,
        packed_tail(heads_up_head(one.0, one.1, one.2, one.3), one.4, one.5, one.6, one.7) & MULTIWAY
            == 0,
{
    let (a0, a1, a2, a3, a4, a5, a6, a7) = one;
    let (b0, b1, b2, b3, b4, b5, b6, b7) = other;
    assert({
        let a = packed_tail(heads_up_head(a0, a1, a2, a3), a4, a5, a6, a7);
        let b = packed_tail(heads_up_head(b0, b1, b2, b3), b4, b5, b6, b7);
        &&& a & (1u64 << 40) == 0
        &&& a == b ==> a0 == b0 && a1 == b1 && a2 == b2 && a3 == b3 && a4 == b4 && a5 == b5 && a6
            == b6 && a7 == b7
    }) by (bit_vector)
        requires
            a0 < 4 && a1 < 2 && a2 < 8 && a3 < 4 && a4 < 8 && a5 < 8 && a6 < 16 && a7 < 256,
            b0 < 4 && b1 < 2 && b2 < 8 && b3 < 4 && b4 < 8 && b5 < 8 && b6 < 16 && b7 < 256,
    ;
}

/// In a tree of two seats the key says everything that it is meant to say and
/// nothing else: two spots share a key exactly if they agree in street, seat,
/// raises, who has acted, price, depth, strength and the list of moves.
pub proof fn law_heads_up_keys_tell_spots_apart(game: Postflop, a: Spot, b: Spot)
    requires
        game.players <= 2,
        heads_up_spot(a),
        heads_up_spot(b),
    ensures
        game.key(a) == game.key(b) <==> same_heads_up(game, a, b),
{
    lemma_bands(a);
    lemma_bands(b);
    lemma_shape(game, a, b);
    lemma_shape(game, b, a);
    let capped = |spot: Spot|
        if spot.raises < 7 {
            spot.raises as u64
        } else {
            7u64
        };
    lemma_heads_up_key(
        (
            street_number(a.street),
            a.player as u64,
            capped(a),
            a.acted as u64,
            a.price() as u64,
            a.depth() as u64,
            game.shape(a) as u64,
            a.strength as u64,
        ),
        (
            street_number(b.street),
            b.player as u64,
            capped(b),
            b.acted as u64,
            b.price() as u64,
            b.depth() as u64,
            game.shape(b) as u64,
            b.strength as u64,
        ),
    );
}

/// What a key of three seats says of a spot.
pub open spec fn same_multiway(game: Postflop, a: Spot, b: Spot) -> bool {
    &&& a.street == b.street
    &&& a.player == b.player
    &&& a.live == b.live
    &&& a.raises == b.raises || (a.raises >= 7 && b.raises >= 7)
    &&& a.acted == b.acted
    &&& a.price() == b.price()
    &&& a.depth() == b.depth()
    &&& a.strength == b.strength
    &&& game.menu(a) == game.menu(b)
}

proof fn lemma_multiway_key(
    one: (u64, u64, u64, u64, u64, u64, u64, u64, u64),
    other: (u64, u64, u64, u64, u64, u64, u64, u64, u64),
)
    requires
        one.0 < 4 && one.1 < 4 && one.2 < 4 && one.3 < 8 && one.4 < 8,
        one.5 < 8 && one.6 < 8 && one.7 < 16 && one.8 < 256,
        other.0 < 4 && other.1 < 4 && other.2 < 4 && other.3 < 8 && other.4 < 8,
        other.5 < 8 && other.6 < 8 && other.7 < 16 && other.8 < 256,
    ensures
        MULTIWAY | packed_tail(
            multiway_head(one.0, one.1, one.2, one.3, one.4),
            one.5,
            one.6,
            one.7,
            one.8,
        ) == MULTIWAY | packed_tail(
            multiway_head(other.0, other.1, other.2, other.3, other.4),
            other.5,
            other.6,
            other.7,
            other.8,
        ) ==> one == other,
{
    let (a0, a1, a2, a3, a4, a5, a6, a7, a8) = one;
    let (b0, b1, b2, b3, b4, b5, b6, b7, b8) = other;
    assert({
        let a = (1u64 << 40) | packed_tail(multiway_head(a0, a1, a2, a3, a4), a5, a6, a7, a8);
        let b = (1u64 << 40) | packed_tail(multiway_head(b0, b1, b2, b3, b4), b5, b6, b7, b8);
        a == b ==> a0 == b0 && a1 == b1 && a2 == b2 && a3 == b3 && a4 == b4 && a5 == b5 && a6 == b6
            && a7 == b7 && a8 == b8
    }) by (bit_vector)
        requires
            a0 < 4 && a1 < 4 && a2 < 4 && a3 < 8 && a4 < 8 && a5 < 8 && a6 < 8 && a7 < 16,
            b0 < 4 && b1 < 4 && b2 < 4 && b3 < 8 && b4 < 8 && b5 < 8 && b6 < 8 && b7 < 16,
            a8 < 256 && b8 < 256,
    ;
}

/// In a tree of three seats the key tells apart the live players too: two
/// spots share a key exactly if they agree in street, seat, live players,
/// raises, who has acted, price, depth, strength and the list of moves.
pub proof fn law_multiway_keys_tell_spots_apart(game: Postflop, a: Spot, b: Spot)
    requires
        game.players == 3,
        a.player < 3 && a.live <= 3 && a.acted < 8,
        b.player < 3 && b.live <= 3 && b.acted < 8,
    ensures
        game.key(a) == game.key(b) <==> same_multiway(game, a, b),
{
    lemma_bands(a);
    lemma_bands(b);
    lemma_shape(game, a, b);
    lemma_shape(game, b, a);
    let (m, n): (u8, u8) = (a.acted, b.acted);
    assert((m & 7) == m && (n & 7) == n) by (bit_vector)
        requires
            m < 8,
            n < 8,
    ;
    let capped = |spot: Spot|
        if spot.raises < 7 {
            spot.raises as u64
        } else {
            7u64
        };
    lemma_multiway_key(
        (
            street_number(a.street),
            a.player as u64,
            a.live as u64,
            capped(a),
            a.acted as u64,
            a.price() as u64,
            a.depth() as u64,
            game.shape(a) as u64,
            a.strength as u64,
        ),
        (
            street_number(b.street),
            b.player as u64,
            b.live as u64,
            capped(b),
            b.acted as u64,
            b.price() as u64,
            b.depth() as u64,
            game.shape(b) as u64,
            b.strength as u64,
        ),
    );
}

/// No key of a tree of two seats is a key of a larger tree: the larger one's
/// carry a mark that the other's never do.
pub proof fn law_multiway_keys_stand_apart(heads_up: Postflop, larger: Postflop, a: Spot, b: Spot)
    requires
        heads_up.players <= 2,
        larger.players > 2,
        heads_up_spot(a),
    ensures
        heads_up.key(a) & MULTIWAY == 0,
        larger.key(b) & MULTIWAY == MULTIWAY,
        heads_up.key(a) != larger.key(b),
{
    lemma_bands(a);
    lemma_shape(heads_up, a, a);
    let raises: u64 = if a.raises < 7 {
        a.raises as u64
    } else {
        7u64
    };
    let fields = (
        street_number(a.street),
        a.player as u64,
        raises,
        a.acted as u64,
        a.price() as u64,
        a.depth() as u64,
        heads_up.shape(a) as u64,
        a.strength as u64,
    );
    lemma_heads_up_key(fields, fields);
    let key = larger.key(b);
    let rest = choose|rest: u64| key == MULTIWAY | rest;
    assert(((1u64 << 40) | rest) & (1u64 << 40) == 1u64 << 40) by (bit_vector);
    assert(1u64 << 40 != 0) by (bit_vector);
}

/// How far away a distance is: the larger of its two parts.
pub open spec fn reach(offset: (i64, i64)) -> int {
    larger(magnitude(offset.0), magnitude(offset.1))
}

/// The size of a number without its sign.
pub open spec fn magnitude(value: i64) -> int {
    if value < 0 {
        -value
    } else {
        value as int
    }
}

/// Whether `a` is searched before `b`: nearer first; of two equally near, the
/// one that changes the price less, then the depth less; of those, the dearer
/// price first, then the deeper pot.
pub open spec fn sooner(a: (i64, i64), b: (i64, i64)) -> bool {
    if reach(a) != reach(b) {
        reach(a) < reach(b)
    } else if magnitude(a.0) != magnitude(b.0) {
        magnitude(a.0) < magnitude(b.0)
    } else if magnitude(a.1) != magnitude(b.1) {
        magnitude(a.1) < magnitude(b.1)
    } else if a.0 != b.0 {
        a.0 > b.0
    } else {
        a.1 > b.1
    }
}

/// The search goes through every distance of at most two bands, in order.
pub proof fn law_search_goes_nearest_first(dp: i64, dd: i64)
    ensures
        forall|i: int, j: int|
            0 <= i < j < offsets().len() ==> sooner(#[trigger] offsets()[i], #[trigger] offsets()[j]),
        offsets().contains((dp, dd)) <==> reach((dp, dd)) <= 2,
{
    let all = offsets();
    assert forall|i: int| 0 <= i < all.len() - 1 implies sooner(
        #[trigger] all[i],
        all[i + 1],
    ) by {}
    assert forall|i: int, j: int| 0 <= i < j < all.len() implies sooner(
        #[trigger] all[i],
        #[trigger] all[j],
    ) by {
        lemma_sooner_chain(i, j);
    }
    assert(forall|i: int| 0 <= i < all.len() ==> reach(#[trigger] all[i]) <= 2);
    if reach((dp, dd)) <= 2 {
        let (p, d) = (magnitude(dp), magnitude(dd));
        let low_p = if dp < 0 {
            1int
        } else {
            0
        };
        let low_d = if dd < 0 {
            1int
        } else {
            0
        };
        let at: int = if p == 0 && d == 0 {
            0
        } else if p == 0 && d == 1 {
            1 + low_d
        } else if p == 1 && d == 0 {
            3 + low_p
        } else if p == 1 && d == 1 {
            5 + 2 * low_p + low_d
        } else if p == 0 {
            9 + low_d
        } else if p == 1 {
            11 + 2 * low_p + low_d
        } else if d == 0 {
            15 + low_p
        } else if d == 1 {
            17 + 2 * low_p + low_d
        } else {
            21 + 2 * low_p + low_d
        };
        assert(all[at] == (dp, dd));
    }
}

proof fn lemma_sooner_chain(i: int, j: int)
    requires
        0 <= i < j < offsets().len(),
        forall|k: int|
            0 <= k < offsets().len() - 1 ==> sooner(#[trigger] offsets()[k], offsets()[k + 1]),
    ensures
        sooner(offsets()[i], offsets()[j]),
    decreases j - i,
{
    assert(sooner(offsets()[j - 1], offsets()[j - 1 + 1]));
    if i < j - 1 {
        lemma_sooner_chain(i, j - 1);
    }
}

/// A search starts with the exact key, and keeps everything but price and
/// depth: in particular every key it finds belongs to the same list of moves.
pub proof fn law_search_keeps_the_exact_facts(key: u64, at: int)
    requires
        0 <= at < neighbours(key, offsets().len() as int).len(),
    ensures
        neighbours(key, offsets().len() as int)[0] == key,
        neighbours(key, offsets().len() as int)[at] & !(63u64 << 12u64) == key & !(63u64 << 12u64),
{
    let low: u64 = price_field(key);
    let deep: u64 = depth_field(key);
    assert(((key >> 15u64) & 7u64) < 8 && ((key >> 12u64) & 7u64) < 8) by (bit_vector);
    assert(((key & !(7u64 << 15u64) & !(7u64 << 12u64)) | (((key >> 15u64) & 7u64) << 15u64) | (((
    key >> 12u64) & 7u64) << 12u64)) == key) by (bit_vector);
    assert(neighbours(key, 0) =~= Seq::<u64>::empty());
    assert(neighbours(key, 1) =~= seq![key]);
    lemma_neighbours(key, offsets().len() as int);
    assert(neighbours(key, offsets().len() as int)[0] == neighbours(key, 1)[0]);
}

proof fn lemma_neighbours(key: u64, count: int)
    requires
        1 <= count <= offsets().len(),
        neighbours(key, 1).len() == 1,
    ensures
        neighbours(key, count).len() >= 1,
        neighbours(key, count)[0] == neighbours(key, 1)[0],
        forall|at: int|
            0 <= at < neighbours(key, count).len() ==> #[trigger] neighbours(key, count)[at] & !(63u64
                << 12u64) == key & !(63u64 << 12u64),
    decreases count,
{
    let (dp, dd) = offsets()[count - 1];
    let price = price_field(key) + dp;
    let depth = depth_field(key) + dd;
    if 0 <= price < 8 && 0 <= depth < 8 {
        let (p, d): (u64, u64) = (price as u64, depth as u64);
        assert(rebanded(key, p, d) & !(63u64 << 12u64) == key & !(63u64 << 12u64)) by (bit_vector)
            requires
                p < 8,
                d < 8,
        ;
    }
    if count > 1 {
        lemma_neighbours(key, count - 1);
    } else {
        assert(neighbours(key, 0) =~= Seq::<u64>::empty());
    }
}

/// A node of the tree.
#[derive(Debug, Clone, Copy, PartialEq, Eq)]
pub struct State {
    /// Which board the hand is played on.
    pub board: u32,
    /// Each seat's holding, as an index into the holdings of that board.
    pub holdings: [u16; 3],
    pub street: Street,
    /// Chips each seat has put in on this street.
    pub wagered: [u32; 3],
    /// Chips each seat has put in on earlier streets.
    pub spent: [u32; 3],
    /// Chips in the pot from earlier streets, the starting pot counted.
    pub settled: u32,
    /// The seat to act.
    pub to_act: usize,
    /// Which seats have acted since the last raise.
    pub acted: [bool; 3],
    /// Raises on this street.
    pub raises: u8,
    /// Which seats have folded.
    pub folded: [bool; 3],
    /// Whether board and holdings are dealt.
    pub dealt: bool,
}

/// A node in numbers.
#[verifier::ext_equal]
pub struct Node {
    pub board: int,
    pub holdings: Seq<int>,
    pub street: Street,
    pub wagered: Seq<int>,
    pub spent: Seq<int>,
    pub settled: int,
    pub to_act: int,
    pub acted: Seq<bool>,
    pub raises: int,
    pub folded: Seq<bool>,
    pub dealt: bool,
}

impl View for State {
    type V = Node;

    open spec fn view(&self) -> Node {
        Node {
            board: self.board as int,
            holdings: self.holdings@.map_values(|holding: u16| holding as int),
            street: self.street,
            wagered: self.wagered@.map_values(|chips: u32| chips as int),
            spent: self.spent@.map_values(|chips: u32| chips as int),
            settled: self.settled as int,
            to_act: self.to_act as int,
            acted: self.acted@,
            raises: self.raises as int,
            folded: self.folded@,
            dealt: self.dealt,
        }
    }
}

impl Node {
    /// Chips in the middle, this street's wagers counted.
    pub open spec fn pot(self) -> int {
        self.settled + self.wagered[0] + self.wagered[1] + self.wagered[2]
    }

    /// What a seat has put in since the flop.
    pub open spec fn staked(self, seat: int) -> int {
        self.spent[seat] + self.wagered[seat]
    }
}

impl State {
    /// The street being played.
    pub fn street(&self) -> (street: Street)
        ensures
            street == self@.street,
    {
        self.street
    }

    /// Chips in the middle, this street's wagers counted.
    pub fn pot(&self) -> (pot: u32)
        requires
            self@.pot() <= u32::MAX,
        ensures
            pot == self@.pot(),
    {
        self.settled + self.wagered[0] + self.wagered[1] + self.wagered[2]
    }

    /// Whether a seat still holds cards.
    pub fn is_live(&self, player: usize) -> (live: bool)
        requires
            player < MAX_PLAYERS,
        ensures
            live == !self@.folded[player as int],
    {
        !self.folded[player]
    }

    /// A seat's holding.
    pub fn holding(&self, player: usize) -> (holding: usize)
        requires
            player < MAX_PLAYERS,
        ensures
            holding == self@.holdings[player as int],
    {
        self.holdings[player] as usize
    }

    /// The board the hand is played on.
    pub fn board(&self) -> (board: usize)
        ensures
            board == self@.board,
    {
        self.board as usize
    }
}

/// What a hand was worth to a seat: `units` parts of a chip, `of` to the chip.
#[derive(Debug, Clone, Copy, PartialEq, Eq, Structural)]
pub struct Payoff {
    pub units: i64,
    pub of: i64,
}

impl Postflop {
    /// Whether the tree can be walked: two or three seats, something to play
    /// for, and chips that can be counted.
    pub open spec fn sound(self) -> bool {
        &&& 2 <= self.players <= MAX_PLAYERS
        &&& 0 < self.pot
        &&& 0 < self.stack
        &&& self.pot + 3 * self.stack <= u32::MAX
    }

    /// Whether the seat is in the hand.
    pub open spec fn holds(self, node: Node, seat: int) -> bool {
        0 <= seat < self.players && !node.folded[seat]
    }

    /// What the seat has left.
    pub open spec fn left(self, node: Node, seat: int) -> int {
        larger(self.stack - node.spent[seat] - node.wagered[seat], 0)
    }

    /// Whether the seat is in the hand with chips left.
    pub open spec fn can_act(self, node: Node, seat: int) -> bool {
        self.holds(node, seat) && self.left(node, seat) > 0
    }

    /// The wager of a seat, or nothing where it has folded.
    pub open spec fn standing(self, node: Node, seat: int) -> int {
        if self.holds(node, seat) {
            node.wagered[seat]
        } else {
            0
        }
    }

    /// The largest live wager of the street.
    pub open spec fn bet(self, node: Node) -> int {
        larger(
            larger(self.standing(node, 0), self.standing(node, 1)),
            self.standing(node, 2),
        )
    }

    /// How many seats are in the hand.
    pub open spec fn live(self, node: Node) -> int {
        eval::one(self.holds(node, 0)) + eval::one(self.holds(node, 1)) + eval::one(
            self.holds(node, 2),
        )
    }

    /// How many seats are in the hand with chips left.
    pub open spec fn able(self, node: Node) -> int {
        eval::one(self.can_act(node, 0)) + eval::one(self.can_act(node, 1)) + eval::one(
            self.can_act(node, 2),
        )
    }

    /// Whether the street asks nothing more of a seat.
    pub open spec fn done(self, node: Node, seat: int) -> bool {
        self.holds(node, seat) ==> self.left(node, seat) == 0 || (node.acted[seat]
            && node.wagered[seat] == self.bet(node))
    }

    /// Whether the betting of the street is over.
    pub open spec fn closed(self, node: Node) -> bool {
        self.live(node) <= 1 || (self.done(node, 0) && self.done(node, 1) && self.done(node, 2))
    }

    /// The next seat with a decision, going round from `from`.
    pub open spec fn next_from(self, node: Node, from: int) -> Option<int> {
        let players = self.players as int;
        if self.can_act(node, (from + 1) % players) {
            Some((from + 1) % players)
        } else if self.can_act(node, (from + 2) % players) {
            Some((from + 2) % players)
        } else if players > 2 && self.can_act(node, (from + 3) % players) {
            Some((from + 3) % players)
        } else {
            None
        }
    }

    /// The most that another live seat has left.
    pub open spec fn deepest(self, node: Node, player: int) -> int {
        larger(
            larger(self.facing(node, player, 0), self.facing(node, player, 1)),
            self.facing(node, player, 2),
        )
    }

    /// What `seat` has left against `player`.
    pub open spec fn facing(self, node: Node, player: int, seat: int) -> int {
        if seat != player && self.holds(node, seat) {
            self.left(node, seat)
        } else {
            0
        }
    }

    /// How a node describes itself as a spot.
    pub open spec fn spot(self, node: Node, strength: u8) -> Spot {
        Spot {
            street: node.street,
            player: node.to_act as usize,
            live: self.live(node) as u8,
            strength,
            pot: node.pot() as u64,
            bet: self.bet(node) as u64,
            mine: node.wagered[node.to_act] as u64,
            behind: self.left(node, node.to_act) as u64,
            opponent_behind: self.deepest(node, node.to_act) as u64,
            raises: node.raises as u8,
            acted: (eval::one(node.acted[0]) + 2 * eval::one(node.acted[1]) + 4 * eval::one(
                node.acted[2],
            )) as u8,
        }
    }

    /// Whether the hand is over: all but one have folded, or the betting is
    /// over on the river or with at most one seat able to bet.
    pub open spec fn over(self, node: Node) -> bool {
        node.dealt && (self.live(node) <= 1 || (self.closed(node) && (node.street == Street::River
            || self.able(node) <= 1)))
    }

    /// The first street after the flop's, and so on; the river stays.
    pub open spec fn following(street: Street) -> Street {
        match street {
            Street::Flop => Street::Turn,
            Street::Turn => Street::River,
            other => other,
        }
    }

    /// The node with the wagers in the pot and the next street begun.
    pub open spec fn dealt_on(self, node: Node) -> Node {
        let next = Node {
            spent: Seq::new(3, |seat: int| node.staked(seat)),
            settled: node.pot(),
            wagered: seq![0int, 0, 0],
            acted: seq![false, false, false],
            raises: 0,
            street: Self::following(node.street),
            ..node
        };
        Node {
            to_act: match self.next_from(next, 0) {
                Some(seat) => seat,
                None => 0,
            },
            ..next
        }
    }

    /// Whether the move raises.
    pub open spec fn raising(self, node: Node, chosen: Move) -> bool {
        match chosen {
            Move::Fold | Move::Passive => false,
            Move::Small | Move::Large => true,
            Move::Jam => node.wagered[node.to_act] + self.left(node, node.to_act) > self.bet(node),
        }
    }

    /// The node with the move's chips down and its actor marked.
    pub open spec fn placed(self, node: Node, chosen: Move) -> Node {
        let player = node.to_act;
        let cleared = if self.raising(node, chosen) {
            seq![false, false, false]
        } else {
            node.acted
        };
        Node {
            wagered: node.wagered.update(player, self.target(self.spot(node, 0), chosen)),
            folded: if chosen == Move::Fold {
                node.folded.update(player, true)
            } else {
                node.folded
            },
            acted: cleared.update(player, true),
            raises: node.raises + eval::one(self.raising(node, chosen)),
            ..node
        }
    }

    /// The node after the move: the next seat's turn, the next street, or the
    /// end of the hand.
    pub open spec fn after(self, node: Node, chosen: Move) -> Node {
        let next = self.placed(node, chosen);
        if self.closed(next) {
            if self.live(next) <= 1 || next.street == Street::River || self.able(next) <= 1 {
                next
            } else {
                self.dealt_on(next)
            }
        } else {
            match self.next_from(next, node.to_act) {
                Some(seat) => Node { to_act: seat, ..next },
                None => next,
            }
        }
    }

    /// Whether every seat's chips are accounted for: nobody has put in more
    /// than the stack, the pot holds the start and every stake, and seats that
    /// the tree does not deal to are empty.
    pub open spec fn balanced(self, node: Node) -> bool {
        &&& node.wagered.len() == 3 && node.spent.len() == 3 && node.acted.len() == 3
        &&& node.folded.len() == 3 && node.holdings.len() == 3
        &&& 0 <= node.to_act < self.players
        &&& node.street != Street::Preflop
        &&& forall|seat: int|
            0 <= seat < 3 ==> 0 <= #[trigger] node.wagered[seat] && 0 <= node.spent[seat]
                && node.staked(seat) <= self.stack
        &&& self.players == 2 ==> node.wagered[2] == 0 && node.spent[2] == 0
        &&& node.settled == self.pot + node.spent[0] + node.spent[1] + node.spent[2]
        &&& 0 <= node.raises <= 3 + self.broke(node)
    }

    /// How many seats have nothing left.
    pub open spec fn broke(self, node: Node) -> int {
        eval::one(self.left(node, 0) == 0) + eval::one(self.left(node, 1) == 0) + eval::one(
            self.left(node, 2) == 0,
        )
    }

    /// Whether everybody in the hand has paid the same on earlier streets.
    pub open spec fn level(self, node: Node) -> bool {
        forall|one: int, other: int|
            self.holds(node, one) && self.holds(node, other) ==> #[trigger] node.spent[one]
                == #[trigger] node.spent[other]
    }

    /// Whether the seat to act has a decision: it has chips, and it either
    /// owes some or has an opponent with chips.
    pub open spec fn waiting(self, node: Node) -> bool {
        &&& self.live(node) > 1
        &&& self.can_act(node, node.to_act)
        &&& node.wagered[node.to_act] < self.bet(node) || self.deepest(node, node.to_act) > 0
    }

    /// What holds of every node of the tree.
    pub open spec fn valid(self, node: Node) -> bool {
        &&& self.balanced(node)
        &&& self.level(node)
        &&& self.live(node) >= 1
        &&& !self.over(node) ==> self.waiting(node)
    }
}

impl Postflop {
    /// Whether the seat is in the hand.
    fn in_hand(&self, state: &State, seat: usize) -> (held: bool)
        requires
            seat < MAX_PLAYERS,
        ensures
            held == self.holds(state@, seat as int),
    {
        seat < self.players && !state.folded[seat]
    }

    /// What a seat has left.
    pub fn behind(&self, state: &State, player: usize) -> (behind: u32)
        requires
            player < MAX_PLAYERS,
        ensures
            behind == self.left(state@, player as int),
    {
        let spent: u32 = state.spent[player];
        let wagered: u32 = state.wagered[player];
        if self.stack < spent {
            0
        } else if self.stack - spent < wagered {
            0
        } else {
            self.stack - spent - wagered
        }
    }

    /// The wager of a seat, or nothing where it has folded.
    fn wager_of(&self, state: &State, seat: usize) -> (wager: u32)
        requires
            seat < MAX_PLAYERS,
        ensures
            wager == self.standing(state@, seat as int),
    {
        if self.in_hand(state, seat) {
            state.wagered[seat]
        } else {
            0
        }
    }

    /// The largest live wager of the street. What a folded player put in stays
    /// in the pot but is no price that anyone has to match.
    pub fn owed(&self, state: &State) -> (owed: u32)
        ensures
            owed == self.bet(state@),
    {
        let a: u32 = self.wager_of(state, 0);
        let b: u32 = self.wager_of(state, 1);
        let c: u32 = self.wager_of(state, 2);
        let ab: u32 = if a >= b {
            a
        } else {
            b
        };
        if ab >= c {
            ab
        } else {
            c
        }
    }

    /// How many seats are in the hand.
    pub fn live_count(&self, state: &State) -> (count: usize)
        ensures
            count == self.live(state@),
            count <= 3,
    {
        let mut count: usize = 0;
        if self.in_hand(state, 0) {
            count = count + 1;
        }
        if self.in_hand(state, 1) {
            count = count + 1;
        }
        if self.in_hand(state, 2) {
            count = count + 1;
        }
        count
    }

    /// Whether the seat is in the hand with chips left.
    fn has_decision(&self, state: &State, seat: usize) -> (able: bool)
        requires
            seat < MAX_PLAYERS,
        ensures
            able == self.can_act(state@, seat as int),
    {
        self.in_hand(state, seat) && self.behind(state, seat) > 0
    }

    /// Whether the street asks nothing more of a seat.
    fn is_done(&self, state: &State, seat: usize) -> (done: bool)
        requires
            seat < MAX_PLAYERS,
        ensures
            done == self.done(state@, seat as int),
    {
        let owed: u32 = self.owed(state);
        !self.in_hand(state, seat) || self.behind(state, seat) == 0 || (state.acted[seat]
            && state.wagered[seat] == owed)
    }

    /// Whether the betting of the street is over.
    pub fn street_closed(&self, state: &State) -> (closed: bool)
        ensures
            closed == self.closed(state@),
    {
        self.live_count(state) <= 1 || (self.is_done(state, 0) && self.is_done(state, 1)
            && self.is_done(state, 2))
    }

    /// The next seat with a decision, going round from `from`. Seats that have
    /// folded or have nothing left are stepped over.
    pub fn next_actor(&self, state: &State, from: usize) -> (seat: Option<usize>)
        requires
            2 <= self.players <= MAX_PLAYERS,
            from < self.players,
        ensures
            match seat {
                Some(seat) => self.next_from(state@, from as int) == Some(seat as int)
                    && seat < self.players,
                None => self.next_from(state@, from as int) is None,
            },
    {
        let first: usize = (from + 1) % self.players;
        let second: usize = (from + 2) % self.players;
        let third: usize = (from + 3) % self.players;
        if self.has_decision(state, first) {
            Some(first)
        } else if self.has_decision(state, second) {
            Some(second)
        } else if self.players > 2 && self.has_decision(state, third) {
            Some(third)
        } else {
            None
        }
    }

    /// What `seat` has left against `player`.
    fn opposing(&self, state: &State, player: usize, seat: usize) -> (chips: u32)
        requires
            seat < MAX_PLAYERS,
        ensures
            chips == self.facing(state@, player as int, seat as int),
    {
        if seat != player && self.in_hand(state, seat) {
            self.behind(state, seat)
        } else {
            0
        }
    }

    /// How a node of the tree describes itself as a spot.
    pub fn spot_of(&self, state: &State, strength: u8) -> (spot: Spot)
        requires
            state@.pot() <= u32::MAX,
            state.to_act < MAX_PLAYERS,
        ensures
            spot == self.spot(state@, strength),
    {
        let player: usize = state.to_act;
        let a: u32 = self.opposing(state, player, 0);
        let b: u32 = self.opposing(state, player, 1);
        let c: u32 = self.opposing(state, player, 2);
        let ab: u32 = if a >= b {
            a
        } else {
            b
        };
        let deepest: u32 = if ab >= c {
            ab
        } else {
            c
        };
        let mut acted: u8 = 0;
        if state.acted[0] {
            acted = acted + 1;
        }
        if state.acted[1] {
            acted = acted + 2;
        }
        if state.acted[2] {
            acted = acted + 4;
        }
        Spot {
            street: state.street,
            player,
            live: self.live_count(state) as u8,
            strength,
            pot: state.pot() as u64,
            bet: self.owed(state) as u64,
            mine: state.wagered[player] as u64,
            behind: self.behind(state, player) as u64,
            opponent_behind: deepest as u64,
            raises: state.raises,
            acted,
        }
    }

    /// Whether at most one seat in the hand has chips left, so that nobody has
    /// a decision left.
    pub fn all_in(&self, state: &State) -> (all_in: bool)
        ensures
            all_in == (self.able(state@) <= 1),
    {
        let mut able: usize = 0;
        if self.has_decision(state, 0) {
            able = able + 1;
        }
        if self.has_decision(state, 1) {
            able = able + 1;
        }
        if self.has_decision(state, 2) {
            able = able + 1;
        }
        able <= 1
    }

    /// The node that the hand starts in, before anything is dealt.
    pub fn initial(&self) -> (state: State)
        requires
            self.sound(),
        ensures
            state@ == (Node {
                board: 0,
                holdings: seq![0int, 1, 2],
                street: Street::Flop,
                wagered: seq![0int, 0, 0],
                spent: seq![0int, 0, 0],
                settled: self.pot as int,
                to_act: 1,
                acted: seq![false, false, false],
                raises: 0,
                folded: seq![false, false, false],
                dealt: false,
            }),
            self.valid(state@),
    {
        let state = State {
            board: 0,
            holdings: [0, 1, 2],
            street: Street::Flop,
            wagered: [0, 0, 0],
            spent: [0, 0, 0],
            settled: self.pot,
            to_act: 1,
            acted: [false, false, false],
            raises: 0,
            folded: [false, false, false],
            dealt: false,
        };
        assert(state@.holdings =~= seq![0int, 1, 2]);
        assert(state@.wagered =~= seq![0int, 0, 0]);
        assert(state@.spent =~= seq![0int, 0, 0]);
        assert(state@.acted =~= seq![false, false, false]);
        assert(state@.folded =~= seq![false, false, false]);
        state
    }

    /// Whether the hand is over.
    pub fn is_terminal(&self, state: &State) -> (over: bool)
        ensures
            over == self.over(state@),
    {
        if !state.dealt {
            false
        } else if self.live_count(state) <= 1 {
            true
        } else {
            self.street_closed(state) && (state.street == Street::River || self.all_in(state))
        }
    }

    /// Whether the next step is the deal.
    pub fn is_chance(&self, state: &State) -> (chance: bool)
        ensures
            chance == !state@.dealt,
    {
        !state.dealt
    }

    /// Whether the deals can be listed: there are far too many.
    pub fn enumerable(&self) -> (listed: bool)
        ensures
            !listed,
    {
        false
    }

    /// The seat to act.
    pub fn current_player(&self, state: &State) -> (player: usize)
        ensures
            player == state@.to_act,
    {
        state.to_act
    }
}

/// The spot of a node is in numbers what the node says, and can be counted.
proof fn lemma_spot(game: Postflop, node: Node, strength: u8)
    requires
        game.sound(),
        game.balanced(node),
    ensures
        game.countable(game.spot(node, strength)),
        node.pot() <= u32::MAX,
        game.spot(node, strength).pot == node.pot(),
        game.spot(node, strength).bet == game.bet(node),
        game.spot(node, strength).mine == node.wagered[node.to_act],
        game.spot(node, strength).behind == game.left(node, node.to_act),
        game.spot(node, strength).opponent_behind == game.deepest(node, node.to_act),
        game.spot(node, strength).raises == node.raises,
        node.wagered[node.to_act] + game.left(node, node.to_act) <= game.stack,
{
    assert(node.wagered[0] >= 0 && node.wagered[1] >= 0 && node.wagered[2] >= 0);
    let spot = game.spot(node, strength);
    lemma_share(spot.pot + spot.due(), game.sizing.small as int);
    lemma_share(spot.pot + spot.due(), game.sizing.large as int);
}

proof fn lemma_share(amount: int, percent: int)
    requires
        0 <= amount <= 0x2_0000_0000,
        0 <= percent <= 0x1_0000_0000,
    ensures
        0 <= abstraction::share(amount, percent) <= 0x4000_0000_0000_0000,
{
    precision::lemma_portion(amount, percent);
    assert(0 <= amount * percent <= 0x2_0000_0000 * 0x1_0000_0000) by (nonlinear_arith)
        requires
            0 <= amount <= 0x2_0000_0000,
            0 <= percent <= 0x1_0000_0000,
    ;
}

impl Postflop {
    /// The moves available at a node.
    pub fn moves(&self, state: &State) -> (moves: Vec<Move>)
        requires
            self.sound(),
            self.balanced(state@),
        ensures
            moves@ == self.menu(self.spot(state@, 0)),
    {
        proof {
            lemma_spot(*self, state@, 0);
        }
        let spot: Spot = self.spot_of(state, 0);
        self.moves_at(&spot)
    }

    /// How many moves are available at a node.
    pub fn num_actions(&self, state: &State) -> (count: usize)
        requires
            self.sound(),
            self.balanced(state@),
        ensures
            count == self.menu(self.spot(state@, 0)).len(),
    {
        self.moves(state).len()
    }

    /// The information key of a node whose actor's hand is in the strength
    /// group `strength`.
    pub fn info_key(&self, state: &State, strength: u8) -> (key: u64)
        requires
            self.sound(),
            self.balanced(state@),
        ensures
            key == self.key(self.spot(state@, strength)),
    {
        proof {
            lemma_spot(*self, state@, strength);
        }
        let spot: Spot = self.spot_of(state, strength);
        self.key_at(&spot)
    }

    /// Puts the wagers in the pot and begins the next street. Out of position
    /// acts first: seat 1, or the next seat that can.
    pub fn advance(&self, state: &State) -> (next: State)
        requires
            self.sound(),
            self.balanced(state@),
        ensures
            next@ == self.dealt_on(state@),
    {
        let ghost node = state@;
        proof {
            lemma_spot(*self, node, 0);
            assert(node.wagered[0] == state.wagered@[0]);
            assert(node.wagered[1] == state.wagered@[1]);
            assert(node.wagered[2] == state.wagered@[2]);
            assert(node.spent[0] == state.spent@[0]);
            assert(node.spent[1] == state.spent@[1]);
            assert(node.spent[2] == state.spent@[2]);
        }
        let street: Street = match state.street {
            Street::Flop => Street::Turn,
            Street::Turn => Street::River,
            other => other,
        };
        let mut next: State = State {
            board: state.board,
            holdings: state.holdings,
            street,
            wagered: [0, 0, 0],
            spent: [
                state.spent[0] + state.wagered[0],
                state.spent[1] + state.wagered[1],
                state.spent[2] + state.wagered[2],
            ],
            settled: state.pot(),
            to_act: state.to_act,
            acted: [false, false, false],
            raises: 0,
            folded: state.folded,
            dealt: state.dealt,
        };
        let ghost begun = Node {
            spent: Seq::new(3, |seat: int| node.staked(seat)),
            settled: node.pot(),
            wagered: seq![0int, 0, 0],
            acted: seq![false, false, false],
            raises: 0,
            street: Self::following(node.street),
            ..node
        };
        assert(next@.spent =~= begun.spent);
        assert(next@.wagered =~= begun.wagered);
        assert(next@.acted =~= begun.acted);
        assert(next@ =~= begun);
        next.to_act = match self.next_actor(&next, 0) {
            Some(seat) => seat,
            None => 0,
        };
        assert(next@ =~= self.dealt_on(node));
        next
    }

    /// The node with the move's chips down and its actor marked.
    fn place(&self, state: &State, chosen: Move) -> (next: State)
        requires
            self.sound(),
            self.balanced(state@),
            self.offers(self.spot(state@, 0), chosen),
        ensures
            next@ == self.placed(state@, chosen),
    {
        let ghost node = state@;
        proof {
            lemma_spot(*self, node, 0);
        }
        let player: usize = state.to_act;
        let spot: Spot = self.spot_of(state, 0);
        let target: u64 = self.target_of(&spot, chosen);
        let raised: bool = match chosen {
            Move::Fold | Move::Passive => false,
            Move::Small | Move::Large => true,
            Move::Jam => spot.mine + spot.behind > spot.bet,
        };
        let mut wagered: [u32; 3] = state.wagered;
        wagered[player] = target as u32;
        let mut folded: [bool; 3] = state.folded;
        if chosen == Move::Fold {
            folded[player] = true;
        }
        let mut acted: [bool; 3] = if raised {
            [false, false, false]
        } else {
            state.acted
        };
        let ghost cleared = acted@;
        acted[player] = true;
        let raises: u8 = if raised {
            state.raises + 1
        } else {
            state.raises
        };
        let next: State = State {
            board: state.board,
            holdings: state.holdings,
            street: state.street,
            wagered,
            spent: state.spent,
            settled: state.settled,
            to_act: state.to_act,
            acted,
            raises,
            folded,
            dealt: state.dealt,
        };
        proof {
            let expected = self.placed(node, chosen);
            assert(raised == self.raising(node, chosen));
            if raised {
                assert(cleared =~= seq![false, false, false]);
            }
            assert(target == self.target(self.spot(node, 0), chosen));
            assert(0 <= target <= self.stack);
            assert(next@.wagered =~= expected.wagered);
            assert(next@.acted =~= expected.acted);
            assert(next@.folded =~= expected.folded);
            assert(next@.spent =~= expected.spent);
            assert(next@.holdings =~= expected.holdings);
        }
        next
    }
}

/// A move that is on offer keeps every chip accounted for.
proof fn lemma_placed(game: Postflop, node: Node, chosen: Move)
    requires
        game.sound(),
        game.balanced(node),
        game.level(node),
        game.can_act(node, node.to_act),
        game.offers(game.spot(node, 0), chosen),
    ensures
        game.balanced(game.placed(node, chosen)),
        game.level(game.placed(node, chosen)),
{
    lemma_spot(game, node, 0);
    let next = game.placed(node, chosen);
    let player = node.to_act;
    assert(node.wagered[0] >= 0 && node.wagered[1] >= 0 && node.wagered[2] >= 0);
    assert(0 <= next.wagered[player]);
    assert(next.wagered[player] + node.spent[player] <= game.stack);
    assert forall|seat: int| 0 <= seat < 3 implies 0 <= #[trigger] next.wagered[seat] && 0
        <= next.spent[seat] && next.staked(seat) <= game.stack by {
        assert(0 <= node.wagered[seat]);
    }
    assert forall|one: int, other: int|
        game.holds(next, one) && game.holds(next, other) implies #[trigger] next.spent[one]
        == #[trigger] next.spent[other] by {
        assert(game.holds(node, one) && game.holds(node, other));
        assert(node.spent[one] == node.spent[other]);
    }
    assert forall|seat: int| 0 <= seat < 3 && seat != player implies #[trigger] game.left(next, seat)
        == game.left(node, seat) by {}
    assert(game.left(next, 0) <= game.left(node, 0) || player == 0);
    if game.raising(node, chosen) {
        if chosen == Move::Jam {
            assert(game.left(node, player) > 0);
            assert(game.left(next, player) == 0);
        } else {
            assert(node.raises < 3);
        }
    } else if chosen == Move::Fold {
        assert(next.wagered =~= node.wagered);
    }
}

/// Once a street is closed everybody in the hand has put in the same.
proof fn lemma_closed_is_level(game: Postflop, node: Node, one: int, other: int)
    requires
        game.sound(),
        game.balanced(node),
        game.level(node),
        game.closed(node),
        game.live(node) > 1,
        game.holds(node, one),
        game.holds(node, other),
    ensures
        node.staked(one) == node.staked(other),
{
    assert(node.wagered[0] >= 0 && node.wagered[1] >= 0 && node.wagered[2] >= 0);
    assert(game.done(node, one) && game.done(node, other));
    assert(node.spent[one] == node.spent[other]);
    let most = game.bet(node);
    assert(node.wagered[one] <= most && node.wagered[other] <= most);
    let top = if game.holds(node, 0) && node.wagered[0] == most {
        0int
    } else if game.holds(node, 1) && node.wagered[1] == most {
        1int
    } else {
        2int
    };
    if most > 0 {
        assert(game.holds(node, top) && node.wagered[top] == most);
        assert(node.spent[top] == node.spent[one]);
        assert(node.spent[top] == node.spent[other]);
        assert(node.staked(top) <= game.stack);
    }
}

/// Beginning the next street keeps every chip accounted for, and leaves a seat
/// with a decision to act.
proof fn lemma_dealt_on(game: Postflop, node: Node)
    requires
        game.sound(),
        game.balanced(node),
        game.level(node),
        game.closed(node),
        game.live(node) > 1,
        game.able(node) > 1,
    ensures
        game.valid(game.dealt_on(node)),
        game.waiting(game.dealt_on(node)),
{
    let next = game.dealt_on(node);
    assert(node.wagered[0] >= 0 && node.wagered[1] >= 0 && node.wagered[2] >= 0);
    assert forall|seat: int| 0 <= seat < 3 implies #[trigger] game.left(next, seat) == game.left(
        node,
        seat,
    ) by {}
    assert forall|seat: int| 0 <= seat < 3 implies 0 <= #[trigger] next.wagered[seat] && 0
        <= next.spent[seat] && next.staked(seat) <= game.stack by {
        assert(node.wagered[seat] >= 0);
    }
    assert forall|one: int, other: int|
        game.holds(next, one) && game.holds(next, other) implies #[trigger] next.spent[one]
        == #[trigger] next.spent[other] by {
        assert(game.holds(node, one) && game.holds(node, other));
        lemma_closed_is_level(game, node, one, other);
    }
    assert(game.can_act(next, 0) == game.can_act(node, 0));
    assert(game.can_act(next, 1) == game.can_act(node, 1));
    assert(game.can_act(next, 2) == game.can_act(node, 2));
    assert(game.left(next, 0) == game.left(node, 0));
    assert(game.left(next, 1) == game.left(node, 1));
    assert(game.left(next, 2) == game.left(node, 2));
    assert(game.able(next) == game.able(node));
    lemma_somebody_opens(game, Node { to_act: node.to_act, ..next });
    assert(game.next_from(Node { to_act: node.to_act, ..next }, 0) == game.next_from(next, 0));
    assert(game.can_act(next, next.to_act));
    lemma_somebody_answers(game, next, next.to_act);
}

/// Where two seats can act, a street has one to open it.
proof fn lemma_somebody_opens(game: Postflop, node: Node)
    requires
        game.sound(),
        game.able(node) > 1,
    ensures
        game.next_from(node, 0) matches Some(seat) && 0 <= seat < game.players && game.can_act(node, seat),
{
    let players = game.players as int;
    assert(players == 2 || players == 3);
    if players == 2 {
        assert(1int % players == 1 && 2int % players == 0);
    } else {
        assert(1int % players == 1 && 2int % players == 2 && 3int % players == 0);
    }
    assert(game.can_act(node, 0) || game.can_act(node, 1) || game.can_act(node, 2));
}

/// Where two seats can act, either has one that can answer it.
proof fn lemma_somebody_answers(game: Postflop, node: Node, seat: int)
    requires
        game.able(node) > 1,
        0 <= seat < 3,
    ensures
        game.deepest(node, seat) > 0,
{
    let other = if seat != 0 && game.can_act(node, 0) {
        0int
    } else if seat != 1 && game.can_act(node, 1) {
        1int
    } else {
        2int
    };
    assert(other != seat && game.can_act(node, other));
    assert(game.facing(node, seat, other) > 0);
}

/// Where a street is still open after a move, the next seat has a decision.
proof fn lemma_turn(game: Postflop, node: Node, from: int)
    requires
        game.sound(),
        game.balanced(node),
        game.level(node),
        !game.closed(node),
        0 <= from < game.players,
    ensures
        game.next_from(node, from) matches Some(seat) && 0 <= seat < game.players && game.waiting(
            Node { to_act: seat, ..node },
        ),
{
    assert(node.wagered[0] >= 0 && node.wagered[1] >= 0 && node.wagered[2] >= 0);
    let players = game.players as int;
    let open = if !game.done(node, 0) {
        0int
    } else if !game.done(node, 1) {
        1int
    } else {
        2int
    };
    assert(game.can_act(node, open));
    assert(players == 2 || players == 3);
    if players == 2 {
        assert(open == (from + 1) % 2 || open == (from + 2) % 2);
    } else {
        assert(open == (from + 1) % 3 || open == (from + 2) % 3 || open == (from + 3) % 3);
    }
    let seat = game.next_from(node, from)->Some_0;
    assert(game.can_act(node, seat));
    let next = Node { to_act: seat, ..node };
    assert(game.bet(next) == game.bet(node));
    assert(game.live(next) == game.live(node));
    if game.deepest(next, seat) == 0 {
        let rival = if seat != 0 && game.holds(node, 0) {
            0int
        } else if seat != 1 && game.holds(node, 1) {
            1int
        } else {
            2int
        };
        assert(game.holds(node, rival) && rival != seat);
        assert(game.facing(next, seat, rival) == game.left(node, rival));
        assert(game.left(node, rival) == 0);
        assert(node.spent[rival] == node.spent[seat]);
        assert(node.staked(rival) == game.stack);
        assert(node.wagered[seat] < node.wagered[rival]);
    }
}

/// Every node that a move leads to is a node of the tree.
proof fn lemma_after(game: Postflop, node: Node, chosen: Move)
    requires
        game.sound(),
        game.valid(node),
        node.dealt,
        !game.over(node),
        game.offers(game.spot(node, 0), chosen),
    ensures
        game.valid(game.after(node, chosen)),
{
    lemma_spot(game, node, 0);
    lemma_placed(game, node, chosen);
    let next = game.placed(node, chosen);
    assert(node.wagered[0] >= 0 && node.wagered[1] >= 0 && node.wagered[2] >= 0);
    if game.closed(next) {
        if game.live(next) > 1 && next.street != Street::River && game.able(next) > 1 {
            lemma_dealt_on(game, next);
        } else {
            assert(game.live(next) >= 1);
        }
    } else {
        lemma_turn(game, next, node.to_act);
        let turned = game.after(node, chosen);
        assert(game.level(turned)) by {
            assert forall|one: int, other: int|
                game.holds(turned, one) && game.holds(turned, other) implies #[trigger] turned.spent[one]
                == #[trigger] turned.spent[other] by {
                assert(game.holds(next, one) && game.holds(next, other));
                assert(next.spent[one] == next.spent[other]);
            }
        }
        assert(game.balanced(turned)) by {
            assert forall|seat: int| 0 <= seat < 3 implies 0 <= #[trigger] turned.wagered[seat] && 0
                <= turned.spent[seat] && turned.staked(seat) <= game.stack by {
                assert(0 <= next.wagered[seat]);
            }
        }
    }
}

impl Postflop {
    /// The node after the move at place `action` of the list.
    pub fn apply(&self, state: &State, action: usize) -> (next: State)
        requires
            self.sound(),
            self.valid(state@),
            action < self.menu(self.spot(state@, 0)).len(),
        ensures
            next@ == self.after(state@, self.menu(self.spot(state@, 0))[action as int]),
            state@.dealt && !self.over(state@) ==> self.valid(next@),
    {
        let ghost node = state@;
        let moves: Vec<Move> = self.moves(state);
        let chosen: Move = moves[action];
        proof {
            lemma_menu_holds(*self, self.spot(node, 0));
            assert(self.menu(self.spot(node, 0)).contains(chosen));
            if node.dealt && !self.over(node) {
                lemma_after(*self, node, chosen);
            }
        }
        let mut next: State = self.place(state, chosen);
        if self.street_closed(&next) {
            if self.live_count(&next) <= 1 || next.street == Street::River || self.all_in(&next) {
                next
            } else {
                proof {
                    lemma_placed(*self, node, chosen);
                }
                self.advance(&next)
            }
        } else {
            let ghost before = next@;
            match self.next_actor(&next, state.to_act) {
                Some(seat) => {
                    next.to_act = seat;
                    assert(next@ =~= Node { to_act: seat as int, ..before });
                },
                None => {},
            }
            next
        }
    }
}

/// Wherever the hand is not over, the seat to act has a choice: it has chips,
/// and at least two moves.
pub proof fn law_every_decision_has_a_choice(game: Postflop, node: Node)
    requires
        game.sound(),
        game.valid(node),
        !game.over(node),
    ensures
        game.can_act(node, node.to_act),
        game.menu(game.spot(node, 0)).len() >= 2,
{
    lemma_spot(game, node, 0);
    assert(node.wagered[0] >= 0 && node.wagered[1] >= 0 && node.wagered[2] >= 0);
    let spot = game.spot(node, 0);
    assert(game.standing(node, node.to_act) == node.wagered[node.to_act]);
    assert(game.offers(spot, Move::Fold) || game.offers(spot, Move::Jam));
}

/// Nobody ever puts in more than they have, whatever is played.
pub proof fn law_nobody_wagers_more_than_they_have(
    game: Postflop,
    node: Node,
    chosen: Move,
    seat: int,
)
    requires
        game.sound(),
        game.valid(node),
        node.dealt,
        !game.over(node),
        game.offers(game.spot(node, 0), chosen),
        0 <= seat < game.players,
    ensures
        game.valid(game.after(node, chosen)),
        0 <= game.after(node, chosen).staked(seat) <= game.stack,
{
    lemma_after(game, node, chosen);
    assert(0 <= game.after(node, chosen).wagered[seat]);
}

impl Postflop {
    /// The rank of a seat's finished hand, below every rank where it folded.
    pub open spec fn shown(self, node: Node, ranks: Seq<u32>, seat: int) -> int {
        if self.holds(node, seat) {
            ranks[seat] as int
        } else {
            -1
        }
    }

    /// The best rank shown.
    pub open spec fn best(self, node: Node, ranks: Seq<u32>) -> int {
        larger(
            larger(self.shown(node, ranks, 0), self.shown(node, ranks, 1)),
            self.shown(node, ranks, 2),
        )
    }

    /// Whether the seat takes the pot or a part of it: it is the last one in,
    /// or nobody shows a better hand.
    pub open spec fn takes(self, node: Node, ranks: Seq<u32>, seat: int) -> bool {
        self.holds(node, seat) && (self.live(node) == 1 || ranks[seat] == self.best(node, ranks))
    }

    /// Among how many seats the pot is divided.
    pub open spec fn takers(self, node: Node, ranks: Seq<u32>) -> int {
        eval::one(self.takes(node, ranks, 0)) + eval::one(self.takes(node, ranks, 1)) + eval::one(
            self.takes(node, ranks, 2),
        )
    }

    /// Everything in the middle at the end: every stake and the starting pot.
    pub open spec fn whole(self, node: Node) -> int {
        self.pot + node.staked(0) + node.staked(1) + node.staked(2)
    }

    /// What the hand was worth to a seat, times the number of seats and the
    /// number of takers: its part of the whole, less its stake and an equal
    /// share of the starting pot.
    pub open spec fn worth(self, node: Node, ranks: Seq<u32>, seat: int) -> int {
        let takers = self.takers(node, ranks);
        self.players * (if self.takes(node, ranks, seat) {
            self.whole(node)
        } else {
            0
        }) - takers * (self.players * node.staked(seat) + self.pot)
    }

    /// Whether a seat takes the pot or a part of it.
    fn is_taker(&self, state: &State, ranks: &[u32; 3], seat: usize, alone: bool, best: i64) -> (taken:
        bool)
        requires
            seat < MAX_PLAYERS,
            alone == (self.live(state@) == 1),
            best == self.best(state@, ranks@),
        ensures
            taken == self.takes(state@, ranks@, seat as int),
    {
        self.in_hand(state, seat) && (alone || ranks[seat] as i64 == best)
    }

    /// The rank of a seat's finished hand, below every rank where it folded.
    fn shown_by(&self, state: &State, ranks: &[u32; 3], seat: usize) -> (rank: i64)
        requires
            seat < MAX_PLAYERS,
        ensures
            rank == self.shown(state@, ranks@, seat as int),
    {
        if self.in_hand(state, seat) {
            ranks[seat] as i64
        } else {
            -1
        }
    }

    /// What a finished hand was worth to a seat, given the rank of each seat's
    /// hand on the finished board. Every seat is measured against getting its
    /// own chips back and an equal share of the starting pot.
    pub fn utility_for(&self, state: &State, player: usize, ranks: &[u32; 3]) -> (payoff: Payoff)
        requires
            self.sound(),
            self.balanced(state@),
            self.live(state@) >= 1,
            player < self.players,
        ensures
            payoff.units == self.worth(state@, ranks@, player as int),
            payoff.of == self.players * self.takers(state@, ranks@),
            payoff.of > 0,
    {
        let ghost node = state@;
        proof {
            assert(node.wagered[0] >= 0 && node.wagered[1] >= 0 && node.wagered[2] >= 0);
            assert(node.spent[0] == state.spent@[0]);
            assert(node.spent[1] == state.spent@[1]);
            assert(node.spent[2] == state.spent@[2]);
            assert(node.spent[player as int] == state.spent@[player as int]);
            assert(0 <= node.wagered[player as int]);
            lemma_takers(*self, node, ranks@);
        }
        let alone: bool = self.live_count(state) == 1;
        let a: i64 = self.shown_by(state, ranks, 0);
        let b: i64 = self.shown_by(state, ranks, 1);
        let c: i64 = self.shown_by(state, ranks, 2);
        let ab: i64 = if a >= b {
            a
        } else {
            b
        };
        let best: i64 = if ab >= c {
            ab
        } else {
            c
        };
        let mut takers: i64 = 0;
        if self.is_taker(state, ranks, 0, alone, best) {
            takers = takers + 1;
        }
        if self.is_taker(state, ranks, 1, alone, best) {
            takers = takers + 1;
        }
        if self.is_taker(state, ranks, 2, alone, best) {
            takers = takers + 1;
        }
        let seats: i64 = self.players as i64;
        let whole: i64 = self.pot as i64 + (state.spent[0] as i64 + state.wagered[0] as i64) + (
        state.spent[1] as i64 + state.wagered[1] as i64) + (state.spent[2] as i64
            + state.wagered[2] as i64);
        let staked: i64 = state.spent[player] as i64 + state.wagered[player] as i64;
        let won: i64 = if self.is_taker(state, ranks, player, alone, best) {
            whole
        } else {
            0
        };
        assert(0 <= seats * won <= 0x10_0000_0000) by (nonlinear_arith)
            requires
                0 <= seats <= 3,
                0 <= won <= 0x1_0000_0000,
        ;
        assert(0 <= seats * staked <= 0x10_0000_0000) by (nonlinear_arith)
            requires
                0 <= seats <= 3,
                0 <= staked <= 0x1_0000_0000,
        ;
        let baseline: i64 = seats * staked + self.pot as i64;
        assert(0 <= takers * baseline <= 0x100_0000_0000) by (nonlinear_arith)
            requires
                0 <= takers <= 3,
                0 <= baseline <= 0x20_0000_0000,
        ;
        assert(0 < seats * takers <= 9) by (nonlinear_arith)
            requires
                0 < takers <= 3,
                0 < seats <= 3,
        ;
        Payoff { units: seats * won - takers * baseline, of: seats * takers }
    }

    /// What a finished hand of two seats was worth to seat 0.
    pub fn terminal_utility(&self, state: &State, ranks: &[u32; 3]) -> (payoff: Payoff)
        requires
            self.sound(),
            self.players == 2,
            self.balanced(state@),
            self.live(state@) >= 1,
        ensures
            payoff.units == self.worth(state@, ranks@, 0),
            payoff.of == 2 * self.takers(state@, ranks@),
    {
        self.utility_for(state, 0, ranks)
    }
}

/// Somebody takes the pot.
proof fn lemma_takers(game: Postflop, node: Node, ranks: Seq<u32>)
    requires
        game.sound(),
        game.live(node) >= 1,
    ensures
        1 <= game.takers(node, ranks) <= game.players,
{
    let best = game.best(node, ranks);
    let top = if game.shown(node, ranks, 0) == best {
        0int
    } else if game.shown(node, ranks, 1) == best {
        1int
    } else {
        2int
    };
    assert(game.shown(node, ranks, top) == best);
    assert(game.takes(node, ranks, top));
    assert(!game.holds(node, 2) || game.players == 3);
}

/// Chips move between the seats and are never made: what a hand is worth to
/// all of them together is nothing.
pub proof fn law_payoffs_sum_to_zero(game: Postflop, node: Node, ranks: Seq<u32>)
    requires
        game.sound(),
        game.balanced(node),
        game.live(node) >= 1,
    ensures
        game.worth(node, ranks, 0) + game.worth(node, ranks, 1) + (if game.players > 2 {
            game.worth(node, ranks, 2)
        } else {
            0
        }) == 0,
{
    lemma_takers(game, node, ranks);
    lemma_worth(game, node, ranks, 0);
    lemma_worth(game, node, ranks, 1);
    lemma_worth(game, node, ranks, 2);
    lemma_shares_cancel(
        game.players as int,
        game.pot as int,
        (node.staked(0), node.staked(1), node.staked(2)),
        (game.takes(node, ranks, 0), game.takes(node, ranks, 1), game.takes(node, ranks, 2)),
    );
}

/// What a seat is worth by its stake and whether it takes a part.
spec fn settled(players: int, whole: int, pot: int, takers: int, staked: int, takes: bool) -> int {
    let base = if players == 2 {
        2 * staked + pot
    } else {
        3 * staked + pot
    };
    let won = if !takes {
        0
    } else if players == 2 {
        2 * whole
    } else {
        3 * whole
    };
    won - (if takers == 1 {
        base
    } else if takers == 2 {
        2 * base
    } else {
        3 * base
    })
}

proof fn lemma_shares_cancel(
    players: int,
    pot: int,
    staked: (int, int, int),
    takes: (bool, bool, bool),
)
    requires
        players == 2 || players == 3,
        players == 2 ==> !takes.2 && staked.2 == 0,
        takes.0 || takes.1 || takes.2,
    ensures
        ({
            let whole = pot + staked.0 + staked.1 + staked.2;
            let takers = eval::one(takes.0) + eval::one(takes.1) + eval::one(takes.2);
            settled(players, whole, pot, takers, staked.0, takes.0) + settled(
                players,
                whole,
                pot,
                takers,
                staked.1,
                takes.1,
            ) + (if players == 2 {
                0
            } else {
                settled(players, whole, pot, takers, staked.2, takes.2)
            }) == 0
        }),
{
}

/// The worth of a hand without products of unknowns.
proof fn lemma_worth(game: Postflop, node: Node, ranks: Seq<u32>, seat: int)
    requires
        game.sound(),
        1 <= game.takers(node, ranks) <= 3,
    ensures
        game.worth(node, ranks, seat) == settled(
            game.players as int,
            game.whole(node),
            game.pot as int,
            game.takers(node, ranks),
            node.staked(seat),
            game.takes(node, ranks, seat),
        ),
{
    let takers = game.takers(node, ranks);
    let staked = node.staked(seat);
    let whole = game.whole(node);
    let players = game.players as int;
    assert(players * staked == (if players == 2 {
        2 * staked
    } else {
        3 * staked
    })) by (nonlinear_arith)
        requires
            players == 2 || players == 3,
    ;
    assert(players * whole == (if players == 2 {
        2 * whole
    } else {
        3 * whole
    })) by (nonlinear_arith)
        requires
            players == 2 || players == 3,
    ;
    assert(players * 0 == 0);
    let base = players * staked + game.pot;
    assert(takers * base == (if takers == 1 {
        base
    } else if takers == 2 {
        2 * base
    } else {
        3 * base
    })) by (nonlinear_arith)
        requires
            1 <= takers <= 3,
    ;
}

/// A seat that folded is never paid: the hand cost it its stake and its share
/// of the starting pot.
pub proof fn law_a_folded_seat_is_never_paid(
    game: Postflop,
    node: Node,
    ranks: Seq<u32>,
    seat: int,
)
    requires
        game.sound(),
        game.balanced(node),
        game.live(node) >= 1,
        0 <= seat < game.players,
        !game.holds(node, seat),
    ensures
        game.worth(node, ranks, seat) < 0,
{
    lemma_takers(game, node, ranks);
    lemma_worth(game, node, ranks, seat);
    assert(0 <= node.wagered[seat]);
}

/// Nobody loses more than the stack and a share of the starting pot, and
/// nobody wins more than the others can lose.
pub proof fn law_payoffs_are_bounded_by_the_stacks(
    game: Postflop,
    node: Node,
    ranks: Seq<u32>,
    seat: int,
)
    requires
        game.sound(),
        game.balanced(node),
        game.live(node) >= 1,
        0 <= seat < game.players,
    ensures
        ({
            let takers = game.takers(node, ranks);
            let loss = game.players * game.stack + game.pot;
            &&& game.worth(node, ranks, seat) >= -(takers * loss)
            &&& game.worth(node, ranks, seat) <= (game.players - 1) * (takers * loss)
        }),
{
    lemma_takers(game, node, ranks);
    lemma_worth(game, node, ranks, 0);
    lemma_worth(game, node, ranks, 1);
    lemma_worth(game, node, ranks, 2);
    law_payoffs_sum_to_zero(game, node, ranks);
    assert(0 <= node.wagered[0] && 0 <= node.wagered[1] && 0 <= node.wagered[2]);
    let takers = game.takers(node, ranks);
    let players = game.players as int;
    let stack = game.stack as int;
    assert(players * stack == (if players == 2 {
        2 * stack
    } else {
        3 * stack
    })) by (nonlinear_arith)
        requires
            players == 2 || players == 3,
    ;
    let loss = players * stack + game.pot;
    let scaled = takers * loss;
    assert(scaled == (if takers == 1 {
        loss
    } else if takers == 2 {
        2 * loss
    } else {
        3 * loss
    })) by (nonlinear_arith)
        requires
            1 <= takers <= 3,
            scaled == takers * loss,
    ;
    assert((players - 1) * scaled == (if players == 2 {
        scaled
    } else {
        2 * scaled
    })) by (nonlinear_arith)
        requires
            players == 2 || players == 3,
    ;
}

/// Whether two holdings share a card.
pub open spec fn share_card(one: [Card; 2], other: [Card; 2]) -> bool {
    one@[0] == other@[0] || one@[0] == other@[1] || one@[1] == other@[0] || one@[1] == other@[1]
}

/// Whether a holding shares a card with one that is dealt already.
pub open spec fn clashes(holdings: Seq<[Card; 2]>, dealt: Seq<usize>, choice: usize) -> bool {
    exists|taken: int|
        0 <= taken < dealt.len() && share_card(
            holdings[choice as int],
            holdings[#[trigger] dealt[taken] as int],
        )
}

/// What the draws so far come to: the first of them that shares no card, or
/// the last of them once all the attempts are used up; nothing yet otherwise.
pub open spec fn drawn(holdings: Seq<[Card; 2]>, dealt: Seq<usize>, draws: Seq<usize>, from: int) -> Option<
    usize,
>
    decreases draws.len() - from,
{
    if from >= draws.len() {
        None
    } else if from >= ATTEMPTS || !clashes(holdings, dealt, draws[from]) {
        Some(draws[from])
    } else {
        drawn(holdings, dealt, draws, from + 1)
    }
}

/// Whether the holding shares a card with one that is dealt already.
fn is_clash(holdings: &[[Card; 2]], dealt: &[usize], choice: usize) -> (clash: bool)
    requires
        choice < holdings@.len(),
        forall|i: int| 0 <= i < dealt@.len() ==> #[trigger] dealt@[i] < holdings@.len(),
    ensures
        clash == clashes(holdings@, dealt@, choice),
{
    let mine: [Card; 2] = holdings[choice];
    let mut taken: usize = 0;
    while taken < dealt.len()
        invariant
            taken <= dealt@.len(),
            choice < holdings@.len(),
            mine == holdings@[choice as int],
            forall|i: int| 0 <= i < dealt@.len() ==> #[trigger] dealt@[i] < holdings@.len(),
            forall|i: int|
                0 <= i < taken ==> !share_card(
                    holdings@[choice as int],
                    holdings@[#[trigger] dealt@[i] as int],
                ),
        decreases dealt@.len() - taken,
    {
        let theirs: [Card; 2] = holdings[dealt[taken]];
        if mine[0] == theirs[0] || mine[0] == theirs[1] || mine[1] == theirs[0] || mine[1]
            == theirs[1] {
            assert(share_card(
                holdings@[choice as int],
                holdings@[dealt@[taken as int] as int],
            ));
            return true;
        }
        taken = taken + 1;
    }
    false
}

/// Settles on a holding for the next seat, given the draws made for it so far
/// and the holdings of the seats before it. `None` asks for one more draw.
pub fn draw_holding(holdings: &[[Card; 2]], dealt: &[usize], draws: &[usize]) -> (choice: Option<
    usize,
>)
    requires
        forall|i: int| 0 <= i < draws@.len() ==> #[trigger] draws@[i] < holdings@.len(),
        forall|i: int| 0 <= i < dealt@.len() ==> #[trigger] dealt@[i] < holdings@.len(),
    ensures
        choice == drawn(holdings@, dealt@, draws@, 0),
{
    let mut at: usize = 0;
    while at < draws.len()
        invariant
            at <= draws@.len(),
            forall|i: int| 0 <= i < draws@.len() ==> #[trigger] draws@[i] < holdings@.len(),
            forall|i: int| 0 <= i < dealt@.len() ==> #[trigger] dealt@[i] < holdings@.len(),
            drawn(holdings@, dealt@, draws@, 0) == drawn(holdings@, dealt@, draws@, at as int),
        decreases draws@.len() - at,
    {
        if at >= ATTEMPTS || !is_clash(holdings, dealt, draws[at]) {
            return Some(draws[at]);
        }
        at = at + 1;
    }
    None
}

/// A seat that draws a holding free of the cards already dealt, in any of its
/// attempts, is dealt one.
pub proof fn law_a_free_draw_is_found(
    holdings: Seq<[Card; 2]>,
    dealt: Seq<usize>,
    draws: Seq<usize>,
    free: int,
)
    requires
        0 <= free <= ATTEMPTS,
        free < draws.len(),
        !clashes(holdings, dealt, draws[free]),
    ensures
        drawn(holdings, dealt, draws, 0) matches Some(choice) && !clashes(holdings, dealt, choice),
{
    lemma_free_draw(holdings, dealt, draws, free, 0);
}

proof fn lemma_free_draw(
    holdings: Seq<[Card; 2]>,
    dealt: Seq<usize>,
    draws: Seq<usize>,
    free: int,
    from: int,
)
    requires
        0 <= from <= free <= ATTEMPTS,
        free < draws.len(),
        !clashes(holdings, dealt, draws[free]),
    ensures
        drawn(holdings, dealt, draws, from) matches Some(choice) && !clashes(
            holdings,
            dealt,
            choice,
        ),
    decreases free - from,
{
    if from < free && clashes(holdings, dealt, draws[from]) {
        lemma_free_draw(holdings, dealt, draws, free, from + 1);
    }
}

impl Postflop {
    /// The node with the board and a holding for each seat dealt.
    pub fn sample_chance(&self, state: &State, board: u32, choices: &[u16]) -> (next: State)
        requires
            self.players <= MAX_PLAYERS,
            choices@.len() == self.players,
        ensures
            next@ == (Node {
                board: board as int,
                holdings: Seq::new(
                    3,
                    |seat: int|
                        if seat < self.players {
                            choices@[seat] as int
                        } else {
                            state@.holdings[seat]
                        },
                ),
                dealt: true,
                ..state@
            }),
    {
        let mut next: State = *state;
        next.board = board;
        next.dealt = true;
        let mut holdings: [u16; 3] = state.holdings;
        let mut seat: usize = 0;
        while seat < self.players
            invariant
                seat <= self.players <= MAX_PLAYERS,
                choices@.len() == self.players,
                holdings@.len() == 3,
                forall|i: int|
                    0 <= i < 3 ==> #[trigger] holdings@[i] == (if i < seat {
                        choices@[i]
                    } else {
                        state.holdings@[i]
                    }),
            decreases self.players - seat,
        {
            holdings[seat] = choices[seat];
            seat = seat + 1;
        }
        next.holdings = holdings;
        proof {
            let expected = Seq::new(
                3,
                |seat: int|
                    if seat < self.players {
                        choices@[seat] as int
                    } else {
                        state@.holdings[seat]
                    },
            );
            assert(next@.holdings =~= expected);
            assert(next@.wagered =~= state@.wagered);
            assert(next@.spent =~= state@.spent);
        }
        next
    }
}

/// Dealing a node leaves everything but the cards as it was, so the hand can
/// be played from there.
pub proof fn law_dealing_keeps_the_table(game: Postflop, node: Node, dealt: Node)
    requires
        game.sound(),
        game.valid(node),
        !node.dealt,
        dealt.holdings.len() == 3,
        dealt == (Node { board: dealt.board, holdings: dealt.holdings, dealt: true, ..node }),
    ensures
        game.valid(dealt),
{
    assert(game.waiting(node));
    assert(game.balanced(dealt)) by {
        assert forall|seat: int| 0 <= seat < 3 implies 0 <= #[trigger] dealt.wagered[seat] && 0
            <= dealt.spent[seat] && dealt.staked(seat) <= game.stack by {
            assert(0 <= node.wagered[seat]);
        }
    }
    assert(game.level(dealt)) by {
        assert forall|one: int, other: int|
            game.holds(dealt, one) && game.holds(dealt, other) implies #[trigger] dealt.spent[one]
            == #[trigger] dealt.spent[other] by {
            assert(game.holds(node, one) && game.holds(node, other));
            assert(node.spent[one] == node.spent[other]);
        }
    }
    assert(game.waiting(dealt));
}

/// Whether a seat is in a hand and nobody else who is has a better one.
pub open spec fn unbeaten(players: int, folded: Seq<bool>, ranks: Seq<u32>, seat: int) -> bool {
    &&& 0 <= seat < players
    &&& !folded[seat]
    &&& forall|other: int| 0 <= other < players && !folded[other] ==> #[trigger] ranks[other] <= ranks[seat]
}

/// At the end of a hand the pot and every chip staked go in equal parts to the
/// seats that hold cards and are beaten by no other that does; a seat that is
/// beaten, or has folded, takes nothing. Each is measured against its stake and
/// an equal share of the pot that the hand began with.
pub proof fn law_the_best_hand_takes_the_pot(game: Postflop, node: Node, ranks: Seq<u32>, seat: int)
    requires
        game.sound(),
        game.balanced(node),
        game.live(node) >= 1,
        0 <= seat < game.players,
    ensures
        ({
            let players = game.players as int;
            let takers = eval::one(unbeaten(players, node.folded, ranks, 0)) + eval::one(
                unbeaten(players, node.folded, ranks, 1),
            ) + eval::one(unbeaten(players, node.folded, ranks, 2));
            let everything = game.pot + node.spent[0] + node.spent[1] + node.spent[2] + node.wagered[0]
                + node.wagered[1] + node.wagered[2];
            let won = if unbeaten(players, node.folded, ranks, seat) {
                everything
            } else {
                0
            };
            &&& takers >= 1
            &&& game.takers(node, ranks) == takers
            &&& game.worth(node, ranks, seat) == players * won - takers * (players * (node.spent[seat]
                + node.wagered[seat]) + game.pot)
        }),
{
    let players = game.players as int;
    lemma_takers(game, node, ranks);
    lemma_takes(game, node, ranks, 0);
    lemma_takes(game, node, ranks, 1);
    lemma_takes(game, node, ranks, 2);
    lemma_takes(game, node, ranks, seat);
}

proof fn lemma_takes(game: Postflop, node: Node, ranks: Seq<u32>, seat: int)
    requires
        game.sound(),
        0 <= seat < 3,
    ensures
        game.takes(node, ranks, seat) == unbeaten(game.players as int, node.folded, ranks, seat),
{
    let players = game.players as int;
    if game.holds(node, seat) {
        if game.takes(node, ranks, seat) {
            assert forall|other: int| 0 <= other < players && !node.folded[other] implies #[trigger] ranks[other]
                <= ranks[seat] by {
                assert(game.holds(node, other));
                if game.live(node) == 1 {
                    assert(other == seat);
                } else {
                    assert(game.shown(node, ranks, other) <= game.best(node, ranks)) by {
                        assert(other == 0 || other == 1 || other == 2);
                    }
                }
            }
        } else if unbeaten(players, node.folded, ranks, seat) {
            assert(game.shown(node, ranks, seat) <= game.best(node, ranks)) by {
                assert(seat == 0 || seat == 1 || seat == 2);
            }
            assert forall|other: int| 0 <= other < 3 implies #[trigger] game.shown(node, ranks, other)
                <= game.shown(node, ranks, seat) by {
                if game.holds(node, other) {
                    assert(ranks[other] <= ranks[seat]);
                }
            }
            assert(game.shown(node, ranks, 0) <= game.shown(node, ranks, seat));
            assert(game.shown(node, ranks, 1) <= game.shown(node, ranks, seat));
            assert(game.shown(node, ranks, 2) <= game.shown(node, ranks, seat));
        }
    }
}

/// Of two seats that show their hands, the better is not worth less than the
/// worse with the same stake, and the worse loses its stake and its share of
/// the pot.
pub proof fn law_the_better_hand_is_worth_more(game: Postflop, node: Node, ranks: Seq<u32>, better: int, worse: int)
    requires
        game.sound(),
        game.balanced(node),
        0 <= better < game.players,
        0 <= worse < game.players,
        !node.folded[better],
        !node.folded[worse],
        ranks[better] > ranks[worse],
        node.spent[better] + node.wagered[better] == node.spent[worse] + node.wagered[worse],
    ensures
        game.worth(node, ranks, better) >= game.worth(node, ranks, worse),
        game.worth(node, ranks, worse) < 0,
        game.players == 2 ==> game.worth(node, ranks, better) > 0,
{
    assert(game.holds(node, better));
    law_the_best_hand_takes_the_pot(game, node, ranks, better);
    law_the_best_hand_takes_the_pot(game, node, ranks, worse);
    assert(!unbeaten(game.players as int, node.folded, ranks, worse)) by {
        assert(ranks[better] > ranks[worse]);
    }
    let takers = game.takers(node, ranks);
    let players = game.players as int;
    let base = players * (node.spent[worse] + node.wagered[worse]) + game.pot;
    assert(0 <= node.wagered[0] && 0 <= node.wagered[1] && 0 <= node.wagered[2]);
    assert(0 <= node.wagered[worse]);
    assert(players * (node.spent[worse] + node.wagered[worse]) >= 0) by (nonlinear_arith)
        requires
            players >= 0,
            node.spent[worse] + node.wagered[worse] >= 0,
    ;
    assert(takers * base > 0) by (nonlinear_arith)
        requires
            takers >= 1,
            base > 0,
    ;
    let everything = game.pot + node.spent[0] + node.spent[1] + node.spent[2] + node.wagered[0] + node.wagered[1]
        + node.wagered[2];
    assert(players * 0 == 0);
    assert(players * everything >= 0) by (nonlinear_arith)
        requires
            players >= 0,
            everything >= 0,
    ;
    if players == 2 {
        law_payoffs_sum_to_zero(game, node, ranks);
    }
}

/// The moves of a spot, each once and in a fixed order: folding where the bet is
/// above the actor's wager, passing always, a size where somebody can answer it,
/// fewer than three raises were made and it is above the bet and short of all
/// in, and all in where somebody can answer it and it is above the bet.
pub proof fn law_which_moves_exist(game: Postflop, spot: Spot)
    ensures
        ({
            let menu = game.menu(spot);
            let all = spot.mine + spot.behind;
            let answered = spot.opponent_behind > 0;
            let small = game.sized(spot, game.sizing.small);
            let large = game.sized(spot, game.sizing.large);
            &&& menu.contains(Move::Fold) <==> spot.bet > spot.mine
            &&& menu.contains(Move::Passive)
            &&& menu.contains(Move::Small) <==> answered && spot.raises < 3 && spot.bet < small < all
            &&& menu.contains(Move::Large) <==> answered && spot.raises < 3 && spot.bet < large < all
            &&& menu.contains(Move::Jam) <==> answered && all > spot.bet
            &&& forall|i: int, j: int| 0 <= i < j < menu.len() ==> turn_in_menu(#[trigger] menu[i]) < turn_in_menu(
                #[trigger] menu[j],
            )
        }),
{
    let menu = game.menu(spot);
    let fold = eval::one(game.offers(spot, Move::Fold));
    let small = eval::one(game.offers(spot, Move::Small));
    let large = eval::one(game.offers(spot, Move::Large));
    let jam = eval::one(game.offers(spot, Move::Jam));
    assert(menu.len() == fold + 1 + small + large + jam);
    if fold == 1 {
        assert(menu[0] == Move::Fold);
    }
    assert(menu[fold] == Move::Passive);
    if small == 1 {
        assert(menu[fold + 1] == Move::Small);
    }
    if large == 1 {
        assert(menu[fold + 1 + small] == Move::Large);
    }
    if jam == 1 {
        assert(menu[fold + 1 + small + large] == Move::Jam);
    }
    assert forall|i: int| 0 <= i < menu.len() implies #[trigger] menu[i] == (if i < fold {
        Move::Fold
    } else if i == fold {
        Move::Passive
    } else if i < fold + 1 + small {
        Move::Small
    } else if i < fold + 1 + small + large {
        Move::Large
    } else {
        Move::Jam
    }) by {}
}

/// The turn of a move in the order that moves are listed in.
pub open spec fn turn_in_menu(chosen: Move) -> int {
    match chosen {
        Move::Fold => 0,
        Move::Passive => 1,
        Move::Small => 2,
        Move::Large => 3,
        Move::Jam => 4,
    }
}

/// What a move commits the actor to: nothing more for a fold, the bet or
/// everything for a call, everything for an all-in, and for a size, of a
/// moderate pot, the bet and that many hundredths of the pot after calling, to
/// the nearest chip, or everything where that is less.
pub proof fn law_moves_commit_what_they_say(game: Postflop, spot: Spot, chosen: Move)
    requires
        spot.mine <= spot.bet,
        chosen == Move::Small || chosen == Move::Large ==> (spot.pot + spot.bet - spot.mine) * (if chosen == Move::Small {
            game.sizing.small
        } else {
            game.sizing.large
        }) <= 0x4000_0000_0000,
        spot.pot + spot.bet <= 0x4000_0000_0000,
    ensures
        ({
            let (target, all) = (game.target(spot, chosen), spot.mine + spot.behind);
            let called = spot.pot + spot.bet - spot.mine;
            &&& target <= all
            &&& match chosen {
                Move::Fold => target == spot.mine,
                Move::Passive => target == spot.bet || (target == all && all < spot.bet),
                Move::Jam => target == all,
                Move::Small => {
                    ||| -50 <= 100 * (target - spot.bet) - called * game.sizing.small <= 50
                    ||| target == all && 100 * (all - spot.bet) <= called * game.sizing.small + 50
                },
                Move::Large => {
                    ||| -50 <= 100 * (target - spot.bet) - called * game.sizing.large <= 50
                    ||| target == all && 100 * (all - spot.bet) <= called * game.sizing.large + 50
                },
            }
        }),
{
    if chosen == Move::Small {
        crate::precision::law_portions_are_to_the_nearest(spot.pot + spot.due(), game.sizing.small as int);
    } else if chosen == Move::Large {
        crate::precision::law_portions_are_to_the_nearest(spot.pot + spot.due(), game.sizing.large as int);
    }
}

/// Whether a seat holds cards and has chips left.
pub open spec fn has_chips(game: Postflop, node: Node, seat: int) -> bool {
    0 <= seat < game.players && !node.folded[seat] && node.spent[seat] + node.wagered[seat] < game.stack
}

/// Whether `between` comes after `from` and before `to`, going round.
pub open spec fn passed_over(from: int, between: int, to: int) -> bool {
    if from < to {
        from < between < to
    } else {
        between > from || between < to
    }
}

/// A move puts its chips in the middle and changes nothing else that a seat has:
/// only the actor pays, only a fold folds, and every chip paid is in the pot.
pub proof fn law_a_move_pays_into_the_pot(game: Postflop, node: Node, chosen: Move, other: int)
    requires
        game.sound(),
        game.valid(node),
        node.dealt,
        !game.over(node),
        game.offers(game.spot(node, 0), chosen),
        0 <= other < 3,
        other != node.to_act,
    ensures
        ({
            let after = game.after(node, chosen);
            let actor = node.to_act;
            let staked = after.spent[actor] + after.wagered[actor];
            let paid = staked - node.spent[actor] - node.wagered[actor];
            &&& paid == game.target(game.spot(node, 0), chosen) - node.wagered[actor]
            &&& 0 <= paid && staked <= game.stack
            &&& after.settled + after.wagered[0] + after.wagered[1] + after.wagered[2] == node.settled
                + node.wagered[0] + node.wagered[1] + node.wagered[2] + paid
            &&& after.spent[other] + after.wagered[other] == node.spent[other] + node.wagered[other]
            &&& after.folded[actor] == (node.folded[actor] || chosen == Move::Fold)
            &&& after.folded[other] == node.folded[other]
            &&& after.board == node.board && after.holdings == node.holdings && after.dealt
        }),
{
    lemma_after(game, node, chosen);
    assert(0 <= node.wagered[0] && 0 <= node.wagered[1] && 0 <= node.wagered[2]);
    assert(0 <= node.wagered[node.to_act]);
    let next = game.placed(node, chosen);
    let after = game.after(node, chosen);
    assert(game.holds(node, node.to_act));
    assert(node.wagered[node.to_act] <= game.bet(node));
}

/// Where a move leaves the street open, the next to act is the nearest seat
/// after the actor that holds cards and has chips, and the street is the same.
pub proof fn law_the_turn_goes_round(game: Postflop, node: Node, chosen: Move, between: int)
    requires
        game.sound(),
        game.valid(node),
        node.dealt,
        !game.over(node),
        game.offers(game.spot(node, 0), chosen),
        !game.closed(game.placed(node, chosen)),
        0 <= between < game.players,
        passed_over(node.to_act, between, game.after(node, chosen).to_act),
    ensures
        ({
            let after = game.after(node, chosen);
            &&& after.street == node.street
            &&& after.spent == node.spent
            &&& has_chips(game, after, after.to_act)
            &&& !has_chips(game, after, between)
            &&& after.acted[node.to_act]
        }),
{
    lemma_after(game, node, chosen);
    let next = game.placed(node, chosen);
    let after = game.after(node, chosen);
    assert(game.balanced(next)) by {
        assert(game.after(node, chosen).wagered =~= next.wagered);
        assert(game.valid(after));
    }
    lemma_turn_passes(game, next, node.to_act, between);
}

proof fn lemma_turn_passes(game: Postflop, node: Node, from: int, between: int)
    requires
        game.sound(),
        0 <= from < game.players,
        0 <= between < game.players,
    ensures
        forall|seat: int| 0 <= seat < game.players ==> #[trigger] game.can_act(node, seat) == has_chips(game, node, seat),
        match game.next_from(node, from) {
            Some(to) => 0 <= to < game.players && has_chips(game, node, to) && (passed_over(from, between, to)
                ==> !has_chips(game, node, between)),
            None => between == from || !has_chips(game, node, between),
        },
{
    let players = game.players as int;
    assert(players == 2 || players == 3);
    if from + 1 < players {
        vstd::arithmetic::div_mod::lemma_small_mod((from + 1) as nat, players as nat);
    } else {
        vstd::arithmetic::div_mod::lemma_mod_self_0(players);
    }
    if from + 2 < players {
        vstd::arithmetic::div_mod::lemma_small_mod((from + 2) as nat, players as nat);
    } else {
        vstd::arithmetic::div_mod::lemma_mod_add_multiples_vanish(from + 2 - players, players);
        vstd::arithmetic::div_mod::lemma_small_mod((from + 2 - players) as nat, players as nat);
    }
    vstd::arithmetic::div_mod::lemma_mod_add_multiples_vanish(from, 3);
    vstd::arithmetic::div_mod::lemma_small_mod(from as nat, 3);
    assert(players == 3 ==> (from + 3) % players == from);
    assert(game.can_act(node, between) == has_chips(game, node, between));
    assert(game.can_act(node, (from + 1) % players) == has_chips(game, node, (from + 1) % players));
    assert(game.can_act(node, (from + 2) % players) == has_chips(game, node, (from + 2) % players));
    assert(game.can_act(node, (from + 3) % players) == has_chips(game, node, (from + 3) % players));
}

/// The next street begins with the wagers in the pot and none standing, one card
/// on, and with the first seat after the button that holds cards and has chips.
pub proof fn law_a_street_begins_after_the_button(game: Postflop, node: Node, seat: int, between: int)
    requires
        game.sound(),
        0 <= seat < 3,
        0 <= between < game.players,
        node.street == Street::Flop || node.street == Street::Turn,
        exists|able: int| 0 < able < game.players && #[trigger] has_chips(game, node, able),
        passed_over(0, between, game.dealt_on(node).to_act),
    ensures
        ({
            let next = game.dealt_on(node);
            &&& next.street == (if node.street == Street::Flop {
                Street::Turn
            } else {
                Street::River
            })
            &&& next.settled == node.settled + node.wagered[0] + node.wagered[1] + node.wagered[2]
            &&& next.wagered[seat] == 0
            &&& next.spent[seat] == node.spent[seat] + node.wagered[seat]
            &&& !next.acted[seat]
            &&& next.folded == node.folded
            &&& next.raises == 0
            &&& has_chips(game, next, next.to_act)
            &&& !has_chips(game, node, between)
        }),
{
    let next = game.dealt_on(node);
    let begun = Node { to_act: node.to_act, ..next };
    let fresh = Node {
        spent: Seq::new(3, |seat: int| node.staked(seat)),
        settled: node.pot(),
        wagered: seq![0int, 0, 0],
        acted: seq![false, false, false],
        raises: 0,
        street: Postflop::following(node.street),
        ..node
    };
    let able = choose|able: int| 0 < able < game.players && #[trigger] has_chips(game, node, able);
    lemma_turn_passes(game, fresh, 0, between);
    lemma_turn_passes(game, fresh, 0, able);
    assert(has_chips(game, fresh, able));
    assert(has_chips(game, fresh, between) == has_chips(game, node, between));
}

/// The betting of a street is over when one player is left, or when everybody
/// who holds cards has no chips or has acted and has as much in as any.
pub proof fn law_a_street_closes_when_all_are_even(game: Postflop, node: Node)
    requires
        game.sound(),
        game.balanced(node),
    ensures
        game.closed(node) <==> {
            ||| forall|i: int, j: int|
                0 <= i < j < game.players ==> #[trigger] node.folded[i] || #[trigger] node.folded[j]
            ||| forall|seat: int|
                0 <= seat < game.players && !#[trigger] node.folded[seat] ==> node.spent[seat] + node.wagered[seat]
                    >= game.stack || (node.acted[seat] && forall|other: int|
                    0 <= other < game.players && !#[trigger] node.folded[other] ==> node.wagered[other]
                        <= node.wagered[seat])
        },
{
    let players = game.players as int;
    assert(0 <= node.wagered[0] && 0 <= node.wagered[1] && 0 <= node.wagered[2]);
    assert forall|seat: int| 0 <= seat < players && !node.folded[seat] implies (node.wagered[seat] == game.bet(node)
        <==> forall|other: int|
        0 <= other < players && !#[trigger] node.folded[other] ==> node.wagered[other] <= node.wagered[seat]) by {
        assert(game.standing(node, seat) == node.wagered[seat]);
        assert(seat == 0 || seat == 1 || seat == 2);
        if node.wagered[seat] == game.bet(node) {
            assert forall|other: int| 0 <= other < players && !#[trigger] node.folded[other] implies node.wagered[other]
                <= node.wagered[seat] by {
                assert(other == 0 || other == 1 || other == 2);
                assert(game.standing(node, other) == node.wagered[other]);
            }
        }
        if forall|other: int|
            0 <= other < players && !#[trigger] node.folded[other] ==> node.wagered[other] <= node.wagered[seat] {
            assert(game.standing(node, 0) <= node.wagered[seat]) by {
                assert(!node.folded[0] ==> node.wagered[0] <= node.wagered[seat]);
            }
            assert(game.standing(node, 1) <= node.wagered[seat]) by {
                assert(!node.folded[1] ==> node.wagered[1] <= node.wagered[seat]);
            }
            assert(game.standing(node, 2) <= node.wagered[seat]) by {
                assert(game.holds(node, 2) ==> node.wagered[2] <= node.wagered[seat]);
            }
        }
    }
    let alone = forall|i: int, j: int|
        0 <= i < j < players ==> #[trigger] node.folded[i] || #[trigger] node.folded[j];
    assert(game.live(node) <= 1 <==> alone) by {
        if alone {
            assert(node.folded[0] || node.folded[1]);
            if players == 3 {
                assert(node.folded[0] || node.folded[2]);
                assert(node.folded[1] || node.folded[2]);
            }
        }
        if game.live(node) <= 1 {
            assert forall|i: int, j: int| 0 <= i < j < players implies #[trigger] node.folded[i]
                || #[trigger] node.folded[j] by {
                assert(i == 0 || i == 1);
                assert(j == 1 || j == 2);
            }
        }
    }
    let even = forall|seat: int|
        0 <= seat < players && !#[trigger] node.folded[seat] ==> node.spent[seat] + node.wagered[seat] >= game.stack || (
        node.acted[seat] && forall|other: int|
            0 <= other < players && !#[trigger] node.folded[other] ==> node.wagered[other] <= node.wagered[seat]);
    assert(even <==> game.done(node, 0) && game.done(node, 1) && game.done(node, 2)) by {
        if even {
            assert(node.folded[0] || game.done(node, 0));
            assert(node.folded[1] || game.done(node, 1));
            if players == 3 {
                assert(node.folded[2] || game.done(node, 2));
            }
        }
        if game.done(node, 0) && game.done(node, 1) && game.done(node, 2) {
            assert forall|seat: int| 0 <= seat < players && !#[trigger] node.folded[seat] implies node.spent[seat]
                + node.wagered[seat] >= game.stack || (node.acted[seat] && forall|other: int|
                0 <= other < players && !#[trigger] node.folded[other] ==> node.wagered[other]
                    <= node.wagered[seat]) by {
                assert(seat == 0 || seat == 1 || seat == 2);
                assert(game.done(node, seat));
            }
        }
    }
}

/// A hand is over when one player is left, or when the betting is over and it is
/// the river or no two players have chips.
pub proof fn law_a_hand_ends_when_nothing_can_change(game: Postflop, node: Node)
    requires
        game.sound(),
        node.dealt,
    ensures
        game.over(node) <==> {
            ||| forall|i: int, j: int|
                0 <= i < j < game.players ==> #[trigger] node.folded[i] || #[trigger] node.folded[j]
            ||| game.closed(node) && (node.street == Street::River || forall|i: int, j: int|
                0 <= i < j < game.players ==> !(#[trigger] has_chips(game, node, i) && #[trigger] has_chips(
                    game,
                    node,
                    j,
                )))
        },
{
    let players = game.players as int;
    let alone = forall|i: int, j: int|
        0 <= i < j < players ==> #[trigger] node.folded[i] || #[trigger] node.folded[j];
    if alone {
        assert(node.folded[0] || node.folded[1]);
        if players == 3 {
            assert(node.folded[0] || node.folded[2]);
            assert(node.folded[1] || node.folded[2]);
        }
    }
    if game.live(node) <= 1 {
        assert forall|i: int, j: int| 0 <= i < j < players implies #[trigger] node.folded[i]
            || #[trigger] node.folded[j] by {
            assert(i == 0 || i == 1);
            assert(j == 1 || j == 2);
        }
    }
    lemma_turn_passes(game, node, 0, 0);
    assert(game.can_act(node, 0) == has_chips(game, node, 0));
    assert(game.can_act(node, 1) == has_chips(game, node, 1));
    if players == 3 {
        assert(game.can_act(node, 2) == has_chips(game, node, 2));
    }
    let broke = forall|i: int, j: int|
        0 <= i < j < players ==> !(#[trigger] has_chips(game, node, i) && #[trigger] has_chips(game, node, j));
    if broke {
        assert(!(has_chips(game, node, 0) && has_chips(game, node, 1)));
        if players == 3 {
            assert(!(has_chips(game, node, 0) && has_chips(game, node, 2)));
            assert(!(has_chips(game, node, 1) && has_chips(game, node, 2)));
        }
    }
    if game.able(node) <= 1 {
        assert forall|i: int, j: int| 0 <= i < j < players implies !(#[trigger] has_chips(game, node, i)
            && #[trigger] has_chips(game, node, j)) by {
            assert(i == 0 || i == 1);
            assert(j == 1 || j == 2);
        }
    }
}

/// A raise is counted, and asks everybody again; anything else leaves the count
/// and marks only the actor.
pub proof fn law_raises_are_counted(game: Postflop, node: Node, chosen: Move, other: int)
    requires
        game.sound(),
        game.valid(node),
        game.offers(game.spot(node, 0), chosen),
        0 <= other < 3,
        other != node.to_act,
    ensures
        ({
            let placed = game.placed(node, chosen);
            let raised = chosen == Move::Small || chosen == Move::Large || chosen == Move::Jam;
            &&& placed.raises == node.raises + (if raised {
                1int
            } else {
                0
            })
            &&& placed.acted[node.to_act]
            &&& placed.acted[other] == (!raised && node.acted[other])
            &&& raised ==> forall|seat: int|
                0 <= seat < game.players && !node.folded[seat] ==> #[trigger] node.wagered[seat]
                    < placed.wagered[node.to_act]
        }),
{
    assert(0 <= node.wagered[0] && 0 <= node.wagered[1] && 0 <= node.wagered[2]);
    assert(0 <= node.wagered[node.to_act]);
    let placed = game.placed(node, chosen);
    let spot = game.spot(node, 0);
    assert(spot.bet == game.bet(node));
    assert(spot.mine + spot.behind == game.stack - node.spent[node.to_act]);
    assert forall|seat: int| 0 <= seat < game.players && !node.folded[seat] implies #[trigger] node.wagered[seat]
        <= game.bet(node) by {
        assert(seat == 0 || seat == 1 || seat == 2);
        assert(game.standing(node, seat) == node.wagered[seat]);
    }
}

/// How a node describes itself: the chips in the middle, the largest wager of a
/// seat that holds cards, what the actor has in and has left, and the most that
/// any other seat with cards has left.
pub proof fn law_a_spot_shows_the_table(game: Postflop, node: Node, strength: u8, other: int)
    requires
        game.sound(),
        game.balanced(node),
        0 <= other < game.players,
        !node.folded[other],
    ensures
        ({
            let spot = game.spot(node, strength);
            let actor = node.to_act;
            &&& spot.street == node.street && spot.player == actor && spot.strength == strength
            &&& spot.pot == node.settled + node.wagered[0] + node.wagered[1] + node.wagered[2]
            &&& spot.bet >= node.wagered[other]
            &&& spot.bet == 0 || exists|seat: int|
                0 <= seat < game.players && !node.folded[seat] && #[trigger] node.wagered[seat] == spot.bet
            &&& spot.mine == node.wagered[actor]
            &&& spot.behind == game.stack - node.spent[actor] - node.wagered[actor]
            &&& other != actor ==> spot.opponent_behind >= game.stack - node.spent[other] - node.wagered[other]
            &&& spot.opponent_behind == 0 || exists|seat: int|
                0 <= seat < game.players && seat != actor && !node.folded[seat] && game.stack - node.spent[seat]
                    - #[trigger] node.wagered[seat] == spot.opponent_behind
            &&& spot.raises == node.raises
        }),
{
    assert(0 <= node.wagered[0] && 0 <= node.wagered[1] && 0 <= node.wagered[2]);
    assert(0 <= node.wagered[node.to_act]);
    assert(0 <= node.wagered[other]);
    assert(other == 0 || other == 1 || other == 2);
    assert(game.standing(node, other) == node.wagered[other]);
    let spot = game.spot(node, strength);
    let top = if game.standing(node, 0) == game.bet(node) {
        0int
    } else if game.standing(node, 1) == game.bet(node) {
        1int
    } else {
        2int
    };
    assert(game.standing(node, top) == game.bet(node));
    if game.bet(node) > 0 {
        assert(node.wagered[top] == spot.bet);
    }
    let actor = node.to_act;
    let deep = if game.facing(node, actor, 0) == game.deepest(node, actor) {
        0int
    } else if game.facing(node, actor, 1) == game.deepest(node, actor) {
        1int
    } else {
        2int
    };
    assert(game.facing(node, actor, deep) == game.deepest(node, actor));
    if spot.opponent_behind > 0 {
        assert(game.holds(node, deep) && deep != actor);
        assert(game.stack - node.spent[deep] - node.wagered[deep] == spot.opponent_behind);
    }
}

/// What a moderate price is: the sixths of the pot that calling costs, to the
/// nearest, and seven for anything from six and a half up.
pub proof fn law_prices_are_sixths_of_the_pot(spot: Spot)
    requires
        spot.mine <= spot.bet < 0x100_0000_0000,
        0 < spot.pot < 0x100_0000_0000,
    ensures
        ({
            let (price, owed) = (spot.price(), spot.bet - spot.mine);
            &&& 0 <= price <= 7
            &&& price < 7 ==> -(spot.pot as int) <= 12 * owed - 2 * (price * spot.pot) <= spot.pot
            &&& price == 7 ==> 12 * owed >= 13 * spot.pot
        }),
{
    let (owed, pot) = (spot.bet - spot.mine, spot.pot as int);
    crate::precision::lemma_double_bounds(owed);
    crate::precision::lemma_double_bounds(pot);
    double::lemma_sixths(owed, pot);
    let t = double::rounded(double::product(double::quotient(owed, pot), 6));
    if t >= 7 {
        assert(t * pot >= 7 * pot) by (nonlinear_arith)
            requires
                t >= 7,
                pot > 0,
        ;
    }
}

/// What a moderate depth is: how often the stack behind can be doubled without
/// passing the pot, and seven for anything more.
pub proof fn law_depths_are_doublings_of_the_stack(spot: Spot)
    requires
        0 < spot.behind < 0x100_0000_0000,
        0 < spot.pot < 0x100_0000_0000,
    ensures
        ({
            let (depth, pot, behind) = (spot.depth(), spot.pot as int, spot.behind as int);
            &&& depth == 0 <==> pot < 2 * behind
            &&& depth == 1 <==> 2 * behind <= pot < 4 * behind
            &&& depth == 2 <==> 4 * behind <= pot < 8 * behind
            &&& depth == 3 <==> 8 * behind <= pot < 16 * behind
            &&& depth == 4 <==> 16 * behind <= pot < 32 * behind
            &&& depth == 5 <==> 32 * behind <= pot < 64 * behind
            &&& depth == 6 <==> 64 * behind <= pot < 128 * behind
            &&& depth == 7 <==> 128 * behind <= pot
        }),
{
    let (pot, behind) = (spot.pot as int, spot.behind as int);
    crate::precision::lemma_double_bounds(pot);
    crate::precision::lemma_double_bounds(behind);
    double::lemma_reaches_power(pot, behind, 1, 0x4000_0000_0000_0000);
    double::lemma_reaches_power(pot, behind, 2, 0x4010_0000_0000_0000);
    double::lemma_reaches_power(pot, behind, 3, 0x401F_FFFF_FFFF_FFFF);
    double::lemma_reaches_power(pot, behind, 4, 0x402F_FFFF_FFFF_FFFF);
    double::lemma_reaches_power(pot, behind, 5, 0x403F_FFFF_FFFF_FFFE);
    double::lemma_reaches_power(pot, behind, 6, 0x404F_FFFF_FFFF_FFFE);
    double::lemma_reaches_power(pot, behind, 7, 0x405F_FFFF_FFFF_FFFE);
    reveal_with_fuel(double::pow2, 8);
}

/// Where a key of two seats keeps what: the strength in the lowest eight bits,
/// above it four for the moves that exist, three each for depth and price, two
/// for who has acted, three for the raises, one for the seat and the rest for
/// the street.
pub proof fn law_a_heads_up_key_keeps_its_fields(game: Postflop, spot: Spot)
    requires
        game.players <= 2,
        spot.player < 2,
        spot.acted < 4,
    ensures
        ({
            let key = game.key(spot);
            let street: u64 = match spot.street {
                Street::Preflop => 0,
                Street::Flop => 1,
                Street::Turn => 2,
                Street::River => 3,
            };
            &&& key & 255 == spot.strength
            &&& (key >> 12) & 7 == spot.depth()
            &&& (key >> 15) & 7 == spot.price()
            &&& (key >> 18) & 3 == spot.acted
            &&& (key >> 20) & 7 == (if spot.raises < 7 {
                spot.raises as int
            } else {
                7
            })
            &&& (key >> 23) & 1 == spot.player
            &&& key >> 24 == street
        }),
{
    lemma_bands(spot);
    let raises: u64 = if spot.raises < 7 {
        spot.raises as u64
    } else {
        7
    };
    let (street, player, acted) = (street_number(spot.street), spot.player as u64, spot.acted as u64);
    let (price, depth, shape, strength) = (
        spot.price() as u64,
        spot.depth() as u64,
        game.shape(spot) as u64,
        spot.strength as u64,
    );
    let key = (((((((((((((street << 1u64) | player) << 3u64) | raises) << 2u64) | acted) << 3u64) | price) << 3u64) | depth)
        << 4u64) | shape) << 8u64) | strength;
    assert(key == game.key(spot));
    assert(key & 255 == strength && (key >> 12) & 7 == depth && (key >> 15) & 7 == price && (key >> 18) & 3 == acted && (
    key >> 20) & 7 == raises && (key >> 23) & 1 == player && key >> 24 == street) by (bit_vector)
        requires
            key == (((((((((((((street << 1u64) | player) << 3u64) | raises) << 2u64) | acted) << 3u64) | price) << 3u64)
                | depth) << 4u64) | shape) << 8u64) | strength,
            street < 4,
            player < 2,
            raises < 8,
            acted < 4,
            price < 8,
            depth < 8,
            shape < 16,
            strength < 256,
    ;
}

/// A stack or a pot of nothing counts as one chip where the other is measured
/// against it.
pub proof fn law_nothing_counts_as_one_chip(spot: Spot)
    ensures
        (Spot { behind: 0, ..spot }).depth() == (Spot { behind: 1, ..spot }).depth(),
        (Spot { pot: 0, ..spot }).depth() == (Spot { pot: 1, ..spot }).depth(),
        (Spot { pot: 0, ..spot }).price() == (Spot { pot: 1, ..spot }).price(),
        spot.bet <= spot.mine ==> (Spot { bet: spot.mine, ..spot }).price() == spot.price(),
{
}

} // verus!
