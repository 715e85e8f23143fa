//! What a player at a table is shown.
use vstd::prelude::*;

use crate::betting::LegalActions;
use crate::betting::Street;
use crate::card::Card;

verus! {

/// The most seats that a multiway game is solved for.
pub const MOST_SEATS: usize = 7;

/// Where a seat is relative to the button.
#[derive(Debug, Clone, Copy, PartialEq, Eq, Structural)]
pub enum Position {
    Button,
    SmallBlind,
    BigBlind,
    Middle,
}

/// Everything a player may look at when it is their turn. Seats are numbered
/// from the button, and amounts are in chips.
#[derive(Debug, Clone, Copy)]
pub struct PlayerView<'a> {
    pub hole: [Card; 2],
    pub board: &'a [Card],
    pub street: Street,
    pub position: Position,
    /// The player's own seat.
    pub seat: usize,
    /// How many seats the game has.
    pub players: usize,
    /// How many of them still hold cards.
    pub active: usize,
    pub pot: u64,
    pub to_call: u64,
    /// What the player has left.
    pub stack: u64,
    pub stacks: &'a [u64],
    /// What each seat has put in this hand.
    pub committed: &'a [u64],
    /// Which seats still hold cards.
    pub live: &'a [bool],
    /// What each seat has put in on this street.
    pub street_committed: &'a [u64],
    /// Which seats have acted since the last full raise.
    pub acted: &'a [bool],
    /// How many raises this street has seen.
    pub raises: u8,
    /// What was in the middle when the street opened, where that is known.
    pub settled: Option<u64>,
    pub big_blind: u64,
    pub legal: &'a LegalActions,
}

} // verus!
