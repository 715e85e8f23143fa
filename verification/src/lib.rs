//! Verified building blocks for playing and solving poker.

pub mod abstraction;
pub mod bench;
pub mod betting;
pub mod bits;
pub mod blueprint;
pub mod bot;
pub mod bridge;
pub mod bytes;
pub mod card;
pub mod charts;
pub mod cli;
pub mod double;
pub mod equity;
pub mod eval;
pub mod kuhn;
pub mod live;
pub mod multiway;
pub mod natural;
pub mod omaha;
pub mod png;
pub mod postflop;
pub mod pot;
pub mod precision;
pub mod table;
pub mod text;
