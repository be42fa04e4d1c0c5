//! A self-play search engine for a two-player hop-and-slide board game on
//! a star-shaped board.  The crate holds the verified core: the board and
//! position model, the jump-reachability move generator, terminal and
//! status rules, alpha-beta search proved equal to the minimax value,
//! Monte-Carlo tree search over exact integer statistics, the concurrent
//! value table's sequential operations, and its persistence format.
//! Floating-point policies and operating-system concerns sit outside, in
//! the thin application layer built on top of these contracts.
use vstd::prelude::*;

pub mod alphabeta;
pub mod board;
pub mod boards;
pub mod game;
pub mod mcts;
pub mod model;
pub mod reach;
pub mod rng;
pub mod scores;
pub mod table;

verus! {

/// Marker for a cell index that is not on the board.
pub const INVALID_POSITION: u8 = 255;

} // verus!
