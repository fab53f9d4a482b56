//! A rule-correct move generation and legality engine for a chess-like game,
//! built around immutable board snapshots that form a shared-history chain.
//!
//! The `quasar` module holds the engine itself: geometry, the piece model,
//! the geometric destination generator, move legality, and the board state.
//! The `pieces` module holds the piece naming and colour helpers.

pub mod pieces;
pub mod quasar;
