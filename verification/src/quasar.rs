//! The engine core: geometry, piece model, destination generator,
//! move legality, and the immutable board state.

pub mod generator;
pub mod geometry;
pub mod moves;
pub mod parser;
pub mod pieces;
pub mod state;
