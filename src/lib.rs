//! Tic-tac-toe: an immutable board model and an exhaustive minimax search.
pub mod board;
pub mod search;
