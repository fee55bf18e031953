//! The automaton: configuration, neighbourhood shapes and the board.
pub mod board;
pub mod config;
pub mod laws;
pub mod neighbourhood;
