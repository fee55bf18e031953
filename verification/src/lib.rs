//! A Larger than Life cellular automaton engine.
//!
//! `ltl_engine` holds the automaton itself: its configuration, the board of
//! cells and the rules that step it. The modules `board`, `config`,
//! `neighbourhood` and `rnd` are the thin, front-end facing layer that a
//! JavaScript host talks to.
pub mod board;
pub mod config;
pub mod ltl_engine;
pub mod neighbourhood;
pub mod rnd;
