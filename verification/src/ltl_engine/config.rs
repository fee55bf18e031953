use vstd::prelude::*;

use crate::ltl_engine::neighbourhood::Neighbourhood;

verus! {

/// The rule of a Larger than Life automaton.
///
/// * `rr` - the range (radius) of the neighbourhood.
/// * `cc` - the number of cell states; with fewer than 2 the automaton has the
///   two states 0 (dead) and 1 (alive).
/// * `mm` - 0 leaves the cell itself out of its neighbourhood, any other value
///   counts it in.
/// * `ss` - the inclusive range of counts with which a live cell survives.
/// * `bb` - the inclusive range of counts with which a dead cell is born.
/// * `nn` - the shape of the neighbourhood.
#[derive(Debug, Clone, Copy, PartialEq, Eq)]
pub struct Config {
    pub rr: u8,
    pub cc: u8,
    pub mm: u8,
    pub ss: (u16, u16),
    pub bb: (u16, u16),
    pub nn: Neighbourhood,
}

/// The number of states a cell can take under `config`: `cc`, and never fewer than 2.
pub open spec fn state_count(config: Config) -> u8 {
    if config.cc < 2 { 2 } else { config.cc }
}

/// A rule has `cc` states, but never fewer than two: the number of states is
/// at least 2, at least `cc`, and equal to one of them.
pub proof fn lemma_state_count(config: Config)
    ensures
        state_count(config) >= 2,
        state_count(config) >= config.cc,
        state_count(config) == 2 || state_count(config) == config.cc,
{
}

impl Config {
    /// The number of states a cell can take: `cc`, but at least 2.
    pub fn state_count(&self) -> (n: u8)
        ensures
            n == state_count(*self),
            n >= 2,
    {
        if self.cc < 2 { 2 } else { self.cc }
    }
}

} // verus!
