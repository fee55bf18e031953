use vstd::prelude::*;

use crate::ltl_engine::config as engine;
use crate::neighbourhood::{from_engine, to_engine, Neighbourhood};

verus! {

/// The rule of the automaton as the front end hands it over.
#[derive(Debug, Clone, Copy, PartialEq, Eq)]
pub struct Config {
    config: engine::Config,
}

impl View for Config {
    type V = engine::Config;

    closed spec fn view(&self) -> engine::Config {
        self.config
    }
}

impl Config {
    /// The engine's rule.
    pub fn config(&self) -> (c: engine::Config)
        ensures
            c == self@,
    {
        self.config
    }

    /// A rule with range `rr`, `cc` states, centre flag `mm`, survival range
    /// `ss[0]..=ss[1]`, birth range `bb[0]..=bb[1]` and neighbourhood shape `nn`.
    ///
    /// `ss` and `bb` must hold at least two numbers; those after the second
    /// are not read.
    pub fn new(rr: u8, cc: u8, mm: u8, ss: &[u16], bb: &[u16], nn: Neighbourhood) -> (c: Self)
        requires
            ss.len() >= 2,
            bb.len() >= 2,
        ensures
            c@ == (engine::Config {
                rr,
                cc,
                mm,
                ss: (ss@[0], ss@[1]),
                bb: (bb@[0], bb@[1]),
                nn: to_engine(nn),
            }),
    {
        Config {
            config: engine::Config {
                rr,
                cc,
                mm,
                ss: (ss[0], ss[1]),
                bb: (bb[0], bb[1]),
                nn: nn.to_neighbourhood(),
            },
        }
    }

    /// The range of the neighbourhood.
    pub fn rr(&self) -> (r: u8)
        ensures
            r == self@.rr,
    {
        self.config.rr
    }

    /// The number of states.
    pub fn cc(&self) -> (c: u8)
        ensures
            c == self@.cc,
    {
        self.config.cc
    }

    /// Whether the centre cell counts in its own neighbourhood (non-zero) or not (0).
    pub fn mm(&self) -> (m: u8)
        ensures
            m == self@.mm,
    {
        self.config.mm
    }

    /// The survival range, as the two numbers `[low, high]`.
    pub fn ss(&self) -> (s: Vec<i32>)
        ensures
            s@ == seq![self@.ss.0 as i32, self@.ss.1 as i32],
    {
        let mut s: Vec<i32> = Vec::new();
        s.push(self.config.ss.0 as i32);
        s.push(self.config.ss.1 as i32);
        s
    }

    /// The birth range, as the two numbers `[low, high]`.
    pub fn bb(&self) -> (b: Vec<i32>)
        ensures
            b@ == seq![self@.bb.0 as i32, self@.bb.1 as i32],
    {
        let mut b: Vec<i32> = Vec::new();
        b.push(self.config.bb.0 as i32);
        b.push(self.config.bb.1 as i32);
        b
    }

    /// The neighbourhood shape.
    pub fn nn(&self) -> (n: Neighbourhood)
        ensures
            n == from_engine(self@.nn),
    {
        Neighbourhood::from_neighbourhood(self.config.nn)
    }
}

} // verus!
