use vstd::prelude::*;

use crate::ltl_engine::neighbourhood as engine;

verus! {

/// The neighbourhood shape as the front end names it.
#[derive(Debug, Clone, Copy, PartialEq, Eq, Structural)]
pub enum Neighbourhood {
    Neumann,
    Moore,
}

/// The engine's shape that a front-end shape stands for.
pub open spec fn to_engine(n: Neighbourhood) -> engine::Neighbourhood {
    match n {
        Neighbourhood::Neumann => engine::Neighbourhood::Neumann,
        Neighbourhood::Moore => engine::Neighbourhood::Moore,
    }
}

/// The front-end shape that stands for an engine shape.
pub open spec fn from_engine(n: engine::Neighbourhood) -> Neighbourhood {
    match n {
        engine::Neighbourhood::Neumann => Neighbourhood::Neumann,
        engine::Neighbourhood::Moore => Neighbourhood::Moore,
    }
}

impl Neighbourhood {
    /// The engine's shape with the same name.
    pub fn to_neighbourhood(&self) -> (n: engine::Neighbourhood)
        ensures
            n == to_engine(*self),
    {
        match self {
            Neighbourhood::Neumann => engine::Neighbourhood::Neumann,
            Neighbourhood::Moore => engine::Neighbourhood::Moore,
        }
    }

    /// The front-end shape with the same name as `neighbourhood`.
    pub fn from_neighbourhood(neighbourhood: engine::Neighbourhood) -> (n: Self)
        ensures
            n == from_engine(neighbourhood),
    {
        match neighbourhood {
            engine::Neighbourhood::Neumann => Neighbourhood::Neumann,
            engine::Neighbourhood::Moore => Neighbourhood::Moore,
        }
    }
}

/// Converting a front-end shape to the engine's and back gives the shape
/// itself, and so does the other way round: the two enums name the same
/// two shapes.
pub proof fn lemma_neighbourhood_round_trip(n: Neighbourhood, m: engine::Neighbourhood)
    ensures
        from_engine(to_engine(n)) == n,
        to_engine(from_engine(m)) == m,
{
}

} // verus!
