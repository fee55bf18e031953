use vstd::prelude::*;

verus! {

/// The shape of the neighbourhood that is counted around a cell.
///
/// * `Neumann` - the cells within Manhattan distance `rr` (a diamond).
/// * `Moore` - the cells within Chebyshev distance `rr` (a square).
#[derive(Debug, Clone, Copy, PartialEq, Eq, Structural)]
pub enum Neighbourhood {
    Neumann,
    Moore,
}

} // verus!
