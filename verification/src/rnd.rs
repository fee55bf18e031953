use vstd::prelude::*;

verus! {

/// The random number source of the browser front end.
///
/// It carries no state: its numbers come from the host's `Math.random`,
/// which the front end reaches outside this library.
pub struct Rng {}

} // verus!
