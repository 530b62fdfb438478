use vstd::prelude::*;

verus! {

/// How the computer picks its move once the search is over.
#[derive(Debug, Clone, Copy, PartialEq, Eq, Structural)]
pub enum MonteCarloPolicy {
    /// Largest number of simulations
    Robust,
    /// Highest total value
    Maximum,
    /// Lowest number of simulations
    Frail,
    /// Lowest total value
    Minimum,
    /// A random move
    Random,
    /// Highest UCB1 value
    UCB1,
}

} // verus!
