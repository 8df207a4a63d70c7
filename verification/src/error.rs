//! What a population can refuse.

use vstd::prelude::*;

verus! {

/// Why an operation on a population was refused.
#[derive(Debug, Clone, Copy, PartialEq, Eq)]
pub enum PopulationError {
    /// The population holds no genome, so none is the fittest.
    EmptyPopulation,
    /// Fewer than two genomes survive a generation, so no two distinct
    /// parents can be drawn for the offspring.
    TooFewSurvivors,
}

} // verus!
