//! Evolutionary search for a target string.
//!
//! A [`population::Population`] holds a fixed number of candidate strings
//! (genomes) of the target's length, ranked by how many positions agree with
//! the target. Each generation keeps the better half and refills the rest by
//! crossing survivors.

pub mod alphabet;
pub mod breeding;
pub mod chance;
pub mod error;
pub mod genome;
pub mod population;
pub mod ranking;
pub mod text;

pub use crate::error::PopulationError;
pub use crate::population::{Population, PopulationView, DEFAULT_POPULATION_SIZE};
