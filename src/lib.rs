//! Novelty search over integer descriptor vectors.
//!
//! Individuals are points in a fixed-point integer behaviour space. Each
//! generation scores every individual by the mean distance to its nearest
//! neighbours among the archive and the rest of the population, admits the
//! novel ones to an append-only archive, keeps the best-scoring elites and
//! refills the population with noisy averaging crossover.
use vstd::prelude::*;

pub mod metric;
pub mod novelty;
pub mod archive;
pub mod selection;
pub mod variation;
pub mod random;
pub mod driver;

verus! {

/// The ways in which a computation of this library can be refused.
#[derive(Debug, Clone, Copy, PartialEq, Eq, Structural)]
pub enum NoveltyError {
    /// Two descriptor vectors of different lengths were compared.
    DimensionMismatch,
    /// Neither the archive nor the rest of the population holds a vector.
    EmptyComparisonPool,
    /// The run parameters do not describe a usable run.
    InvalidParameters,
}

} // verus!
