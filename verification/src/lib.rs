//! A genetic algorithm toolkit: a deterministic pseudo-random generator,
//! selection strategies, crossover operators, and population management
//! with elitism.
//!
//! Gene values are generic; fitness scores are carried as the 64-bit
//! IEEE-754 binary64 encodings of the scores and compared as binary64
//! comparison compares them. Probabilities are counts of 53-bit draws
//! (see `Probability`).
use vstd::prelude::*;

pub mod rng;
pub mod rounding;
pub mod fitness;
pub mod ranking;
pub mod selection;
pub mod crossover;
pub mod mutation;
pub mod population;

pub use rng::{Probability, SimpleRng};
pub use selection::{Individual, RankSelection, Selection, TournamentSelection};
pub use crossover::{Crossover, SinglePointCrossover, UniformCrossover};
pub use mutation::Mutation;
pub use population::Population;

verus! {

} // verus!
