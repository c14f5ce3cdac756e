//! A genetic-algorithm engine for problems whose candidate solutions are
//! permutations, with the travelling salesman problem as its example.
//!
//! The engine evolves a scored population by tournament selection, partially
//! matched crossover and swap mutation. Every function states what it computes
//! in its contract; the only statements taken on trust are those about the
//! random source, in [`random`].

pub mod ga;
pub mod permutation;
pub mod random;
pub mod tsp;

pub use ga::crossover::{find_root, pmx_crossover, pmx_with_splits};
pub use ga::mutation::swap_mutation;
pub use ga::ranking::IncomparableFitness;
pub use ga::{Ga, GaParameters, Individual, IterationResult, Problem};
pub use random::Probability;
pub use tsp::TspIndividual;
