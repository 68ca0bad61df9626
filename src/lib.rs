//! A genetic-algorithm engine for the travelling salesman problem.
//!
//! Tours are permutations of city indices.  The operators on them (random
//! initialisation, order-based crossover and swap mutation) are proved to
//! keep every tour a permutation.

mod random;

pub mod rank;

pub mod gene;
pub mod population;
