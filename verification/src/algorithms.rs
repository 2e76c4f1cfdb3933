//! The search strategies.

pub mod annealing;
pub mod genetic;
pub mod hill_climbing;
pub mod individual;

pub use annealing::Annealing;
pub use genetic::Genetic;
pub use hill_climbing::HillClimbing;
pub use individual::Individual;
