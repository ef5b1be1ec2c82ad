//! A NEAT-style neuroevolution engine: networks described by genomes of
//! weighted links, evolved by structural mutation, crossover and
//! compatibility-based speciation.
//!
//! All signals, weights and scores are fixed-point numbers: an `i64` counts
//! micro-units, so the integer `1_000_000` stands for the real value one.

pub mod fixed;
pub mod rng;
pub mod gene;
pub mod node;
pub mod network;
pub mod training_network;
pub mod species;
pub mod population;
pub mod nn;
pub mod laws;
pub mod acyclic;
pub mod trainer;

pub use gene::Gene;
pub use node::Node;
pub use network::EvaluationError;
pub use network::MutationError;
pub use network::Network;
