//! A NEAT (NeuroEvolution of Augmenting Topologies) engine over fixed-point
//! arithmetic: genomes of nodes and connections with historical marking,
//! structural and weight mutation, crossover, speciation by compatibility
//! distance, fitness sharing, and generation advancement, plus a HyperNEAT
//! mode that queries an evolved genome as a CPPN over a substrate grid.
//!
//! Every real-valued quantity (weights, node values, coordinates, rates,
//! fitness) is a scaled integer: the value `v` stands for the real `v / SCALE`
//! with `SCALE = 1_000_000`. This keeps the whole engine in exact integer
//! arithmetic.

use vstd::prelude::*;

pub mod activations;
pub mod connection;
pub mod errors;
pub mod fixed;
pub mod genome;
pub mod history;
pub mod hyper_tensor;
pub mod node;
pub mod population;
pub mod rng;
pub mod settings;
pub mod species;
pub mod valmap;

pub use activations::Activations;
pub use connection::Connection;
pub use errors::NeatError;
pub use fixed::SCALE;
pub use genome::Genome;
pub use history::HistConnection;
pub use history::History;
pub use history::NodeMut;
pub use hyper_tensor::HyperTensor;
pub use node::Node;
pub use population::Population;
pub use settings::HyperSettings;
pub use settings::Settings;
pub use species::Species;

verus! {

} // verus!
