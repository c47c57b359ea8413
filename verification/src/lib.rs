//! A verified core for NeuroEvolution of Augmenting Topologies (NEAT):
//! genomes of innovation-numbered connection genes, the three structural
//! mutation operators, the genetic-distance metric with speciation, a
//! cycle-safe feed-forward network evaluator, and per-generation
//! orchestration.
//!
//! All conceptually real-valued quantities (connection weights, metric
//! coefficients, probabilities, node values) are carried as signed
//! fixed-point integers with three fractional digits: the integer `1000`
//! stands for one unit. This keeps every computation exact and provable.

pub mod activation;
pub mod crossover;
pub mod event;
pub mod genome;
pub mod mutate;
pub mod network;
pub mod options;
pub mod params;
pub mod population;
pub mod render;
pub mod species;
pub mod rng;
pub mod util;

pub use activation::Activation;
pub use crossover::{classify_genes, classify_species, difference, Delta, GeneClass};
pub use event::Event;
pub use options::Control;
pub use render::Color;
pub use genome::{Gene, Genome};
pub use network::{Network, Neuron};
pub use params::Params;
pub use population::{GenerationStep, Population};
pub use species::Species;
pub use rng::RngSource;
pub use util::clamp;
