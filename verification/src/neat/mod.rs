//! The registry of genes, and the population that evolves.

pub mod client;
pub mod config;
pub mod config_text;
pub mod evolution;
pub mod generation;
#[allow(clippy::module_inception)]
pub mod neat;
pub mod population;
pub mod registry;
pub mod species;

pub use client::Client;
pub use config::{ActivationFunction, Config, ConfigError};
pub use neat::{EvolveError, Neat};
pub use registry::{Registry, MAX_CONNECTIONS, MAX_NODES};
pub use species::Species;
