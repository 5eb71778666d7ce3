//! Genes, and the genomes made of them.

pub mod alignment;
pub mod connection_gene;
pub mod gene;
#[allow(clippy::module_inception)]
pub mod genome;
pub mod lineage;
pub mod mutation;
pub mod node_gene;

pub use connection_gene::ConnectionGene;
pub use gene::Gene;
pub use genome::Genome;
pub use node_gene::NodeGene;
