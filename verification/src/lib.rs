//! Neuro-evolution of augmenting topologies on fixed-point numbers.
//!
//! A population of small feed-forward network genomes is evolved towards
//! higher fitness. Genes carry innovation numbers handed out by one
//! registry, genomes are compared and crossed over by a merge walk over
//! their connection genes, and clients are clustered into species by
//! compatibility distance.
//!
//! # Numbers
//!
//! Every weight, position, fitness and parameter is a [`PseudoFloat`]: a
//! signed fixed-point number with nine decimal places. Quotients are
//! rounded towards zero, and results that leave the range of the type
//! are held at its ends. There is no floating point in this crate.
//!
//! # Inputs and the bias
//!
//! A node with `x` up to a tenth is an input, a node with `x` from nine
//! tenths on is an output, and connections only run towards larger `x`,
//! so no network has a cycle. Where the configuration asks for a bias,
//! which it does unless it is told otherwise, every network has one more
//! input node behind its inputs. That node always puts out one, and a
//! calculation takes as many values as there are input nodes besides it.
//!
//! # Chance
//!
//! Where chance decides, a function that draws from the generator of
//! the current thread stands beside a function that takes what was drawn
//! as arguments. The second kind says exactly what it does.
//!
//! # Contracts
//!
//! Every function states what it needs and what it gives in `requires`
//! and `ensures` clauses, which are proved. Functions with a `requires`
//! clause do not check it when they run.

pub mod calculations;
pub mod data_structures;
pub mod genome;
pub mod neat;
pub mod random;

pub use data_structures::PseudoFloat;
pub use neat::Neat;
