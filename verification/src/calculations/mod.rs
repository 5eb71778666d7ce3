//! Working out what the network of a genome makes of its inputs.

pub mod activation;
pub mod calculator;
pub mod connection;
pub mod node;

pub use calculator::{CalculateError, Calculator};
pub use connection::Connection;
pub use node::Node;
