//! The containers and the number type the rest of the crate is built on.

pub mod pseudo_float;
pub mod random_hash_set;
pub mod random_selector;

pub use pseudo_float::PseudoFloat;
pub use random_hash_set::RandomHashSet;
pub use random_selector::{RandomSelector, SelectError};
