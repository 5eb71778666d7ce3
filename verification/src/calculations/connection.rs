use crate::data_structures::pseudo_float::{PseudoFloat, SCALE};
use vstd::prelude::*;

verus! {

/// A connection as the calculator sees it: where the value comes from,
/// and what is done to it on the way.
#[derive(Clone, Copy, Debug, PartialEq, Eq, Structural)]
pub struct Connection {
    /// The place, among the nodes of the calculator, of the node the
    /// value comes from.
    pub from: usize,
    /// The factor the value is multiplied by.
    pub weight: PseudoFloat,
    /// Whether the value comes through at all.
    pub enabled: bool,
}

impl Connection {
    /// An enabled connection of weight one from the node at `from`.
    pub fn new(from: usize) -> (connection: Self)
        ensures
            connection.from == from,
            connection.weight@ == SCALE,
            connection.enabled,
    {
        Connection { from, weight: PseudoFloat::one(), enabled: true }
    }
}

} // verus!
