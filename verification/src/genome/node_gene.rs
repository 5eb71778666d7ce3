use crate::data_structures::pseudo_float::PseudoFloat;
use crate::data_structures::random_hash_set::{holds, keys_of, lemma_held_key};
use crate::genome::gene::Gene;
use vstd::prelude::*;
use vstd::std_specs::cmp::PartialEqSpecImpl;

verus! {

/// A node of a network, as a gene.
///
/// `x` places the node between the inputs (at most a tenth) and the
/// outputs (at least nine tenths); connections only ever run towards
/// larger `x`. `y` serves drawing alone. Two node genes are equal when
/// their innovation numbers are.
#[derive(Clone, Copy, Debug)]
pub struct NodeGene {
    /// The number under which the registry knows this node.
    pub innovation_number: u32,
    /// The position between inputs and outputs.
    pub x: PseudoFloat,
    /// The position across the layer.
    pub y: PseudoFloat,
}

impl NodeGene {
    /// Two node genes are equal when their innovation numbers are.
    pub open spec fn equals(&self, other: &Self) -> bool {
        self.innovation_number == other.innovation_number
    }

    /// A node gene at the origin.
    pub fn new(innovation_number: u32) -> (node: Self)
        ensures
            node.innovation_number == innovation_number,
            node.x@ == 0,
            node.y@ == 0,
    {
        NodeGene { innovation_number, x: PseudoFloat::zero(), y: PseudoFloat::zero() }
    }
}

impl Gene for NodeGene {
    open spec fn innovation(&self) -> u32 {
        self.innovation_number
    }

    open spec fn identity(&self) -> u64 {
        self.innovation_number as u64
    }

    open spec fn same(&self, other: &Self) -> bool {
        self.equals(other)
    }

    proof fn lemma_same_key(&self, other: &Self) {
    }

    proof fn lemma_same_both_ways(&self, other: &Self) {
    }

    proof fn lemma_same_chain(&self, middle: &Self, other: &Self) {
    }

    fn is_same(&self, other: &Self) -> (same: bool) {
        self.innovation_number == other.innovation_number
    }

    fn get_innovation_number(&self) -> (number: u32) {
        self.innovation_number
    }

    fn set_innovation_number(&mut self, new: u32)
        ensures
            final(self).x == old(self).x,
            final(self).y == old(self).y,
    {
        self.innovation_number = new;
    }

    fn key(&self) -> (key: u64) {
        self.innovation_number as u64
    }
}

impl PartialEq for NodeGene {
    fn eq(&self, other: &Self) -> (equal: bool) {
        self.innovation_number == other.innovation_number
    }
}

impl Eq for NodeGene {

}

impl PartialEqSpecImpl for NodeGene {
    open spec fn obeys_eq_spec() -> bool {
        true
    }

    open spec fn eq_spec(&self, other: &Self) -> bool {
        self.equals(other)
    }
}

/// A list holds a node gene exactly where it has the key of the gene.
pub proof fn lemma_node_held(nodes: Seq<NodeGene>, node: NodeGene)
    ensures
        holds(nodes, node) == keys_of(nodes).contains(node.identity()),
{
    if keys_of(nodes).contains(node.identity()) {
        let i = choose|i: int|
            0 <= i < nodes.len() && #[trigger] nodes[i].identity() == node.identity();
        assert(nodes[i].same(&node));
    }
    lemma_held_key(nodes, node);
}

} // verus!
