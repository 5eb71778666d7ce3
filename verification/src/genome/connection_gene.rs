use crate::data_structures::pseudo_float::{PseudoFloat, SCALE};
use crate::genome::gene::Gene;
use crate::genome::node_gene::NodeGene;
use vstd::prelude::*;
use vstd::std_specs::cmp::PartialEqSpecImpl;

verus! {

/// The key of the connection from node `from` to node `to`.
///
/// Different ordered pairs have different keys.
pub open spec fn pair_key(from: u32, to: u32) -> u64 {
    (from as int * 0x1_0000_0000 + to as int) as u64
}

/// A weighted connection from one node to another, as a gene.
///
/// Within a collection a connection gene is known by the ordered pair of
/// its end points. Two connection genes are equal when all their fields
/// are, the end points compared as node genes.
#[derive(Clone, Copy, Debug)]
pub struct ConnectionGene {
    /// The number under which the registry knows this connection.
    pub innovation_number: u32,
    /// The node the connection leaves.
    pub from: NodeGene,
    /// The node the connection enters.
    pub to: NodeGene,
    /// The factor applied to what flows through.
    pub weight: PseudoFloat,
    /// Whether anything flows through.
    pub enabled: bool,
    /// The number of the node that once split this connection, or zero.
    pub replace_index: usize,
}

impl ConnectionGene {
    /// Two connection genes are equal when all their fields are, the end
    /// points compared as node genes.
    pub open spec fn equals(&self, other: &Self) -> bool {
        self.innovation_number == other.innovation_number && self.enabled == other.enabled
            && self.from.innovation_number == other.from.innovation_number
            && self.to.innovation_number == other.to.innovation_number && self.weight.units
            == other.weight.units && self.replace_index == other.replace_index
    }

    /// An enabled connection of weight one that no registry knows yet.
    pub fn new(from: NodeGene, to: NodeGene) -> (gene: Self)
        ensures
            gene.innovation_number == 0,
            gene.from == from,
            gene.to == to,
            gene.weight@ == SCALE,
            gene.enabled,
            gene.replace_index == 0,
    {
        ConnectionGene {
            innovation_number: 0,
            from,
            to,
            weight: PseudoFloat::one(),
            enabled: true,
            replace_index: 0,
        }
    }

    /// The key of the ordered pair of end points.
    pub fn hash_code(&self) -> (code: u64)
        ensures
            code == pair_key(self.from.innovation_number, self.to.innovation_number),
    {
        let high: u64 = self.from.innovation_number as u64;
        let low: u64 = self.to.innovation_number as u64;
        high * 0x1_0000_0000 + low
    }
}

impl Gene for ConnectionGene {
    open spec fn innovation(&self) -> u32 {
        self.innovation_number
    }

    open spec fn identity(&self) -> u64 {
        pair_key(self.from.innovation_number, self.to.innovation_number)
    }

    open spec fn same(&self, other: &Self) -> bool {
        self.equals(other)
    }

    proof fn lemma_same_key(&self, other: &Self) {
    }

    proof fn lemma_same_both_ways(&self, other: &Self) {
    }

    proof fn lemma_same_chain(&self, middle: &Self, other: &Self) {
    }

    fn is_same(&self, other: &Self) -> (same: bool) {
        self.innovation_number == other.innovation_number && self.enabled == other.enabled
            && self.from.innovation_number == other.from.innovation_number
            && self.to.innovation_number == other.to.innovation_number && self.weight.units
            == other.weight.units && self.replace_index == other.replace_index
    }

    fn get_innovation_number(&self) -> (number: u32) {
        self.innovation_number
    }

    fn set_innovation_number(&mut self, new: u32)
        ensures
            final(self).from == old(self).from,
            final(self).to == old(self).to,
            final(self).weight == old(self).weight,
            final(self).enabled == old(self).enabled,
            final(self).replace_index == old(self).replace_index,
    {
        self.innovation_number = new;
    }

    fn key(&self) -> (key: u64) {
        self.hash_code()
    }
}

impl PartialEq for ConnectionGene {
    fn eq(&self, other: &Self) -> (equal: bool) {
        self.innovation_number == other.innovation_number && self.enabled == other.enabled
            && self.from.innovation_number == other.from.innovation_number
            && self.to.innovation_number == other.to.innovation_number && self.weight.units
            == other.weight.units && self.replace_index == other.replace_index
    }
}

impl Eq for ConnectionGene {

}

impl PartialEqSpecImpl for ConnectionGene {
    open spec fn obeys_eq_spec() -> bool {
        true
    }

    open spec fn eq_spec(&self, other: &Self) -> bool {
        self.equals(other)
    }
}

/// Different ordered pairs of end points have different keys.
pub proof fn lemma_pair_key_injective(from1: u32, to1: u32, from2: u32, to2: u32)
    requires
        pair_key(from1, to1) == pair_key(from2, to2),
    ensures
        from1 == from2,
        to1 == to2,
{
}

} // verus!
