use crate::calculations::activation::{activate, activation_of};
use crate::calculations::connection::Connection;
use crate::data_structures::pseudo_float::{clamp, fixed_mul, PseudoFloat};
use crate::neat::config::ActivationFunction;
use vstd::prelude::*;

verus! {

/// A node as the calculator sees it.
#[derive(Clone, Debug)]
pub struct Node {
    /// The place of the node between the inputs and the outputs.
    pub x: PseudoFloat,
    /// What the node last put out.
    pub output: PseudoFloat,
    /// The connections that enter the node.
    pub connections: Vec<Connection>,
    /// What the node does to the sum of what comes in.
    pub activation: ActivationFunction,
}

/// What comes into a node through the first `n` of `connections`, the
/// nodes `nodes` putting out what they last put out: the sum of weight
/// times output over the enabled connections. Every product and every
/// partial sum is held at the ends of the range.
pub open spec fn incoming_sum(connections: Seq<Connection>, nodes: Seq<Node>, n: int) -> int
    decreases n,
{
    if n <= 0 {
        0
    } else {
        let before = incoming_sum(connections, nodes, n - 1);
        let connection = connections[n - 1];
        if connection.enabled && connection.from < nodes.len() {
            clamp(
                before + clamp(fixed_mul(connection.weight@, nodes[connection.from as int].output@)),
            )
        } else {
            before
        }
    }
}

/// What `node` puts out, the nodes `nodes` putting out what they last
/// put out: its activation function of what comes in.
pub open spec fn node_value(node: Node, nodes: Seq<Node>) -> int {
    activation_of(
        node.activation,
        incoming_sum(node.connections@, nodes, node.connections@.len() as int),
    )
}

impl Node {
    /// A node at `x` that nothing enters and that has put out zero.
    pub fn new(x: PseudoFloat, activation: ActivationFunction) -> (node: Self)
        ensures
            node.x == x,
            node.output@ == 0,
            node.connections@ == Seq::<Connection>::empty(),
            node.activation == activation,
    {
        Node { x, output: PseudoFloat::zero(), connections: Vec::new(), activation }
    }

    /// What this node puts out when the nodes of `nodes` put out what
    /// they last put out: see [`node_value`].
    pub fn calculate(&self, nodes: &Vec<Node>) -> (value: PseudoFloat)
        ensures
            value@ == node_value(*self, nodes@),
    {
        let mut sum = PseudoFloat::zero();
        let mut index: usize = 0;
        while index < self.connections.len()
            invariant
                index <= self.connections@.len(),
                sum@ == incoming_sum(self.connections@, nodes@, index as int),
            decreases self.connections@.len() - index,
        {
            let connection = self.connections[index];
            if connection.enabled && connection.from < nodes.len() {
                sum = sum.add(connection.weight.mul(nodes[connection.from].output));
            }
            index += 1;
        }
        activate(self.activation, sum)
    }
}

} // verus!
