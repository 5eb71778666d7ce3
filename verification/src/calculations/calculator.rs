use crate::calculations::connection::Connection;
use crate::calculations::node::{Node, node_value};
use crate::data_structures::pseudo_float::{PseudoFloat, SCALE};
use crate::data_structures::random_hash_set::{keys_of, lemma_position_of, position_of};
use crate::genome::connection_gene::ConnectionGene;
use crate::genome::gene::Gene;
use crate::genome::genome::Genome;
use crate::genome::node_gene::NodeGene;
use crate::neat::config::{ActivationFunction, Config};
use vstd::prelude::*;

verus! {

/// Up to this `x`, a tenth, a node is an input.
pub const INPUT_EDGE: i64 = 100_000_000;

/// From this `x` on, nine tenths, a node is an output.
pub const OUTPUT_EDGE: i64 = 900_000_000;

/// Why a calculator did not calculate.
#[derive(Clone, Copy, Debug, PartialEq, Eq, Structural)]
pub enum CalculateError {
    /// There are not as many input values as the network has inputs, the
    /// bias not counted.
    WrongInputCount,
}

/// Whether the node is an input.
pub open spec fn is_input(node: NodeGene) -> bool {
    node.x@ <= INPUT_EDGE
}

/// Whether the node is an output.
pub open spec fn is_output(node: NodeGene) -> bool {
    node.x@ > INPUT_EDGE && node.x@ >= OUTPUT_EDGE
}

/// Whether the node is neither an input nor an output.
pub open spec fn is_hidden(node: NodeGene) -> bool {
    INPUT_EDGE < node.x@ < OUTPUT_EDGE
}

/// The places of the inputs among the first `n` node genes, in order.
pub open spec fn input_places(genes: Seq<NodeGene>, n: int) -> Seq<usize>
    decreases n,
{
    if n <= 0 {
        Seq::empty()
    } else if is_input(genes[n - 1]) {
        input_places(genes, n - 1).push((n - 1) as usize)
    } else {
        input_places(genes, n - 1)
    }
}

/// The places of the outputs among the first `n` node genes, in order.
pub open spec fn output_places(genes: Seq<NodeGene>, n: int) -> Seq<usize>
    decreases n,
{
    if n <= 0 {
        Seq::empty()
    } else if is_output(genes[n - 1]) {
        output_places(genes, n - 1).push((n - 1) as usize)
    } else {
        output_places(genes, n - 1)
    }
}

/// Where a node at `x` goes into the hidden places `places`: behind the
/// last place whose node has an `x` that is not larger.
pub open spec fn hidden_slot(genes: Seq<NodeGene>, places: Seq<usize>, x: int) -> int
    decreases places.len(),
{
    if places.len() == 0 || genes[places.last() as int].x@ <= x {
        places.len() as int
    } else {
        hidden_slot(genes, places.drop_last(), x)
    }
}

/// The places of the hidden nodes among the first `n` node genes, in
/// growing order of their `x`, nodes of the same `x` in their order among
/// the genes.
pub open spec fn hidden_places(genes: Seq<NodeGene>, n: int) -> Seq<usize>
    decreases n,
{
    if n <= 0 {
        Seq::empty()
    } else if is_hidden(genes[n - 1]) {
        let before = hidden_places(genes, n - 1);
        before.insert(hidden_slot(genes, before, genes[n - 1].x@), (n - 1) as usize)
    } else {
        hidden_places(genes, n - 1)
    }
}

/// Whether the connection gene `gene` enters the node at `node` and
/// leaves a node of `genes`.
pub open spec fn enters(genes: Seq<NodeGene>, gene: ConnectionGene, node: int) -> bool {
    &&& position_of(genes, gene.to.identity()) == node
    &&& node < genes.len()
    &&& position_of(genes, gene.from.identity()) < genes.len()
}

/// The connections that enter the node at `node`, as far as the first
/// `n` connection genes make them. A connection gene whose end points are
/// not both among the node genes makes none.
pub open spec fn wired(
    genes: Seq<NodeGene>,
    connections: Seq<ConnectionGene>,
    node: int,
    n: int,
) -> Seq<Connection>
    decreases n,
{
    if n <= 0 {
        Seq::empty()
    } else if enters(genes, connections[n - 1], node) {
        wired(genes, connections, node, n - 1).push(
            Connection {
                from: position_of(genes, connections[n - 1].from.identity()) as usize,
                weight: connections[n - 1].weight,
                enabled: connections[n - 1].enabled,
            },
        )
    } else {
        wired(genes, connections, node, n - 1)
    }
}

/// The nodes after the first `n` input values were written into the
/// input nodes.
pub open spec fn fed(
    nodes: Seq<Node>,
    input_nodes: Seq<usize>,
    inputs: Seq<PseudoFloat>,
    n: int,
) -> Seq<Node>
    decreases n,
{
    if n <= 0 {
        nodes
    } else {
        let before = fed(nodes, input_nodes, inputs, n - 1);
        let place = input_nodes[n - 1] as int;
        before.update(place, Node { output: inputs[n - 1], ..before[place] })
    }
}

/// The nodes after the bias input, the last input node, was set to one,
/// where there is a bias.
pub open spec fn biased(nodes: Seq<Node>, input_nodes: Seq<usize>, bias: bool) -> Seq<Node> {
    if bias && input_nodes.len() > 0 {
        let place = input_nodes.last() as int;
        nodes.update(place, Node { output: PseudoFloat { units: SCALE }, ..nodes[place] })
    } else {
        nodes
    }
}

/// The nodes after the first `n` nodes of `order` have been worked out,
/// one after the other, each from what the others put out at that time.
pub open spec fn settled(nodes: Seq<Node>, order: Seq<usize>, n: int) -> Seq<Node>
    decreases n,
{
    if n <= 0 {
        nodes
    } else {
        let before = settled(nodes, order, n - 1);
        let place = order[n - 1] as int;
        before.update(
            place,
            Node {
                output: PseudoFloat { units: node_value(before[place], before) as i64 },
                ..before[place]
            },
        )
    }
}

/// What the nodes at `places` put out.
pub open spec fn read_out(nodes: Seq<Node>, places: Seq<usize>) -> Seq<PseudoFloat> {
    Seq::new(places.len(), |i: int| nodes[places[i] as int].output)
}

/// Whether every place of `places` is below `count`.
pub open spec fn in_bounds(places: Seq<usize>, count: nat) -> bool {
    forall|i: int| 0 <= i < places.len() ==> (#[trigger] places[i]) < count
}

/// What a calculator holds, as plain values.
pub struct CalculatorModel {
    /// The nodes, in the order of the node genes.
    pub nodes: Seq<Node>,
    /// The places of the input nodes, the bias last.
    pub input_nodes: Seq<usize>,
    /// The places of the hidden nodes, in the order they are worked out.
    pub hidden_nodes: Seq<usize>,
    /// The places of the output nodes.
    pub output_nodes: Seq<usize>,
    /// Whether the last input node is a bias.
    pub bias: bool,
}

impl CalculatorModel {
    /// Every place is the place of a node.
    pub open spec fn wf(self) -> bool {
        &&& in_bounds(self.input_nodes, self.nodes.len())
        &&& in_bounds(self.hidden_nodes, self.nodes.len())
        &&& in_bounds(self.output_nodes, self.nodes.len())
    }

    /// How many input values the calculator takes.
    pub open spec fn input_count(self) -> int {
        self.input_nodes.len() - (if self.bias {
            1int
        } else {
            0int
        })
    }

    /// The nodes after a calculation on `inputs`: the input values are
    /// written into the input nodes and one into the bias, then the
    /// hidden nodes are worked out in their order, then the output nodes.
    pub open spec fn run(self, inputs: Seq<PseudoFloat>) -> Seq<Node> {
        let start = biased(
            fed(self.nodes, self.input_nodes, inputs, inputs.len() as int),
            self.input_nodes,
            self.bias,
        );
        let inner = settled(start, self.hidden_nodes, self.hidden_nodes.len() as int);
        settled(inner, self.output_nodes, self.output_nodes.len() as int)
    }

    /// Whether this is the calculator of the genome with the node genes
    /// `genes` and the connection genes `connections`: one node for each
    /// node gene, at its `x`, with the connections that enter it; the
    /// nodes up to a tenth as inputs, those from nine tenths on as
    /// outputs, and the others as hidden nodes in growing order of `x`.
    pub open spec fn compiled(
        self,
        genes: Seq<NodeGene>,
        connections: Seq<ConnectionGene>,
        activation: ActivationFunction,
        bias: bool,
    ) -> bool {
        &&& self.nodes.len() == genes.len()
        &&& forall|k: int|
            0 <= k < genes.len() ==> {
                &&& (#[trigger] self.nodes[k]).x == genes[k].x
                &&& self.nodes[k].output@ == 0
                &&& self.nodes[k].activation == activation
                &&& self.nodes[k].connections@ == wired(
                    genes,
                    connections,
                    k,
                    connections.len() as int,
                )
            }
        &&& self.input_nodes == input_places(genes, genes.len() as int)
        &&& self.hidden_nodes == hidden_places(genes, genes.len() as int)
        &&& self.output_nodes == output_places(genes, genes.len() as int)
        &&& self.bias == bias
    }
}

/// The network of one genome, ready to work out outputs from inputs. It
/// does not follow later changes of the genome.
#[derive(Clone, Debug)]
pub struct Calculator {
    nodes: Vec<Node>,
    input_nodes: Vec<usize>,
    hidden_nodes: Vec<usize>,
    output_nodes: Vec<usize>,
    bias: bool,
}

impl View for Calculator {
    type V = CalculatorModel;

    closed spec fn view(&self) -> CalculatorModel {
        CalculatorModel {
            nodes: self.nodes@,
            input_nodes: self.input_nodes@,
            hidden_nodes: self.hidden_nodes@,
            output_nodes: self.output_nodes@,
            bias: self.bias,
        }
    }
}

impl Calculator {
    /// See [`CalculatorModel::wf`].
    pub open spec fn wf(&self) -> bool {
        self@.wf()
    }

    /// The calculator of `genome`: see [`CalculatorModel::compiled`].
    pub fn new(genome: &Genome, config: &Config) -> (calculator: Self)
        requires
            genome.wf(),
        ensures
            calculator.wf(),
            calculator@.compiled(
                genome.nodes@,
                genome.connections@,
                config.activation,
                config.bias,
            ),
    {
        let mut calculator = Calculator {
            nodes: Vec::new(),
            input_nodes: Vec::new(),
            hidden_nodes: Vec::new(),
            output_nodes: Vec::new(),
            bias: config.bias,
        };
        let ghost genes = genome.nodes@;
        let ghost connections = genome.connections@;
        let count = genome.nodes.len();
        let mut place: usize = 0;
        while place < count
            invariant
                place <= count,
                count == genes.len(),
                genes == genome.nodes@,
                calculator.bias == config.bias,
                calculator.nodes@.len() == place,
                forall|k: int|
                    0 <= k < place ==> {
                        &&& (#[trigger] calculator.nodes@[k]).x == genes[k].x
                        &&& calculator.nodes@[k].output@ == 0
                        &&& calculator.nodes@[k].activation == config.activation
                        &&& calculator.nodes@[k].connections@ == Seq::<Connection>::empty()
                    },
                calculator.input_nodes@ == input_places(genes, place as int),
                calculator.hidden_nodes@ == hidden_places(genes, place as int),
                calculator.output_nodes@ == output_places(genes, place as int),
                in_bounds(calculator.input_nodes@, calculator.nodes@.len()),
                in_bounds(calculator.hidden_nodes@, calculator.nodes@.len()),
                in_bounds(calculator.output_nodes@, calculator.nodes@.len()),
            decreases count - place,
        {
            let gene = *genome.nodes.get(place).unwrap();
            calculator.nodes.push(Node::new(gene.x, config.activation));
            if gene.x.units <= INPUT_EDGE {
                calculator.input_nodes.push(place);
            } else if gene.x.units >= OUTPUT_EDGE {
                calculator.output_nodes.push(place);
            } else {
                let slot = calculator.find_slot(gene.x, Ghost(genes));
                calculator.hidden_nodes.insert(slot, place);
            }
            place += 1;
        }
        let total = genome.connections.len();
        let mut index: usize = 0;
        while index < total
            invariant
                index <= total,
                total == connections.len(),
                connections == genome.connections@,
                genes == genome.nodes@,
                genome.wf(),
                calculator.bias == config.bias,
                calculator.nodes@.len() == genes.len(),
                forall|k: int|
                    0 <= k < genes.len() ==> {
                        &&& (#[trigger] calculator.nodes@[k]).x == genes[k].x
                        &&& calculator.nodes@[k].output@ == 0
                        &&& calculator.nodes@[k].activation == config.activation
                        &&& calculator.nodes@[k].connections@ == wired(
                            genes,
                            connections,
                            k,
                            index as int,
                        )
                    },
                calculator.input_nodes@ == input_places(genes, genes.len() as int),
                calculator.hidden_nodes@ == hidden_places(genes, genes.len() as int),
                calculator.output_nodes@ == output_places(genes, genes.len() as int),
                in_bounds(calculator.input_nodes@, calculator.nodes@.len()),
                in_bounds(calculator.hidden_nodes@, calculator.nodes@.len()),
                in_bounds(calculator.output_nodes@, calculator.nodes@.len()),
            decreases total - index,
        {
            let gene = *genome.get_connection(index);
            let from = genome.nodes.index_of(&gene.from);
            let to = genome.nodes.index_of(&gene.to);
            proof {
                if from is None {
                    lemma_absent(genes, gene.from.identity());
                }
                if to is None {
                    lemma_absent(genes, gene.to.identity());
                }
            }
            match (from, to) {
                (Some(source), Some(target)) => {
                    let connection = Connection {
                        from: source,
                        weight: gene.weight,
                        enabled: gene.enabled,
                    };
                    calculator.nodes[target].connections.push(connection);
                },
                _ => {},
            }
            index += 1;
        }
        calculator
    }

    /// Where a hidden node at `x` goes among the hidden nodes so far.
    fn find_slot(&self, x: PseudoFloat, Ghost(genes): Ghost<Seq<NodeGene>>) -> (slot: usize)
        requires
            forall|i: int|
                0 <= i < self.hidden_nodes@.len() ==> (#[trigger] self.hidden_nodes@[i])
                    < self.nodes@.len() && self.hidden_nodes@[i] < genes.len()
                    && self.nodes@[self.hidden_nodes@[i] as int].x
                    == genes[self.hidden_nodes@[i] as int].x,
        ensures
            slot == hidden_slot(genes, self.hidden_nodes@, x@),
            slot <= self.hidden_nodes@.len(),
    {
        let mut slot: usize = self.hidden_nodes.len();
        assert(self.hidden_nodes@.take(slot as int) =~= self.hidden_nodes@);
        while slot > 0 && self.nodes[self.hidden_nodes[slot - 1]].x.units > x.units
            invariant
                slot <= self.hidden_nodes@.len(),
                forall|i: int|
                    0 <= i < self.hidden_nodes@.len() ==> (#[trigger] self.hidden_nodes@[i])
                        < self.nodes@.len() && self.hidden_nodes@[i] < genes.len()
                        && self.nodes@[self.hidden_nodes@[i] as int].x
                        == genes[self.hidden_nodes@[i] as int].x,
                hidden_slot(genes, self.hidden_nodes@, x@) == hidden_slot(
                    genes,
                    self.hidden_nodes@.take(slot as int),
                    x@,
                ),
            decreases slot,
        {
            proof {
                let head = self.hidden_nodes@.take(slot as int);
                assert(head.drop_last() =~= self.hidden_nodes@.take(slot - 1));
                assert(head.last() == self.hidden_nodes@[slot - 1]);
            }
            slot -= 1;
        }
        proof {
            let head = self.hidden_nodes@.take(slot as int);
            if slot > 0 {
                assert(head.last() == self.hidden_nodes@[slot - 1]);
            }
        }
        slot
    }

    /// How many input values the calculator takes.
    pub fn input_count(&self) -> (count: Option<usize>)
        ensures
            count is Some == (self@.input_count() >= 0),
            count is Some ==> count.unwrap() == self@.input_count(),
    {
        let extra: usize = if self.bias {
            1
        } else {
            0
        };
        if self.input_nodes.len() >= extra {
            Some(self.input_nodes.len() - extra)
        } else {
            None
        }
    }

    /// Works out what the network makes of `inputs`: see
    /// [`CalculatorModel::run`]. Refuses a list of input values of the
    /// wrong length and then changes nothing.
    pub fn calculate(&mut self, inputs: &Vec<PseudoFloat>) -> (outputs: Result<
        Vec<PseudoFloat>,
        CalculateError,
    >)
        requires
            old(self).wf(),
        ensures
            final(self).wf(),
            final(self)@.input_nodes == old(self)@.input_nodes,
            final(self)@.hidden_nodes == old(self)@.hidden_nodes,
            final(self)@.output_nodes == old(self)@.output_nodes,
            final(self)@.bias == old(self)@.bias,
            inputs@.len() != old(self)@.input_count() ==> outputs == Err::<
                Vec<PseudoFloat>,
                CalculateError,
            >(CalculateError::WrongInputCount) && final(self)@ == old(self)@,
            inputs@.len() == old(self)@.input_count() ==> outputs is Ok && final(self)@.nodes
                == old(self)@.run(inputs@) && outputs.unwrap()@ == read_out(
                final(self)@.nodes,
                final(self)@.output_nodes,
            ),
    {
        match self.input_count() {
            Some(count) => {
                if count != inputs.len() {
                    return Err(CalculateError::WrongInputCount);
                }
            },
            None => {
                return Err(CalculateError::WrongInputCount);
            },
        }
        let mut index: usize = 0;
        while index < inputs.len()
            invariant
                index <= inputs@.len(),
                inputs@.len() <= self.input_nodes@.len(),
                in_bounds(self.input_nodes@, self.nodes@.len()),
                in_bounds(self.hidden_nodes@, self.nodes@.len()),
                in_bounds(self.output_nodes@, self.nodes@.len()),
                self.nodes@.len() == old(self).nodes@.len(),
                self.input_nodes@ == old(self).input_nodes@,
                self.hidden_nodes@ == old(self).hidden_nodes@,
                self.output_nodes@ == old(self).output_nodes@,
                self.bias == old(self).bias,
                self.nodes@ == fed(old(self).nodes@, self.input_nodes@, inputs@, index as int),
            decreases inputs@.len() - index,
        {
            let place = self.input_nodes[index];
            self.nodes[place].output = inputs[index];
            index += 1;
        }
        if self.bias && self.input_nodes.len() > 0 {
            let place = self.input_nodes[self.input_nodes.len() - 1];
            self.nodes[place].output = PseudoFloat::one();
        }
        let ghost start = self.nodes@;
        let mut index: usize = 0;
        while index < self.hidden_nodes.len()
            invariant
                index <= self.hidden_nodes@.len(),
                in_bounds(self.input_nodes@, self.nodes@.len()),
                in_bounds(self.hidden_nodes@, self.nodes@.len()),
                in_bounds(self.output_nodes@, self.nodes@.len()),
                self.nodes@.len() == old(self).nodes@.len(),
                self.input_nodes@ == old(self).input_nodes@,
                self.hidden_nodes@ == old(self).hidden_nodes@,
                self.output_nodes@ == old(self).output_nodes@,
                self.bias == old(self).bias,
                self.nodes@ == settled(start, self.hidden_nodes@, index as int),
            decreases self.hidden_nodes@.len() - index,
        {
            let place = self.hidden_nodes[index];
            let value = self.nodes[place].calculate(&self.nodes);
            self.nodes[place].output = value;
            index += 1;
        }
        let ghost inner = self.nodes@;
        let mut outputs: Vec<PseudoFloat> = Vec::new();
        let mut index: usize = 0;
        while index < self.output_nodes.len()
            invariant
                index <= self.output_nodes@.len(),
                in_bounds(self.input_nodes@, self.nodes@.len()),
                in_bounds(self.hidden_nodes@, self.nodes@.len()),
                in_bounds(self.output_nodes@, self.nodes@.len()),
                self.nodes@.len() == old(self).nodes@.len(),
                self.input_nodes@ == old(self).input_nodes@,
                self.hidden_nodes@ == old(self).hidden_nodes@,
                self.output_nodes@ == old(self).output_nodes@,
                self.bias == old(self).bias,
                self.nodes@ == settled(inner, self.output_nodes@, index as int),
            decreases self.output_nodes@.len() - index,
        {
            let place = self.output_nodes[index];
            let value = self.nodes[place].calculate(&self.nodes);
            self.nodes[place].output = value;
            index += 1;
        }
        let mut index: usize = 0;
        while index < self.output_nodes.len()
            invariant
                index <= self.output_nodes@.len(),
                in_bounds(self.input_nodes@, self.nodes@.len()),
                in_bounds(self.hidden_nodes@, self.nodes@.len()),
                in_bounds(self.output_nodes@, self.nodes@.len()),
                outputs@.len() == index,
                forall|i: int|
                    0 <= i < index ==> outputs@[i] == self.nodes@[self.output_nodes@[i] as int].output,
            decreases self.output_nodes@.len() - index,
        {
            outputs.push(self.nodes[self.output_nodes[index]].output);
            index += 1;
        }
        assert(outputs@ =~= read_out(self.nodes@, self.output_nodes@));
        Ok(outputs)
    }

    /// What the node at `place` last put out, if there is such a node.
    pub fn output_of(&self, place: usize) -> (output: Option<PseudoFloat>)
        ensures
            place < self@.nodes.len() ==> output == Some(self@.nodes[place as int].output),
            place >= self@.nodes.len() ==> output is None,
    {
        if place < self.nodes.len() {
            Some(self.nodes[place].output)
        } else {
            None
        }
    }

    /// The places of the input nodes among the nodes, the bias last.
    pub fn input_nodes(&self) -> (places: &Vec<usize>)
        ensures
            places@ == self@.input_nodes,
    {
        &self.input_nodes
    }

    /// The places of the hidden nodes among the nodes, in the order in
    /// which they are worked out.
    pub fn hidden_nodes(&self) -> (places: &Vec<usize>)
        ensures
            places@ == self@.hidden_nodes,
    {
        &self.hidden_nodes
    }

    /// The places of the output nodes among the nodes.
    pub fn output_nodes(&self) -> (places: &Vec<usize>)
        ensures
            places@ == self@.output_nodes,
    {
        &self.output_nodes
    }

    /// The `x` of the node at `place`, if there is such a node.
    pub fn x_of(&self, place: usize) -> (x: Option<PseudoFloat>)
        ensures
            place < self@.nodes.len() ==> x == Some(self@.nodes[place as int].x),
            place >= self@.nodes.len() ==> x is None,
    {
        if place < self.nodes.len() {
            Some(self.nodes[place].x)
        } else {
            None
        }
    }
}

/// A key that no gene has is at no position.
pub proof fn lemma_absent(genes: Seq<NodeGene>, key: u64)
    requires
        !keys_of(genes).contains(key),
    ensures
        position_of(genes, key) == genes.len(),
{
    assert forall|i: int| 0 <= i < genes.len() implies (#[trigger] genes[i]).identity() != key by {
        if genes[i].identity() == key {
            assert(keys_of(genes).contains(key));
        }
    }
    lemma_position_of(genes, key, genes.len() as int);
}

} // verus!
