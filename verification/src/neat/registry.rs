use crate::data_structures::pseudo_float::{PseudoFloat, SCALE};
use crate::data_structures::random_hash_set::keys_of;
use crate::genome::connection_gene::{ConnectionGene, pair_key};
use crate::genome::gene::Gene;
use crate::genome::genome::Genome;
use crate::genome::lineage::lemma_empty_belongs;
use crate::genome::node_gene::NodeGene;
use std::collections::HashMap;
use vstd::prelude::*;

verus! {

broadcast use vstd::std_specs::hash::group_hash_axioms;

/// The largest number of nodes that one registry hands out.
pub const MAX_NODES: u64 = 1_048_576;

/// The largest number of connections that one registry hands out.
pub const MAX_CONNECTIONS: u64 = 0xffff_ffff;

/// What a registry knows, as plain values.
pub struct RegistryModel {
    /// Every node handed out so far, in the order of their numbers.
    pub nodes: Seq<NodeGene>,
    /// Every connection handed out so far, under the key of its end points.
    pub catalog: Map<u64, ConnectionGene>,
    /// How many inputs the networks have, the bias not counted.
    pub inputs: nat,
    /// How many outputs the networks have.
    pub outputs: nat,
    /// Whether the networks have a bias input.
    pub bias: bool,
}

impl RegistryModel {
    /// How many nodes every genome starts with.
    pub open spec fn base_count(self) -> nat {
        self.inputs + (if self.bias {
            1nat
        } else {
            0nat
        }) + self.outputs
    }

    /// The nodes every genome starts with.
    pub open spec fn base_nodes(self) -> Seq<NodeGene> {
        self.nodes.take(self.base_count() as int)
    }

    /// Nodes are numbered from one in the order they were made, and
    /// connections from one in the order they were first asked for.
    pub open spec fn wf(self) -> bool {
        &&& self.nodes.len() <= MAX_NODES
        &&& self.base_count() <= self.nodes.len()
        &&& forall|i: int|
            0 <= i < self.nodes.len() ==> (#[trigger] self.nodes[i]).innovation_number == i + 1
        &&& self.catalog.dom().finite()
        &&& self.catalog.len() <= MAX_CONNECTIONS
        &&& forall|key: u64| #[trigger]
            self.catalog.contains_key(key) ==> {
                &&& pair_key(
                    self.catalog[key].from.innovation_number,
                    self.catalog[key].to.innovation_number,
                ) == key
                &&& 1 <= self.catalog[key].innovation_number <= self.catalog.len()
            }
        &&& forall|first: u64, second: u64|
            #![trigger self.catalog[first], self.catalog[second]]
            self.catalog.contains_key(first) && self.catalog.contains_key(second) && first
                != second ==> self.catalog[first].innovation_number
                != self.catalog[second].innovation_number
    }

    /// Whether one more node can be handed out.
    pub open spec fn has_room_for_node(self) -> bool {
        self.nodes.len() < MAX_NODES
    }

    /// Whether `count` more connections can be handed out.
    pub open spec fn has_room_for_connections(self, count: nat) -> bool {
        self.catalog.len() + count <= MAX_CONNECTIONS
    }

    /// The node that `create_node` hands out for the position (`x`, `y`).
    pub open spec fn new_node(self, x: PseudoFloat, y: PseudoFloat) -> NodeGene {
        NodeGene { innovation_number: (self.nodes.len() + 1) as u32, x, y }
    }

    /// The registry after `create_node`.
    pub open spec fn with_node(self, x: PseudoFloat, y: PseudoFloat) -> RegistryModel {
        RegistryModel { nodes: self.nodes.push(self.new_node(x, y)), ..self }
    }

    /// The gene that `get_connection` hands out for the connection from
    /// `from` to `to`: enabled and of weight one, with the number and the
    /// splitting node that the catalog remembers, or with the next free
    /// number where the catalog does not know the pair.
    pub open spec fn connection(self, from: NodeGene, to: NodeGene) -> ConnectionGene {
        let key = pair_key(from.innovation_number, to.innovation_number);
        if self.catalog.contains_key(key) {
            ConnectionGene {
                innovation_number: self.catalog[key].innovation_number,
                from,
                to,
                weight: PseudoFloat { units: SCALE },
                enabled: true,
                replace_index: self.catalog[key].replace_index,
            }
        } else {
            ConnectionGene {
                innovation_number: (self.catalog.len() + 1) as u32,
                from,
                to,
                weight: PseudoFloat { units: SCALE },
                enabled: true,
                replace_index: 0,
            }
        }
    }

    /// The registry after `get_connection`.
    pub open spec fn connect(self, from: NodeGene, to: NodeGene) -> RegistryModel {
        let key = pair_key(from.innovation_number, to.innovation_number);
        if self.catalog.contains_key(key) {
            self
        } else {
            RegistryModel { catalog: self.catalog.insert(key, self.connection(from, to)), ..self }
        }
    }

    /// The node that once split the connection from `from` to `to`, or
    /// zero.
    pub open spec fn replace_index(self, from: NodeGene, to: NodeGene) -> usize {
        let key = pair_key(from.innovation_number, to.innovation_number);
        if self.catalog.contains_key(key) {
            self.catalog[key].replace_index
        } else {
            0
        }
    }

    /// The registry after `set_replace_index`.
    pub open spec fn with_replace_index(
        self,
        from: NodeGene,
        to: NodeGene,
        replace_index: usize,
    ) -> RegistryModel {
        let key = pair_key(from.innovation_number, to.innovation_number);
        if self.catalog.contains_key(key) {
            RegistryModel {
                catalog: self.catalog.insert(
                    key,
                    ConnectionGene { replace_index, ..self.catalog[key] },
                ),
                ..self
            }
        } else {
            self
        }
    }

    /// Whether the catalog knows the connection from `from` to `to`.
    pub open spec fn knows(self, from: NodeGene, to: NodeGene) -> bool {
        self.catalog.contains_key(pair_key(from.innovation_number, to.innovation_number))
    }
}

/// Whether the registry `later` can have grown out of the registry
/// `earlier`: it has the same shape, all the nodes of `earlier` under
/// their numbers, and all its connections under their numbers.
pub open spec fn extends(later: RegistryModel, earlier: RegistryModel) -> bool {
    &&& later.inputs == earlier.inputs
    &&& later.outputs == earlier.outputs
    &&& later.bias == earlier.bias
    &&& earlier.nodes.len() <= later.nodes.len()
    &&& later.nodes.take(earlier.nodes.len() as int) == earlier.nodes
    &&& earlier.catalog.len() <= later.catalog.len()
    &&& forall|key: u64| #[trigger]
        earlier.catalog.contains_key(key) ==> later.catalog.contains_key(key)
            && later.catalog[key].innovation_number == earlier.catalog[key].innovation_number
}

/// A registry that has handed out a node has grown.
pub proof fn lemma_with_node_extends(model: RegistryModel, x: PseudoFloat, y: PseudoFloat)
    ensures
        extends(model.with_node(x, y), model),
{
    let later = model.with_node(x, y);
    assert(later.nodes.take(model.nodes.len() as int) =~= model.nodes);
}

/// A registry that has handed out a connection has grown.
pub proof fn lemma_connect_extends(model: RegistryModel, from: NodeGene, to: NodeGene)
    requires
        model.catalog.dom().finite(),
    ensures
        extends(model.connect(from, to), model),
{
    let later = model.connect(from, to);
    assert(later.nodes.take(model.nodes.len() as int) =~= model.nodes);
}

/// A registry that has noted a splitting node has grown.
pub proof fn lemma_with_replace_index_extends(
    model: RegistryModel,
    from: NodeGene,
    to: NodeGene,
    replace_index: usize,
)
    requires
        model.catalog.dom().finite(),
    ensures
        extends(model.with_replace_index(from, to, replace_index), model),
{
    let later = model.with_replace_index(from, to, replace_index);
    assert(later.nodes.take(model.nodes.len() as int) =~= model.nodes);
    assert(later.catalog.dom() =~= model.catalog.dom());
}

/// Growth of a registry goes on through growth.
pub proof fn lemma_extends_transitive(
    last: RegistryModel,
    middle: RegistryModel,
    first: RegistryModel,
)
    requires
        extends(last, middle),
        extends(middle, first),
    ensures
        extends(last, first),
{
    assert(last.nodes.take(first.nodes.len() as int) =~= first.nodes) by {
        assert forall|i: int| 0 <= i < first.nodes.len() implies last.nodes[i]
            == first.nodes[i] by {
            assert(middle.nodes[i] == last.nodes.take(middle.nodes.len() as int)[i]);
            assert(first.nodes[i] == middle.nodes.take(first.nodes.len() as int)[i]);
        }
    }
    assert forall|key: u64| #[trigger] first.catalog.contains_key(key) implies last.catalog.contains_key(
        key,
    ) && last.catalog[key].innovation_number == first.catalog[key].innovation_number by {
        assert(middle.catalog.contains_key(key));
    }
}

/// Handing out a connection keeps a registry in order.
pub proof fn lemma_connect_wf(model: RegistryModel, from: NodeGene, to: NodeGene)
    requires
        model.wf(),
        model.knows(from, to) || model.has_room_for_connections(1),
    ensures
        model.connect(from, to).wf(),
        model.connect(from, to).knows(from, to),
        model.connect(from, to).catalog.len() == model.catalog.len() + (if model.knows(from, to) {
            0int
        } else {
            1int
        }),
        model.connect(from, to).nodes == model.nodes,
        1 <= model.connection(from, to).innovation_number,
        model.connect(from, to).catalog[pair_key(
            from.innovation_number,
            to.innovation_number,
        )].innovation_number == model.connection(from, to).innovation_number,
{
    let key = pair_key(from.innovation_number, to.innovation_number);
    let gene = model.connection(from, to);
    let before = model.catalog;
    let after = model.connect(from, to).catalog;
    if !model.knows(from, to) {
        assert(after.dom() =~= before.dom().insert(key));
        assert forall|first: u64, second: u64|
            #![trigger after[first], after[second]]
            after.contains_key(first) && after.contains_key(second) && first
                != second implies after[first].innovation_number
            != after[second].innovation_number by {
            if first != key {
                assert(before.contains_key(first));
            }
            if second != key {
                assert(before.contains_key(second));
            }
        }
        assert forall|k: u64| #[trigger] after.contains_key(k) implies {
            &&& pair_key(after[k].from.innovation_number, after[k].to.innovation_number) == k
            &&& 1 <= after[k].innovation_number <= after.len()
        } by {
            if k != key {
                assert(before.contains_key(k));
            }
        }
    } else {
        assert(before.contains_key(key));
    }
}

/// Handing out a node keeps a registry in order.
pub proof fn lemma_with_node_wf(model: RegistryModel, x: PseudoFloat, y: PseudoFloat)
    requires
        model.wf(),
        model.has_room_for_node(),
    ensures
        model.with_node(x, y).wf(),
        model.with_node(x, y).catalog == model.catalog,
{
}

/// Noting a splitting node keeps a registry in order and changes no
/// number.
pub proof fn lemma_with_replace_index_wf(
    model: RegistryModel,
    from: NodeGene,
    to: NodeGene,
    replace_index: usize,
)
    requires
        model.wf(),
    ensures
        model.with_replace_index(from, to, replace_index).wf(),
        model.with_replace_index(from, to, replace_index).nodes == model.nodes,
        model.with_replace_index(from, to, replace_index).catalog.dom() == model.catalog.dom(),
        forall|key: u64| #[trigger]
            model.catalog.contains_key(key) ==> model.with_replace_index(
                from,
                to,
                replace_index,
            ).catalog[key].innovation_number == model.catalog[key].innovation_number,
{
    let before = model.catalog;
    let after = model.with_replace_index(from, to, replace_index).catalog;
    assert(after.dom() =~= before.dom());
    assert forall|first: u64, second: u64|
        #![trigger after[first], after[second]]
        after.contains_key(first) && after.contains_key(second) && first
            != second implies after[first].innovation_number
        != after[second].innovation_number by {
        assert(before.contains_key(first));
        assert(before.contains_key(second));
        assert(after[first].innovation_number == before[first].innovation_number);
        assert(after[second].innovation_number == before[second].innovation_number);
    }
    assert forall|k: u64| #[trigger] after.contains_key(k) implies {
        &&& pair_key(after[k].from.innovation_number, after[k].to.innovation_number) == k
        &&& 1 <= after[k].innovation_number <= after.len()
    } by {
        assert(before.contains_key(k));
    }
}

/// Asking for the same connection twice gives the same innovation number
/// both times, and the second asking changes nothing.
pub proof fn lemma_connection_idempotent(model: RegistryModel, from: NodeGene, to: NodeGene)
    requires
        model.wf(),
        model.knows(from, to) || model.has_room_for_connections(1),
    ensures
        model.connect(from, to).connection(from, to).innovation_number == model.connection(
            from,
            to,
        ).innovation_number,
        model.connect(from, to).connect(from, to) == model.connect(from, to),
{
    lemma_connect_wf(model, from, to);
}

/// Asking for a connection and then for the one that runs the other way
/// gives two different innovation numbers, unless both end at the same
/// node. This holds wherever the registry can be asked for the two.
pub proof fn lemma_connection_directed(model: RegistryModel, from: NodeGene, to: NodeGene)
    requires
        model.wf(),
        model.knows(from, to) || model.has_room_for_connections(1),
        model.connect(from, to).knows(to, from) || model.connect(
            from,
            to,
        ).has_room_for_connections(1),
        from.innovation_number != to.innovation_number,
    ensures
        model.connect(from, to).connection(to, from).innovation_number != model.connection(
            from,
            to,
        ).innovation_number,
{
    lemma_connect_wf(model, from, to);
    let later = model.connect(from, to);
    let there = pair_key(from.innovation_number, to.innovation_number);
    let back = pair_key(to.innovation_number, from.innovation_number);
    assert(there != back);
    if later.catalog.contains_key(back) {
        assert(later.catalog.contains_key(there));
        assert(later.catalog[there].innovation_number != later.catalog[back].innovation_number);
    } else {
        assert(later.catalog[there].innovation_number <= later.catalog.len());
    }
}

/// The one authority that numbers nodes and connections, so that the
/// same structure gets the same numbers in every genome of a run.
#[derive(Clone, Debug)]
pub struct Registry {
    all_connections: HashMap<u64, ConnectionGene>,
    all_nodes: Vec<NodeGene>,
    input_size: u32,
    output_size: u32,
    bias: bool,
}

impl View for Registry {
    type V = RegistryModel;

    closed spec fn view(&self) -> RegistryModel {
        RegistryModel {
            nodes: self.all_nodes@,
            catalog: self.all_connections@,
            inputs: self.input_size as nat,
            outputs: self.output_size as nat,
            bias: self.bias,
        }
    }
}

/// The position across the layer of the node at `index` of `count`.
pub open spec fn layer_position(index: int, count: int) -> int {
    (index + 1) * SCALE / (count + 1)
}

/// The nodes a fresh registry holds: the inputs at a tenth, the bias (if
/// there is one) at a tenth, the outputs at nine tenths.
pub open spec fn initial_nodes(inputs: nat, outputs: nat, bias: bool) -> Seq<NodeGene> {
    let extra: nat = if bias {
        1
    } else {
        0
    };
    Seq::new(
        inputs + extra + outputs,
        |i: int|
            if i < inputs {
                NodeGene {
                    innovation_number: (i + 1) as u32,
                    x: PseudoFloat { units: 100_000_000 },
                    y: PseudoFloat { units: layer_position(i, inputs as int) as i64 },
                }
            } else if i < inputs + extra {
                NodeGene {
                    innovation_number: (i + 1) as u32,
                    x: PseudoFloat { units: 100_000_000 },
                    y: PseudoFloat { units: 900_000_000 },
                }
            } else {
                NodeGene {
                    innovation_number: (i + 1) as u32,
                    x: PseudoFloat { units: 900_000_000 },
                    y: PseudoFloat {
                        units: layer_position(i - inputs - extra, outputs as int) as i64,
                    },
                }
            },
    )
}

impl Registry {
    /// See [`RegistryModel::wf`].
    pub open spec fn wf(&self) -> bool {
        self@.wf()
    }

    /// A registry for networks with `input_size` inputs and `output_size`
    /// outputs. It holds their nodes and no connection.
    pub fn new(input_size: u32, output_size: u32, bias: bool) -> (registry: Self)
        requires
            input_size + output_size < MAX_NODES,
        ensures
            registry.wf(),
            registry@.nodes == initial_nodes(input_size as nat, output_size as nat, bias),
            registry@.catalog == Map::<u64, ConnectionGene>::empty(),
            registry@.inputs == input_size,
            registry@.outputs == output_size,
            registry@.bias == bias,
    {
        let mut registry = Registry {
            all_connections: HashMap::new(),
            all_nodes: Vec::new(),
            input_size,
            output_size,
            bias,
        };
        let ghost goal = initial_nodes(input_size as nat, output_size as nat, bias);
        let mut index: u32 = 0;
        while index < input_size
            invariant
                index <= input_size,
                input_size + output_size < MAX_NODES,
                registry.all_nodes@ == goal.take(index as int),
                registry.all_connections@ == Map::<u64, ConnectionGene>::empty(),
                registry.input_size == input_size,
                registry.output_size == output_size,
                registry.bias == bias,
                goal == initial_nodes(input_size as nat, output_size as nat, bias),
            decreases input_size - index,
        {
            let y = layer_height(index, input_size);
            let node = NodeGene {
                innovation_number: index + 1,
                x: PseudoFloat::new(100_000_000),
                y,
            };
            registry.all_nodes.push(node);
            assert(registry.all_nodes@ =~= goal.take(index + 1));
            index += 1;
        }
        if bias {
            let node = NodeGene {
                innovation_number: input_size + 1,
                x: PseudoFloat::new(100_000_000),
                y: PseudoFloat::new(900_000_000),
            };
            registry.all_nodes.push(node);
            assert(registry.all_nodes@ =~= goal.take(input_size + 1));
        }
        let extra: u32 = if bias {
            1
        } else {
            0
        };
        let mut index: u32 = 0;
        while index < output_size
            invariant
                index <= output_size,
                input_size + output_size < MAX_NODES,
                extra == (if bias {
                    1int
                } else {
                    0int
                }),
                registry.all_nodes@ == goal.take(input_size + extra + index),
                registry.all_connections@ == Map::<u64, ConnectionGene>::empty(),
                registry.input_size == input_size,
                registry.output_size == output_size,
                registry.bias == bias,
                goal == initial_nodes(input_size as nat, output_size as nat, bias),
            decreases output_size - index,
        {
            let y = layer_height(index, output_size);
            let node = NodeGene {
                innovation_number: input_size + extra + index + 1,
                x: PseudoFloat::new(900_000_000),
                y,
            };
            registry.all_nodes.push(node);
            assert(registry.all_nodes@ =~= goal.take(input_size + extra + index + 1));
            index += 1;
        }
        assert(goal.take(goal.len() as int) =~= goal);
        registry
    }

    /// How many inputs the networks have, the bias not counted.
    pub fn input_size(&self) -> (size: u32)
        ensures
            size == self@.inputs,
    {
        self.input_size
    }

    /// How many outputs the networks have.
    pub fn output_size(&self) -> (size: u32)
        ensures
            size == self@.outputs,
    {
        self.output_size
    }

    /// Whether the networks have a bias input.
    pub fn has_bias(&self) -> (bias: bool)
        ensures
            bias == self@.bias,
    {
        self.bias
    }

    /// How many nodes have been handed out.
    pub fn node_count(&self) -> (count: usize)
        ensures
            count == self@.nodes.len(),
    {
        self.all_nodes.len()
    }

    /// How many connections have been handed out.
    pub fn connection_count(&self) -> (count: usize)
        ensures
            count == self@.catalog.len(),
    {
        self.all_connections.len()
    }

    /// Whether one more node and `count` more connections can be handed
    /// out.
    pub fn has_room(&self, count: u8) -> (room: bool)
        ensures
            room == (self@.has_room_for_node() && self@.has_room_for_connections(count as nat)),
    {
        (self.all_nodes.len() as u64) < MAX_NODES && self.all_connections.len() as u64
            <= MAX_CONNECTIONS - count as u64
    }

    /// A genome of the nodes every network has, without connections.
    pub fn empty_genome(&self) -> (genome: Genome)
        requires
            self.wf(),
        ensures
            genome.wf(),
            genome.connections@ == Seq::<ConnectionGene>::empty(),
            genome.nodes@ == self@.base_nodes(),
            genome.belongs_to(self@),
    {
        proof {
            lemma_empty_belongs(self@);
        }
        let mut genome = Genome::new();
        let extra: usize = if self.bias {
            1
        } else {
            0
        };
        let count: usize = self.input_size as usize + extra + self.output_size as usize;
        let mut index: usize = 0;
        while index < count
            invariant
                index <= count,
                count == self@.base_count(),
                self.wf(),
                genome.nodes.wf(),
                genome.connections.wf(),
                genome.connections@ == Seq::<ConnectionGene>::empty(),
                genome.nodes@ == self.all_nodes@.take(index as int),
            decreases count - index,
        {
            let node = self.all_nodes[index];
            proof {
                let head = self.all_nodes@.take(index as int);
                if keys_of(head).contains(node.identity()) {
                    let i = choose|i: int|
                        0 <= i < head.len() && #[trigger] head[i].identity() == node.identity();
                    assert(head[i] == self@.nodes[i]);
                    assert(self@.nodes[i].innovation_number == i + 1);
                    assert(self@.nodes[index as int].innovation_number == index + 1);
                }
                assert(self.all_nodes@.take(index + 1) =~= head.push(node));
            }
            genome.nodes.add(node);
            index += 1;
        }
        genome
    }

    /// Makes a node at (`x`, `y`) under the next free number.
    pub fn create_node(&mut self, x: PseudoFloat, y: PseudoFloat) -> (node: NodeGene)
        requires
            old(self).wf(),
            old(self)@.has_room_for_node(),
        ensures
            final(self).wf(),
            final(self)@ == old(self)@.with_node(x, y),
            node == old(self)@.new_node(x, y),
    {
        let node = NodeGene { innovation_number: self.all_nodes.len() as u32 + 1, x, y };
        self.all_nodes.push(node);
        node
    }

    /// The node with number `index`, counted from one, if it has been
    /// handed out.
    pub fn get_node(&self, index: usize) -> (node: Option<NodeGene>)
        ensures
            1 <= index <= self@.nodes.len() ==> node == Some(self@.nodes[index - 1]),
            !(1 <= index <= self@.nodes.len()) ==> node is None,
    {
        if 1 <= index && index <= self.all_nodes.len() {
            Some(self.all_nodes[index - 1])
        } else {
            None
        }
    }

    /// The gene of the connection from `node1` to `node2`, enabled and of
    /// weight one. A pair that was asked for before gets the number and
    /// the splitting node it had; a new pair gets the next free number.
    pub fn get_connection(&mut self, node1: NodeGene, node2: NodeGene) -> (gene: ConnectionGene)
        requires
            old(self).wf(),
            old(self)@.knows(node1, node2) || old(self)@.has_room_for_connections(1),
        ensures
            final(self).wf(),
            final(self)@ == old(self)@.connect(node1, node2),
            gene == old(self)@.connection(node1, node2),
            final(self)@.knows(node1, node2),
    {
        let mut gene = ConnectionGene::new(node1, node2);
        let key = gene.hash_code();
        match self.all_connections.get(&key) {
            Some(known) => {
                gene.innovation_number = known.innovation_number;
                gene.replace_index = known.replace_index;
                assert(gene.weight == PseudoFloat { units: SCALE });
            },
            None => {
                gene.innovation_number = self.all_connections.len() as u32 + 1;
                assert(gene.weight == PseudoFloat { units: SCALE });
                proof {
                    lemma_connect_wf(self@, node1, node2);
                }
                self.all_connections.insert(key, gene);
            },
        }
        gene
    }

    /// Remembers that node number `replace_index` split the connection
    /// from `from` to `to`.
    pub fn set_replace_index(&mut self, from: NodeGene, to: NodeGene, replace_index: usize)
        requires
            old(self).wf(),
            old(self)@.knows(from, to),
        ensures
            final(self).wf(),
            final(self)@ == old(self)@.with_replace_index(from, to, replace_index),
    {
        let key = ConnectionGene::new(from, to).hash_code();
        let found = self.all_connections.get(&key);
        let mut gene: ConnectionGene = *found.unwrap();
        gene.replace_index = replace_index;
        proof {
            lemma_with_replace_index_wf(self@, from, to, replace_index);
        }
        self.all_connections.insert(key, gene);
    }

    /// The number of the node that once split the connection from `from`
    /// to `to`, or zero where none did.
    pub fn get_replace_index(&self, from: NodeGene, to: NodeGene) -> (replace_index: usize)
        ensures
            replace_index == self@.replace_index(from, to),
    {
        let key = ConnectionGene::new(from, to).hash_code();
        match self.all_connections.get(&key) {
            Some(gene) => gene.replace_index,
            None => 0,
        }
    }
}

/// The position across its layer of the node at `index` of `count`.
fn layer_height(index: u32, count: u32) -> (y: PseudoFloat)
    requires
        index < count,
    ensures
        y@ == layer_position(index as int, count as int),
        0 <= y@ <= SCALE,
{
    let above: i64 = (index as i64 + 1) * SCALE;
    let below: i64 = count as i64 + 1;
    let units: i64 = above / below;
    assert(0 <= above / below <= SCALE) by (nonlinear_arith)
        requires
            0 <= above <= below * SCALE,
            below > 0,
    ;
    PseudoFloat::new(units)
}

} // verus!
