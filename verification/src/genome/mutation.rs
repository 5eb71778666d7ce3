//! The five ways in which a genome changes by chance, each beside the
//! function that does the same change for given draws.

use crate::data_structures::pseudo_float::{clamp, PseudoFloat, SCALE, trunc_div};
use crate::data_structures::random_hash_set::{
    distinct_keys,
    insertion_point,
    keys_of,
    lemma_insertion_point,
    lemma_keys_insert,
    lemma_keys_remove,
};
use crate::genome::alignment::{lemma_ascending_at, well_ordered};
use crate::genome::connection_gene::{ConnectionGene, lemma_pair_key_injective, pair_key};
use crate::genome::gene::Gene;
use crate::genome::genome::{Genome, has_number, with_connection};
use crate::genome::lineage::{lemma_linked_belongs, lemma_split_belongs, lemma_update_belongs};
use crate::genome::node_gene::{lemma_node_held, NodeGene};
use crate::neat::config::Config;
use crate::neat::registry::{
    extends,
    lemma_connect_extends,
    lemma_connect_wf,
    lemma_extends_transitive,
    lemma_with_node_extends,
    lemma_with_node_wf,
    lemma_with_replace_index_extends,
    lemma_with_replace_index_wf,
    Registry,
    RegistryModel,
};
use crate::random::{random_between, random_index};
use vstd::prelude::*;

verus! {

/// How far the height of a new node may lie from the middle between the
/// nodes it stands between, in units: a twentieth.
pub const JITTER: i64 = 50_000_000;

/// How often adding a link is tried before it is given up.
pub const LINK_ATTEMPTS: u32 = 100;

/// The end points of a link between the nodes at `first` and `second`,
/// the one with the smaller `x` first, or nothing where both have the
/// same `x`.
pub open spec fn link_ends(nodes: Seq<NodeGene>, first: int, second: int) -> Option<
    (NodeGene, NodeGene),
> {
    if nodes[first].x@ == nodes[second].x@ {
        None
    } else if nodes[first].x@ < nodes[second].x@ {
        Some((nodes[first], nodes[second]))
    } else {
        Some((nodes[second], nodes[first]))
    }
}

/// The link that can be added between the nodes at `first` and `second`:
/// their link ends, unless the genome already connects them that way.
pub open spec fn open_link(
    connections: Seq<ConnectionGene>,
    nodes: Seq<NodeGene>,
    first: int,
    second: int,
) -> Option<(NodeGene, NodeGene)> {
    match link_ends(nodes, first, second) {
        Some((from, to)) => if keys_of(connections).contains(
            pair_key(from.innovation_number, to.innovation_number),
        ) {
            None
        } else {
            Some((from, to))
        },
        None => None,
    }
}

/// The connections after a link from `from` to `to` of weight `weight`
/// was added.
pub open spec fn linked(
    connections: Seq<ConnectionGene>,
    registry: RegistryModel,
    from: NodeGene,
    to: NodeGene,
    weight: PseudoFloat,
) -> Seq<ConnectionGene> {
    with_connection(connections, ConnectionGene { weight, ..registry.connection(from, to) })
}

/// The connections and the registry after a link of weight `weight` was
/// drawn between the nodes at `first` and `second`: the link is added
/// where it can be, and else nothing changes.
pub open spec fn link_drawn(
    connections: Seq<ConnectionGene>,
    nodes: Seq<NodeGene>,
    registry: RegistryModel,
    first: int,
    second: int,
    weight: PseudoFloat,
) -> (Seq<ConnectionGene>, RegistryModel) {
    match open_link(connections, nodes, first, second) {
        Some((from, to)) => (
            linked(connections, registry, from, to, weight),
            registry.connect(from, to),
        ),
        None => (connections, registry),
    }
}

/// The connections after the weight of the one at `index` was shifted by
/// `amount`.
pub open spec fn shifted(
    connections: Seq<ConnectionGene>,
    index: int,
    amount: PseudoFloat,
) -> Seq<ConnectionGene> {
    connections.update(
        index,
        ConnectionGene {
            weight: PseudoFloat { units: clamp(connections[index].weight@ + amount@) as i64 },
            ..connections[index]
        },
    )
}

/// The connections after the one at `index` got the weight `weight`.
pub open spec fn reweighted(
    connections: Seq<ConnectionGene>,
    index: int,
    weight: PseudoFloat,
) -> Seq<ConnectionGene> {
    connections.update(index, ConnectionGene { weight, ..connections[index] })
}

/// The connections after the one at `index` was switched on or off.
pub open spec fn toggled(connections: Seq<ConnectionGene>, index: int) -> Seq<ConnectionGene> {
    connections.update(
        index,
        ConnectionGene { enabled: !connections[index].enabled, ..connections[index] },
    )
}

/// Whether `after` is what drawing a link does to `before`: nothing, or
/// the link that was drawn between two of the nodes, with a weight
/// between minus the weight shift strength and that strength.
pub open spec fn link_step(
    before: Seq<ConnectionGene>,
    nodes: Seq<NodeGene>,
    registry: RegistryModel,
    after: Seq<ConnectionGene>,
    after_registry: RegistryModel,
    config: Config,
) -> bool {
    (after == before && after_registry == registry) || (exists|
        first: int,
        second: int,
        weight: PseudoFloat,
    |
        0 <= first < nodes.len() && 0 <= second < nodes.len() && -config.weight_shift_strength@
            <= weight@ <= config.weight_shift_strength@ && (after, after_registry)
            == #[trigger] link_drawn(before, nodes, registry, first, second, weight))
}

/// Whether a connection of `connections` can be split: there is one, and
/// the registry has room for a node and three connections.
pub open spec fn can_split(connections: Seq<ConnectionGene>, registry: RegistryModel) -> bool {
    connections.len() > 0 && registry.has_room_for_node() && registry.has_room_for_connections(3)
}

/// Whether the genome and the registry `after` are what splitting a
/// drawn connection does to them: the split of one of the connections,
/// with a jitter of at most [`JITTER`], where a connection can be split,
/// and else nothing.
pub open spec fn split_step(
    before: Seq<ConnectionGene>,
    nodes: Seq<NodeGene>,
    registry: RegistryModel,
    after: Seq<ConnectionGene>,
    after_nodes: Seq<NodeGene>,
    after_registry: RegistryModel,
) -> bool {
    if can_split(before, registry) {
        exists|index: int, jitter: PseudoFloat|
            0 <= index < before.len() && -JITTER <= jitter@ <= JITTER && {
                let outcome = #[trigger] split(before, nodes, registry, index, jitter);
                &&& after == outcome.connections
                &&& after_nodes == outcome.nodes
                &&& after_registry == outcome.registry
            }
    } else {
        after == before && after_nodes == nodes && after_registry == registry
    }
}

/// Whether `after` is `before` with the weight of one connection shifted
/// by at most the weight shift strength, or `before` where there is no
/// connection.
pub open spec fn shift_step(
    before: Seq<ConnectionGene>,
    after: Seq<ConnectionGene>,
    config: Config,
) -> bool {
    if before.len() == 0 {
        after == before
    } else {
        exists|index: int, amount: PseudoFloat|
            0 <= index < before.len() && -config.weight_shift_strength@ <= amount@
                <= config.weight_shift_strength@ && after == #[trigger] shifted(
                before,
                index,
                amount,
            )
    }
}

/// Whether `after` is `before` with a new weight of at most the random
/// weight strength for one connection, or `before` where there is no
/// connection.
pub open spec fn reweigh_step(
    before: Seq<ConnectionGene>,
    after: Seq<ConnectionGene>,
    config: Config,
) -> bool {
    if before.len() == 0 {
        after == before
    } else {
        exists|index: int, weight: PseudoFloat|
            0 <= index < before.len() && -config.weight_random_strength@ <= weight@
                <= config.weight_random_strength@ && after == #[trigger] reweighted(
                before,
                index,
                weight,
            )
    }
}

/// Whether `after` is `before` with one connection switched, or `before`
/// where there is no connection.
pub open spec fn toggle_step(before: Seq<ConnectionGene>, after: Seq<ConnectionGene>) -> bool {
    if before.len() == 0 {
        after == before
    } else {
        exists|index: int| 0 <= index < before.len() && after == #[trigger] toggled(before, index)
    }
}

/// Whether something of the chance `chance` can have happened, or not
/// happened: it does not happen at a chance of zero or less, and it
/// happens at a chance of one or more.
pub open spec fn may_fire(chance: PseudoFloat, fired: bool) -> bool {
    (fired ==> chance@ > 0) && (chance@ >= SCALE ==> fired)
}

/// What one mutation of a genome went through: which of the five steps
/// happened, and the connections and the registry between the steps.
pub struct Trace {
    /// Whether a link was drawn.
    pub linking: bool,
    /// Whether a connection was drawn to be split.
    pub splitting: bool,
    /// Whether a weight was shifted.
    pub shifting: bool,
    /// Whether a weight was drawn anew.
    pub reweighing: bool,
    /// Whether a connection was switched.
    pub toggling: bool,
    /// The connections behind the first step.
    pub linked: Seq<ConnectionGene>,
    /// The registry behind the first step.
    pub linked_registry: RegistryModel,
    /// The connections behind the second step.
    pub split: Seq<ConnectionGene>,
    /// The connections behind the third step.
    pub shifted: Seq<ConnectionGene>,
    /// The connections behind the fourth step.
    pub reweighed: Seq<ConnectionGene>,
}

/// Whether `trace` leads from a genome and a registry to a genome and a
/// registry by the five steps of a mutation in their order: a link, a
/// split, a weight shift, a new weight, a switch. Each step happens or
/// not as its chance allows, and a step that does not happen changes
/// nothing.
pub open spec fn mutated(
    trace: Trace,
    before: Seq<ConnectionGene>,
    nodes: Seq<NodeGene>,
    registry: RegistryModel,
    after: Seq<ConnectionGene>,
    after_nodes: Seq<NodeGene>,
    after_registry: RegistryModel,
    config: Config,
) -> bool {
    &&& may_fire(config.prob_mutate_link, trace.linking)
    &&& may_fire(config.prob_mutate_node, trace.splitting)
    &&& may_fire(config.prob_mutate_weight_shift, trace.shifting)
    &&& may_fire(config.prob_mutate_weight_random, trace.reweighing)
    &&& may_fire(config.prob_mutate_toggle_link, trace.toggling)
    &&& if trace.linking {
        link_step(before, nodes, registry, trace.linked, trace.linked_registry, config)
    } else {
        trace.linked == before && trace.linked_registry == registry
    }
    &&& if trace.splitting {
        split_step(
            trace.linked,
            nodes,
            trace.linked_registry,
            trace.split,
            after_nodes,
            after_registry,
        )
    } else {
        trace.split == trace.linked && after_nodes == nodes && after_registry
            == trace.linked_registry
    }
    &&& if trace.shifting {
        shift_step(trace.split, trace.shifted, config)
    } else {
        trace.shifted == trace.split
    }
    &&& if trace.reweighing {
        reweigh_step(trace.shifted, trace.reweighed, config)
    } else {
        trace.reweighed == trace.shifted
    }
    &&& if trace.toggling {
        toggle_step(trace.reweighed, after)
    } else {
        after == trace.reweighed
    }
}

/// A genome and a registry after a connection was split.
pub struct Split {
    /// The connections of the genome.
    pub connections: Seq<ConnectionGene>,
    /// The nodes of the genome.
    pub nodes: Seq<NodeGene>,
    /// The registry.
    pub registry: RegistryModel,
    /// The node that now stands in the middle.
    pub middle: NodeGene,
}

/// Whether splitting the connection from `from` to `to` makes a new node:
/// it does unless the registry remembers a node that split this pair and
/// that lies between the two.
pub open spec fn splits_anew(registry: RegistryModel, from: NodeGene, to: NodeGene) -> bool {
    let noted = registry.replace_index(from, to);
    noted == 0 || noted > registry.nodes.len() || !(from.x@ < registry.nodes[noted - 1].x@
        < to.x@)
}

/// Whether a node fits between the ends of the connection: the end is
/// two units or more above the start.
pub open spec fn wide(gene: ConnectionGene) -> bool {
    gene.from.x@ + 2 <= gene.to.x@
}

/// Whether every connection runs from a node to a node of larger `x`.
pub open spec fn forward(connections: Seq<ConnectionGene>) -> bool {
    forall|i: int|
        0 <= i < connections.len() ==> (#[trigger] connections[i]).from.x@ < connections[i].to.x@
}

/// The place of a new node between `from` and `to`: the middle, moved up
/// or down by `jitter`.
pub open spec fn middle_place(from: NodeGene, to: NodeGene, jitter: PseudoFloat) -> (
    PseudoFloat,
    PseudoFloat,
) {
    (
        PseudoFloat { units: trunc_div(from.x@ + to.x@, 2) as i64 },
        PseudoFloat { units: clamp(trunc_div(from.y@ + to.y@, 2) + jitter@) as i64 },
    )
}

/// What splitting the connection at `index` does.
///
/// Nothing, where no node fits between the ends of the connection: see
/// [`wide`]. Else the registry gets to know the pair of the connection
/// if it did not. The node in the middle is the one the registry
/// remembers for the pair, where that lies between the ends, or else a
/// new one, which the registry then remembers. The connection goes. One
/// from its start to the middle, enabled and of weight one, and one from
/// the middle to its end, with its weight and its switch, come in, and
/// so does the middle node. Both run towards larger `x`.
pub open spec fn split(
    connections: Seq<ConnectionGene>,
    nodes: Seq<NodeGene>,
    registry: RegistryModel,
    index: int,
    jitter: PseudoFloat,
) -> Split {
    if wide(connections[index]) {
        split_apart(connections, nodes, registry, index, jitter)
    } else {
        Split { connections, nodes, registry, middle: connections[index].from }
    }
}

/// What splitting the connection at `index` does where a node fits
/// between its ends: see [`split`].
pub open spec fn split_apart(
    connections: Seq<ConnectionGene>,
    nodes: Seq<NodeGene>,
    registry: RegistryModel,
    index: int,
    jitter: PseudoFloat,
) -> Split {
    let picked = connections[index];
    let from = picked.from;
    let to = picked.to;
    let known = registry.connect(from, to);
    let anew = splits_anew(known, from, to);
    let place = middle_place(from, to, jitter);
    let middle = if anew {
        known.new_node(place.0, place.1)
    } else {
        known.nodes[known.replace_index(from, to) - 1]
    };
    let noted = if anew {
        known.with_node(place.0, place.1).with_replace_index(
            from,
            to,
            middle.innovation_number as usize,
        )
    } else {
        known
    };
    let front = noted.connection(from, middle);
    let halfway = noted.connect(from, middle);
    let back = ConnectionGene {
        weight: picked.weight,
        enabled: picked.enabled,
        ..halfway.connection(middle, to)
    };
    Split {
        connections: with_connection(with_connection(connections.remove(index), front), back),
        nodes: if keys_of(nodes).contains(middle.identity()) {
            nodes
        } else {
            nodes.push(middle)
        },
        registry: halfway.connect(middle, to),
        middle,
    }
}

/// Every connection has the number under which the registry knows its
/// pair of end points.
pub open spec fn registered(connections: Seq<ConnectionGene>, registry: RegistryModel) -> bool {
    forall|i: int|
        0 <= i < connections.len() ==> registry.catalog.contains_key(
            (#[trigger] connections[i]).identity(),
        ) && registry.catalog[connections[i].identity()].innovation_number
            == connections[i].innovation_number
}

/// Every connection runs between nodes of `nodes`.
pub open spec fn closed(connections: Seq<ConnectionGene>, nodes: Seq<NodeGene>) -> bool {
    forall|i: int|
        0 <= i < connections.len() ==> keys_of(nodes).contains(
            (#[trigger] connections[i]).from.identity(),
        ) && keys_of(nodes).contains(connections[i].to.identity())
}

/// Every node has a number that the registry has handed out.
pub open spec fn known_nodes(nodes: Seq<NodeGene>, registry: RegistryModel) -> bool {
    forall|i: int|
        0 <= i < nodes.len() ==> 1 <= (#[trigger] nodes[i]).innovation_number
            <= registry.nodes.len()
}

/// Whether a genome of these connections and nodes can have come out of
/// the registry: see [`registered`], [`closed`] and [`known_nodes`].
pub open spec fn belongs(
    connections: Seq<ConnectionGene>,
    nodes: Seq<NodeGene>,
    registry: RegistryModel,
) -> bool {
    &&& registered(connections, registry)
    &&& closed(connections, nodes)
    &&& known_nodes(nodes, registry)
}

impl Genome {
    /// The link that can be added between the nodes at `first` and
    /// `second`: see [`open_link`].
    pub fn link_candidate(&self, first: usize, second: usize) -> (ends: Option<
        (NodeGene, NodeGene),
    >)
        requires
            self.wf(),
            first < self.nodes@.len(),
            second < self.nodes@.len(),
        ensures
            ends == open_link(self.connections@, self.nodes@, first as int, second as int),
            ends is Some ==> keys_of(self.nodes@).contains(ends.unwrap().0.identity()) && keys_of(
                self.nodes@,
            ).contains(ends.unwrap().1.identity()),
            ends is Some ==> ends.unwrap().0.x@ < ends.unwrap().1.x@,
    {
        assert(keys_of(self.nodes@).contains(self.nodes@[first as int].identity()));
        assert(keys_of(self.nodes@).contains(self.nodes@[second as int].identity()));
        let node1 = *self.nodes.get(first).unwrap();
        let node2 = *self.nodes.get(second).unwrap();
        if node1.x.units == node2.x.units {
            return None;
        }
        let probe = if node1.x.units < node2.x.units {
            ConnectionGene::new(node1, node2)
        } else {
            ConnectionGene::new(node2, node1)
        };
        if self.connections.contains_key(&probe) {
            None
        } else {
            Some((probe.from, probe.to))
        }
    }

    /// Adds the link from `from` to `to` with the weight `weight`: see
    /// [`linked`].
    pub fn add_link(
        &mut self,
        registry: &mut Registry,
        from: NodeGene,
        to: NodeGene,
        weight: PseudoFloat,
    )
        requires
            old(self).wf(),
            old(registry).wf(),
            old(registry)@.knows(from, to) || old(registry)@.has_room_for_connections(1),
        ensures
            final(self).wf(),
            final(registry).wf(),
            final(registry)@ == old(registry)@.connect(from, to),
            final(self).nodes@ == old(self).nodes@,
            final(self).connections@ == linked(
                old(self).connections@,
                old(registry)@,
                from,
                to,
                weight,
            ),
            old(self).belongs_to(old(registry)@) && keys_of(old(self).nodes@).contains(
                from.identity(),
            ) && keys_of(old(self).nodes@).contains(to.identity()) ==> final(self).belongs_to(
                final(registry)@,
            ),
            forward(old(self).connections@) && from.x@ < to.x@ ==> forward(
                final(self).connections@,
            ),
    {
        proof {
            if forward(self.connections@) && from.x@ < to.x@ {
                lemma_with_connection_forward(
                    self.connections@,
                    ConnectionGene { weight, ..registry@.connection(from, to) },
                );
            }
        }
        proof {
            if self.belongs_to(registry@) && keys_of(self.nodes@).contains(from.identity())
                && keys_of(self.nodes@).contains(to.identity()) {
                lemma_linked_belongs(self.connections@, self.nodes@, registry@, from, to, weight);
            }
        }
        let mut gene = registry.get_connection(from, to);
        gene.weight = weight;
        self.insert_connection(gene);
    }

    /// Tries up to a hundred times to draw two nodes that can be linked,
    /// and links the first such pair with a weight drawn between minus
    /// the weight shift strength and that strength. Nodes are linked
    /// from the smaller `x` to the larger, so no link closes a cycle, and
    /// no pair is linked twice. Does nothing to a genome with fewer than
    /// two nodes, and nothing when the registry is full.
    pub fn mutate_link(&mut self, registry: &mut Registry, config: &Config)
        requires
            old(self).wf(),
            old(registry).wf(),
            config.wf(),
        ensures
            final(self).wf(),
            final(registry).wf(),
            final(self).nodes@ == old(self).nodes@,
            link_step(
                old(self).connections@,
                old(self).nodes@,
                old(registry)@,
                final(self).connections@,
                final(registry)@,
                *config,
            ),
            old(self).nodes@.len() <= 1 || !old(registry)@.has_room_for_connections(1)
                ==> final(self).connections@ == old(self).connections@
                && final(registry)@ == old(registry)@,
            extends(final(registry)@, old(registry)@),
            old(self).connections@.len() <= final(self).connections@.len(),
            final(self).connections@.len() <= old(self).connections@.len() + 1,
            old(self).belongs_to(old(registry)@) ==> final(self).belongs_to(final(registry)@),
            forward(old(self).connections@) ==> forward(final(self).connections@),
    {
        proof {
            lemma_extends_reflexive(registry@);
        }
        if self.nodes.len() <= 1 || !registry.has_room(1) {
            return;
        }
        let mut attempt: u32 = 0;
        while attempt < LINK_ATTEMPTS
            invariant
                self.wf(),
                registry.wf(),
                config.wf(),
                self.nodes@.len() > 1,
                *self == *old(self),
                *registry == *old(registry),
                registry@.has_room_for_connections(1),
            decreases LINK_ATTEMPTS - attempt,
        {
            let first = random_index(self.nodes.len());
            let second = random_index(self.nodes.len());
            match self.link_candidate(first, second) {
                Some((from, to)) => {
                    let strength = config.weight_shift_strength.units;
                    let weight = PseudoFloat::new(random_between(-strength, strength));
                    proof {
                        lemma_connect_extends(registry@, from, to);
                        lemma_with_connection_length(
                            self.connections@,
                            ConnectionGene { weight, ..registry@.connection(from, to) },
                        );
                    }
                    self.add_link(registry, from, to, weight);
                    assert((self.connections@, registry@) == link_drawn(
                        old(self).connections@,
                        old(self).nodes@,
                        old(registry)@,
                        first as int,
                        second as int,
                        weight,
                    ));
                    return;
                },
                None => {},
            }
            attempt += 1;
        }
    }

    /// Splits the connection at `index` by a node in its middle, whose
    /// height is moved by `jitter`: see [`split`].
    pub fn split_connection(&mut self, registry: &mut Registry, index: usize, jitter: PseudoFloat)
        requires
            old(self).wf(),
            old(registry).wf(),
            index < old(self).connections@.len(),
            old(registry)@.has_room_for_node(),
            old(registry)@.has_room_for_connections(3),
        ensures
            final(self).wf(),
            final(registry).wf(),
            extends(final(registry)@, old(registry)@),
            final(self).connections@ == split(
                old(self).connections@,
                old(self).nodes@,
                old(registry)@,
                index as int,
                jitter,
            ).connections,
            final(self).nodes@ == split(
                old(self).connections@,
                old(self).nodes@,
                old(registry)@,
                index as int,
                jitter,
            ).nodes,
            final(registry)@ == split(
                old(self).connections@,
                old(self).nodes@,
                old(registry)@,
                index as int,
                jitter,
            ).registry,
            old(self).connections@.len() - 1 <= final(self).connections@.len(),
            final(self).connections@.len() <= old(self).connections@.len() + 1,
            old(self).nodes@.len() <= final(self).nodes@.len() <= old(self).nodes@.len() + 1,
            final(self).nodes@.take(old(self).nodes@.len() as int) == old(self).nodes@,
            old(self).belongs_to(old(registry)@) ==> final(self).belongs_to(final(registry)@),
            forward(old(self).connections@) ==> forward(final(self).connections@),
    {
        proof {
            if forward(self.connections@) {
                lemma_split_forward(
                    self.connections@,
                    self.nodes@,
                    registry@,
                    index as int,
                    jitter,
                );
            }
            if self.belongs_to(registry@) {
                lemma_split_belongs(
                    self.connections@,
                    self.nodes@,
                    registry@,
                    index as int,
                    jitter,
                );
            }
            lemma_split_length(
                self.connections@,
                self.nodes@,
                registry@,
                index as int,
                jitter,
            );
        }
        let picked = *self.get_connection(index);
        let from = picked.from;
        let to = picked.to;
        assert(self.nodes@.take(self.nodes@.len() as int) =~= self.nodes@);
        if from.x.units as i128 + 2 > to.x.units as i128 {
            proof {
                lemma_extends_reflexive(registry@);
            }
            return;
        }
        let known = registry.get_connection(from, to);
        let ghost model1 = registry@;
        proof {
            lemma_connect_extends(old(registry)@, from, to);
        }
        let remembered = match registry.get_node(known.replace_index) {
            Some(node) => if from.x.units < node.x.units && node.x.units < to.x.units {
                Some(node)
            } else {
                None
            },
            None => None,
        };
        let middle = match remembered {
            Some(node) => node,
            None => {
                let x = from.x.midpoint(to.x);
                let y = from.y.midpoint(to.y).add(jitter);
                let node = registry.create_node(x, y);
                proof {
                    lemma_with_node_extends(model1, x, y);
                    lemma_with_replace_index_extends(
                        registry@,
                        from,
                        to,
                        node.innovation_number as usize,
                    );
                    lemma_extends_transitive(
                        registry@.with_replace_index(from, to, node.innovation_number as usize),
                        registry@,
                        model1,
                    );
                }
                registry.set_replace_index(from, to, node.innovation_number as usize);
                node
            },
        };
        let ghost model2 = registry@;
        proof {
            lemma_extends_transitive(model2, model1, old(registry)@);
            lemma_connect_extends(model2, from, middle);
        }
        let front = registry.get_connection(from, middle);
        let ghost model3 = registry@;
        proof {
            lemma_extends_transitive(model3, model2, old(registry)@);
            lemma_connect_extends(model3, middle, to);
        }
        let mut back = registry.get_connection(middle, to);
        proof {
            lemma_extends_transitive(registry@, model3, old(registry)@);
        }
        back.weight = picked.weight;
        back.enabled = picked.enabled;
        proof {
            lemma_remove_keeps_order(self.connections@, index as int);
            lemma_keys_remove(self.connections@, index as int);
        }
        self.connections.remove_index(index);
        self.insert_connection(front);
        self.insert_connection(back);
        proof {
            lemma_node_held(self.nodes@, middle);
            if !keys_of(self.nodes@).contains(middle.identity()) {
                lemma_keys_insert(self.nodes@, self.nodes@.len() as int, middle);
                assert(self.nodes@.insert(self.nodes@.len() as int, middle) =~= self.nodes@.push(
                    middle,
                ));
            }
        }
        self.nodes.add(middle);
        assert(self.nodes@.take(old(self).nodes@.len() as int) =~= old(self).nodes@);
    }

    /// Splits a connection drawn at random by a node in its middle: see
    /// [`split_step`]. Where the same pair of nodes was split before, in
    /// this genome or in another, the node of that time is taken again.
    /// Does nothing to a genome without connections, and nothing when the
    /// registry is full.
    pub fn mutate_node(&mut self, registry: &mut Registry)
        requires
            old(self).wf(),
            old(registry).wf(),
        ensures
            final(self).wf(),
            final(registry).wf(),
            extends(final(registry)@, old(registry)@),
            split_step(
                old(self).connections@,
                old(self).nodes@,
                old(registry)@,
                final(self).connections@,
                final(self).nodes@,
                final(registry)@,
            ),
            old(self).connections@.len() - 1 <= final(self).connections@.len(),
            final(self).connections@.len() <= old(self).connections@.len() + 1,
            old(self).nodes@.len() <= final(self).nodes@.len() <= old(self).nodes@.len() + 1,
            final(self).nodes@.take(old(self).nodes@.len() as int) == old(self).nodes@,
            old(self).belongs_to(old(registry)@) ==> final(self).belongs_to(final(registry)@),
            forward(old(self).connections@) ==> forward(final(self).connections@),
    {
        assert(self.nodes@.take(self.nodes@.len() as int) =~= self.nodes@);
        proof {
            lemma_extends_reflexive(registry@);
        }
        if !registry.has_room(3) {
            return;
        }
        match self.connections.random_index() {
            Some(index) => {
                let jitter = PseudoFloat::new(random_between(-JITTER, JITTER));
                self.split_connection(registry, index, jitter);
            },
            None => {},
        }
    }

    /// Shifts the weight of the connection at `index` by `amount`: see
    /// [`shifted`].
    pub fn shift_weight(&mut self, index: usize, amount: PseudoFloat)
        requires
            old(self).wf(),
            index < old(self).connections@.len(),
        ensures
            final(self).wf(),
            final(self).nodes@ == old(self).nodes@,
            final(self).connections@ == shifted(old(self).connections@, index as int, amount),
            forall|registry: RegistryModel| #[trigger]
                old(self).belongs_to(registry) ==> final(self).belongs_to(registry),
            forward(old(self).connections@) ==> forward(final(self).connections@),
    {
        let mut gene = *self.get_connection(index);
        gene.weight = gene.weight.add(amount);
        proof {
            lemma_update_keeps_order(self.connections@, index as int, gene);
            if forward(self.connections@) {
                lemma_update_forward(self.connections@, index as int, gene);
            }
            assert forall|registry: RegistryModel| #[trigger]
                self.belongs_to(registry) implies belongs(
                self.connections@.update(index as int, gene),
                self.nodes@,
                registry,
            ) by {
                lemma_update_belongs(self.connections@, self.nodes@, registry, index as int, gene);
            }
        }
        self.connections.replace(index, gene);
    }

    /// Gives the connection at `index` the weight `weight`: see
    /// [`reweighted`].
    pub fn set_weight(&mut self, index: usize, weight: PseudoFloat)
        requires
            old(self).wf(),
            index < old(self).connections@.len(),
        ensures
            final(self).wf(),
            final(self).nodes@ == old(self).nodes@,
            final(self).connections@ == reweighted(old(self).connections@, index as int, weight),
            forall|registry: RegistryModel| #[trigger]
                old(self).belongs_to(registry) ==> final(self).belongs_to(registry),
            forward(old(self).connections@) ==> forward(final(self).connections@),
    {
        let mut gene = *self.get_connection(index);
        gene.weight = weight;
        proof {
            lemma_update_keeps_order(self.connections@, index as int, gene);
            if forward(self.connections@) {
                lemma_update_forward(self.connections@, index as int, gene);
            }
            assert forall|registry: RegistryModel| #[trigger]
                self.belongs_to(registry) implies belongs(
                self.connections@.update(index as int, gene),
                self.nodes@,
                registry,
            ) by {
                lemma_update_belongs(self.connections@, self.nodes@, registry, index as int, gene);
            }
        }
        self.connections.replace(index, gene);
    }

    /// Switches the connection at `index` on or off: see [`toggled`].
    pub fn toggle_link(&mut self, index: usize)
        requires
            old(self).wf(),
            index < old(self).connections@.len(),
        ensures
            final(self).wf(),
            final(self).nodes@ == old(self).nodes@,
            final(self).connections@ == toggled(old(self).connections@, index as int),
            forall|registry: RegistryModel| #[trigger]
                old(self).belongs_to(registry) ==> final(self).belongs_to(registry),
            forward(old(self).connections@) ==> forward(final(self).connections@),
    {
        let mut gene = *self.get_connection(index);
        gene.enabled = !gene.enabled;
        proof {
            lemma_update_keeps_order(self.connections@, index as int, gene);
            if forward(self.connections@) {
                lemma_update_forward(self.connections@, index as int, gene);
            }
            assert forall|registry: RegistryModel| #[trigger]
                self.belongs_to(registry) implies belongs(
                self.connections@.update(index as int, gene),
                self.nodes@,
                registry,
            ) by {
                lemma_update_belongs(self.connections@, self.nodes@, registry, index as int, gene);
            }
        }
        self.connections.replace(index, gene);
    }

    /// Shifts the weight of a connection drawn at random by an amount
    /// drawn between minus the shift strength and that strength. Does
    /// nothing to a genome without connections.
    pub fn mutate_weight_shift(&mut self, config: &Config)
        requires
            old(self).wf(),
            config.wf(),
        ensures
            final(self).wf(),
            final(self).nodes@ == old(self).nodes@,
            shift_step(old(self).connections@, final(self).connections@, *config),
            forall|registry: RegistryModel| #[trigger]
                old(self).belongs_to(registry) ==> final(self).belongs_to(registry),
            forward(old(self).connections@) ==> forward(final(self).connections@),
    {
        match self.connections.random_index() {
            Some(index) => {
                let strength = config.weight_shift_strength.units;
                let amount = PseudoFloat::new(random_between(-strength, strength));
                self.shift_weight(index, amount);
            },
            None => {},
        }
    }

    /// Gives a connection drawn at random a weight drawn between minus
    /// the random weight strength and that strength. Does nothing to a
    /// genome without connections.
    pub fn mutate_weight_random(&mut self, config: &Config)
        requires
            old(self).wf(),
            config.wf(),
        ensures
            final(self).wf(),
            final(self).nodes@ == old(self).nodes@,
            reweigh_step(old(self).connections@, final(self).connections@, *config),
            forall|registry: RegistryModel| #[trigger]
                old(self).belongs_to(registry) ==> final(self).belongs_to(registry),
            forward(old(self).connections@) ==> forward(final(self).connections@),
    {
        match self.connections.random_index() {
            Some(index) => {
                let strength = config.weight_random_strength.units;
                let weight = PseudoFloat::new(random_between(-strength, strength));
                self.set_weight(index, weight);
            },
            None => {},
        }
    }

    /// Switches a connection drawn at random on or off. Does nothing to a
    /// genome without connections.
    pub fn mutate_link_toggle(&mut self)
        requires
            old(self).wf(),
        ensures
            final(self).wf(),
            final(self).nodes@ == old(self).nodes@,
            toggle_step(old(self).connections@, final(self).connections@),
            forall|registry: RegistryModel| #[trigger]
                old(self).belongs_to(registry) ==> final(self).belongs_to(registry),
            forward(old(self).connections@) ==> forward(final(self).connections@),
    {
        match self.connections.random_index() {
            Some(index) => {
                self.toggle_link(index);
            },
            None => {},
        }
    }

    /// Lets each of the five mutations happen with its own chance, one
    /// after the other: a new link, a new node, a weight shift, a new
    /// weight, a link toggle. Any of them may happen in one call: see
    /// [`mutated`].
    pub fn mutate(&mut self, registry: &mut Registry, config: &Config)
        requires
            old(self).wf(),
            old(registry).wf(),
            config.wf(),
        ensures
            final(self).wf(),
            final(registry).wf(),
            extends(final(registry)@, old(registry)@),
            old(self).nodes@.len() <= final(self).nodes@.len() <= old(self).nodes@.len() + 1,
            final(self).nodes@.take(old(self).nodes@.len() as int) == old(self).nodes@,
            old(self).belongs_to(old(registry)@) ==> final(self).belongs_to(final(registry)@),
            forward(old(self).connections@) ==> forward(final(self).connections@),
            old(self).connections@.len() - 1 <= final(self).connections@.len(),
            final(self).connections@.len() <= old(self).connections@.len() + 2,
            exists|trace: Trace|
                #[trigger] mutated(
                    trace,
                    old(self).connections@,
                    old(self).nodes@,
                    old(registry)@,
                    final(self).connections@,
                    final(self).nodes@,
                    final(registry)@,
                    *config,
                ),
    {
        proof {
            lemma_extends_reflexive(registry@);
        }
        let linking = happens(config.prob_mutate_link);
        if linking {
            self.mutate_link(registry, config);
        }
        let ghost linked = self.connections@;
        let ghost linked_registry = registry@;
        let splitting = happens(config.prob_mutate_node);
        if splitting {
            self.mutate_node(registry);
            proof {
                lemma_extends_transitive(registry@, linked_registry, old(registry)@);
            }
        }
        let ghost split = self.connections@;
        assert(self.nodes@.take(old(self).nodes@.len() as int) =~= old(self).nodes@);
        let shifting = happens(config.prob_mutate_weight_shift);
        if shifting {
            self.mutate_weight_shift(config);
        }
        let ghost shifted = self.connections@;
        let reweighing = happens(config.prob_mutate_weight_random);
        if reweighing {
            self.mutate_weight_random(config);
        }
        let ghost reweighed = self.connections@;
        let toggling = happens(config.prob_mutate_toggle_link);
        if toggling {
            self.mutate_link_toggle();
        }
        proof {
            let trace = Trace {
                linking,
                splitting,
                shifting,
                reweighing,
                toggling,
                linked,
                linked_registry,
                split,
                shifted,
                reweighed,
            };
            assert(mutated(
                trace,
                old(self).connections@,
                old(self).nodes@,
                old(registry)@,
                self.connections@,
                self.nodes@,
                registry@,
                *config,
            ));
        }
    }
}

/// Whether something that has the chance `chance` happens this time: a
/// number is drawn from zero up to, not including, one, and it happens
/// when the chance is above the number.
pub fn happens(chance: PseudoFloat) -> (yes: bool)
    ensures
        may_fire(chance, yes),
{
    chance.units > random_between(0, SCALE - 1)
}

/// A gene whose pair of end points and whose number are new to a list
/// makes the list one longer.
pub proof fn lemma_with_connection_grows(genes: Seq<ConnectionGene>, gene: ConnectionGene)
    requires
        !keys_of(genes).contains(gene.identity()),
        !has_number(genes, gene.innovation_number),
        gene.innovation_number >= 1,
    ensures
        with_connection(genes, gene).len() == genes.len() + 1,
        with_connection(genes, gene) == genes.insert(
            insertion_point(genes, gene.innovation_number),
            gene,
        ),
        0 <= insertion_point(genes, gene.innovation_number) <= genes.len(),
{
    lemma_insertion_point(genes, gene.innovation_number);
}

/// A connection that the registry knows and that touches a node outside
/// a genome that came out of the registry is new to the genome, by its
/// end points and by its number.
proof fn lemma_half_is_new(
    genes: Seq<ConnectionGene>,
    nodes: Seq<NodeGene>,
    registry: RegistryModel,
    gene: ConnectionGene,
)
    requires
        registry.wf(),
        registered(genes, registry),
        closed(genes, nodes),
        !keys_of(nodes).contains(gene.from.identity()) || !keys_of(nodes).contains(
            gene.to.identity(),
        ),
        registry.catalog.contains_key(gene.identity()),
        registry.catalog[gene.identity()].innovation_number == gene.innovation_number,
    ensures
        !keys_of(genes).contains(gene.identity()),
        !has_number(genes, gene.innovation_number),
{
    assert forall|i: int| 0 <= i < genes.len() implies (#[trigger] genes[i]).identity()
        != gene.identity() by {
        if genes[i].identity() == gene.identity() {
            lemma_pair_key_injective(
                genes[i].from.innovation_number,
                genes[i].to.innovation_number,
                gene.from.innovation_number,
                gene.to.innovation_number,
            );
            assert(keys_of(nodes).contains(genes[i].from.identity()));
            assert(keys_of(nodes).contains(genes[i].to.identity()));
        }
    }
    if has_number(genes, gene.innovation_number) {
        let i = choose|i: int|
            0 <= i < genes.len() && (#[trigger] genes[i]).innovation_number
                == gene.innovation_number;
        assert(genes[i].identity() != gene.identity());
        assert(registry.catalog.contains_key(genes[i].identity()));
        assert(registry.catalog[genes[i].identity()].innovation_number
            != registry.catalog[gene.identity()].innovation_number);
    }
}

/// A gene that is new to a list and differs from the gene that is put
/// into the list is new to the longer list as well.
proof fn lemma_new_after_insert(
    genes: Seq<ConnectionGene>,
    place: int,
    put: ConnectionGene,
    gene: ConnectionGene,
)
    requires
        0 <= place <= genes.len(),
        !keys_of(genes).contains(gene.identity()),
        !has_number(genes, gene.innovation_number),
        put.identity() != gene.identity(),
        put.innovation_number != gene.innovation_number,
    ensures
        !keys_of(genes.insert(place, put)).contains(gene.identity()),
        !has_number(genes.insert(place, put), gene.innovation_number),
{
    let grown = genes.insert(place, put);
    assert forall|i: int| 0 <= i < grown.len() implies (#[trigger] grown[i]).identity()
        != gene.identity() && grown[i].innovation_number != gene.innovation_number by {
        if i != place {
            let a = if i < place {
                i
            } else {
                i - 1
            };
            assert(grown[i] == genes[a]);
            assert(keys_of(genes).contains(genes[a].identity()));
        }
    }
}

/// Taking a gene out of a genome that came out of the registry leaves
/// such a genome, also for a registry that has grown.
proof fn lemma_rest_belongs(
    connections: Seq<ConnectionGene>,
    nodes: Seq<NodeGene>,
    registry: RegistryModel,
    later: RegistryModel,
    index: int,
)
    requires
        registered(connections, registry),
        closed(connections, nodes),
        extends(later, registry),
        0 <= index < connections.len(),
    ensures
        registered(connections.remove(index), later),
        closed(connections.remove(index), nodes),
{
    let rest = connections.remove(index);
    assert forall|i: int| 0 <= i < rest.len() implies later.catalog.contains_key(
        (#[trigger] rest[i]).identity(),
    ) && later.catalog[rest[i].identity()].innovation_number == rest[i].innovation_number
        && keys_of(nodes).contains(rest[i].from.identity()) && keys_of(nodes).contains(
        rest[i].to.identity(),
    ) by {
        let a = if i < index {
            i
        } else {
            i + 1
        };
        assert(rest[i] == connections[a]);
        assert(registry.catalog.contains_key(connections[a].identity()));
    }
}

/// Splitting a connection of a genome that came out of the registry, by
/// a node that the genome does not have yet, adds one node to the genome
/// and, one connection going and two coming, one connection, where a
/// node fits between the ends of the connection.
pub proof fn lemma_split_grows(
    connections: Seq<ConnectionGene>,
    nodes: Seq<NodeGene>,
    registry: RegistryModel,
    index: int,
    jitter: PseudoFloat,
)
    requires
        registry.wf(),
        belongs(connections, nodes, registry),
        0 <= index < connections.len(),
        registry.has_room_for_node(),
        registry.has_room_for_connections(2),
        wide(connections[index]),
        !keys_of(nodes).contains(
            split(connections, nodes, registry, index, jitter).middle.identity(),
        ),
    ensures
        split(connections, nodes, registry, index, jitter).nodes.len() == nodes.len() + 1,
        split(connections, nodes, registry, index, jitter).connections.len() == connections.len()
            + 1,
{
    let picked = connections[index];
    let from = picked.from;
    let to = picked.to;
    assert(registry.catalog.contains_key(picked.identity()));
    let known = registry.connect(from, to);
    assert(known == registry);
    let anew = splits_anew(known, from, to);
    let place = middle_place(from, to, jitter);
    let middle = split(connections, nodes, registry, index, jitter).middle;
    let noted = if anew {
        known.with_node(place.0, place.1).with_replace_index(
            from,
            to,
            middle.innovation_number as usize,
        )
    } else {
        known
    };
    if anew {
        let with_middle = known.with_node(place.0, place.1);
        lemma_with_node_wf(known, place.0, place.1);
        lemma_with_node_extends(known, place.0, place.1);
        lemma_with_replace_index_wf(with_middle, from, to, middle.innovation_number as usize);
        lemma_with_replace_index_extends(with_middle, from, to, middle.innovation_number as usize);
        lemma_extends_transitive(noted, with_middle, registry);
    } else {
        lemma_extends_reflexive(registry);
    }
    let front = noted.connection(from, middle);
    let halfway = noted.connect(from, middle);
    lemma_connect_wf(noted, from, middle);
    lemma_connect_extends(noted, from, middle);
    lemma_extends_transitive(halfway, noted, registry);
    let back = ConnectionGene {
        weight: picked.weight,
        enabled: picked.enabled,
        ..halfway.connection(middle, to)
    };
    lemma_connect_wf(halfway, middle, to);
    lemma_connect_extends(halfway, middle, to);
    let last = halfway.connect(middle, to);
    lemma_extends_transitive(last, halfway, registry);
    let rest = connections.remove(index);
    lemma_rest_belongs(connections, nodes, registry, halfway, index);
    lemma_rest_belongs(connections, nodes, registry, last, index);
    lemma_half_is_new(rest, nodes, halfway, front);
    lemma_with_connection_grows(rest, front);
    let place_front = insertion_point(rest, front.innovation_number);
    let front_key = pair_key(from.innovation_number, middle.innovation_number);
    let back_key = pair_key(middle.innovation_number, to.innovation_number);
    assert(front.identity() == front_key);
    assert(back.identity() == back_key);
    assert(keys_of(nodes).contains(connections[index].from.identity()));
    assert(front_key != back_key) by {
        if front_key == back_key {
            lemma_pair_key_injective(
                from.innovation_number,
                middle.innovation_number,
                middle.innovation_number,
                to.innovation_number,
            );
        }
    }
    assert(last.catalog.contains_key(front_key));
    assert(last.catalog.contains_key(back_key));
    assert(last.catalog[front_key].innovation_number != last.catalog[back_key].innovation_number);
    assert(last.catalog[front_key].innovation_number == front.innovation_number);
    lemma_half_is_new(rest, nodes, last, back);
    lemma_new_after_insert(rest, place_front, front, back);
    lemma_with_connection_grows(with_connection(rest, front), back);
}

/// The node that is made to split a connection of a genome that came
/// out of the registry is a node that the genome does not have yet.
pub proof fn lemma_new_middle(
    connections: Seq<ConnectionGene>,
    nodes: Seq<NodeGene>,
    registry: RegistryModel,
    index: int,
    jitter: PseudoFloat,
)
    requires
        registry.wf(),
        belongs(connections, nodes, registry),
        0 <= index < connections.len(),
        wide(connections[index]),
        splits_anew(registry, connections[index].from, connections[index].to),
    ensures
        !keys_of(nodes).contains(
            split(connections, nodes, registry, index, jitter).middle.identity(),
        ),
{
    let picked = connections[index];
    assert(registry.catalog.contains_key(picked.identity()));
    assert(registry.connect(picked.from, picked.to) == registry);
    let middle = split(connections, nodes, registry, index, jitter).middle;
    assert(middle.innovation_number == registry.nodes.len() + 1);
    if keys_of(nodes).contains(middle.identity()) {
        let i = choose|i: int|
            0 <= i < nodes.len() && #[trigger] nodes[i].identity() == middle.identity();
        assert(nodes[i].innovation_number <= registry.nodes.len());
    }
}

/// Adding a link never makes two connections between the same nodes in
/// the same direction: a list without such a pair stays without one.
pub proof fn lemma_linked_distinct(
    connections: Seq<ConnectionGene>,
    registry: RegistryModel,
    from: NodeGene,
    to: NodeGene,
    weight: PseudoFloat,
)
    requires
        distinct_keys(connections),
    ensures
        distinct_keys(linked(connections, registry, from, to, weight)),
{
    let gene = ConnectionGene { weight, ..registry.connection(from, to) };
    lemma_insertion_point(connections, gene.innovation_number);
    if linked(connections, registry, from, to, weight) != connections {
        lemma_keys_insert(
            connections,
            insertion_point(connections, gene.innovation_number),
            gene,
        );
    }
}

/// A link that can be added runs from the node with the smaller `x` to
/// the node with the larger `x`, both nodes of the genome.
pub proof fn lemma_open_link_forward(
    connections: Seq<ConnectionGene>,
    nodes: Seq<NodeGene>,
    first: int,
    second: int,
)
    requires
        0 <= first < nodes.len(),
        0 <= second < nodes.len(),
        open_link(connections, nodes, first, second) is Some,
    ensures
        open_link(connections, nodes, first, second).unwrap().0.x@ < open_link(
            connections,
            nodes,
            first,
            second,
        ).unwrap().1.x@,
        keys_of(nodes).contains(open_link(connections, nodes, first, second).unwrap().0.identity()),
        keys_of(nodes).contains(open_link(connections, nodes, first, second).unwrap().1.identity()),
{
    assert(keys_of(nodes).contains(nodes[first].identity()));
    assert(keys_of(nodes).contains(nodes[second].identity()));
}

/// The node that is made to split a connection lies between the ends of
/// the connection, and strictly between them where they are two units
/// or more apart.
pub proof fn lemma_middle_between(from: NodeGene, to: NodeGene, jitter: PseudoFloat)
    requires
        from.x@ <= to.x@,
    ensures
        from.x@ <= middle_place(from, to, jitter).0@ <= to.x@,
        from.x@ + 2 <= to.x@ ==> from.x@ < middle_place(from, to, jitter).0@ < to.x@,
{
}

/// A connection that runs towards larger `x` leaves a list of such
/// connections one when it is put in.
pub proof fn lemma_with_connection_forward(genes: Seq<ConnectionGene>, gene: ConnectionGene)
    requires
        forward(genes),
        gene.from.x@ < gene.to.x@,
    ensures
        forward(with_connection(genes, gene)),
{
    let after = with_connection(genes, gene);
    if after != genes {
        let place = insertion_point(genes, gene.innovation_number);
        lemma_insertion_point(genes, gene.innovation_number);
        assert forall|i: int| 0 <= i < after.len() implies (#[trigger] after[i]).from.x@
            < after[i].to.x@ by {
            if i != place {
                let a = if i < place {
                    i
                } else {
                    i - 1
                };
                assert(after[i] == genes[a]);
                assert(genes[a].from.x@ < genes[a].to.x@);
            }
        }
    }
}

/// Splitting a connection leaves connections that run towards larger
/// `x` such connections.
pub proof fn lemma_split_forward(
    connections: Seq<ConnectionGene>,
    nodes: Seq<NodeGene>,
    registry: RegistryModel,
    index: int,
    jitter: PseudoFloat,
)
    requires
        forward(connections),
        0 <= index < connections.len(),
    ensures
        forward(split(connections, nodes, registry, index, jitter).connections),
{
    if !wide(connections[index]) {
        return ;
    }
    let picked = connections[index];
    let from = picked.from;
    let to = picked.to;
    let known = registry.connect(from, to);
    let anew = splits_anew(known, from, to);
    let place = middle_place(from, to, jitter);
    let middle = if anew {
        known.new_node(place.0, place.1)
    } else {
        known.nodes[known.replace_index(from, to) - 1]
    };
    let noted = if anew {
        known.with_node(place.0, place.1).with_replace_index(
            from,
            to,
            middle.innovation_number as usize,
        )
    } else {
        known
    };
    lemma_middle_between(from, to, jitter);
    assert(from.x@ < middle.x@ < to.x@);
    let front = noted.connection(from, middle);
    let halfway = noted.connect(from, middle);
    let back = ConnectionGene {
        weight: picked.weight,
        enabled: picked.enabled,
        ..halfway.connection(middle, to)
    };
    let rest = connections.remove(index);
    assert forall|i: int| 0 <= i < rest.len() implies (#[trigger] rest[i]).from.x@
        < rest[i].to.x@ by {
        let a = if i < index {
            i
        } else {
            i + 1
        };
        assert(rest[i] == connections[a]);
        assert(connections[a].from.x@ < connections[a].to.x@);
    }
    lemma_with_connection_forward(rest, front);
    lemma_with_connection_forward(with_connection(rest, front), back);
}

/// Changing the weight or the switch of a connection leaves connections
/// that run towards larger `x` such connections.
pub proof fn lemma_update_forward(genes: Seq<ConnectionGene>, index: int, gene: ConnectionGene)
    requires
        forward(genes),
        0 <= index < genes.len(),
        gene.from == genes[index].from,
        gene.to == genes[index].to,
    ensures
        forward(genes.update(index, gene)),
{
    let after = genes.update(index, gene);
    assert forall|i: int| 0 <= i < after.len() implies (#[trigger] after[i]).from.x@
        < after[i].to.x@ by {
        assert(genes[i].from.x@ < genes[i].to.x@);
    }
}

/// Putting a connection in makes a list no shorter and at most one
/// longer.
pub proof fn lemma_with_connection_length(genes: Seq<ConnectionGene>, gene: ConnectionGene)
    ensures
        genes.len() <= with_connection(genes, gene).len() <= genes.len() + 1,
{
    lemma_insertion_point(genes, gene.innovation_number);
}

/// Splitting a connection makes the list of connections at most one
/// shorter and at most one longer.
pub proof fn lemma_split_length(
    connections: Seq<ConnectionGene>,
    nodes: Seq<NodeGene>,
    registry: RegistryModel,
    index: int,
    jitter: PseudoFloat,
)
    requires
        0 <= index < connections.len(),
    ensures
        connections.len() - 1 <= split(connections, nodes, registry, index, jitter).connections.len()
            <= connections.len() + 1,
{
    if !wide(connections[index]) {
        return ;
    }
    let picked = connections[index];
    let from = picked.from;
    let to = picked.to;
    let known = registry.connect(from, to);
    let anew = splits_anew(known, from, to);
    let place = middle_place(from, to, jitter);
    let middle = if anew {
        known.new_node(place.0, place.1)
    } else {
        known.nodes[known.replace_index(from, to) - 1]
    };
    let noted = if anew {
        known.with_node(place.0, place.1).with_replace_index(
            from,
            to,
            middle.innovation_number as usize,
        )
    } else {
        known
    };
    let front = noted.connection(from, middle);
    let halfway = noted.connect(from, middle);
    let back = ConnectionGene {
        weight: picked.weight,
        enabled: picked.enabled,
        ..halfway.connection(middle, to)
    };
    let rest = connections.remove(index);
    lemma_with_connection_length(rest, front);
    lemma_with_connection_length(with_connection(rest, front), back);
}

/// Every registry has grown out of itself.
pub proof fn lemma_extends_reflexive(model: RegistryModel)
    ensures
        extends(model, model),
{
    assert(model.nodes.take(model.nodes.len() as int) =~= model.nodes);
}

/// Taking a gene out of a well ordered list leaves it well ordered.
pub proof fn lemma_remove_keeps_order(genes: Seq<ConnectionGene>, index: int)
    requires
        well_ordered(genes),
        0 <= index < genes.len(),
    ensures
        well_ordered(genes.remove(index)),
{
    let after = genes.remove(index);
    assert forall|i: int, j: int| 0 <= i < j < after.len() implies #[trigger] after[i].innovation()
        < #[trigger] after[j].innovation() by {
        let a = if i < index {
            i
        } else {
            i + 1
        };
        let b = if j < index {
            j
        } else {
            j + 1
        };
        lemma_ascending_at(genes, a, b);
    }
    if after.len() > 0 {
        if index == 0 {
            lemma_ascending_at(genes, 0, 1);
        }
    }
}

/// Putting a gene in the place of one with the same number leaves a well
/// ordered list well ordered.
pub proof fn lemma_update_keeps_order(
    genes: Seq<ConnectionGene>,
    index: int,
    gene: ConnectionGene,
)
    requires
        well_ordered(genes),
        0 <= index < genes.len(),
        gene.innovation_number == genes[index].innovation_number,
    ensures
        well_ordered(genes.update(index, gene)),
{
    let after = genes.update(index, gene);
    assert forall|i: int, j: int| 0 <= i < j < after.len() implies #[trigger] after[i].innovation()
        < #[trigger] after[j].innovation() by {
        lemma_ascending_at(genes, i, j);
    }
}

} // verus!
