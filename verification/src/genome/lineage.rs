//! That genomes which came out of one registry stay genomes of that
//! registry, whatever is done to them and however the registry grows.

use crate::data_structures::pseudo_float::PseudoFloat;
use crate::data_structures::random_hash_set::{
    gather,
    insertion_point,
    keys_of,
    lemma_insertion_point,
};
use crate::genome::alignment::inherit;
use crate::genome::connection_gene::ConnectionGene;
use crate::genome::gene::Gene;
use crate::genome::genome::{endpoints, with_connection};
use crate::genome::mutation::{
    belongs,
    forward,
    linked,
    middle_place,
    split,
    splits_anew,
    wide,
};
use crate::genome::node_gene::NodeGene;
use crate::neat::registry::{
    extends,
    lemma_connect_extends,
    lemma_connect_wf,
    lemma_extends_transitive,
    lemma_with_node_extends,
    lemma_with_node_wf,
    lemma_with_replace_index_extends,
    lemma_with_replace_index_wf,
    RegistryModel,
};
use vstd::prelude::*;

verus! {

/// A genome of a registry is a genome of the registry grown.
pub proof fn lemma_belongs_on(
    connections: Seq<ConnectionGene>,
    nodes: Seq<NodeGene>,
    earlier: RegistryModel,
    later: RegistryModel,
)
    requires
        belongs(connections, nodes, earlier),
        extends(later, earlier),
    ensures
        belongs(connections, nodes, later),
{
    assert forall|i: int| 0 <= i < connections.len() implies later.catalog.contains_key(
        (#[trigger] connections[i]).identity(),
    ) && later.catalog[connections[i].identity()].innovation_number
        == connections[i].innovation_number by {
        assert(earlier.catalog.contains_key(connections[i].identity()));
    }
    assert forall|i: int| 0 <= i < nodes.len() implies 1 <= (#[trigger] nodes[i]).innovation_number
        <= later.nodes.len() by {
        assert(nodes[i].innovation_number <= earlier.nodes.len());
    }
}

/// The genome without connections that a registry hands out is a genome
/// of the registry.
pub proof fn lemma_empty_belongs(registry: RegistryModel)
    requires
        registry.wf(),
    ensures
        belongs(Seq::<ConnectionGene>::empty(), registry.base_nodes(), registry),
{
    let nodes = registry.base_nodes();
    assert forall|i: int| 0 <= i < nodes.len() implies 1 <= (#[trigger] nodes[i]).innovation_number
        <= registry.nodes.len() by {
        assert(nodes[i] == registry.nodes[i]);
        assert(registry.nodes[i].innovation_number == i + 1);
    }
}

/// A connection that the registry knows, between nodes of the genome,
/// leaves a genome of the registry one when it is put in.
pub proof fn lemma_with_connection_belongs(
    connections: Seq<ConnectionGene>,
    nodes: Seq<NodeGene>,
    registry: RegistryModel,
    gene: ConnectionGene,
)
    requires
        belongs(connections, nodes, registry),
        registry.catalog.contains_key(gene.identity()),
        registry.catalog[gene.identity()].innovation_number == gene.innovation_number,
        keys_of(nodes).contains(gene.from.identity()),
        keys_of(nodes).contains(gene.to.identity()),
    ensures
        belongs(with_connection(connections, gene), nodes, registry),
{
    let after = with_connection(connections, gene);
    if after != connections {
        let place = insertion_point(connections, gene.innovation_number);
        lemma_insertion_point(connections, gene.innovation_number);
        assert forall|i: int| 0 <= i < after.len() implies registry.catalog.contains_key(
            (#[trigger] after[i]).identity(),
        ) && registry.catalog[after[i].identity()].innovation_number == after[i].innovation_number
            && keys_of(nodes).contains(after[i].from.identity()) && keys_of(nodes).contains(
            after[i].to.identity(),
        ) by {
            if i != place {
                let a = if i < place {
                    i
                } else {
                    i - 1
                };
                assert(after[i] == connections[a]);
                assert(registry.catalog.contains_key(connections[a].identity()));
                assert(keys_of(nodes).contains(connections[a].from.identity()));
            }
        }
    }
}

/// A link between two nodes of a genome of the registry leaves the
/// genome one of the registry after the link was handed out.
pub proof fn lemma_linked_belongs(
    connections: Seq<ConnectionGene>,
    nodes: Seq<NodeGene>,
    registry: RegistryModel,
    from: NodeGene,
    to: NodeGene,
    weight: PseudoFloat,
)
    requires
        registry.wf(),
        registry.knows(from, to) || registry.has_room_for_connections(1),
        belongs(connections, nodes, registry),
        keys_of(nodes).contains(from.identity()),
        keys_of(nodes).contains(to.identity()),
    ensures
        belongs(linked(connections, registry, from, to, weight), nodes, registry.connect(from, to)),
{
    lemma_connect_wf(registry, from, to);
    lemma_connect_extends(registry, from, to);
    lemma_belongs_on(connections, nodes, registry, registry.connect(from, to));
    lemma_with_connection_belongs(
        connections,
        nodes,
        registry.connect(from, to),
        ConnectionGene { weight, ..registry.connection(from, to) },
    );
}

/// Changing the weight or the switch of a connection leaves a genome of
/// the registry one.
pub proof fn lemma_update_belongs(
    connections: Seq<ConnectionGene>,
    nodes: Seq<NodeGene>,
    registry: RegistryModel,
    index: int,
    gene: ConnectionGene,
)
    requires
        belongs(connections, nodes, registry),
        0 <= index < connections.len(),
        gene.innovation_number == connections[index].innovation_number,
        gene.from == connections[index].from,
        gene.to == connections[index].to,
    ensures
        belongs(connections.update(index, gene), nodes, registry),
{
    let after = connections.update(index, gene);
    assert forall|i: int| 0 <= i < after.len() implies registry.catalog.contains_key(
        (#[trigger] after[i]).identity(),
    ) && registry.catalog[after[i].identity()].innovation_number == after[i].innovation_number
        && keys_of(nodes).contains(after[i].from.identity()) && keys_of(nodes).contains(
        after[i].to.identity(),
    ) by {
        assert(registry.catalog.contains_key(connections[i].identity()));
        assert(keys_of(nodes).contains(connections[i].from.identity()));
    }
}

/// More nodes leave a genome of the registry one, as long as the
/// registry knows the numbers of the new nodes.
pub proof fn lemma_more_nodes_belong(
    connections: Seq<ConnectionGene>,
    nodes: Seq<NodeGene>,
    registry: RegistryModel,
    node: NodeGene,
)
    requires
        belongs(connections, nodes, registry),
        1 <= node.innovation_number <= registry.nodes.len(),
    ensures
        belongs(connections, nodes.push(node), registry),
        forall|key: u64| keys_of(nodes).contains(key) ==> keys_of(nodes.push(node)).contains(key),
        keys_of(nodes.push(node)).contains(node.identity()),
{
    let more = nodes.push(node);
    assert forall|key: u64| keys_of(nodes).contains(key) implies keys_of(more).contains(key) by {
        let i = choose|i: int| 0 <= i < nodes.len() && #[trigger] nodes[i].identity() == key;
        assert(more[i].identity() == key);
    }
    assert(more[nodes.len() as int].identity() == node.identity());
    assert forall|i: int| 0 <= i < connections.len() implies keys_of(more).contains(
        (#[trigger] connections[i]).from.identity(),
    ) && keys_of(more).contains(connections[i].to.identity()) by {
        assert(keys_of(nodes).contains(connections[i].from.identity()));
        assert(keys_of(nodes).contains(connections[i].to.identity()));
    }
    assert forall|i: int| 0 <= i < more.len() implies 1 <= (#[trigger] more[i]).innovation_number
        <= registry.nodes.len() by {
        if i < nodes.len() {
            assert(more[i] == nodes[i]);
        }
    }
}

/// Splitting a connection of a genome of the registry leaves a genome of
/// the registry as it is after the split.
pub proof fn lemma_split_belongs(
    connections: Seq<ConnectionGene>,
    nodes: Seq<NodeGene>,
    registry: RegistryModel,
    index: int,
    jitter: PseudoFloat,
)
    requires
        registry.wf(),
        belongs(connections, nodes, registry),
        0 <= index < connections.len(),
        registry.has_room_for_node(),
        registry.has_room_for_connections(3),
    ensures
        belongs(
            split(connections, nodes, registry, index, jitter).connections,
            split(connections, nodes, registry, index, jitter).nodes,
            split(connections, nodes, registry, index, jitter).registry,
        ),
{
    if !wide(connections[index]) {
        return ;
    }
    let picked = connections[index];
    let from = picked.from;
    let to = picked.to;
    assert(registry.catalog.contains_key(picked.identity()));
    assert(keys_of(nodes).contains(connections[index].from.identity()));
    let known = registry.connect(from, to);
    assert(known == registry);
    let anew = splits_anew(known, from, to);
    let place = middle_place(from, to, jitter);
    let middle = if anew {
        known.new_node(place.0, place.1)
    } else {
        known.nodes[known.replace_index(from, to) - 1]
    };
    let noted = if anew {
        known.with_node(place.0, place.1).with_replace_index(
            from,
            to,
            middle.innovation_number as usize,
        )
    } else {
        known
    };
    if anew {
        let with_middle = known.with_node(place.0, place.1);
        lemma_with_node_wf(known, place.0, place.1);
        lemma_with_node_extends(known, place.0, place.1);
        lemma_with_replace_index_wf(with_middle, from, to, middle.innovation_number as usize);
        lemma_with_replace_index_extends(with_middle, from, to, middle.innovation_number as usize);
        lemma_extends_transitive(noted, with_middle, registry);
    } else {
        assert(extends(noted, registry)) by {
            assert(noted.nodes.take(registry.nodes.len() as int) =~= registry.nodes);
        }
        assert(known.nodes[known.replace_index(from, to) - 1].innovation_number
            == known.replace_index(from, to));
    }
    assert(1 <= middle.innovation_number <= noted.nodes.len());
    let front = noted.connection(from, middle);
    let halfway = noted.connect(from, middle);
    lemma_connect_wf(noted, from, middle);
    lemma_connect_extends(noted, from, middle);
    lemma_extends_transitive(halfway, noted, registry);
    let back = ConnectionGene {
        weight: picked.weight,
        enabled: picked.enabled,
        ..halfway.connection(middle, to)
    };
    lemma_connect_wf(halfway, middle, to);
    lemma_connect_extends(halfway, middle, to);
    let last = halfway.connect(middle, to);
    lemma_extends_transitive(last, halfway, registry);
    let more = if keys_of(nodes).contains(middle.identity()) {
        nodes
    } else {
        nodes.push(middle)
    };
    let rest = connections.remove(index);
    assert(belongs(rest, nodes, registry)) by {
        assert forall|i: int| 0 <= i < rest.len() implies registry.catalog.contains_key(
            (#[trigger] rest[i]).identity(),
        ) && registry.catalog[rest[i].identity()].innovation_number == rest[i].innovation_number
            && keys_of(nodes).contains(rest[i].from.identity()) && keys_of(nodes).contains(
            rest[i].to.identity(),
        ) by {
            let a = if i < index {
                i
            } else {
                i + 1
            };
            assert(rest[i] == connections[a]);
            assert(registry.catalog.contains_key(connections[a].identity()));
            assert(keys_of(nodes).contains(connections[a].from.identity()));
        }
    }
    lemma_belongs_on(rest, nodes, registry, last);
    assert(belongs(rest, more, last) && keys_of(more).contains(middle.identity()) && keys_of(
        more,
    ).contains(from.identity()) && keys_of(more).contains(to.identity())) by {
        if !keys_of(nodes).contains(middle.identity()) {
            lemma_more_nodes_belong(rest, nodes, last, middle);
        }
    }
    assert(last.catalog.contains_key(front.identity()));
    assert(last.catalog[front.identity()].innovation_number == front.innovation_number);
    lemma_with_connection_belongs(rest, more, last, front);
    lemma_with_connection_belongs(with_connection(rest, front), more, last, back);
}

/// The keys of what is gathered from a list are the keys of the list,
/// and everything that is gathered is in the list.
pub proof fn lemma_gather_keys<T: Gene>(genes: Seq<T>)
    ensures
        keys_of(gather(genes)) == keys_of(genes),
        forall|i: int| 0 <= i < gather(genes).len() ==> genes.contains(#[trigger] gather(genes)[i]),
    decreases genes.len(),
{
    if genes.len() > 0 {
        let head = genes.drop_last();
        let last = genes.last();
        lemma_gather_keys(head);
        let all = gather(genes);
        assert forall|i: int| 0 <= i < all.len() implies genes.contains(#[trigger] all[i]) by {
            if i < gather(head).len() {
                assert(all[i] == gather(head)[i]);
                assert(head.contains(gather(head)[i]));
                let j = choose|j: int| 0 <= j < head.len() && head[j] == gather(head)[i];
                assert(genes[j] == all[i]);
            } else {
                assert(genes[genes.len() - 1] == all[i]);
            }
        }
        assert forall|key: u64| keys_of(all).contains(key) <==> keys_of(genes).contains(key) by {
            if keys_of(all).contains(key) {
                let i = choose|i: int| 0 <= i < all.len() && #[trigger] all[i].identity() == key;
                assert(genes.contains(all[i]));
                let j = choose|j: int| 0 <= j < genes.len() && genes[j] == all[i];
                assert(genes[j].identity() == key);
            }
            if keys_of(genes).contains(key) {
                let j = choose|j: int| 0 <= j < genes.len() && #[trigger] genes[j].identity() == key;
                if j < head.len() {
                    assert(head[j].identity() == key);
                    assert(keys_of(head).contains(key));
                    assert(keys_of(gather(head)).contains(key));
                    let i = choose|i: int|
                        0 <= i < gather(head).len() && #[trigger] gather(head)[i].identity() == key;
                    assert(all[i].identity() == key);
                } else {
                    if keys_of(gather(head)).contains(key) {
                        let i = choose|i: int|
                            0 <= i < gather(head).len() && #[trigger] gather(head)[i].identity()
                                == key;
                        assert(all[i].identity() == key);
                    } else {
                        assert(all[all.len() - 1].identity() == key);
                    }
                }
            }
        }
        assert(keys_of(all) =~= keys_of(genes));
    } else {
        assert(keys_of(gather(genes)) =~= keys_of(genes));
    }
}

/// Every gene that a child takes over is a gene of one of its parents.
pub proof fn lemma_inherit_from_parents(
    fitter: Seq<ConnectionGene>,
    other: Seq<ConnectionGene>,
    picks: Seq<bool>,
    i: int,
    j: int,
)
    requires
        0 <= i <= fitter.len(),
        0 <= j <= other.len(),
    ensures
        forall|k: int|
            0 <= k < inherit(fitter, other, picks, i, j).len() ==> fitter.contains(
                #[trigger] inherit(fitter, other, picks, i, j)[k],
            ) || other.contains(inherit(fitter, other, picks, i, j)[k]),
    decreases fitter.len() - i + (other.len() - j),
{
    let all = inherit(fitter, other, picks, i, j);
    if i >= fitter.len() {
        assert(all.len() == 0);
    } else if j >= other.len() {
        assert forall|k: int| 0 <= k < all.len() implies fitter.contains(#[trigger] all[k])
            || other.contains(all[k]) by {
            assert(fitter[i + k] == all[k]);
        }
    } else if fitter[i].innovation_number == other[j].innovation_number {
        lemma_inherit_from_parents(fitter, other, picks, i + 1, j + 1);
        let rest = inherit(fitter, other, picks, i + 1, j + 1);
        assert forall|k: int| 0 <= k < all.len() implies fitter.contains(#[trigger] all[k])
            || other.contains(all[k]) by {
            if k == 0 {
                assert(fitter[i] == all[k] || other[j] == all[k]);
            } else {
                assert(all[k] == rest[k - 1]);
            }
        }
    } else if fitter[i].innovation_number > other[j].innovation_number {
        lemma_inherit_from_parents(fitter, other, picks, i, j + 1);
        assert(all == inherit(fitter, other, picks, i, j + 1));
    } else {
        lemma_inherit_from_parents(fitter, other, picks, i + 1, j);
        let rest = inherit(fitter, other, picks, i + 1, j);
        assert forall|k: int| 0 <= k < all.len() implies fitter.contains(#[trigger] all[k])
            || other.contains(all[k]) by {
            if k == 0 {
                assert(fitter[i] == all[k]);
            } else {
                assert(all[k] == rest[k - 1]);
            }
        }
    }
}

/// Whether the connection starts or ends at the node with the key
/// `key`.
pub open spec fn touches(gene: ConnectionGene, key: u64) -> bool {
    gene.from.identity() == key || gene.to.identity() == key
}

/// Whether `node` is an end point of the connection.
pub open spec fn ends_at(gene: ConnectionGene, node: NodeGene) -> bool {
    gene.from == node || gene.to == node
}

/// Whether `node` is an end point of one of the connections.
pub open spec fn is_end(genes: Seq<ConnectionGene>, node: NodeGene) -> bool {
    exists|i: int| 0 <= i < genes.len() && ends_at(#[trigger] genes[i], node)
}

/// The end points of a list of connections are the end points of its
/// connections.
pub proof fn lemma_endpoints(genes: Seq<ConnectionGene>)
    ensures
        forall|i: int, key: u64|
            0 <= i < genes.len() && touches(#[trigger] genes[i], key) ==> #[trigger] keys_of(
                endpoints(genes),
            ).contains(key),
        forall|k: int|
            0 <= k < endpoints(genes).len() ==> is_end(genes, #[trigger] endpoints(genes)[k]),
    decreases genes.len(),
{
    let ends = endpoints(genes);
    if genes.len() > 0 {
        let head = genes.drop_last();
        let last = genes.last();
        lemma_endpoints(head);
        let before = endpoints(head);
        assert(ends == before.push(last.from).push(last.to));
        assert forall|k: int| 0 <= k < ends.len() implies is_end(genes, #[trigger] ends[k]) by {
            if k < before.len() {
                assert(ends[k] == before[k]);
                assert(is_end(head, before[k]));
                let i = choose|i: int| 0 <= i < head.len() && ends_at(#[trigger] head[i], before[k]);
                assert(genes[i] == head[i]);
                assert(ends_at(genes[i], ends[k]));
            } else {
                assert(ends_at(genes[genes.len() - 1], ends[k]));
            }
        }
        assert forall|i: int, key: u64|
            0 <= i < genes.len() && touches(#[trigger] genes[i], key) implies #[trigger] keys_of(
            ends,
        ).contains(key) by {
            if i < head.len() {
                assert(head[i] == genes[i]);
                assert(touches(head[i], key));
                assert(keys_of(before).contains(key));
                let k = choose|k: int| 0 <= k < before.len() && #[trigger] before[k].identity() == key;
                assert(ends[k].identity() == key);
            } else {
                if last.from.identity() == key {
                    assert(ends[before.len() as int].identity() == key);
                } else {
                    assert(ends[before.len() as int + 1].identity() == key);
                }
            }
        }
    }
}

/// The child of two genomes of the registry is a genome of the registry.
pub proof fn lemma_child_belongs(
    fitter: Seq<ConnectionGene>,
    fitter_nodes: Seq<NodeGene>,
    other: Seq<ConnectionGene>,
    other_nodes: Seq<NodeGene>,
    registry: RegistryModel,
    picks: Seq<bool>,
)
    requires
        registry.wf(),
        belongs(fitter, fitter_nodes, registry),
        belongs(other, other_nodes, registry),
    ensures
        belongs(
            gather(inherit(fitter, other, picks, 0, 0)),
            gather(registry.base_nodes() + endpoints(inherit(fitter, other, picks, 0, 0))),
            registry,
        ),
{
    let taken = inherit(fitter, other, picks, 0, 0);
    let genes = gather(taken);
    let base = registry.base_nodes();
    let ends = endpoints(taken);
    let nodes = gather(base + ends);
    lemma_inherit_from_parents(fitter, other, picks, 0, 0);
    lemma_gather_keys(taken);
    lemma_gather_keys(base + ends);
    lemma_endpoints(taken);
    lemma_empty_belongs(registry);
    // Every gene of the child is a gene of a parent.
    assert forall|i: int| 0 <= i < genes.len() implies registry.catalog.contains_key(
        (#[trigger] genes[i]).identity(),
    ) && registry.catalog[genes[i].identity()].innovation_number == genes[i].innovation_number
        && keys_of(nodes).contains(genes[i].from.identity()) && keys_of(nodes).contains(
        genes[i].to.identity(),
    ) by {
        assert(taken.contains(genes[i]));
        let k = choose|k: int| 0 <= k < taken.len() && taken[k] == genes[i];
        assert(fitter.contains(taken[k]) || other.contains(taken[k]));
        if fitter.contains(taken[k]) {
            let a = choose|a: int| 0 <= a < fitter.len() && fitter[a] == taken[k];
            assert(registry.catalog.contains_key(fitter[a].identity()));
        } else {
            let b = choose|b: int| 0 <= b < other.len() && other[b] == taken[k];
            assert(registry.catalog.contains_key(other[b].identity()));
        }
        assert(touches(taken[k], genes[i].from.identity()));
        assert(touches(taken[k], genes[i].to.identity()));
        assert(keys_of(ends).contains(genes[i].from.identity()));
        assert(keys_of(ends).contains(genes[i].to.identity()));
        lemma_keys_of_sum(base, ends, genes[i].from.identity());
        lemma_keys_of_sum(base, ends, genes[i].to.identity());
    }
    // Every node of the child is known to the registry.
    assert forall|i: int| 0 <= i < nodes.len() implies 1 <= (#[trigger] nodes[i]).innovation_number
        <= registry.nodes.len() by {
        assert((base + ends).contains(nodes[i]));
        let j = choose|j: int| 0 <= j < (base + ends).len() && (base + ends)[j] == nodes[i];
        if j < base.len() {
            assert((base + ends)[j] == base[j]);
            assert(1 <= base[j].innovation_number <= registry.nodes.len());
        } else {
            let end = ends[j - base.len()];
            assert((base + ends)[j] == end);
            assert(is_end(taken, end));
            let g = choose|g: int| 0 <= g < taken.len() && ends_at(#[trigger] taken[g], end);
            assert(fitter.contains(taken[g]) || other.contains(taken[g]));
            if fitter.contains(taken[g]) {
                let a = choose|a: int| 0 <= a < fitter.len() && fitter[a] == taken[g];
                lemma_endpoint_known(fitter, fitter_nodes, registry, a);
            } else {
                let b = choose|b: int| 0 <= b < other.len() && other[b] == taken[g];
                lemma_endpoint_known(other, other_nodes, registry, b);
            }
        }
    }
}

/// The child of two genomes whose connections run towards larger `x`
/// has such connections.
pub proof fn lemma_child_forward(
    fitter: Seq<ConnectionGene>,
    other: Seq<ConnectionGene>,
    picks: Seq<bool>,
)
    requires
        forward(fitter),
        forward(other),
    ensures
        forward(gather(inherit(fitter, other, picks, 0, 0))),
{
    let taken = inherit(fitter, other, picks, 0, 0);
    let genes = gather(taken);
    lemma_inherit_from_parents(fitter, other, picks, 0, 0);
    lemma_gather_keys(taken);
    assert forall|i: int| 0 <= i < genes.len() implies (#[trigger] genes[i]).from.x@
        < genes[i].to.x@ by {
        assert(taken.contains(genes[i]));
        let k = choose|k: int| 0 <= k < taken.len() && taken[k] == genes[i];
        assert(fitter.contains(taken[k]) || other.contains(taken[k]));
        if fitter.contains(taken[k]) {
            let a = choose|a: int| 0 <= a < fitter.len() && fitter[a] == taken[k];
            assert(fitter[a].from.x@ < fitter[a].to.x@);
        } else {
            let b = choose|b: int| 0 <= b < other.len() && other[b] == taken[k];
            assert(other[b].from.x@ < other[b].to.x@);
        }
    }
}

/// A key of one of two lists is a key of the two lists in a row.
proof fn lemma_keys_of_sum(first: Seq<NodeGene>, second: Seq<NodeGene>, key: u64)
    requires
        keys_of(second).contains(key),
    ensures
        keys_of(first + second).contains(key),
{
    let k = choose|k: int| 0 <= k < second.len() && #[trigger] second[k].identity() == key;
    assert((first + second)[first.len() + k].identity() == key);
}

/// The end points of a connection of a genome of the registry have
/// numbers that the registry has handed out.
proof fn lemma_endpoint_known(
    connections: Seq<ConnectionGene>,
    nodes: Seq<NodeGene>,
    registry: RegistryModel,
    index: int,
)
    requires
        belongs(connections, nodes, registry),
        0 <= index < connections.len(),
    ensures
        1 <= connections[index].from.innovation_number <= registry.nodes.len(),
        1 <= connections[index].to.innovation_number <= registry.nodes.len(),
{
    assert(keys_of(nodes).contains(connections[index].from.identity()));
    assert(keys_of(nodes).contains(connections[index].to.identity()));
    let a = choose|a: int|
        0 <= a < nodes.len() && #[trigger] nodes[a].identity() == connections[index].from.identity();
    let b = choose|b: int|
        0 <= b < nodes.len() && #[trigger] nodes[b].identity() == connections[index].to.identity();
    assert(1 <= nodes[a].innovation_number <= registry.nodes.len());
    assert(1 <= nodes[b].innovation_number <= registry.nodes.len());
}

} // verus!
