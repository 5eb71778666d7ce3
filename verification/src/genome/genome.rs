use crate::data_structures::pseudo_float::{div_toward_zero, PseudoFloat, saturate, SCALE};
use crate::data_structures::random_hash_set::{
    distinct_keys,
    gather,
    insertion_point,
    keys_of,
    lemma_gather_distinct,
    lemma_gather_keys,
    lemma_gather_push,
    lemma_held_key,
    lemma_insert_keeps_ascending,
    lemma_insertion_point,
    RandomHashSet,
};
use crate::genome::alignment::{
    align,
    blend,
    distance_of,
    highest,
    inherit,
    lemma_ascending_at,
    lemma_inherit_self,
    lemma_well_ordered_length,
    well_ordered,
};
use crate::genome::connection_gene::ConnectionGene;
use crate::genome::gene::Gene;
use crate::genome::lineage::{lemma_child_belongs, lemma_child_forward, lemma_linked_belongs};
use crate::genome::mutation::{belongs, forward};
use crate::genome::node_gene::{lemma_node_held, NodeGene};
use crate::neat::config::Config;
use crate::neat::registry::{Registry, RegistryModel};
use crate::random::random_bool;
use vstd::prelude::*;
use vstd::std_specs::cmp::PartialEqSpecImpl;

verus! {

/// The end points of the genes of `genes`, gene by gene, the node a
/// connection leaves before the node it enters.
pub open spec fn endpoints(genes: Seq<ConnectionGene>) -> Seq<NodeGene>
    decreases genes.len(),
{
    if genes.len() == 0 {
        Seq::empty()
    } else {
        endpoints(genes.drop_last()).push(genes.last().from).push(genes.last().to)
    }
}

/// Whether a gene of `genes` has the innovation number `innovation`.
pub open spec fn has_number(genes: Seq<ConnectionGene>, innovation: u32) -> bool {
    exists|i: int| 0 <= i < genes.len() && (#[trigger] genes[i]).innovation_number == innovation
}

/// The connections of a genome after `gene` was put in: in its place by
/// innovation number, unless a gene with its end points or with its
/// number is already there, or its number is zero.
pub open spec fn with_connection(
    genes: Seq<ConnectionGene>,
    gene: ConnectionGene,
) -> Seq<ConnectionGene> {
    if keys_of(genes).contains(gene.identity()) || has_number(genes, gene.innovation_number)
        || gene.innovation_number == 0 {
        genes
    } else {
        genes.insert(insertion_point(genes, gene.innovation_number), gene)
    }
}

/// The encoding of one network: its connections, in growing order of
/// their innovation numbers, and its nodes.
#[derive(Debug)]
pub struct Genome {
    /// The connections of the network.
    pub connections: RandomHashSet<ConnectionGene>,
    /// The nodes of the network.
    pub nodes: RandomHashSet<NodeGene>,
}

/// Whether two lists of connection genes are as long as one another
/// and hold equal genes at every place.
pub open spec fn equal_connections(
    first: Seq<ConnectionGene>,
    second: Seq<ConnectionGene>,
) -> bool {
    &&& first.len() == second.len()
    &&& forall|i: int| 0 <= i < first.len() ==> (#[trigger] first[i]).equals(&second[i])
}

/// Whether two lists of node genes are as long as one another and hold
/// equal genes at every place.
pub open spec fn equal_nodes(first: Seq<NodeGene>, second: Seq<NodeGene>) -> bool {
    &&& first.len() == second.len()
    &&& forall|i: int| 0 <= i < first.len() ==> (#[trigger] first[i]).equals(&second[i])
}

impl PartialEq for Genome {
    /// Two genomes are equal when they hold equal connection genes and
    /// equal node genes in the same order.
    fn eq(&self, other: &Self) -> (equal: bool) {
        if self.connections.len() != other.connections.len() || self.nodes.len()
            != other.nodes.len() {
            return false;
        }
        let mut index: usize = 0;
        while index < self.connections.len()
            invariant
                index <= self.connections@.len(),
                self.connections@.len() == other.connections@.len(),
                forall|i: int|
                    0 <= i < index ==> (#[trigger] self.connections@[i]).equals(
                        &other.connections@[i],
                    ),
            decreases self.connections@.len() - index,
        {
            if *self.connections.get(index).unwrap() != *other.connections.get(index).unwrap() {
                return false;
            }
            index += 1;
        }
        let mut index: usize = 0;
        while index < self.nodes.len()
            invariant
                index <= self.nodes@.len(),
                self.nodes@.len() == other.nodes@.len(),
                equal_connections(self.connections@, other.connections@),
                forall|i: int|
                    0 <= i < index ==> (#[trigger] self.nodes@[i]).equals(&other.nodes@[i]),
            decreases self.nodes@.len() - index,
        {
            if *self.nodes.get(index).unwrap() != *other.nodes.get(index).unwrap() {
                return false;
            }
            index += 1;
        }
        true
    }
}

impl PartialEqSpecImpl for Genome {
    open spec fn obeys_eq_spec() -> bool {
        true
    }

    open spec fn eq_spec(&self, other: &Self) -> bool {
        equal_connections(self.connections@, other.connections@) && equal_nodes(
            self.nodes@,
            other.nodes@,
        )
    }
}

impl Default for Genome {
    /// A genome without genes.
    fn default() -> (genome: Self)
        ensures
            genome.wf(),
            genome.connections@ == Seq::<ConnectionGene>::empty(),
            genome.nodes@ == Seq::<NodeGene>::empty(),
    {
        Genome::new()
    }
}

impl Clone for Genome {
    /// A genome of the same genes.
    fn clone(&self) -> (copy: Self)
        ensures
            copy.connections@ == self.connections@,
            copy.nodes@ == self.nodes@,
            self.wf() ==> copy.wf(),
    {
        Genome { connections: self.connections.clone(), nodes: self.nodes.clone() }
    }
}

impl Genome {
    /// Both collections are in order, no two connections have the same
    /// end points, no two nodes have the same number, and the innovation
    /// numbers of the connections start at one or above and grow
    /// strictly.
    pub open spec fn wf(&self) -> bool {
        &&& self.connections.wf()
        &&& self.nodes.wf()
        &&& distinct_keys(self.connections@)
        &&& distinct_keys(self.nodes@)
        &&& well_ordered(self.connections@)
    }

    /// Whether this genome can have come out of the registry: every
    /// connection has the number under which the registry knows its end
    /// points and runs between nodes of the genome, and every node has a
    /// number that the registry has handed out.
    pub open spec fn belongs_to(&self, registry: RegistryModel) -> bool {
        belongs(self.connections@, self.nodes@, registry)
    }

    /// A genome without genes.
    pub fn new() -> (genome: Self)
        ensures
            genome.wf(),
            genome.connections@ == Seq::<ConnectionGene>::empty(),
            genome.nodes@ == Seq::<NodeGene>::empty(),
    {
        Genome { connections: RandomHashSet::new(), nodes: RandomHashSet::new() }
    }

    /// The innovation number of the last connection, or zero where there
    /// is no connection.
    pub fn highest_innov_num(&self) -> (number: u32)
        ensures
            number == highest(self.connections@),
    {
        match self.connections.get(self.connections.len().wrapping_sub(1)) {
            Some(gene) => gene.innovation_number,
            None => 0,
        }
    }

    /// The connection at `index`.
    pub fn get_connection(&self, index: usize) -> (gene: &ConnectionGene)
        requires
            index < self.connections@.len(),
        ensures
            *gene == self.connections@[index as int],
    {
        self.connections.get(index).unwrap()
    }

    /// Puts `gene` among the connections and says whether it went in: see
    /// [`with_connection`].
    pub fn insert_connection(&mut self, gene: ConnectionGene) -> (inserted: bool)
        requires
            old(self).wf(),
        ensures
            final(self).wf(),
            final(self).nodes@ == old(self).nodes@,
            final(self).connections@ == with_connection(old(self).connections@, gene),
            inserted == (final(self).connections@.len() == old(self).connections@.len() + 1),
            !inserted ==> final(self).connections@ == old(self).connections@,
    {
        if gene.innovation_number == 0 || self.connections.contains_key(&gene) {
            return false;
        }
        let place = self.connections.find_place(gene.innovation_number);
        let ghost genes = self.connections@;
        proof {
            lemma_insertion_point(genes, gene.innovation_number);
        }
        if place > 0 && self.get_connection(place - 1).innovation_number
            == gene.innovation_number {
            return false;
        }
        proof {
            assert forall|i: int| 0 <= i < genes.len() implies (#[trigger] genes[i]).innovation()
                != gene.innovation() by {
                if i < place {
                    if i < place - 1 {
                        lemma_ascending_at(genes, i, place - 1);
                    }
                } else {
                    assert(genes[i].innovation() > gene.innovation_number);
                }
            }
            assert(!has_number(genes, gene.innovation_number)) by {
                if has_number(genes, gene.innovation_number) {
                    let i = choose|i: int|
                        0 <= i < genes.len() && (#[trigger] genes[i]).innovation_number
                            == gene.innovation_number;
                    assert(genes[i].innovation() != gene.innovation());
                }
            }
            lemma_insert_keeps_ascending(genes, gene);
            let after = genes.insert(place as int, gene);
            if place > 0 {
                assert(after[0] == genes[0]);
            } else {
                assert(after[0] == gene);
            }
        }
        self.connections.add_sorted(gene);
        true
    }

    /// Connects the node at `index1` of this genome to the node at
    /// `index2` with the gene the registry hands out for the pair.
    pub fn add_connection(&mut self, registry: &mut Registry, index1: usize, index2: usize)
        requires
            old(self).wf(),
            old(registry).wf(),
            index1 < old(self).nodes@.len(),
            index2 < old(self).nodes@.len(),
            old(registry)@.knows(old(self).nodes@[index1 as int], old(self).nodes@[index2 as int])
                || old(registry)@.has_room_for_connections(1),
        ensures
            final(self).wf(),
            final(registry).wf(),
            final(registry)@ == old(registry)@.connect(
                old(self).nodes@[index1 as int],
                old(self).nodes@[index2 as int],
            ),
            final(self).nodes@ == old(self).nodes@,
            final(self).connections@ == with_connection(
                old(self).connections@,
                old(registry)@.connection(
                    old(self).nodes@[index1 as int],
                    old(self).nodes@[index2 as int],
                ),
            ),
            old(self).belongs_to(old(registry)@) ==> final(self).belongs_to(final(registry)@),
    {
        let node1 = *self.nodes.get(index1).unwrap();
        let node2 = *self.nodes.get(index2).unwrap();
        proof {
            if self.belongs_to(registry@) {
                assert(self.nodes@[index1 as int].identity() == node1.identity());
                assert(self.nodes@[index2 as int].identity() == node2.identity());
                lemma_linked_belongs(
                    self.connections@,
                    self.nodes@,
                    registry@,
                    node1,
                    node2,
                    registry@.connection(node1, node2).weight,
                );
            }
        }
        let gene = registry.get_connection(node1, node2);
        self.insert_connection(gene);
    }

    /// Takes `gene` and its end points over into this genome, which was
    /// gathered from the genes `taken` and the nodes `base`.
    fn take_over(
        &mut self,
        gene: ConnectionGene,
        Ghost(taken): Ghost<Seq<ConnectionGene>>,
        Ghost(base): Ghost<Seq<NodeGene>>,
    )
        requires
            old(self).connections.wf(),
            old(self).nodes.wf(),
            old(self).connections@ == gather(taken),
            old(self).nodes@ == gather(base + endpoints(taken)),
        ensures
            final(self).connections.wf(),
            final(self).nodes.wf(),
            final(self).connections@ == gather(taken.push(gene)),
            final(self).nodes@ == gather(base + endpoints(taken.push(gene))),
            final(self).connections@ == old(self).connections@ || final(self).connections@ == old(self).connections@.push(gene),
    {
        proof {
            lemma_gather_push(taken, gene);
            let ends = base + endpoints(taken);
            lemma_gather_push(ends, gene.from);
            lemma_gather_push(ends.push(gene.from), gene.to);
            assert(taken.push(gene).drop_last() =~= taken);
            assert(base + endpoints(taken.push(gene)) =~= ends.push(gene.from).push(gene.to));
        }
        if !self.connections.contains_key(&gene) {
            proof {
                lemma_held_key(self.connections@, gene);
            }
            self.connections.add(gene);
        }
        proof {
            lemma_node_held(self.nodes@, gene.from);
        }
        self.nodes.add(gene.from);
        proof {
            lemma_node_held(self.nodes@, gene.to);
        }
        self.nodes.add(gene.to);
    }

    /// The child of two genomes, the fitter one first, with the choices
    /// between matching genes given by `picks`: see [`inherit`]. The child
    /// has the nodes every network has and the end points of its
    /// connections.
    pub fn crossover_with(
        registry: &Registry,
        genome1: &Genome,
        genome2: &Genome,
        picks: &Vec<bool>,
    ) -> (baby: Genome)
        requires
            registry.wf(),
            genome1.wf(),
            genome2.wf(),
            picks@.len() >= genome1.connections@.len(),
        ensures
            baby.wf(),
            baby.connections@ == gather(
                inherit(genome1.connections@, genome2.connections@, picks@, 0, 0),
            ),
            baby.nodes@ == gather(
                registry@.base_nodes() + endpoints(
                    inherit(genome1.connections@, genome2.connections@, picks@, 0, 0),
                ),
            ),
            genome1.belongs_to(registry@) && genome2.belongs_to(registry@) ==> baby.belongs_to(
                registry@,
            ),
            forward(genome1.connections@) && forward(genome2.connections@) ==> forward(
                baby.connections@,
            ),
    {
        proof {
            if forward(genome1.connections@) && forward(genome2.connections@) {
                lemma_child_forward(genome1.connections@, genome2.connections@, picks@);
            }
            if genome1.belongs_to(registry@) && genome2.belongs_to(registry@) {
                lemma_child_belongs(
                    genome1.connections@,
                    genome1.nodes@,
                    genome2.connections@,
                    genome2.nodes@,
                    registry@,
                    picks@,
                );
            }
        }
        let mut baby = registry.empty_genome();
        let ghost fitter = genome1.connections@;
        let ghost other = genome2.connections@;
        let ghost base = registry@.base_nodes();
        let ghost total = inherit(fitter, other, picks@, 0, 0);
        let ghost mut taken: Seq<ConnectionGene> = Seq::empty();
        let len1 = genome1.connections.len();
        let len2 = genome2.connections.len();
        let mut index1: usize = 0;
        let mut index2: usize = 0;
        proof {
            assert(base + endpoints(taken) =~= base);
            assert(distinct_keys(base)) by {
                assert forall|i: int, j: int| 0 <= i < j < base.len() implies #[trigger] base[i].identity()
                    != #[trigger] base[j].identity() by {
                    assert(base[i] == registry@.nodes[i]);
                    assert(base[j] == registry@.nodes[j]);
                    assert(registry@.nodes[i].innovation_number == i + 1);
                    assert(registry@.nodes[j].innovation_number == j + 1);
                }
            }
            lemma_gather_distinct(base);
            assert(total =~= taken + total);
        }
        while index1 < len1 && index2 < len2
            invariant
                fitter == genome1.connections@,
                other == genome2.connections@,
                well_ordered(fitter),
                len1 == fitter.len(),
                len2 == other.len(),
                index1 <= len1,
                index2 <= len2,
                picks@.len() >= fitter.len(),
                total == taken + inherit(fitter, other, picks@, index1 as int, index2 as int),
                baby.connections.wf(),
                baby.nodes.wf(),
                baby.connections@ == gather(taken),
                baby.nodes@ == gather(base + endpoints(taken)),
                well_ordered(baby.connections@),
                index1 == 0 ==> baby.connections@.len() == 0,
                index1 > 0 ==> forall|k: int|
                    0 <= k < baby.connections@.len() ==> (
                    #[trigger] baby.connections@[k]).innovation_number <= fitter[index1
                        - 1].innovation_number,
            decreases len1 - index1 + (len2 - index2),
        {
            let gene1 = *genome1.get_connection(index1);
            let gene2 = *genome2.get_connection(index2);
            let ghost rest_before = inherit(fitter, other, picks@, index1 as int, index2 as int);
            if gene1.innovation_number == gene2.innovation_number {
                let gene = if picks[index1] {
                    gene1
                } else {
                    gene2
                };
                proof {
                    lemma_keeps_order(baby.connections@, fitter, index1 as int, gene);
                    let rest = inherit(fitter, other, picks@, index1 + 1, index2 + 1);
                    assert(taken + (seq![gene] + rest) =~= taken.push(gene) + rest);
                }
                baby.take_over(gene, Ghost(taken), Ghost(base));
                proof {
                    taken = taken.push(gene);
                }
                index1 += 1;
                index2 += 1;
            } else if gene1.innovation_number > gene2.innovation_number {
                index2 += 1;
            } else {
                proof {
                    lemma_keeps_order(baby.connections@, fitter, index1 as int, gene1);
                    let rest = inherit(fitter, other, picks@, index1 + 1, index2 as int);
                    assert(taken + (seq![gene1] + rest) =~= taken.push(gene1) + rest);
                }
                baby.take_over(gene1, Ghost(taken), Ghost(base));
                proof {
                    taken = taken.push(gene1);
                }
                index1 += 1;
            }
        }
        while index1 < len1
            invariant
                fitter == genome1.connections@,
                well_ordered(fitter),
                len1 == fitter.len(),
                index1 <= len1,
                total == taken + fitter.subrange(index1 as int, len1 as int),
                baby.connections.wf(),
                baby.nodes.wf(),
                baby.connections@ == gather(taken),
                baby.nodes@ == gather(base + endpoints(taken)),
                well_ordered(baby.connections@),
                index1 == 0 ==> baby.connections@.len() == 0,
                index1 > 0 ==> forall|k: int|
                    0 <= k < baby.connections@.len() ==> (
                    #[trigger] baby.connections@[k]).innovation_number <= fitter[index1
                        - 1].innovation_number,
            decreases len1 - index1,
        {
            let gene1 = *genome1.get_connection(index1);
            proof {
                lemma_keeps_order(baby.connections@, fitter, index1 as int, gene1);
                let rest = fitter.subrange(index1 + 1, len1 as int);
                assert(fitter.subrange(index1 as int, len1 as int) =~= seq![gene1] + rest);
                assert(taken + (seq![gene1] + rest) =~= taken.push(gene1) + rest);
            }
            baby.take_over(gene1, Ghost(taken), Ghost(base));
            proof {
                taken = taken.push(gene1);
            }
            index1 += 1;
        }
        proof {
            assert(fitter.subrange(len1 as int, len1 as int) =~= Seq::<ConnectionGene>::empty());
            assert(total =~= taken);
            lemma_gather_keys(taken);
            lemma_gather_keys(base + endpoints(taken));
        }
        baby
    }

    /// The child of two genomes, the fitter one first. Of two matching
    /// genes a coin decides which one the child gets; which genome counts
    /// as the fitter one when both are equally fit is the caller's choice.
    pub fn crossover(registry: &Registry, genome1: &Genome, genome2: &Genome) -> (baby: Genome)
        requires
            registry.wf(),
            genome1.wf(),
            genome2.wf(),
        ensures
            baby.wf(),
            exists|picks: Seq<bool>|
                picks.len() == genome1.connections@.len() && baby.connections@ == gather(
                    #[trigger] inherit(genome1.connections@, genome2.connections@, picks, 0, 0),
                ) && baby.nodes@ == gather(
                    registry@.base_nodes() + endpoints(
                        inherit(genome1.connections@, genome2.connections@, picks, 0, 0),
                    ),
                ),
            genome1.belongs_to(registry@) && genome2.belongs_to(registry@) ==> baby.belongs_to(
                registry@,
            ),
            forward(genome1.connections@) && forward(genome2.connections@) ==> forward(
                baby.connections@,
            ),
    {
        let mut picks: Vec<bool> = Vec::new();
        let len = genome1.connections.len();
        while picks.len() < len
            invariant
                picks@.len() <= len,
            decreases len - picks@.len(),
        {
            picks.push(random_bool());
        }
        Genome::crossover_with(registry, genome1, genome2, &picks)
    }

    /// Walks the connections of two genomes side by side and counts: the
    /// matching genes, the disjoint genes, the sum of the weight
    /// differences of the matching genes, and how far the walk came in the
    /// first genome.
    pub fn walk(genome1: &Genome, genome2: &Genome) -> (counts: (u64, u64, u128, usize))
        requires
            genome1.wf(),
            genome2.wf(),
        ensures
            counts.0 == align(genome1.connections@, genome2.connections@, 0, 0).matching,
            counts.1 == align(genome1.connections@, genome2.connections@, 0, 0).disjoint,
            counts.2 == align(genome1.connections@, genome2.connections@, 0, 0).weight_diff,
            counts.3 == align(genome1.connections@, genome2.connections@, 0, 0).first_end,
            counts.3 <= genome1.connections@.len() <= u32::MAX,
            genome2.connections@.len() <= u32::MAX,
            counts.0 <= u32::MAX,
            counts.1 <= 2 * u32::MAX,
            counts.2 <= counts.0 * 0xffff_ffff_ffff_ffff,
    {
        let ghost first = genome1.connections@;
        let ghost second = genome2.connections@;
        let ghost walk = align(first, second, 0, 0);
        let len1 = genome1.connections.len();
        let len2 = genome2.connections.len();
        proof {
            if first.len() > 0 {
                lemma_well_ordered_length(first, first.len() - 1);
            }
            if second.len() > 0 {
                lemma_well_ordered_length(second, second.len() - 1);
            }
        }
        let mut index1: usize = 0;
        let mut index2: usize = 0;
        let mut num_disjoint: u64 = 0;
        let mut total_weight_diff: u128 = 0;
        let mut num_weight_similar: u64 = 0;
        while index1 < len1 && index2 < len2
            invariant
                first == genome1.connections@,
                second == genome2.connections@,
                len1 == first.len(),
                len2 == second.len(),
                first.len() <= u32::MAX,
                second.len() <= u32::MAX,
                index1 <= len1,
                index2 <= len2,
                walk == align(first, second, 0, 0),
                walk.matching == num_weight_similar + align(
                    first,
                    second,
                    index1 as int,
                    index2 as int,
                ).matching,
                walk.disjoint == num_disjoint + align(
                    first,
                    second,
                    index1 as int,
                    index2 as int,
                ).disjoint,
                walk.weight_diff == total_weight_diff + align(
                    first,
                    second,
                    index1 as int,
                    index2 as int,
                ).weight_diff,
                walk.first_end == align(first, second, index1 as int, index2 as int).first_end,
                num_weight_similar <= index1,
                num_disjoint <= index1 + index2,
                total_weight_diff <= num_weight_similar * 0xffff_ffff_ffff_ffff,
            decreases len1 - index1 + (len2 - index2),
        {
            let gene1 = genome1.get_connection(index1);
            let gene2 = genome2.get_connection(index2);
            let innov1 = gene1.innovation_number;
            let innov2 = gene2.innovation_number;
            if innov1 == innov2 {
                num_weight_similar += 1;
                total_weight_diff += gene1.weight.abs_diff(gene2.weight) as u128;
                index1 += 1;
                index2 += 1;
            } else if innov1 > innov2 {
                num_disjoint += 1;
                index2 += 1;
            } else {
                num_disjoint += 1;
                index1 += 1;
            }
        }
        (num_weight_similar, num_disjoint, total_weight_diff, index1)
    }

    /// The compatibility distance of two genomes: see [`distance_of`].
    pub fn distance(input_genome1: &Genome, input_genome2: &Genome, config: &Config) -> (distance:
        PseudoFloat)
        requires
            input_genome1.wf(),
            input_genome2.wf(),
        ensures
            distance@ == distance_of(
                input_genome1.connections@,
                input_genome2.connections@,
                *config,
            ),
    {
        if input_genome1.connections.is_empty() && input_genome2.connections.is_empty() {
            return PseudoFloat::zero();
        }
        let swap = input_genome1.highest_innov_num() < input_genome2.highest_innov_num();
        let genome1 = if swap {
            input_genome2
        } else {
            input_genome1
        };
        let genome2 = if swap {
            input_genome1
        } else {
            input_genome2
        };
        let (num_weight_similar, num_disjoint, total_weight_diff, index1) = Genome::walk(
            genome1,
            genome2,
        );
        let len1 = genome1.connections.len();
        let len2 = genome2.connections.len();
        let longer: usize = if len1 >= len2 {
            len1
        } else {
            len2
        };
        let total_genes: u64 = if longer < 20 {
            1
        } else {
            longer as u64
        };
        blend_counts(
            config,
            num_weight_similar,
            num_disjoint,
            total_weight_diff,
            (len1 - index1) as u64,
            total_genes,
        )
    }
}

/// Turns the counts of a walk into a distance: see [`blend`].
pub fn blend_counts(
    config: &Config,
    matching: u64,
    disjoint: u64,
    weight_diff: u128,
    excess: u64,
    total: u64,
) -> (distance: PseudoFloat)
    requires
        total > 0,
        disjoint <= 0x2_0000_0000,
        excess <= 0x2_0000_0000,
        weight_diff <= matching * 0xffff_ffff_ffff_ffff,
    ensures
        distance@ == blend(
            *config,
            matching as int,
            disjoint as int,
            weight_diff as int,
            excess as int,
            total as int,
        ),
{
    let mean: u128 = if matching == 0 {
        0
    } else {
        weight_diff / (matching as u128)
    };
    proof {
        assert(mean <= 0xffff_ffff_ffff_ffff) by (nonlinear_arith)
            requires
                matching > 0 ==> mean == weight_diff as int / (matching as int),
                matching == 0 ==> mean == 0,
                weight_diff <= matching * 0xffff_ffff_ffff_ffff,
        ;
        lemma_term_fits(config.mult_disjoint@, disjoint as int);
        lemma_term_fits(config.mult_excess@, excess as int);
        lemma_mean_fits(config.mult_weight_diff@, mean as int);
    }
    let disjoint_part = div_toward_zero(
        config.mult_disjoint.units as i128 * disjoint as i128,
        total as i128,
    );
    let excess_part = div_toward_zero(
        config.mult_excess.units as i128 * excess as i128,
        total as i128,
    );
    let weight_part = div_toward_zero(
        config.mult_weight_diff.units as i128 * mean as i128,
        SCALE as i128,
    );
    PseudoFloat::new(saturate(disjoint_part + excess_part + weight_part))
}

/// A genome crossed with itself gives a child with the same connections
/// in the same order, whatever the choices between matching genes are.
/// The nodes of the child are the nodes every network has and then the
/// end points of the connections.
pub proof fn lemma_crossover_self(
    connections: Seq<ConnectionGene>,
    base: Seq<NodeGene>,
    picks: Seq<bool>,
)
    requires
        distinct_keys(connections),
    ensures
        gather(inherit(connections, connections, picks, 0, 0)) == connections,
        gather(base + endpoints(inherit(connections, connections, picks, 0, 0))) == gather(
            base + endpoints(connections),
        ),
{
    lemma_inherit_self(connections, picks, 0);
    assert(connections.subrange(0, connections.len() as int) =~= connections);
    lemma_gather_distinct(connections);
}

/// A gene with the number of the fitter parent's gene at `index` can go
/// behind the genes taken over so far.
proof fn lemma_keeps_order(
    child: Seq<ConnectionGene>,
    fitter: Seq<ConnectionGene>,
    index: int,
    gene: ConnectionGene,
)
    requires
        well_ordered(child),
        well_ordered(fitter),
        0 <= index < fitter.len(),
        gene.innovation_number == fitter[index].innovation_number,
        index == 0 ==> child.len() == 0,
        index > 0 ==> forall|k: int|
            0 <= k < child.len() ==> (#[trigger] child[k]).innovation_number <= fitter[index
                - 1].innovation_number,
    ensures
        well_ordered(child.push(gene)),
        forall|k: int|
            0 <= k < child.push(gene).len() ==> (#[trigger] child.push(gene)[k]).innovation_number
                <= fitter[index].innovation_number,
        forall|k: int|
            0 <= k < child.len() ==> (#[trigger] child[k]).innovation_number
                <= fitter[index].innovation_number,
{
    lemma_well_ordered_length(fitter, index);
    if index > 0 {
        lemma_ascending_at(fitter, index - 1, index);
    }
    let after = child.push(gene);
    assert forall|i: int, j: int| 0 <= i < j < after.len() implies #[trigger] after[i].innovation()
        < #[trigger] after[j].innovation() by {
        if j < child.len() {
            lemma_ascending_at(child, i, j);
        } else {
            assert(after[i] == child[i]);
            assert(child[i].innovation_number <= fitter[index - 1].innovation_number);
        }
    }
    if child.len() > 0 {
        assert(after[0] == child[0]);
    }
}

/// A multiplier times a count of genes stays far inside the wide range.
proof fn lemma_term_fits(multiplier: int, count: int)
    requires
        i64::MIN <= multiplier <= i64::MAX,
        0 <= count <= 0x2_0000_0000,
    ensures
        -0x1_0000_0000_0000_0000_0000_0000 <= multiplier * count
            <= 0x1_0000_0000_0000_0000_0000_0000,
{
    assert(multiplier * count <= 0x1_0000_0000_0000_0000_0000_0000) by (nonlinear_arith)
        requires
            -0x8000_0000_0000_0000 <= multiplier <= 0x7fff_ffff_ffff_ffff,
            0 <= count <= 0x2_0000_0000,
    ;
    assert(multiplier * count >= -0x1_0000_0000_0000_0000_0000_0000) by (nonlinear_arith)
        requires
            -0x8000_0000_0000_0000 <= multiplier <= 0x7fff_ffff_ffff_ffff,
            0 <= count <= 0x2_0000_0000,
    ;
}

/// A multiplier times a mean weight difference stays inside the wide
/// range.
proof fn lemma_mean_fits(multiplier: int, mean: int)
    requires
        i64::MIN <= multiplier <= i64::MAX,
        0 <= mean <= 0xffff_ffff_ffff_ffff,
    ensures
        -0x8000_0000_0000_0000_0000_0000_0000_0000 < multiplier * mean
            < 0x8000_0000_0000_0000_0000_0000_0000_0000,
{
    assert(multiplier * mean < 0x8000_0000_0000_0000_0000_0000_0000_0000) by (nonlinear_arith)
        requires
            -0x8000_0000_0000_0000 <= multiplier <= 0x7fff_ffff_ffff_ffff,
            0 <= mean <= 0xffff_ffff_ffff_ffff,
    ;
    assert(multiplier * mean > -0x8000_0000_0000_0000_0000_0000_0000_0000) by (nonlinear_arith)
        requires
            -0x8000_0000_0000_0000 <= multiplier <= 0x7fff_ffff_ffff_ffff,
            0 <= mean <= 0xffff_ffff_ffff_ffff,
    ;
}

} // verus!
