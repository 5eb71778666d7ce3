use crate::data_structures::pseudo_float::{div_toward_zero, PseudoFloat, SCALE, trunc_div};
use crate::data_structures::random_hash_set::gather;
use crate::genome::alignment::{distance_of, inherit};
use crate::genome::connection_gene::ConnectionGene;
use crate::genome::genome::{endpoints, Genome};
use crate::genome::mutation::forward;
use crate::neat::client::Client;
use crate::neat::config::Config;
use crate::neat::registry::Registry;
use crate::random::random_index;
use vstd::prelude::*;

verus! {

/// A cluster of clients whose genomes lie close to the genome of one
/// client, the representative. Clients are named by their place in the
/// population.
#[derive(Clone, Debug)]
pub struct Species {
    /// The members.
    pub clients: Vec<usize>,
    /// The client that new members are compared with.
    pub representative: usize,
    /// The mean fitness of the members when it was last worked out.
    pub average_fitness: PseudoFloat,
}

/// Whether every member of `members` is a place in a population of
/// `count` clients.
pub open spec fn within(members: Seq<usize>, count: nat) -> bool {
    forall|i: int| 0 <= i < members.len() ==> (#[trigger] members[i]) < count
}

/// Whether `place` is one of the places of `who`.
pub open spec fn names(who: Seq<usize>, place: int) -> bool {
    exists|j: int| 0 <= j < who.len() && #[trigger] who[j] == place
}

/// The population in which the clients of `who` have no species and
/// everything else is as in `population`.
pub open spec fn orphaned(population: Seq<Client>, who: Seq<usize>) -> Seq<Client> {
    Seq::new(
        population.len(),
        |i: int|
            if names(who, i) {
                Client { has_species: false, ..population[i] }
            } else {
                population[i]
            },
    )
}

/// The population in which the client at `who` has a species and
/// everything else is as in `population`.
pub open spec fn adopted(population: Seq<Client>, who: int) -> Seq<Client> {
    population.update(who, Client { has_species: true, ..population[who] })
}

/// The sum of the fitness of the first `n` members, in units.
pub open spec fn fitness_sum(population: Seq<Client>, members: Seq<usize>, n: int) -> int
    decreases n,
{
    if n <= 0 {
        0
    } else {
        fitness_sum(population, members, n - 1) + population[members[n - 1] as int].fitness@
    }
}

/// The mean fitness of the members, rounded towards zero, and zero for
/// no members.
pub open spec fn mean_fitness(population: Seq<Client>, members: Seq<usize>) -> int {
    if members.len() == 0 {
        0
    } else {
        trunc_div(fitness_sum(population, members, members.len() as int), members.len() as int)
    }
}

/// Where a client of fitness `fitness` goes into the ranking `ranking`:
/// behind the last client whose fitness is not larger.
pub open spec fn rank_slot(population: Seq<Client>, ranking: Seq<usize>, fitness: int) -> int
    decreases ranking.len(),
{
    if ranking.len() == 0 || population[ranking.last() as int].fitness@ <= fitness {
        ranking.len() as int
    } else {
        rank_slot(population, ranking.drop_last(), fitness)
    }
}

/// The first `n` members in growing order of fitness, members of the
/// same fitness in their order among the members.
pub open spec fn ranked(population: Seq<Client>, members: Seq<usize>, n: int) -> Seq<usize>
    decreases n,
{
    if n <= 0 {
        Seq::empty()
    } else {
        let before = ranked(population, members, n - 1);
        before.insert(
            rank_slot(population, before, population[members[n - 1] as int].fitness@),
            members[n - 1],
        )
    }
}

/// The genes that a child of the members at `first` and `second` takes
/// over, with the choices between matching genes given by `picks`: see
/// [`inherit`]. The member of higher fitness is the fitter parent, and
/// the second one where both are equally fit.
pub open spec fn inherited(
    population: Seq<Client>,
    members: Seq<usize>,
    first: int,
    second: int,
    picks: Seq<bool>,
) -> Seq<ConnectionGene> {
    let one = population[members[first] as int];
    let two = population[members[second] as int];
    if one.fitness@ > two.fitness@ {
        inherit(one.genome.connections@, two.genome.connections@, picks, 0, 0)
    } else {
        inherit(two.genome.connections@, one.genome.connections@, picks, 0, 0)
    }
}

/// How many of `size` members are removed at the share `percentage`:
/// the share of the size, rounded down, and not fewer than none nor more
/// than all.
pub open spec fn kill_count(percentage: int, size: int) -> int {
    let share = trunc_div(percentage * size, SCALE as int);
    if share < 0 {
        0
    } else if share > size {
        size
    } else {
        share
    }
}

impl Species {
    /// A species of one member, which represents it.
    pub fn new(representative: usize) -> (species: Self)
        ensures
            species.clients@ == seq![representative],
            species.representative == representative,
            species.average_fitness@ == 0,
    {
        let mut clients = Vec::new();
        clients.push(representative);
        Species { clients, representative, average_fitness: PseudoFloat::zero() }
    }

    /// Takes the client at `client` in if the distance of its genome from
    /// the genome of the representative is below the species threshold,
    /// and says whether it did.
    pub fn put(&mut self, population: &mut Vec<Client>, client: usize, config: &Config) -> (accepted:
        bool)
        requires
            old(self).representative < old(population)@.len(),
            client < old(population)@.len(),
            old(population)@[client as int].genome.wf(),
            old(population)@[old(self).representative as int].genome.wf(),
        ensures
            accepted == (distance_of(
                old(population)@[client as int].genome.connections@,
                old(population)@[old(self).representative as int].genome.connections@,
                *config,
            ) < config.species_threshold@),
            final(self).representative == old(self).representative,
            final(self).average_fitness == old(self).average_fitness,
            accepted ==> final(self).clients@ == old(self).clients@.push(client) && final(population)@ == adopted(old(population)@, client as int),
            !accepted ==> final(self).clients@ == old(self).clients@ && final(population)@ == old(population)@,
    {
        let distance = population[client].distance(&population[self.representative], config);
        if distance.units < config.species_threshold.units {
            population[client].has_species = true;
            self.clients.push(client);
            true
        } else {
            false
        }
    }

    /// Takes the client at `client` in, whatever its genome.
    pub fn force_put(&mut self, population: &mut Vec<Client>, client: usize)
        requires
            client < old(population)@.len(),
        ensures
            final(self).representative == old(self).representative,
            final(self).average_fitness == old(self).average_fitness,
            final(self).clients@ == old(self).clients@.push(client),
            final(population)@ == adopted(old(population)@, client as int),
    {
        population[client].has_species = true;
        self.clients.push(client);
    }

    /// Tells every member that it has no species any more. The species
    /// itself stays as it is.
    pub fn go_extinct(&self, population: &mut Vec<Client>)
        requires
            within(self.clients@, old(population)@.len()),
        ensures
            final(population)@ == orphaned(old(population)@, self.clients@),
    {
        release(population, &self.clients, self.clients.len());
        assert(self.clients@.take(self.clients@.len() as int) =~= self.clients@);
    }

    /// Works out the mean fitness of the members: see [`mean_fitness`].
    pub fn evaluate_fitness(&mut self, population: &Vec<Client>)
        requires
            within(old(self).clients@, population@.len()),
        ensures
            final(self).clients == old(self).clients,
            final(self).representative == old(self).representative,
            final(self).average_fitness@ == mean_fitness(population@, old(self).clients@),
    {
        let count = self.clients.len();
        if count == 0 {
            self.average_fitness = PseudoFloat::zero();
            return;
        }
        let mut total: i128 = 0;
        let mut index: usize = 0;
        while index < count
            invariant
                index <= count,
                count == self.clients@.len(),
                *self == *old(self),
                within(self.clients@, population@.len()),
                total == fitness_sum(population@, self.clients@, index as int),
                -0x8000_0000_0000_0000 * index <= total <= 0x8000_0000_0000_0000 * index,
            decreases count - index,
        {
            total = total + population[self.clients[index]].fitness.units as i128;
            index += 1;
        }
        let mean = div_toward_zero(total, count as i128);
        proof {
            let wide = total as int;
            let size = count as int;
            assert(-0x8000_0000_0000_0000 <= trunc_div(wide, size) <= 0x8000_0000_0000_0000)
                by (nonlinear_arith)
                requires
                    size > 0,
                    -0x8000_0000_0000_0000 * size <= wide <= 0x8000_0000_0000_0000 * size,
            ;
            assert(trunc_div(wide, size) < 0x8000_0000_0000_0000) by {
                lemma_mean_below_top(population@, self.clients@, size);
            }
        }
        self.average_fitness = PseudoFloat::new(mean as i64);
    }

    /// Starts the species anew around the member at `pick`: it becomes
    /// the representative and the only member, all other members lose
    /// their species, and the mean fitness is zero.
    pub fn reset_to(&mut self, population: &mut Vec<Client>, pick: usize)
        requires
            within(old(self).clients@, old(population)@.len()),
            pick < old(self).clients@.len(),
        ensures
            final(self).representative == old(self).clients@[pick as int],
            final(self).clients@ == seq![old(self).clients@[pick as int]],
            final(self).average_fitness@ == 0,
            final(population)@ == adopted(
                orphaned(old(population)@, old(self).clients@),
                old(self).clients@[pick as int] as int,
            ),
    {
        self.representative = self.clients[pick];
        release(population, &self.clients, self.clients.len());
        assert(self.clients@.take(self.clients@.len() as int) =~= self.clients@);
        self.clients.clear();
        population[self.representative].has_species = true;
        self.clients.push(self.representative);
        self.average_fitness = PseudoFloat::zero();
    }

    /// Starts the species anew around a member drawn at random: see
    /// [`Species::reset_to`]. The species has a member.
    pub fn reset(&mut self, population: &mut Vec<Client>)
        requires
            within(old(self).clients@, old(population)@.len()),
            old(self).clients@.len() > 0,
        ensures
            names(old(self).clients@, final(self).representative as int),
            final(self).clients@ == seq![final(self).representative],
            final(self).average_fitness@ == 0,
            final(population)@ == adopted(
                orphaned(old(population)@, old(self).clients@),
                final(self).representative as int,
            ),
    {
        let pick = random_index(self.clients.len());
        self.reset_to(population, pick);
    }

    /// Puts the members in growing order of fitness and removes the
    /// first [`kill_count`] of them, which lose their species.
    pub fn kill(&mut self, population: &mut Vec<Client>, percentage: PseudoFloat)
        requires
            within(old(self).clients@, old(population)@.len()),
        ensures
            final(self).representative == old(self).representative,
            final(self).average_fitness == old(self).average_fitness,
            final(self).clients@ == ranked(
                old(population)@,
                old(self).clients@,
                old(self).clients@.len() as int,
            ).skip(kill_count(percentage@, old(self).clients@.len() as int)),
            final(population)@ == orphaned(
                old(population)@,
                ranked(old(population)@, old(self).clients@, old(self).clients@.len() as int).take(
                    kill_count(percentage@, old(self).clients@.len() as int),
                ),
            ),
    {
        let order = rank(population, &self.clients);
        let size = self.clients.len();
        proof {
            lemma_share_fits(percentage@, size as int);
        }
        let share = div_toward_zero(percentage.units as i128 * size as i128, SCALE as i128);
        let count: usize = if share < 0 {
            0
        } else if share > size as i128 {
            size
        } else {
            share as usize
        };
        release(population, &order, count);
        let mut survivors: Vec<usize> = Vec::new();
        let mut index: usize = count;
        while index < size
            invariant
                count <= index <= size,
                size == order@.len(),
                survivors@ == order@.subrange(count as int, index as int),
            decreases size - index,
        {
            survivors.push(order[index]);
            assert(order@.subrange(count as int, index + 1) =~= order@.subrange(
                count as int,
                index as int,
            ).push(order@[index as int]));
            index += 1;
        }
        assert(order@.subrange(count as int, size as int) =~= order@.skip(count as int));
        self.clients = survivors;
    }

    /// The child of the members at `first` and `second`, the one of
    /// higher fitness as the fitter parent and the second one where both
    /// are equally fit, with the choices between matching genes given by
    /// `picks`.
    pub fn breed_with(
        &self,
        population: &Vec<Client>,
        registry: &Registry,
        first: usize,
        second: usize,
        picks: &Vec<bool>,
    ) -> (child: Genome)
        requires
            within(self.clients@, population@.len()),
            first < self.clients@.len(),
            second < self.clients@.len(),
            registry.wf(),
            population@[self.clients@[first as int] as int].genome.wf(),
            population@[self.clients@[second as int] as int].genome.wf(),
            picks@.len() >= population@[self.clients@[first as int] as int].genome.connections@.len(),
            picks@.len() >= population@[self.clients@[second as int] as int].genome.connections@.len(),
        ensures
            child.wf(),
            child.connections@ == gather(
                inherited(population@, self.clients@, first as int, second as int, picks@),
            ),
            child.nodes@ == gather(
                registry@.base_nodes() + endpoints(
                    inherited(population@, self.clients@, first as int, second as int, picks@),
                ),
            ),
            population@[self.clients@[first as int] as int].genome.belongs_to(registry@)
                && population@[self.clients@[second as int] as int].genome.belongs_to(registry@)
                ==> child.belongs_to(registry@),
            forward(population@[self.clients@[first as int] as int].genome.connections@)
                && forward(population@[self.clients@[second as int] as int].genome.connections@)
                ==> forward(child.connections@),
    {
        let one = &population[self.clients[first]];
        let two = &population[self.clients[second]];
        if one.fitness.units > two.fitness.units {
            Genome::crossover_with(registry, &one.genome, &two.genome, picks)
        } else {
            Genome::crossover_with(registry, &two.genome, &one.genome, picks)
        }
    }

    /// The child of two members drawn at random, the one of higher
    /// fitness as the fitter parent. The species has a member.
    pub fn breed(&self, population: &Vec<Client>, registry: &Registry) -> (child: Genome)
        requires
            within(self.clients@, population@.len()),
            self.clients@.len() > 0,
            registry.wf(),
            forall|i: int|
                0 <= i < self.clients@.len() ==> (#[trigger] population@[self.clients@[i] as int]).genome.wf(),
        ensures
            child.wf(),
            exists|first: int, second: int, picks: Seq<bool>|
                0 <= first < self.clients@.len() && 0 <= second < self.clients@.len()
                    && child.connections@ == gather(
                    #[trigger] inherited(population@, self.clients@, first, second, picks),
                ) && child.nodes@ == gather(
                    registry@.base_nodes() + endpoints(
                        inherited(population@, self.clients@, first, second, picks),
                    ),
                ),
            (forall|i: int|
                0 <= i < self.clients@.len() ==> (
                #[trigger] population@[self.clients@[i] as int]).genome.belongs_to(registry@))
                ==> child.belongs_to(registry@),
            (forall|i: int|
                0 <= i < self.clients@.len() ==> forward(
                    (#[trigger] population@[self.clients@[i] as int]).genome.connections@,
                )) ==> forward(child.connections@),
    {
        let first = random_index(self.clients.len());
        let second = random_index(self.clients.len());
        let one = &population[self.clients[first]];
        let two = &population[self.clients[second]];
        assert(population@[self.clients@[first as int] as int].genome.wf());
        assert(population@[self.clients@[second as int] as int].genome.wf());
        let child = if one.fitness.units > two.fitness.units {
            Genome::crossover(registry, &one.genome, &two.genome)
        } else {
            Genome::crossover(registry, &two.genome, &one.genome)
        };
        proof {
            let fitter = if one.fitness@ > two.fitness@ {
                one
            } else {
                two
            };
            let other = if one.fitness@ > two.fitness@ {
                two
            } else {
                one
            };
            let picks = choose|picks: Seq<bool>|
                picks.len() == fitter.genome.connections@.len() && child.connections@ == gather(
                    #[trigger] inherit(
                        fitter.genome.connections@,
                        other.genome.connections@,
                        picks,
                        0,
                        0,
                    ),
                ) && child.nodes@ == gather(
                    registry@.base_nodes() + endpoints(
                        inherit(
                            fitter.genome.connections@,
                            other.genome.connections@,
                            picks,
                            0,
                            0,
                        ),
                    ),
                );
            assert(inherited(population@, self.clients@, first as int, second as int, picks)
                == inherit(fitter.genome.connections@, other.genome.connections@, picks, 0, 0));
        }
        child
    }

    /// The number of members.
    pub fn len(&self) -> (len: usize)
        ensures
            len == self.clients@.len(),
    {
        self.clients.len()
    }

    /// Whether there is no member.
    pub fn is_empty(&self) -> (empty: bool)
        ensures
            empty == (self.clients@.len() == 0),
    {
        self.clients.len() == 0
    }
}

/// Tells the first `count` clients of `who` that they have no species.
pub fn release(population: &mut Vec<Client>, who: &Vec<usize>, count: usize)
    requires
        within(who@, old(population)@.len()),
        count <= who@.len(),
    ensures
        final(population)@ == orphaned(old(population)@, who@.take(count as int)),
{
    let mut index: usize = 0;
    assert(population@ =~= orphaned(old(population)@, who@.take(0)));
    while index < count
        invariant
            index <= count <= who@.len(),
            within(who@, old(population)@.len()),
            population@ == orphaned(old(population)@, who@.take(index as int)),
        decreases count - index,
    {
        let place = who[index];
        population[place].has_species = false;
        proof {
            let before = who@.take(index as int);
            let after = who@.take(index + 1);
            assert(after =~= before.push(place));
            let goal = orphaned(old(population)@, after);
            assert forall|k: int| 0 <= k < goal.len() implies population@[k] == goal[k] by {
                if names(after, k) {
                    let i = choose|i: int| 0 <= i < after.len() && #[trigger] after[i] == k;
                    if i < index {
                        assert(before[i] == k);
                    }
                }
                if names(before, k) {
                    let i = choose|i: int| 0 <= i < before.len() && #[trigger] before[i] == k;
                    assert(after[i] == k);
                }
                if k == place {
                    assert(after[index as int] == k);
                }
            }
            assert(population@ =~= goal);
        }
        index += 1;
    }
}

/// The members in growing order of fitness: see [`ranked`].
pub fn rank(population: &Vec<Client>, members: &Vec<usize>) -> (order: Vec<usize>)
    requires
        within(members@, population@.len()),
    ensures
        order@ == ranked(population@, members@, members@.len() as int),
        order@.len() == members@.len(),
        within(order@, population@.len()),
{
    let mut order: Vec<usize> = Vec::new();
    let mut index: usize = 0;
    while index < members.len()
        invariant
            index <= members@.len(),
            within(members@, population@.len()),
            within(order@, population@.len()),
            order@.len() == index,
            order@ == ranked(population@, members@, index as int),
        decreases members@.len() - index,
    {
        let member = members[index];
        let fitness = population[member].fitness.units;
        let mut slot: usize = order.len();
        assert(order@.take(slot as int) =~= order@);
        while slot > 0 && population[order[slot - 1]].fitness.units > fitness
            invariant
                slot <= order@.len(),
                within(order@, population@.len()),
                rank_slot(population@, order@, fitness as int) == rank_slot(
                    population@,
                    order@.take(slot as int),
                    fitness as int,
                ),
            decreases slot,
        {
            proof {
                let head = order@.take(slot as int);
                assert(head.drop_last() =~= order@.take(slot - 1));
                assert(head.last() == order@[slot - 1]);
            }
            slot -= 1;
        }
        proof {
            let head = order@.take(slot as int);
            if slot > 0 {
                assert(head.last() == order@[slot - 1]);
            }
        }
        let ghost before = order@;
        order.insert(slot, member);
        proof {
            assert forall|i: int| 0 <= i < order@.len() implies (#[trigger] order@[i])
                < population@.len() by {
                if i < slot {
                    assert(order@[i] == before[i]);
                } else if i > slot {
                    assert(order@[i] == before[i - 1]);
                }
            }
        }
        index += 1;
    }
    order
}

/// The ranking of the first `n` members holds each of them once: it is
/// as long as they are, every place of it is one of them, and every one
/// of them is at a place of it.
pub proof fn lemma_ranked_same_members(population: Seq<Client>, members: Seq<usize>, n: int)
    requires
        0 <= n <= members.len(),
    ensures
        ranked(population, members, n).len() == n,
        forall|k: int|
            0 <= k < n ==> names(members.take(n), (#[trigger] ranked(population, members, n)[k]) as int),
        forall|j: int|
            0 <= j < n ==> names(ranked(population, members, n), (#[trigger] members[j]) as int),
    decreases n,
{
    if n > 0 {
        lemma_ranked_same_members(population, members, n - 1);
        let before = ranked(population, members, n - 1);
        let member = members[n - 1];
        let slot = rank_slot(population, before, population[member as int].fitness@);
        lemma_rank_slot(population, before, population[member as int].fitness@);
        let after = ranked(population, members, n);
        assert(after == before.insert(slot, member));
        assert forall|k: int| 0 <= k < n implies names(
            members.take(n),
            (#[trigger] after[k]) as int,
        ) by {
            if k == slot {
                assert(members.take(n)[n - 1] == member);
            } else {
                let a = if k < slot {
                    k
                } else {
                    k - 1
                };
                assert(after[k] == before[a]);
                assert(names(members.take(n - 1), before[a] as int));
                let j = choose|j: int|
                    0 <= j < members.take(n - 1).len() && #[trigger] members.take(n - 1)[j]
                        == before[a];
                assert(members.take(n)[j] == before[a]);
            }
        }
        assert forall|j: int| 0 <= j < n implies names(after, (#[trigger] members[j]) as int) by {
            if j == n - 1 {
                assert(after[slot] == member);
            } else {
                assert(names(before, members[j] as int));
                let k = choose|k: int| 0 <= k < before.len() && #[trigger] before[k] == members[j];
                let a = if k < slot {
                    k
                } else {
                    k + 1
                };
                assert(after[a] == members[j]);
            }
        }
    }
}

/// The ranking of members that are all different holds no member
/// twice.
pub proof fn lemma_ranked_distinct(population: Seq<Client>, members: Seq<usize>, n: int)
    requires
        0 <= n <= members.len(),
        forall|i: int, j: int| 0 <= i < j < members.len() ==> members[i] != members[j],
    ensures
        forall|i: int, j: int|
            0 <= i < j < n ==> ranked(population, members, n)[i] != ranked(
                population,
                members,
                n,
            )[j],
    decreases n,
{
    if n > 0 {
        lemma_ranked_distinct(population, members, n - 1);
        lemma_ranked_same_members(population, members, n - 1);
        lemma_ranked_same_members(population, members, n);
        let before = ranked(population, members, n - 1);
        let member = members[n - 1];
        let slot = rank_slot(population, before, population[member as int].fitness@);
        lemma_rank_slot(population, before, population[member as int].fitness@);
        let after = ranked(population, members, n);
        assert forall|i: int, j: int| 0 <= i < j < n implies after[i] != after[j] by {
            let a = if i < slot {
                i
            } else {
                i - 1
            };
            let b = if j < slot {
                j
            } else {
                j - 1
            };
            if i != slot && j != slot {
                assert(after[i] == before[a]);
                assert(after[j] == before[b]);
            } else {
                let other = if i == slot {
                    b
                } else {
                    a
                };
                assert(names(members.take(n - 1), before[other] as int));
                let k = choose|k: int|
                    0 <= k < members.take(n - 1).len() && #[trigger] members.take(n - 1)[k]
                        == before[other];
                assert(members[k] != members[n - 1]);
            }
        }
    }
}

/// The ranking and the mean fitness depend on the fitness of the
/// clients alone.
pub proof fn lemma_fitness_decides(
    first: Seq<Client>,
    second: Seq<Client>,
    members: Seq<usize>,
    n: int,
)
    requires
        first.len() == second.len(),
        forall|i: int| 0 <= i < first.len() ==> (#[trigger] first[i]).fitness == second[i].fitness,
        within(members, first.len()),
        0 <= n <= members.len(),
    ensures
        ranked(first, members, n) == ranked(second, members, n),
        fitness_sum(first, members, n) == fitness_sum(second, members, n),
        within(ranked(first, members, n), first.len()),
    decreases n,
{
    if n > 0 {
        lemma_fitness_decides(first, second, members, n - 1);
        let before = ranked(first, members, n - 1);
        let member = members[n - 1];
        assert(first[member as int].fitness == second[member as int].fitness);
        lemma_slot_decided(first, second, before, first[member as int].fitness@);
        lemma_rank_slot(first, before, first[member as int].fitness@);
        let slot = rank_slot(first, before, first[member as int].fitness@);
        let after = before.insert(slot, member);
        assert forall|i: int| 0 <= i < after.len() implies (#[trigger] after[i]) < first.len() by {
            if i < slot {
                assert(after[i] == before[i]);
            } else if i > slot {
                assert(after[i] == before[i - 1]);
            }
        }
    }
}

/// The slot of a client in a ranking depends on the fitness of the
/// clients alone.
proof fn lemma_slot_decided(
    first: Seq<Client>,
    second: Seq<Client>,
    ranking: Seq<usize>,
    fitness: int,
)
    requires
        first.len() == second.len(),
        forall|i: int| 0 <= i < first.len() ==> (#[trigger] first[i]).fitness == second[i].fitness,
        within(ranking, first.len()),
    ensures
        rank_slot(first, ranking, fitness) == rank_slot(second, ranking, fitness),
    decreases ranking.len(),
{
    if ranking.len() > 0 {
        let last = ranking.last();
        assert(ranking[ranking.len() - 1] < first.len());
        assert(first[last as int].fitness == second[last as int].fitness);
        let head = ranking.drop_last();
        assert forall|i: int| 0 <= i < head.len() implies (#[trigger] head[i]) < first.len() by {
            assert(head[i] == ranking[i]);
        }
        lemma_slot_decided(first, second, head, fitness);
    }
}

/// The ranking is in growing order of fitness: no member stands before
/// a member of smaller fitness.
pub proof fn lemma_ranked_sorted(population: Seq<Client>, members: Seq<usize>, n: int)
    requires
        0 <= n <= members.len(),
    ensures
        forall|i: int, j: int|
            0 <= i < j < n ==> population[ranked(population, members, n)[i] as int].fitness@
                <= population[ranked(population, members, n)[j] as int].fitness@,
    decreases n,
{
    if n > 0 {
        lemma_ranked_sorted(population, members, n - 1);
        lemma_ranked_same_members(population, members, n - 1);
        let before = ranked(population, members, n - 1);
        let member = members[n - 1];
        let fitness = population[member as int].fitness@;
        let slot = rank_slot(population, before, fitness);
        lemma_rank_slot(population, before, fitness);
        let after = ranked(population, members, n);
        assert forall|i: int, j: int| 0 <= i < j < n implies population[after[i] as int].fitness@
            <= population[after[j] as int].fitness@ by {
            let a = if i < slot {
                i
            } else {
                i - 1
            };
            let b = if j < slot {
                j
            } else {
                j - 1
            };
            if i != slot {
                assert(after[i] == before[a]);
            }
            if j != slot {
                assert(after[j] == before[b]);
            }
            if i == slot {
                assert(population[before[b] as int].fitness@ > fitness);
            } else if j == slot {
                if a < slot - 1 {
                    assert(population[before[a] as int].fitness@ <= population[before[slot
                        - 1] as int].fitness@);
                }
            }
        }
    }
}

/// The members that a kill removes are the members of lowest fitness:
/// none of them has a higher fitness than a member that stays. The
/// removed and the staying members together are the members of before,
/// and as many are removed as [`kill_count`] says.
pub proof fn lemma_kill_takes_lowest(
    population: Seq<Client>,
    members: Seq<usize>,
    percentage: int,
)
    ensures
        ({
            let ranking = ranked(population, members, members.len() as int);
            let count = kill_count(percentage, members.len() as int);
            let gone = ranking.take(count);
            let kept = ranking.skip(count);
            &&& 0 <= count <= members.len()
            &&& gone.len() == count
            &&& kept.len() == members.len() - count
            &&& gone + kept == ranking
            &&& forall|i: int, j: int|
                0 <= i < gone.len() && 0 <= j < kept.len() ==> population[gone[i] as int].fitness@
                    <= population[kept[j] as int].fitness@
            &&& forall|j: int| 0 <= j < members.len() ==> names(ranking, (#[trigger] members[j]) as int)
            &&& forall|k: int| 0 <= k < ranking.len() ==> names(members, (#[trigger] ranking[k]) as int)
        }),
{
    let n = members.len() as int;
    let ranking = ranked(population, members, n);
    let count = kill_count(percentage, n);
    lemma_ranked_same_members(population, members, n);
    lemma_ranked_sorted(population, members, n);
    assert(members.take(n) =~= members);
    let gone = ranking.take(count);
    let kept = ranking.skip(count);
    assert(gone + kept =~= ranking);
    assert forall|i: int, j: int| 0 <= i < gone.len() && 0 <= j < kept.len() implies population[gone[i] as int].fitness@
        <= population[kept[j] as int].fitness@ by {
        assert(gone[i] == ranking[i]);
        assert(kept[j] == ranking[j + count]);
    }
}

/// The slot lies behind a client whose fitness is not larger and before
/// all clients whose fitness is.
pub proof fn lemma_rank_slot(population: Seq<Client>, ranking: Seq<usize>, fitness: int)
    ensures
        0 <= rank_slot(population, ranking, fitness) <= ranking.len(),
        rank_slot(population, ranking, fitness) > 0 ==> population[ranking[rank_slot(
            population,
            ranking,
            fitness,
        ) - 1] as int].fitness@ <= fitness,
        forall|i: int|
            rank_slot(population, ranking, fitness) <= i < ranking.len() ==> population[(
            #[trigger] ranking[i]) as int].fitness@ > fitness,
    decreases ranking.len(),
{
    if ranking.len() == 0 || population[ranking.last() as int].fitness@ <= fitness {
    } else {
        let head = ranking.drop_last();
        lemma_rank_slot(population, head, fitness);
        let slot = rank_slot(population, head, fitness);
        assert forall|i: int| slot <= i < ranking.len() implies population[(
        #[trigger] ranking[i]) as int].fitness@ > fitness by {
            if i < head.len() {
                assert(ranking[i] == head[i]);
            }
        }
        if slot > 0 {
            assert(head[slot - 1] == ranking[slot - 1]);
        }
    }
}

/// A share times a count of members stays inside the wide range.
proof fn lemma_share_fits(share: int, size: int)
    requires
        i64::MIN <= share <= i64::MAX,
        0 <= size <= 0xffff_ffff_ffff_ffff,
    ensures
        -0x8000_0000_0000_0000_0000_0000_0000_0000 < share * size
            < 0x8000_0000_0000_0000_0000_0000_0000_0000,
{
    assert(share * size < 0x8000_0000_0000_0000_0000_0000_0000_0000) by (nonlinear_arith)
        requires
            -0x8000_0000_0000_0000 <= share <= 0x7fff_ffff_ffff_ffff,
            0 <= size <= 0xffff_ffff_ffff_ffff,
    ;
    assert(share * size > -0x8000_0000_0000_0000_0000_0000_0000_0000) by (nonlinear_arith)
        requires
            -0x8000_0000_0000_0000 <= share <= 0x7fff_ffff_ffff_ffff,
            0 <= size <= 0xffff_ffff_ffff_ffff,
    ;
}

/// The mean of values of the range stays below the top of the range.
proof fn lemma_mean_below_top(population: Seq<Client>, members: Seq<usize>, n: int)
    requires
        0 < n <= members.len(),
    ensures
        trunc_div(fitness_sum(population, members, n), n) < 0x8000_0000_0000_0000,
{
    lemma_sum_below_top(population, members, n);
    let wide = fitness_sum(population, members, n);
    assert(trunc_div(wide, n) < 0x8000_0000_0000_0000) by (nonlinear_arith)
        requires
            n > 0,
            wide <= 0x7fff_ffff_ffff_ffff * n,
    ;
}

/// The sum of `n` values of the range is at most `n` times the top of
/// the range.
proof fn lemma_sum_below_top(population: Seq<Client>, members: Seq<usize>, n: int)
    requires
        0 <= n <= members.len(),
    ensures
        fitness_sum(population, members, n) <= 0x7fff_ffff_ffff_ffff * n,
    decreases n,
{
    if n > 0 {
        lemma_sum_below_top(population, members, n - 1);
    }
}

} // verus!
