//! The steps of one generation.

use crate::data_structures::pseudo_float::PseudoFloat;
use crate::data_structures::random_hash_set::gather;
use crate::data_structures::random_selector::{
    RandomSelector,
    select_error,
    selectable,
    SelectError,
};
use crate::genome::alignment::distance_of;
use crate::genome::connection_gene::ConnectionGene;
use crate::genome::genome::endpoints;
use crate::genome::lineage::lemma_belongs_on;
use crate::genome::mutation::{forward, lemma_extends_reflexive};
use crate::neat::client::Client;
use crate::neat::config::Config;
use crate::neat::generation::{
    bred_from,
    can_breed,
    covered,
    culled,
    grown_models,
    left_to_breed,
    lemma_bred_from,
    lemma_covered,
    lemma_culled_by_fitness,
    lemma_grown_models,
    lemma_model_scores,
    lemma_pruned,
    model_scores,
    survivors,
};
use crate::neat::neat::{EvolveError, Neat};
use crate::neat::population::{
    all_forward,
    all_housed,
    all_mutated,
    lemma_member_count,
    lemma_mutated_on,
    member_count,
    lemma_same_genomes_mutated,
    mutated_between,
    lemma_same_genomes_forward,
    at_home,
    clients_wf,
    lemma_dissolve,
    lemma_flags_decide,
    lemma_found,
    lemma_is_no_member,
    lemma_join,
    lemma_keep,
    lemma_same_species,
    partitioned,
    represented,
    rewritten,
    roster,
    same_species,
    species_wf,
};
use crate::neat::registry::{extends, lemma_extends_transitive, Registry, RegistryModel};
use crate::neat::species::{
    adopted,
    inherited,
    kill_count,
    lemma_fitness_decides,
    lemma_ranked_distinct,
    lemma_ranked_same_members,
    mean_fitness,
    names,
    orphaned,
    ranked,
    Species,
    within,
};
use vstd::prelude::*;

verus! {

/// Whether `after` is `before` but for the species flags.
pub open spec fn reflagged(before: Seq<Client>, after: Seq<Client>) -> bool {
    &&& after.len() == before.len()
    &&& forall|i: int|
        0 <= i < before.len() ==> #[trigger] after[i] == (Client {
            has_species: after[i].has_species,
            ..before[i]
        })
}

/// Whether the clients are in order and the species share them out.
pub open spec fn sound(clients: Seq<Client>, species: Seq<Species>) -> bool {
    &&& clients_wf(clients)
    &&& represented(clients, species)
    &&& partitioned(clients, species)
}

/// A species as plain values: its members, its representative and its
/// mean fitness.
pub struct SpeciesModel {
    /// The members.
    pub clients: Seq<usize>,
    /// The client that new members are compared with.
    pub representative: usize,
    /// The mean fitness of the members when it was last worked out.
    pub average_fitness: PseudoFloat,
}

/// The species as plain values.
pub open spec fn models_of(species: Seq<Species>) -> Seq<SpeciesModel> {
    Seq::new(
        species.len(),
        |s: int|
            SpeciesModel {
                clients: species[s].clients@,
                representative: species[s].representative,
                average_fitness: species[s].average_fitness,
            },
    )
}

/// The connections of the genomes of the clients.
pub open spec fn genes_of(clients: Seq<Client>) -> Seq<Seq<ConnectionGene>> {
    Seq::new(clients.len(), |i: int| clients[i].genome.connections@)
}

/// Whether the clients have a species.
pub open spec fn flags_of(clients: Seq<Client>) -> Seq<bool> {
    Seq::new(clients.len(), |i: int| clients[i].has_species)
}

/// Whether the genome at `client` is closer to the genome at
/// `representative` than the species threshold.
pub open spec fn close(
    genes: Seq<Seq<ConnectionGene>>,
    client: int,
    representative: int,
    config: Config,
) -> bool {
    distance_of(genes[client], genes[representative], config) < config.species_threshold@
}

/// The place of the first species from `from` on whose representative
/// the genome at `client` is close to, or the number of species where
/// there is none.
pub open spec fn first_home(
    genes: Seq<Seq<ConnectionGene>>,
    species: Seq<SpeciesModel>,
    config: Config,
    client: int,
    from: int,
) -> int
    decreases species.len() - from,
{
    if from < 0 || from >= species.len() {
        species.len() as int
    } else if close(genes, client, species[from].representative as int, config) {
        from
    } else {
        first_home(genes, species, config, client, from + 1)
    }
}

/// The species after the client at `client` found a home: it is one
/// more member of its first home, or the only member and the
/// representative of one more species at the end of the list.
pub open spec fn housed(
    genes: Seq<Seq<ConnectionGene>>,
    species: Seq<SpeciesModel>,
    config: Config,
    client: usize,
) -> Seq<SpeciesModel> {
    let home = first_home(genes, species, config, client as int, 0);
    if home < species.len() {
        species.update(
            home,
            SpeciesModel { clients: species[home].clients.push(client), ..species[home] },
        )
    } else {
        species.push(
            SpeciesModel {
                clients: seq![client],
                representative: client,
                average_fitness: PseudoFloat { units: 0 },
            },
        )
    }
}

/// The species after those of the first `n` clients that had no species
/// found a home, one after the other.
pub open spec fn all_housed_in(
    genes: Seq<Seq<ConnectionGene>>,
    flags: Seq<bool>,
    species: Seq<SpeciesModel>,
    config: Config,
    n: int,
) -> Seq<SpeciesModel>
    decreases n,
{
    if n <= 0 {
        species
    } else {
        let before = all_housed_in(genes, flags, species, config, n - 1);
        if flags[n - 1] {
            before
        } else {
            housed(genes, before, config, (n - 1) as usize)
        }
    }
}

/// Whether `chosen` are the species of `species` started anew: each
/// with one of its members as its representative and only member, and
/// with a mean fitness of zero.
pub open spec fn started_anew(species: Seq<Species>, chosen: Seq<SpeciesModel>) -> bool {
    &&& chosen.len() == species.len()
    &&& forall|s: int|
        0 <= s < species.len() ==> names(
            roster(species, s),
            (#[trigger] chosen[s]).representative as int,
        ) && chosen[s].clients == seq![chosen[s].representative]
            && chosen[s].average_fitness@ == 0
}

/// Whether every species has a mean fitness of zero.
pub open spec fn all_unscored(species: Seq<SpeciesModel>) -> bool {
    forall|s: int| 0 <= s < species.len() ==> (#[trigger] species[s]).average_fitness@ == 0
}

/// Species that have a mean fitness of zero have it after clients found
/// a home among them.
pub proof fn lemma_housed_unscored(
    genes: Seq<Seq<ConnectionGene>>,
    flags: Seq<bool>,
    species: Seq<SpeciesModel>,
    config: Config,
    n: int,
)
    requires
        all_unscored(species),
    ensures
        all_unscored(all_housed_in(genes, flags, species, config, n)),
    decreases n,
{
    if n > 0 {
        lemma_housed_unscored(genes, flags, species, config, n - 1);
        let before = all_housed_in(genes, flags, species, config, n - 1);
        if !flags[n - 1] {
            let after = housed(genes, before, config, (n - 1) as usize);
            let client = (n - 1) as usize;
            let home = first_home(genes, before, config, client as int, 0);
            lemma_first_home(genes, before, config, client as int, 0);
            assert forall|s: int| 0 <= s < after.len() implies (
            #[trigger] after[s]).average_fitness@ == 0 by {
                if home < before.len() {
                    assert(before[s].average_fitness@ == 0);
                    assert(before[home].average_fitness@ == 0);
                    if s != home {
                        assert(after[s] == before[s]);
                    }
                } else if s < before.len() {
                    assert(after[s] == before[s]);
                    assert(before[s].average_fitness@ == 0);
                }
            }
        }
    }
}

/// The first home is a place among the species, or their number.
pub proof fn lemma_first_home(
    genes: Seq<Seq<ConnectionGene>>,
    species: Seq<SpeciesModel>,
    config: Config,
    client: int,
    from: int,
)
    requires
        0 <= from,
    ensures
        from <= first_home(genes, species, config, client, from) || species.len() < from,
        first_home(genes, species, config, client, from) <= species.len(),
    decreases species.len() - from,
{
    if from < species.len() && !close(genes, client, species[from].representative as int, config) {
        lemma_first_home(genes, species, config, client, from + 1);
    }
}

/// Whether the client at `client` represents one of the species.
pub open spec fn represents(species: Seq<SpeciesModel>, client: int) -> bool {
    exists|s: int| 0 <= s < species.len() && (#[trigger] species[s]).representative == client
}

/// Changing species flags changes no genome.
pub proof fn lemma_reflagged_genes(before: Seq<Client>, after: Seq<Client>)
    requires
        reflagged(before, after),
    ensures
        genes_of(after) == genes_of(before),
{
    assert(genes_of(after) =~= genes_of(before));
}

/// Changing species flags keeps clients in order.
pub proof fn lemma_reflagged_wf(before: Seq<Client>, after: Seq<Client>)
    requires
        clients_wf(before),
        reflagged(before, after),
    ensures
        clients_wf(after),
{
    assert forall|i: int| 0 <= i < after.len() implies (#[trigger] after[i]).wf() by {
        assert(before[i].wf());
    }
}

/// Changing species flags twice is changing species flags.
pub proof fn lemma_reflagged_twice(first: Seq<Client>, middle: Seq<Client>, last: Seq<Client>)
    requires
        reflagged(first, middle),
        reflagged(middle, last),
    ensures
        reflagged(first, last),
{
    assert forall|i: int| 0 <= i < first.len() implies #[trigger] last[i] == (Client {
        has_species: last[i].has_species,
        ..first[i]
    }) by {
        assert(middle[i] == (Client { has_species: middle[i].has_species, ..first[i] }));
    }
}

/// Every member of a species is a client.
pub proof fn lemma_members_within(clients: Seq<Client>, species: Seq<Species>, s: int)
    requires
        partitioned(clients, species),
        0 <= s < species.len(),
    ensures
        within(roster(species, s), clients.len()),
{
    assert forall|k: int| 0 <= k < roster(species, s).len() implies (#[trigger] roster(
        species,
        s,
    )[k]) < clients.len() by {}
}

/// Starts every species anew around one of its members drawn at random.
pub fn reset_all(clients: &mut Vec<Client>, species: &mut Vec<Species>)
    requires
        sound(old(clients)@, old(species)@),
        species_wf(old(clients)@, old(species)@),
    ensures
        sound(final(clients)@, final(species)@),
        species_wf(final(clients)@, final(species)@),
        reflagged(old(clients)@, final(clients)@),
        final(species)@.len() == old(species)@.len(),
        started_anew(old(species)@, models_of(final(species)@)),
{
    let mut s: usize = 0;
    while s < species.len()
        invariant
            s <= species@.len(),
            species@.len() == old(species)@.len(),
            sound(clients@, species@),
            species_wf(clients@, species@),
            reflagged(old(clients)@, clients@),
            forall|t: int|
                s <= t < species@.len() ==> #[trigger] roster(species@, t) == roster(
                    old(species)@,
                    t,
                ),
            forall|t: int|
                0 <= t < s ==> names(
                    roster(old(species)@, t),
                    (#[trigger] species@[t]).representative as int,
                ) && species@[t].clients@ == seq![species@[t].representative]
                    && species@[t].average_fitness@ == 0,
        decreases species@.len() - s,
    {
        let ghost clients_before = clients@;
        let ghost species_before = species@;
        let ghost members = roster(species@, s as int);
        proof {
            lemma_members_within(clients@, species@, s as int);
            assert(roster(species@, s as int).len() > 0);
        }
        species[s].reset(clients);
        proof {
            let representative = species@[s as int].representative;
            let kept = seq![representative];
            assert(rewritten(species_before, species@, s as int, kept)) by {
                assert forall|t: int| 0 <= t < species_before.len() && t != s implies #[trigger] roster(
                    species@,
                    t,
                ) == roster(species_before, t) by {
                    assert(species@[t] == species_before[t]);
                }
            }
            let j = choose|j: int| 0 <= j < members.len() && #[trigger] members[j] == representative;
            assert(roster(species_before, s as int)[j] < clients_before.len());
            assert forall|i: int| 0 <= i < clients_before.len() implies (#[trigger] clients@[i]).has_species
                == (if names(members, i) {
                names(kept, i)
            } else {
                clients_before[i].has_species
            }) by {
                if i == representative {
                    assert(kept[0] == i);
                } else if names(kept, i) {
                    assert(kept[0] == representative);
                }
            }
            lemma_keep(clients_before, species_before, clients@, species@, s as int, kept);
            assert(reflagged(clients_before, clients@));
            lemma_reflagged_wf(clients_before, clients@);
            lemma_reflagged_twice(old(clients)@, clients_before, clients@);
            assert forall|t: int| 0 <= t < species@.len() implies (#[trigger] species@[t]).representative
                < clients@.len() by {
                if t != s {
                    assert(species@[t] == species_before[t]);
                }
            }
            assert forall|t: int| 0 <= t < species@.len() implies (#[trigger] roster(species@, t)).len()
                > 0 && species@[t].representative < clients@.len() by {
                if t != s {
                    assert(roster(species@, t) == roster(species_before, t));
                    assert(roster(species_before, t).len() > 0);
                }
            }
            assert forall|t: int| s + 1 <= t < species@.len() implies #[trigger] roster(species@, t)
                == roster(old(species)@, t) by {
                assert(species@[t] == species_before[t]);
                assert(roster(species_before, t) == roster(old(species)@, t));
            }
            assert forall|t: int| 0 <= t < s + 1 implies names(
                roster(old(species)@, t),
                (#[trigger] species@[t]).representative as int,
            ) && species@[t].clients@ == seq![species@[t].representative]
                && species@[t].average_fitness@ == 0 by {
                if t < s {
                    assert(species@[t] == species_before[t]);
                } else {
                    assert(members == roster(old(species)@, t));
                }
            }
        }
        s += 1;
    }
}

/// Finds a species for the client at `client`, which has none: the
/// first species, in the order of the list, whose representative is
/// closer than the species threshold, or else a new species that the
/// client represents.
pub fn house(
    clients: &mut Vec<Client>,
    species: &mut Vec<Species>,
    client: usize,
    config: &Config,
)
    requires
        sound(old(clients)@, old(species)@),
        species_wf(old(clients)@, old(species)@),
        client < old(clients)@.len(),
        !old(clients)@[client as int].has_species,
    ensures
        sound(final(clients)@, final(species)@),
        species_wf(final(clients)@, final(species)@),
        final(clients)@ == adopted(old(clients)@, client as int),
        final(species)@.len() >= old(species)@.len(),
        models_of(final(species)@) == housed(
            genes_of(old(clients)@),
            models_of(old(species)@),
            *config,
            client,
        ),
{
    let ghost genes = genes_of(clients@);
    let ghost models = models_of(species@);
    let mut s: usize = 0;
    while s < species.len()
        invariant
            s <= species@.len(),
            clients@ == old(clients)@,
            same_species(old(species)@, species@),
            genes == genes_of(old(clients)@),
            models == models_of(old(species)@),
            forall|t: int|
                0 <= t < species@.len() ==> (#[trigger] species@[t]).average_fitness == old(species)@[t].average_fitness,
            first_home(genes, models, *config, client as int, 0) == first_home(
                genes,
                models,
                *config,
                client as int,
                s as int,
            ),
            sound(clients@, species@),
            species_wf(clients@, species@),
            client < clients@.len(),
            !clients@[client as int].has_species,
        decreases species@.len() - s,
    {
        let ghost clients_before = clients@;
        let ghost species_before = species@;
        proof {
            assert(species@[s as int].representative < clients@.len());
            assert(clients@[client as int].wf());
            assert(clients@[species@[s as int].representative as int].wf());
        }
        proof {
            assert(roster(old(species)@, s as int) == roster(species@, s as int));
            assert(models[s as int].representative == species@[s as int].representative);
        }
        let accepted = species[s].put(clients, client, config);
        if accepted {
            proof {
                assert(first_home(genes, models, *config, client as int, s as int) == s);
                assert(models_of(species@) =~= housed(genes, models, *config, client)) by {
                    assert forall|t: int| 0 <= t < species@.len() implies models_of(species@)[t]
                        == housed(genes, models, *config, client)[t] by {
                        if t != s {
                            assert(species@[t] == species_before[t]);
                            assert(roster(old(species)@, t) == roster(species_before, t));
                        } else {
                            assert(roster(old(species)@, t) == roster(species_before, t));
                        }
                    }
                }
                assert(rewritten(
                    species_before,
                    species@,
                    s as int,
                    roster(species_before, s as int).push(client),
                )) by {
                    assert forall|t: int|
                        0 <= t < species_before.len() && t != s implies #[trigger] roster(
                        species@,
                        t,
                    ) == roster(species_before, t) by {
                        assert(species@[t] == species_before[t]);
                    }
                }
                lemma_join(clients_before, species_before, clients@, species@, s as int, client);
                lemma_adopted_wf(clients_before, client as int);
                assert forall|t: int| 0 <= t < species@.len() implies (#[trigger] roster(
                    species@,
                    t,
                )).len() > 0 && species@[t].representative < clients@.len() by {
                    if t != s {
                        assert(species@[t] == species_before[t]);
                        assert(roster(species_before, t).len() > 0);
                    }
                }
                assert forall|t: int| 0 <= t < species@.len() implies (#[trigger] species@[t]).representative
                    < clients@.len() by {
                    if t != s {
                        assert(species@[t] == species_before[t]);
                    }
                }
            }
            return;
        }
        proof {
            assert(same_species(species_before, species@)) by {
                assert forall|t: int| 0 <= t < species_before.len() implies #[trigger] roster(
                    species_before,
                    t,
                ) == roster(species@, t) && species_before[t].representative
                    == species@[t].representative by {
                    if t != s {
                        assert(species@[t] == species_before[t]);
                    }
                }
            }
            lemma_same_species(clients@, species_before, species@);
            assert(same_species(old(species)@, species@)) by {
                assert forall|t: int| 0 <= t < species@.len() implies #[trigger] roster(
                    old(species)@,
                    t,
                ) == roster(species@, t) && old(species)@[t].representative
                    == species@[t].representative by {
                    assert(roster(old(species)@, t) == roster(species_before, t));
                    assert(roster(species_before, t) == roster(species@, t));
                }
            }
        }
        s += 1;
    }
    let ghost clients_before = clients@;
    let ghost species_before = species@;
    clients[client].has_species = true;
    species.push(Species::new(client));
    proof {
        assert(first_home(genes, models, *config, client as int, 0) == models.len());
        assert(models_of(species@) =~= housed(genes, models, *config, client)) by {
            assert forall|t: int| 0 <= t < species@.len() implies models_of(species@)[t] == housed(
                genes,
                models,
                *config,
                client,
            )[t] by {
                if t < species_before.len() {
                    assert(species@[t] == species_before[t]);
                    assert(roster(old(species)@, t) == roster(species_before, t));
                }
            }
        }
        assert(clients@ =~= adopted(clients_before, client as int));
        assert forall|t: int| 0 <= t < species_before.len() implies #[trigger] roster(species@, t)
            == roster(species_before, t) by {
            assert(species@[t] == species_before[t]);
        }
        lemma_found(clients_before, species_before, clients@, species@, client);
        lemma_adopted_wf(clients_before, client as int);
        assert forall|t: int| 0 <= t < species@.len() implies (#[trigger] roster(species@, t)).len()
            > 0 && species@[t].representative < clients@.len() by {
            if t < species_before.len() {
                assert(species@[t] == species_before[t]);
                assert(roster(species_before, t).len() > 0);
            }
        }
        assert forall|t: int| 0 <= t < species@.len() implies (#[trigger] species@[t]).representative
            < clients@.len() by {
            if t < species_before.len() {
                assert(species@[t] == species_before[t]);
            }
        }
    }
}

/// Giving a client a species keeps the clients in order.
pub proof fn lemma_adopted_wf(clients: Seq<Client>, client: int)
    requires
        clients_wf(clients),
        0 <= client < clients.len(),
    ensures
        clients_wf(adopted(clients, client)),
        reflagged(clients, adopted(clients, client)),
{
    let after = adopted(clients, client);
    assert forall|i: int| 0 <= i < after.len() implies (#[trigger] after[i]).wf() by {
        assert(clients[i].wf());
    }
}

/// Finds a species for every client that has none: see [`house`].
pub fn house_all(clients: &mut Vec<Client>, species: &mut Vec<Species>, config: &Config)
    requires
        sound(old(clients)@, old(species)@),
        species_wf(old(clients)@, old(species)@),
    ensures
        sound(final(clients)@, final(species)@),
        species_wf(final(clients)@, final(species)@),
        reflagged(old(clients)@, final(clients)@),
        all_housed(final(clients)@),
        final(species)@.len() >= old(species)@.len(),
        models_of(final(species)@) == all_housed_in(
            genes_of(old(clients)@),
            flags_of(old(clients)@),
            models_of(old(species)@),
            *config,
            old(clients)@.len() as int,
        ),
{
    let mut client: usize = 0;
    proof {
        lemma_reflagged_same(clients@);
    }
    while client < clients.len()
        invariant
            client <= clients@.len(),
            clients@.len() == old(clients)@.len(),
            sound(clients@, species@),
            species_wf(clients@, species@),
            reflagged(old(clients)@, clients@),
            species@.len() >= old(species)@.len(),
            forall|i: int| 0 <= i < client ==> (#[trigger] clients@[i]).has_species,
            forall|i: int|
                client <= i < clients@.len() ==> (#[trigger] clients@[i]).has_species == old(clients)@[i].has_species,
            models_of(species@) == all_housed_in(
                genes_of(old(clients)@),
                flags_of(old(clients)@),
                models_of(old(species)@),
                *config,
                client as int,
            ),
        decreases clients@.len() - client,
    {
        proof {
            lemma_reflagged_genes(old(clients)@, clients@);
        }
        if !clients[client].has_species {
            let ghost before = clients@;
            house(clients, species, client, config);
            proof {
                lemma_adopted_wf(before, client as int);
                lemma_reflagged_twice(old(clients)@, before, clients@);
                assert forall|i: int| 0 <= i < client + 1 implies (#[trigger] clients@[i]).has_species by {
                    if i < client {
                        assert(before[i].has_species);
                    }
                }
            }
        }
        client += 1;
    }
}

/// A species that ranks its members by fitness, removes the first
/// `count` of the ranking and lets them go without a species leaves the
/// clients shared out.
pub proof fn lemma_kill_keeps(
    clients: Seq<Client>,
    species: Seq<Species>,
    after_clients: Seq<Client>,
    after_species: Seq<Species>,
    s: int,
    count: int,
)
    requires
        partitioned(clients, species),
        0 <= s < species.len(),
        0 <= count <= roster(species, s).len(),
        rewritten(
            species,
            after_species,
            s,
            ranked(clients, roster(species, s), roster(species, s).len() as int).skip(count),
        ),
        after_clients == orphaned(
            clients,
            ranked(clients, roster(species, s), roster(species, s).len() as int).take(count),
        ),
    ensures
        partitioned(after_clients, after_species),
        reflagged(clients, after_clients),
{
    let members = roster(species, s);
    let n = members.len() as int;
    let ranking = ranked(clients, members, n);
    let kept = ranking.skip(count);
    let gone = ranking.take(count);
    lemma_ranked_same_members(clients, members, n);
    assert forall|i: int, j: int| 0 <= i < j < members.len() implies members[i] != members[j] by {
        assert(roster(species, s)[i] != roster(species, s)[j]);
    }
    lemma_ranked_distinct(clients, members, n);
    assert(members.take(n) =~= members);
    assert forall|k: int| 0 <= k < kept.len() implies names(members, #[trigger] kept[k] as int) by {
        assert(kept[k] == ranking[k + count]);
    }
    assert forall|k1: int, k2: int| 0 <= k1 < k2 < kept.len() implies kept[k1] != kept[k2] by {
        assert(ranking[k1 + count] != ranking[k2 + count]);
    }
    assert forall|i: int| 0 <= i < clients.len() implies (#[trigger] after_clients[i]).has_species
        == (if names(members, i) {
        names(kept, i)
    } else {
        clients[i].has_species
    }) by {
        if names(gone, i) {
            let g = choose|g: int| 0 <= g < gone.len() && #[trigger] gone[g] == i;
            assert(ranking[g] == i);
            assert(names(members, ranking[g] as int));
            if names(kept, i) {
                let k = choose|k: int| 0 <= k < kept.len() && #[trigger] kept[k] == i;
                assert(ranking[g] != ranking[k + count]);
            }
        } else if names(members, i) {
            let j = choose|j: int| 0 <= j < members.len() && #[trigger] members[j] == i;
            assert(names(ranking, members[j] as int));
            let k = choose|k: int| 0 <= k < ranking.len() && #[trigger] ranking[k] == i;
            if k < count {
                assert(gone[k] == i);
            }
            assert(kept[k - count] == i);
            assert(clients[roster(species, s)[j] as int].has_species);
        } else {
            if names(kept, i) {
                let k = choose|k: int| 0 <= k < kept.len() && #[trigger] kept[k] == i;
                assert(names(members, kept[k] as int));
            }
        }
    }
    lemma_keep(clients, species, after_clients, after_species, s, kept);
}

/// Works out the mean fitness of every species and then removes its
/// members of the lowest fitness: see [`Species::kill`]. A species may
/// be left without members.
pub fn cull(clients: &mut Vec<Client>, species: &mut Vec<Species>, percentage: PseudoFloat)
    requires
        sound(old(clients)@, old(species)@),
    ensures
        sound(final(clients)@, final(species)@),
        reflagged(old(clients)@, final(clients)@),
        final(species)@.len() == old(species)@.len(),
        forall|s: int|
            0 <= s < old(species)@.len() ==> {
                let members = roster(old(species)@, s);
                &&& #[trigger] roster(final(species)@, s) == ranked(
                    old(clients)@,
                    members,
                    members.len() as int,
                ).skip(kill_count(percentage@, members.len() as int))
                &&& final(species)@[s].average_fitness@ == mean_fitness(old(clients)@, members)
                &&& final(species)@[s].representative == old(species)@[s].representative
            },
        models_of(final(species)@) == culled(old(clients)@, models_of(old(species)@), percentage@),
{
    cull_each(clients, species, percentage);
    proof {
        assert forall|s: int| 0 <= s < species@.len() implies models_of(species@)[s] == culled(
            old(clients)@,
            models_of(old(species)@),
            percentage@,
        )[s] by {
            assert(roster(species@, s) == ranked(
                old(clients)@,
                roster(old(species)@, s),
                roster(old(species)@, s).len() as int,
            ).skip(kill_count(percentage@, roster(old(species)@, s).len() as int)));
        }
        assert(models_of(species@) =~= culled(
            old(clients)@,
            models_of(old(species)@),
            percentage@,
        ));
    }
}

/// Works out the mean fitness of every species and then removes its
/// members of the lowest fitness, species by species.
fn cull_each(clients: &mut Vec<Client>, species: &mut Vec<Species>, percentage: PseudoFloat)
    requires
        sound(old(clients)@, old(species)@),
    ensures
        sound(final(clients)@, final(species)@),
        reflagged(old(clients)@, final(clients)@),
        final(species)@.len() == old(species)@.len(),
        forall|s: int|
            0 <= s < old(species)@.len() ==> {
                let members = roster(old(species)@, s);
                &&& #[trigger] roster(final(species)@, s) == ranked(
                    old(clients)@,
                    members,
                    members.len() as int,
                ).skip(kill_count(percentage@, members.len() as int))
                &&& final(species)@[s].average_fitness@ == mean_fitness(old(clients)@, members)
                &&& final(species)@[s].representative == old(species)@[s].representative
            },
{
    let mut s: usize = 0;
    proof {
        lemma_reflagged_same(clients@);
    }
    while s < species.len()
        invariant
            s <= species@.len(),
            species@.len() == old(species)@.len(),
            sound(clients@, species@),
            reflagged(old(clients)@, clients@),
            forall|t: int|
                s <= t < species@.len() ==> #[trigger] roster(species@, t) == roster(old(species)@, t)
                    && species@[t].representative == old(species)@[t].representative,
            forall|t: int|
                0 <= t < s ==> {
                    let members = roster(old(species)@, t);
                    &&& #[trigger] roster(species@, t) == ranked(
                        old(clients)@,
                        members,
                        members.len() as int,
                    ).skip(kill_count(percentage@, members.len() as int))
                    &&& species@[t].average_fitness@ == mean_fitness(old(clients)@, members)
                    &&& species@[t].representative == old(species)@[t].representative
                },
        decreases species@.len() - s,
    {
        let ghost clients_before = clients@;
        let ghost species_before = species@;
        let ghost members = roster(species@, s as int);
        proof {
            lemma_members_within(clients@, species@, s as int);
            assert(members == roster(old(species)@, s as int));
            lemma_fitness_decides(old(clients)@, clients@, members, members.len() as int);
        }
        species[s].evaluate_fitness(clients);
        species[s].kill(clients, percentage);
        proof {
            let n = members.len() as int;
            let count = kill_count(percentage@, n);
            assert(rewritten(
                species_before,
                species@,
                s as int,
                ranked(clients_before, members, n).skip(count),
            )) by {
                assert forall|t: int| 0 <= t < species_before.len() && t != s implies #[trigger] roster(
                    species@,
                    t,
                ) == roster(species_before, t) by {
                    assert(species@[t] == species_before[t]);
                }
            }
            lemma_kill_keeps(clients_before, species_before, clients@, species@, s as int, count);
            lemma_reflagged_wf(clients_before, clients@);
            lemma_reflagged_twice(old(clients)@, clients_before, clients@);
            assert forall|t: int| 0 <= t < species@.len() implies (#[trigger] species@[t]).representative
                < clients@.len() by {
                if t != s {
                    assert(species@[t] == species_before[t]);
                }
            }
            assert forall|t: int| s + 1 <= t < species@.len() implies #[trigger] roster(species@, t)
                == roster(old(species)@, t) && species@[t].representative
                == old(species)@[t].representative by {
                assert(species@[t] == species_before[t]);
                assert(roster(species_before, t) == roster(old(species)@, t));
            }
            assert forall|t: int| 0 <= t < s + 1 implies {
                let members = roster(old(species)@, t);
                &&& #[trigger] roster(species@, t) == ranked(
                    old(clients)@,
                    members,
                    members.len() as int,
                ).skip(kill_count(percentage@, members.len() as int))
                &&& species@[t].average_fitness@ == mean_fitness(old(clients)@, members)
                &&& species@[t].representative == old(species)@[t].representative
            } by {
                if t < s {
                    assert(species@[t] == species_before[t]);
                    assert(roster(species_before, t) == ranked(
                        old(clients)@,
                        roster(old(species)@, t),
                        roster(old(species)@, t).len() as int,
                    ).skip(kill_count(percentage@, roster(old(species)@, t).len() as int)));
                }
            }
        }
        s += 1;
    }
}

/// The places of the species from `from` on that have more than one
/// member, in order.
pub open spec fn alive(species: Seq<Species>, from: int) -> Seq<int>
    decreases species.len() - from,
{
    if from < 0 || from >= species.len() {
        Seq::empty()
    } else if roster(species, from).len() > 1 {
        seq![from] + alive(species, from + 1)
    } else {
        alive(species, from + 1)
    }
}

/// The places of the species that stay are places of species that have
/// more than one member.
pub proof fn lemma_alive(species: Seq<Species>, from: int)
    requires
        0 <= from <= species.len(),
    ensures
        forall|k: int|
            0 <= k < alive(species, from).len() ==> from <= (#[trigger] alive(species, from)[k])
                < species.len() && roster(species, alive(species, from)[k]).len() > 1,
    decreases species.len() - from,
{
    if from < species.len() {
        lemma_alive(species, from + 1);
        let rest = alive(species, from + 1);
        let all = alive(species, from);
        assert forall|k: int| 0 <= k < all.len() implies from <= (#[trigger] all[k]) < species.len()
            && roster(species, all[k]).len() > 1 by {
            if roster(species, from).len() > 1 {
                if k > 0 {
                    assert(all[k] == rest[k - 1]);
                }
            } else {
                assert(all[k] == rest[k]);
            }
        }
    }
}

/// Whether two species have the same members, the same representative
/// and the same mean fitness.
pub open spec fn same_as(first: Species, second: Species) -> bool {
    &&& first.clients@ == second.clients@
    &&& first.representative == second.representative
    &&& first.average_fitness == second.average_fitness
}

/// Takes every species with fewer than two members off the list. The
/// member of such a species, if it has one, is left without a species.
/// The other species stay in their order.
pub fn prune(clients: &mut Vec<Client>, species: &mut Vec<Species>)
    requires
        sound(old(clients)@, old(species)@),
    ensures
        sound(final(clients)@, final(species)@),
        species_wf(final(clients)@, final(species)@),
        reflagged(old(clients)@, final(clients)@),
        final(species)@.len() == alive(old(species)@, 0).len(),
        forall|k: int|
            0 <= k < final(species)@.len() ==> same_as(
                #[trigger] final(species)@[k],
                old(species)@[alive(old(species)@, 0)[k]],
            ),
        models_of(final(species)@) == survivors(models_of(old(species)@), 0),
{
    prune_each(clients, species);
    proof {
        lemma_pruned(old(species)@, species@);
    }
}

/// Takes every species with fewer than two members off the list, from
/// the last species to the first.
fn prune_each(clients: &mut Vec<Client>, species: &mut Vec<Species>)
    requires
        sound(old(clients)@, old(species)@),
    ensures
        sound(final(clients)@, final(species)@),
        species_wf(final(clients)@, final(species)@),
        reflagged(old(clients)@, final(clients)@),
        final(species)@.len() == alive(old(species)@, 0).len(),
        forall|k: int|
            0 <= k < final(species)@.len() ==> same_as(
                #[trigger] final(species)@[k],
                old(species)@[alive(old(species)@, 0)[k]],
            ),
{
    let mut index: usize = species.len();
    proof {
        lemma_reflagged_same(clients@);
    }
    while index > 0
        invariant
            index <= old(species)@.len(),
            sound(clients@, species@),
            reflagged(old(clients)@, clients@),
            species@.len() == index + alive(old(species)@, index as int).len(),
            forall|t: int| 0 <= t < index ==> same_as(#[trigger] species@[t], old(species)@[t]),
            forall|t: int|
                index <= t < species@.len() ==> same_as(
                    #[trigger] species@[t],
                    old(species)@[alive(old(species)@, index as int)[t - index]],
                ),
        decreases index,
    {
        index -= 1;
        let ghost clients_before = clients@;
        let ghost species_before = species@;
        let ghost before = alive(old(species)@, index + 1);
        let ghost now = alive(old(species)@, index as int);
        proof {
            lemma_alive(old(species)@, index + 1);
            assert(same_as(species@[index as int], old(species)@[index as int]));
            assert(roster(species@, index as int) == roster(old(species)@, index as int));
        }
        if species[index].len() <= 1 {
            proof {
                lemma_members_within(clients@, species@, index as int);
            }
            species[index].go_extinct(clients);
            species.remove(index);
            proof {
                let gone = roster(species_before, index as int);
                assert forall|i: int| 0 <= i < clients_before.len() implies (
                #[trigger] clients@[i]).has_species == (clients_before[i].has_species && !names(
                    gone,
                    i,
                )) by {}
                assert forall|t: int| 0 <= t < index implies #[trigger] roster(species@, t) == roster(
                    species_before,
                    t,
                ) by {
                    assert(species@[t] == species_before[t]);
                }
                assert forall|t: int| index <= t < species@.len() implies #[trigger] roster(
                    species@,
                    t,
                ) == roster(species_before, t + 1) by {
                    assert(species@[t] == species_before[t + 1]);
                }
                lemma_dissolve(clients_before, species_before, clients@, species@, index as int);
                assert(reflagged(clients_before, clients@));
                lemma_reflagged_wf(clients_before, clients@);
                lemma_reflagged_twice(old(clients)@, clients_before, clients@);
                assert(now == before);
                assert forall|t: int| 0 <= t < species@.len() implies (#[trigger] species@[t]).representative
                    < clients@.len() by {
                    if t < index {
                        assert(species@[t] == species_before[t]);
                    } else {
                        assert(species@[t] == species_before[t + 1]);
                    }
                }
                assert forall|t: int| 0 <= t < index implies same_as(
                    #[trigger] species@[t],
                    old(species)@[t],
                ) by {
                    assert(species@[t] == species_before[t]);
                }
                assert forall|t: int| index <= t < species@.len() implies same_as(
                    #[trigger] species@[t],
                    old(species)@[now[t - index]],
                ) by {
                    assert(species@[t] == species_before[t + 1]);
                    assert(same_as(species_before[t + 1], old(species)@[before[t + 1 - (index + 1)]]));
                }
            }
        } else {
            proof {
                assert(now =~= seq![index as int] + before);
                assert forall|t: int| 0 <= t < index implies same_as(
                    #[trigger] species@[t],
                    old(species)@[t],
                ) by {}
                assert forall|t: int| index <= t < species@.len() implies same_as(
                    #[trigger] species@[t],
                    old(species)@[now[t - index]],
                ) by {
                    if t > index {
                        assert(now[t - index] == before[t - index - 1]);
                        assert(same_as(species@[t], old(species)@[before[t - (index + 1)]]));
                    }
                }
            }
        }
    }
    proof {
        lemma_alive(old(species)@, 0);
        assert forall|s: int| 0 <= s < species@.len() implies (#[trigger] roster(species@, s)).len()
            > 0 && species@[s].representative < clients@.len() by {
            assert(same_as(species@[s], old(species)@[alive(old(species)@, 0)[s - 0]]));
        }
    }
}

/// The species by their places, each with its mean fitness as score.
pub open spec fn scores(species: Seq<Species>) -> Seq<(usize, PseudoFloat)> {
    Seq::new(species.len(), |s: int| (s as usize, species[s].average_fitness))
}

/// The reason why no species can be selected, as a reason why a
/// generation cannot be completed.
pub open spec fn breed_error(reason: SelectError) -> EvolveError {
    match reason {
        SelectError::NoItem => EvolveError::NoSpecies,
        SelectError::InvalidWeight => EvolveError::NegativeFitness,
        SelectError::AllWeightsZero => EvolveError::NoFitness,
        SelectError::TooMany => EvolveError::NoSpecies,
    }
}

/// Whether every species of `later` has the representative and the mean
/// fitness it has in `earlier`, and the members it has there before any
/// others.
pub open spec fn grown(earlier: Seq<Species>, later: Seq<Species>) -> bool {
    &&& later.len() == earlier.len()
    &&& forall|s: int|
        0 <= s < earlier.len() ==> {
            &&& (#[trigger] later[s]).representative == earlier[s].representative
            &&& later[s].average_fitness == earlier[s].average_fitness
            &&& earlier[s].clients@.len() <= later[s].clients@.len()
            &&& later[s].clients@.take(earlier[s].clients@.len() as int) == earlier[s].clients@
        }
}

/// Whether the member at `place` of `members` has a genome bred from
/// two of the members before it: see [`inherited`].
pub open spec fn bred_in(
    clients: Seq<Client>,
    members: Seq<usize>,
    place: int,
    registry: RegistryModel,
) -> bool {
    exists|first: int, second: int, picks: Seq<bool>|
        0 <= first < place && 0 <= second < place && {
            let taken = #[trigger] inherited(clients, members.take(place), first, second, picks);
            &&& clients[members[place] as int].genome.connections@ == gather(taken)
            &&& clients[members[place] as int].genome.nodes@ == gather(
                registry.base_nodes() + endpoints(taken),
            )
        }
}

/// Whether every member that a species of `later` has and did not have
/// in `earlier` has a genome bred from two of the members before it.
pub open spec fn all_bred(
    clients: Seq<Client>,
    earlier: Seq<Species>,
    later: Seq<Species>,
    registry: RegistryModel,
) -> bool {
    forall|s: int, k: int|
        0 <= s < earlier.len() && roster(earlier, s).len() <= k < roster(later, s).len()
            ==> #[trigger] bred_in(clients, roster(later, s), k, registry)
}

/// A member stays bred from two of the members before it when those
/// members and the member keep their places, their genomes and their
/// fitness.
pub proof fn lemma_bred_in_stays(
    before: Seq<Client>,
    after: Seq<Client>,
    members: Seq<usize>,
    longer: Seq<usize>,
    place: int,
    registry: RegistryModel,
)
    requires
        bred_in(before, members, place, registry),
        0 <= place < members.len() <= longer.len(),
        longer.take(members.len() as int) == members,
        forall|j: int|
            0 <= j <= place ==> after[(#[trigger] members[j]) as int].genome
                == before[members[j] as int].genome && after[members[j] as int].fitness
                == before[members[j] as int].fitness,
    ensures
        bred_in(after, longer, place, registry),
{
    let (first, second, picks) = choose|first: int, second: int, picks: Seq<bool>|
        0 <= first < place && 0 <= second < place && {
            let taken = #[trigger] inherited(before, members.take(place), first, second, picks);
            &&& before[members[place] as int].genome.connections@ == gather(taken)
            &&& before[members[place] as int].genome.nodes@ == gather(
                registry.base_nodes() + endpoints(taken),
            )
        };
    assert(longer.take(place) =~= members.take(place)) by {
        assert forall|j: int| 0 <= j < place implies longer.take(place)[j] == members.take(
            place,
        )[j] by {
            assert(longer.take(members.len() as int)[j] == members[j]);
        }
    }
    assert(longer[place] == members[place]) by {
        assert(longer.take(members.len() as int)[place] == members[place]);
    }
    let one = members[first];
    let two = members[second];
    assert(members.take(place)[first] == one);
    assert(members.take(place)[second] == two);
    assert(after[one as int].genome == before[one as int].genome);
    assert(after[two as int].genome == before[two as int].genome);
    assert(after[members[place] as int].genome == before[members[place] as int].genome);
    assert(inherited(after, longer.take(place), first, second, picks) == inherited(
        before,
        members.take(place),
        first,
        second,
        picks,
    ));
}

/// Gives the client at `client`, which has no species, a genome bred by
/// the species at `place`, and makes it the last member of that species.
pub fn breed_into(
    clients: &mut Vec<Client>,
    species: &mut Vec<Species>,
    registry: &Registry,
    client: usize,
    place: usize,
)
    requires
        sound(old(clients)@, old(species)@),
        species_wf(old(clients)@, old(species)@),
        registry.wf(),
        client < old(clients)@.len(),
        !old(clients)@[client as int].has_species,
        place < old(species)@.len(),
    ensures
        sound(final(clients)@, final(species)@),
        species_wf(final(clients)@, final(species)@),
        final(clients)@.len() == old(clients)@.len(),
        at_home(old(clients)@, registry@) ==> at_home(final(clients)@, registry@),
        all_forward(old(clients)@) ==> all_forward(final(clients)@),
        rewritten(
            old(species)@,
            final(species)@,
            place as int,
            roster(old(species)@, place as int).push(client),
        ),
        forall|t: int|
            0 <= t < old(species)@.len() ==> (#[trigger] final(species)@[t]).representative
                == old(species)@[t].representative && final(species)@[t].average_fitness
                == old(species)@[t].average_fitness,
        forall|i: int|
            0 <= i < old(clients)@.len() && i != client ==> #[trigger] final(clients)@[i] == old(clients)@[i],
        final(clients)@[client as int].fitness == old(clients)@[client as int].fitness,
        final(clients)@[client as int].calculator == old(clients)@[client as int].calculator,
        final(clients)@[client as int].has_species,
        bred_in(
            final(clients)@,
            roster(final(species)@, place as int),
            roster(old(species)@, place as int).len() as int,
            registry@,
        ),
{
    let ghost clients_before = clients@;
    let ghost species_before = species@;
    let ghost members = roster(species@, place as int);
    proof {
        lemma_members_within(clients@, species@, place as int);
        lemma_is_no_member(clients@, species@, client as int);
        assert(roster(species@, place as int).len() > 0);
        assert forall|k: int| 0 <= k < species@[place as int].clients@.len() implies (
        #[trigger] clients@[species@[place as int].clients@[k] as int]).genome.wf() by {
            let member = roster(species@, place as int)[k];
            assert(clients@[member as int].wf());
        }
        if all_forward(clients@) {
            assert forall|k: int| 0 <= k < species@[place as int].clients@.len() implies forward(
                (#[trigger] clients@[species@[place as int].clients@[k] as int]).genome.connections@,
            ) by {
                let member = roster(species@, place as int)[k];
                assert(forward(clients@[member as int].genome.connections@));
            }
        }
        if at_home(clients@, registry@) {
            assert forall|k: int| 0 <= k < species@[place as int].clients@.len() implies (
            #[trigger] clients@[species@[place as int].clients@[k] as int]).genome.belongs_to(
                registry@,
            ) by {
                let member = roster(species@, place as int)[k];
                assert(clients@[member as int].genome.belongs_to(registry@));
            }
        }
    }
    let child = species[place].breed(clients, registry);
    let ghost (first, second, picks) = choose|first: int, second: int, picks: Seq<bool>|
        0 <= first < members.len() && 0 <= second < members.len() && child.connections@ == gather(
            #[trigger] inherited(clients_before, members, first, second, picks),
        ) && child.nodes@ == gather(
            registry@.base_nodes() + endpoints(
                inherited(clients_before, members, first, second, picks),
            ),
        );
    clients[client].genome = child;
    let ghost clients_bred = clients@;
    proof {
        assert forall|i: int| 0 <= i < clients_bred.len() implies (#[trigger] clients_bred[i]).wf() by {
            assert(clients_before[i].wf());
        }
        lemma_flags_decide(clients_before, clients_bred, species_before);
        if at_home(clients_before, registry@) {
            assert forall|i: int| 0 <= i < clients_bred.len() implies (
            #[trigger] clients_bred[i]).genome.belongs_to(registry@) by {
                if i != client {
                    assert(clients_before[i].genome.belongs_to(registry@));
                }
            }
        }
        if all_forward(clients_before) {
            assert forall|i: int| 0 <= i < clients_bred.len() implies forward(
                (#[trigger] clients_bred[i]).genome.connections@,
            ) by {
                if i != client {
                    assert(forward(clients_before[i].genome.connections@));
                }
            }
        }
    }
    species[place].force_put(clients, client);
    proof {
        assert(rewritten(species_before, species@, place as int, members.push(client))) by {
            assert forall|t: int|
                0 <= t < species_before.len() && t != place implies #[trigger] roster(species@, t)
                == roster(species_before, t) by {
                assert(species@[t] == species_before[t]);
            }
        }
        lemma_join(clients_bred, species_before, clients@, species@, place as int, client);
        lemma_adopted_wf(clients_bred, client as int);
        if at_home(clients_bred, registry@) {
            lemma_reflagged_at_home(clients_bred, clients@, registry@);
        }
        if all_forward(clients_bred) {
            lemma_reflagged_forward(clients_bred, clients@);
        }
        assert forall|t: int| 0 <= t < species@.len() implies (#[trigger] roster(species@, t)).len()
            > 0 && species@[t].representative < clients@.len() by {
            if t != place {
                assert(species@[t] == species_before[t]);
                assert(roster(species_before, t).len() > 0);
            } else {
                assert(roster(species_before, t).len() > 0);
            }
        }
        assert forall|t: int| 0 <= t < species@.len() implies (#[trigger] species@[t]).representative
            < clients@.len() by {
            if t != place {
                assert(species@[t] == species_before[t]);
            }
        }
        assert forall|t: int| 0 <= t < species_before.len() implies (
        #[trigger] species@[t]).representative == species_before[t].representative
            && species@[t].average_fitness == species_before[t].average_fitness by {
            if t != place {
                assert(species@[t] == species_before[t]);
            }
        }
        // The new member is bred from two of the members before it.
        let longer = roster(species@, place as int);
        let at = members.len() as int;
        assert(longer.take(at) =~= members);
        assert(longer[at] == client);
        let one = members[first];
        let two = members[second];
        assert(one != client && two != client) by {
            assert(names(members, one as int));
            assert(names(members, two as int));
        }
        assert(clients@[one as int] == clients_before[one as int]);
        assert(clients@[two as int] == clients_before[two as int]);
        assert(inherited(clients@, longer.take(at), first, second, picks) == inherited(
            clients_before,
            members,
            first,
            second,
            picks,
        ));
    }
}

/// Gives every client without a species a genome bred by a species and
/// makes it a member of that species. The species is selected at random
/// with a chance in proportion to its mean fitness, and two of its
/// members, which may be clients that joined it a moment ago, are the
/// parents. Fails, and changes nothing, where a client needs a genome
/// and no species can be selected: see [`selectable`].
pub fn breed_orphans(
    clients: &mut Vec<Client>,
    species: &mut Vec<Species>,
    registry: &Registry,
) -> (done: Result<(), EvolveError>)
    requires
        sound(old(clients)@, old(species)@),
        species_wf(old(clients)@, old(species)@),
        registry.wf(),
    ensures
        sound(final(clients)@, final(species)@),
        species_wf(final(clients)@, final(species)@),
        final(clients)@.len() == old(clients)@.len(),
        at_home(old(clients)@, registry@) ==> at_home(final(clients)@, registry@),
        all_forward(old(clients)@) ==> all_forward(final(clients)@),
        grown(old(species)@, final(species)@),
        all_bred(final(clients)@, old(species)@, final(species)@, registry@),
        forall|i: int|
            0 <= i < old(clients)@.len() ==> {
                &&& (#[trigger] final(clients)@[i]).fitness == old(clients)@[i].fitness
                &&& final(clients)@[i].calculator == old(clients)@[i].calculator
                &&& old(clients)@[i].has_species ==> final(clients)@[i] == old(clients)@[i]
            },
        done is Ok == (all_housed(old(clients)@) || selectable(scores(old(species)@))),
        done is Ok ==> all_housed(final(clients)@),
        done is Err ==> final(clients)@ == old(clients)@ && same_species(
            old(species)@,
            final(species)@,
        ) && done->Err_0 == breed_error(select_error(scores(old(species)@))),
        done is Err ==> !all_housed(old(clients)@) && !selectable(scores(old(species)@)),
{
    let mut selector: RandomSelector<usize> = RandomSelector::new();
    let mut s: usize = 0;
    while s < species.len()
        invariant
            s <= species@.len(),
            selector.wf(),
            selector@ == scores(species@).take(s as int),
        decreases species@.len() - s,
    {
        selector.add(s, species[s].average_fitness);
        assert(selector@ =~= scores(species@).take(s + 1));
        s += 1;
    }
    assert(scores(species@).take(species@.len() as int) =~= scores(species@));
    let mut client: usize = 0;
    proof {
        assert(species@.len() == s);
        lemma_grown_same(species@);
    }
    while client < clients.len()
        invariant
            client <= clients@.len(),
            clients@.len() == old(clients)@.len(),
            registry.wf(),
            sound(clients@, species@),
            species_wf(clients@, species@),
            at_home(old(clients)@, registry@) ==> at_home(clients@, registry@),
            all_forward(old(clients)@) ==> all_forward(clients@),
            grown(old(species)@, species@),
            all_bred(clients@, old(species)@, species@, registry@),
            selector@ == scores(old(species)@),
            old(species)@.len() <= usize::MAX,
            forall|i: int|
                0 <= i < old(clients)@.len() ==> {
                    &&& (#[trigger] clients@[i]).fitness == old(clients)@[i].fitness
                    &&& clients@[i].calculator == old(clients)@[i].calculator
                    &&& old(clients)@[i].has_species ==> clients@[i] == old(clients)@[i]
                },
            forall|i: int| 0 <= i < client ==> (#[trigger] clients@[i]).has_species,
            forall|i: int|
                client <= i < clients@.len() ==> (#[trigger] clients@[i]).has_species == old(clients)@[i].has_species,
            !selectable(selector@) ==> clients@ == old(clients)@ && same_species(
                old(species)@,
                species@,
            ),
        decreases clients@.len() - client,
    {
        if !clients[client].has_species {
            match selector.random_element() {
                Err(reason) => {
                    proof {
                        assert(!old(clients)@[client as int].has_species);
                    }
                    return Err(
                        match reason {
                            SelectError::NoItem => EvolveError::NoSpecies,
                            SelectError::InvalidWeight => EvolveError::NegativeFitness,
                            SelectError::AllWeightsZero => EvolveError::NoFitness,
                            SelectError::TooMany => EvolveError::NoSpecies,
                        },
                    );
                },
                Ok(chosen) => {
                    let place = chosen.0;
                    let ghost clients_before = clients@;
                    let ghost species_before = species@;
                    proof {
                        let i = choose|i: int|
                            0 <= i < selector@.len() && #[trigger] selector@[i] == *chosen;
                        assert(place == i);
                        lemma_is_no_member(clients@, species@, client as int);
                    }
                    breed_into(clients, species, registry, client, place);
                    proof {
                        assert forall|t: int| 0 <= t < old(species)@.len() implies {
                            &&& (#[trigger] species@[t]).representative == old(species)@[t].representative
                            &&& species@[t].average_fitness == old(species)@[t].average_fitness
                            &&& old(species)@[t].clients@.len() <= species@[t].clients@.len()
                            &&& species@[t].clients@.take(old(species)@[t].clients@.len() as int)
                                == old(species)@[t].clients@
                        } by {
                            let first = old(species)@[t].clients@;
                            let middle = species_before[t].clients@;
                            assert(species_before[t].representative == old(species)@[t].representative);
                            assert(middle.take(first.len() as int) == first);
                            if t != place {
                                assert(roster(species@, t) == roster(species_before, t));
                            } else {
                                assert(roster(species@, t) == middle.push(client));
                                assert(middle.push(client).take(first.len() as int) =~= middle.take(
                                    first.len() as int,
                                ));
                            }
                        }
                        assert forall|i: int| 0 <= i < client + 1 implies (#[trigger] clients@[i]).has_species by {
                            if i < client {
                                assert(clients_before[i].has_species);
                            }
                        }
                        assert forall|s: int, k: int|
                            0 <= s < old(species)@.len() && roster(old(species)@, s).len() <= k
                                < roster(species@, s).len() implies #[trigger] bred_in(
                            clients@,
                            roster(species@, s),
                            k,
                            registry@,
                        ) by {
                            let members = roster(species_before, s);
                            if k < members.len() {
                                assert(bred_in(clients_before, members, k, registry@));
                                assert forall|j: int| 0 <= j <= k implies clients@[(
                                #[trigger] members[j]) as int].genome
                                    == clients_before[members[j] as int].genome
                                    && clients@[members[j] as int].fitness
                                    == clients_before[members[j] as int].fitness by {
                                    assert(names(members, members[j] as int));
                                    assert(members[j] != client);
                                }
                                if s != place {
                                    assert(roster(species@, s) == members);
                                    assert(members.take(members.len() as int) =~= members);
                                } else {
                                    assert(roster(species@, s) == members.push(client));
                                    assert(members.push(client).take(members.len() as int)
                                        =~= members);
                                }
                                lemma_bred_in_stays(
                                    clients_before,
                                    clients@,
                                    members,
                                    roster(species@, s),
                                    k,
                                    registry@,
                                );
                            } else {
                                assert(s == place) by {
                                    if s != place {
                                        assert(roster(species@, s) == members);
                                    }
                                }
                            }
                        }
                    }
                },
            }
        }
        client += 1;
    }
    proof {
        if !selectable(selector@) {
            assert forall|c: int| 0 <= c < old(clients)@.len() implies (#[trigger] old(clients)@[c]).has_species by {
                assert(clients@[c].has_species);
            }
        }
    }
    Ok(())
}

/// Every list of species has grown out of itself.
pub proof fn lemma_grown_same(species: Seq<Species>)
    ensures
        grown(species, species),
        same_species(species, species),
{
    assert forall|s: int| 0 <= s < species.len() implies (#[trigger] species[s]).clients@.take(
        species[s].clients@.len() as int,
    ) == species[s].clients@ by {
        assert(species[s].clients@.take(species[s].clients@.len() as int) =~= species[s].clients@);
    }
}

/// Mutates the genome of every client, one after the other in the order
/// of the clients, while the registry grows: see [`all_mutated`].
pub fn mutate_all(clients: &mut Vec<Client>, registry: &mut Registry, config: &Config)
    requires
        clients_wf(old(clients)@),
        old(registry).wf(),
        config.wf(),
    ensures
        clients_wf(final(clients)@),
        final(registry).wf(),
        extends(final(registry)@, old(registry)@),
        final(clients)@.len() == old(clients)@.len(),
        all_mutated(old(clients)@, final(clients)@, old(registry)@, final(registry)@, *config),
        at_home(old(clients)@, old(registry)@) ==> at_home(final(clients)@, final(registry)@),
        all_forward(old(clients)@) ==> all_forward(final(clients)@),
        forall|i: int|
            0 <= i < old(clients)@.len() ==> {
                &&& (#[trigger] final(clients)@[i]).fitness == old(clients)@[i].fitness
                &&& final(clients)@[i].calculator == old(clients)@[i].calculator
                &&& final(clients)@[i].has_species == old(clients)@[i].has_species
            },
{
    let mut client: usize = 0;
    proof {
        lemma_extends_reflexive(registry@);
    }
    while client < clients.len()
        invariant
            client <= clients@.len(),
            clients@.len() == old(clients)@.len(),
            clients_wf(clients@),
            registry.wf(),
            config.wf(),
            extends(registry@, old(registry)@),
            at_home(old(clients)@, old(registry)@) ==> at_home(clients@, registry@),
            all_forward(old(clients)@) ==> all_forward(clients@),
            forall|i: int|
                0 <= i < old(clients)@.len() ==> {
                    &&& (#[trigger] clients@[i]).fitness == old(clients)@[i].fitness
                    &&& clients@[i].calculator == old(clients)@[i].calculator
                    &&& clients@[i].has_species == old(clients)@[i].has_species
                },
            forall|i: int|
                0 <= i < client ==> #[trigger] mutated_between(
                    old(clients)@[i].genome,
                    clients@[i].genome,
                    old(registry)@,
                    registry@,
                    *config,
                ),
            forall|i: int|
                client <= i < clients@.len() ==> (#[trigger] clients@[i]).genome == old(
                    clients,
                )@[i].genome,
        decreases clients@.len() - client,
    {
        let ghost clients_before = clients@;
        let ghost registry_before = registry@;
        proof {
            assert(clients@[client as int].wf());
        }
        clients[client].mutate(registry, config);
        proof {
            lemma_extends_transitive(registry@, registry_before, old(registry)@);
            assert forall|i: int| 0 <= i < client + 1 implies #[trigger] mutated_between(
                old(clients)@[i].genome,
                clients@[i].genome,
                old(registry)@,
                registry@,
                *config,
            ) by {
                if i < client {
                    assert(clients@[i] == clients_before[i]);
                    lemma_mutated_on(
                        old(clients)@[i].genome,
                        clients_before[i].genome,
                        old(registry)@,
                        registry_before,
                        registry@,
                        *config,
                    );
                } else {
                    assert(clients_before[i].genome == old(clients)@[i].genome);
                    lemma_extends_reflexive(registry@);
                }
            }
            assert forall|i: int| client + 1 <= i < clients@.len() implies (
            #[trigger] clients@[i]).genome == old(clients)@[i].genome by {
                assert(clients@[i] == clients_before[i]);
            }
            if all_forward(clients_before) {
                assert forall|i: int| 0 <= i < clients@.len() implies forward(
                    (#[trigger] clients@[i]).genome.connections@,
                ) by {
                    assert(forward(clients_before[i].genome.connections@));
                }
            }
            if at_home(clients_before, registry_before) {
                assert forall|i: int| 0 <= i < clients@.len() implies (
                #[trigger] clients@[i]).genome.belongs_to(registry@) by {
                    assert(clients_before[i].genome.belongs_to(registry_before));
                    if i != client {
                        lemma_belongs_on(
                            clients_before[i].genome.connections@,
                            clients_before[i].genome.nodes@,
                            registry_before,
                            registry@,
                        );
                    }
                }
            }
            assert forall|i: int| 0 <= i < clients@.len() implies (#[trigger] clients@[i]).wf() by {
                if i != client {
                    assert(clients_before[i].wf());
                }
            }
        }
        client += 1;
    }
}

/// Builds the calculator of every client anew from its genome.
pub fn recompile_all(clients: &mut Vec<Client>, config: &Config)
    requires
        clients_wf(old(clients)@),
    ensures
        clients_wf(final(clients)@),
        final(clients)@.len() == old(clients)@.len(),
        forall|i: int|
            0 <= i < old(clients)@.len() ==> {
                &&& (#[trigger] final(clients)@[i]).fitness == old(clients)@[i].fitness
                &&& final(clients)@[i].genome == old(clients)@[i].genome
                &&& final(clients)@[i].has_species == old(clients)@[i].has_species
                &&& final(clients)@[i].calculator is Some
                &&& final(clients)@[i].calculator.unwrap()@.compiled(
                    old(clients)@[i].genome.nodes@,
                    old(clients)@[i].genome.connections@,
                    config.activation,
                    config.bias,
                )
            },
{
    let mut client: usize = 0;
    while client < clients.len()
        invariant
            client <= clients@.len(),
            clients@.len() == old(clients)@.len(),
            clients_wf(clients@),
            forall|i: int|
                client <= i < old(clients)@.len() ==> #[trigger] clients@[i] == old(clients)@[i],
            forall|i: int|
                0 <= i < client ==> {
                    &&& (#[trigger] clients@[i]).fitness == old(clients)@[i].fitness
                    &&& clients@[i].genome == old(clients)@[i].genome
                    &&& clients@[i].has_species == old(clients)@[i].has_species
                    &&& clients@[i].calculator is Some
                    &&& clients@[i].calculator.unwrap()@.compiled(
                        old(clients)@[i].genome.nodes@,
                        old(clients)@[i].genome.connections@,
                        config.activation,
                        config.bias,
                    )
                },
        decreases clients@.len() - client,
    {
        let ghost clients_before = clients@;
        proof {
            assert(clients@[client as int].wf());
        }
        clients[client].generate_calculator(config);
        proof {
            assert forall|i: int| 0 <= i < clients@.len() implies (#[trigger] clients@[i]).wf() by {
                if i != client {
                    assert(clients_before[i].wf());
                }
            }
        }
        client += 1;
    }
}

impl Neat {
    /// Clusters the clients into species. Every species starts anew
    /// around one of its members drawn at random, and every client
    /// without a species joins the first species whose representative is
    /// closer to it than the species threshold, or founds a species.
    /// Afterwards every client has a species.
    pub fn gen_species(&mut self)
        requires
            old(self).wf(),
        ensures
            final(self).wf(),
            final(self).registry == old(self).registry,
            final(self).config == old(self).config,
            final(self).population_size == old(self).population_size,
            reflagged(old(self).clients@, final(self).clients@),
            all_housed(final(self).clients@),
            all_unscored(models_of(final(self).species@)),
            exists|chosen: Seq<SpeciesModel>|
                #[trigger] started_anew(old(self).species@, chosen) && models_of(
                    final(self).species@,
                ) == all_housed_in(
                    genes_of(old(self).clients@),
                    Seq::new(old(self).clients@.len(), |i: int| represents(chosen, i)),
                    chosen,
                    old(self).config,
                    old(self).clients@.len() as int,
                ),
    {
        reset_all(&mut self.clients, &mut self.species);
        let ghost middle = self.clients@;
        let ghost chosen = models_of(self.species@);
        proof {
            lemma_reflagged_genes(old(self).clients@, middle);
            assert(flags_of(middle) =~= Seq::new(
                old(self).clients@.len(),
                |i: int| represents(chosen, i),
            )) by {
                assert forall|i: int| 0 <= i < middle.len() implies middle[i].has_species
                    == represents(chosen, i) by {
                    if middle[i].has_species {
                        let s = choose|s: int|
                            0 <= s < self.species@.len() && #[trigger] names(
                                roster(self.species@, s),
                                i,
                            );
                        assert(chosen[s].clients == seq![chosen[s].representative]);
                        let k = choose|k: int|
                            0 <= k < roster(self.species@, s).len() && #[trigger] roster(
                                self.species@,
                                s,
                            )[k] == i;
                        assert(chosen[s].representative == i);
                    }
                    if represents(chosen, i) {
                        let s = choose|s: int|
                            0 <= s < chosen.len() && (#[trigger] chosen[s]).representative == i;
                        assert(chosen[s].clients == seq![chosen[s].representative]);
                        assert(roster(self.species@, s)[0] == i);
                    }
                }
            }
        }
        house_all(&mut self.clients, &mut self.species, &self.config);
        proof {
            assert(all_unscored(chosen)) by {
                assert forall|s: int| 0 <= s < chosen.len() implies (
                #[trigger] chosen[s]).average_fitness@ == 0 by {}
            }
            lemma_housed_unscored(
                genes_of(middle),
                flags_of(middle),
                chosen,
                self.config,
                middle.len() as int,
            );
            lemma_reflagged_twice(old(self).clients@, middle, self.clients@);
            lemma_reflagged_at_home(old(self).clients@, self.clients@, self.registry@);
        }
    }

    /// Works out the mean fitness of every species and removes, from
    /// each, the share of its members that the kill percentage names,
    /// lowest fitness first: see [`cull`].
    pub fn kill(&mut self)
        requires
            old(self).wf_loose(),
        ensures
            final(self).wf_loose(),
            final(self).registry == old(self).registry,
            final(self).config == old(self).config,
            final(self).population_size == old(self).population_size,
            reflagged(old(self).clients@, final(self).clients@),
            final(self).species@.len() == old(self).species@.len(),
            forall|s: int|
                0 <= s < old(self).species@.len() ==> {
                    let members = roster(old(self).species@, s);
                    &&& #[trigger] roster(final(self).species@, s) == ranked(
                        old(self).clients@,
                        members,
                        members.len() as int,
                    ).skip(kill_count(old(self).config.kill_percentage@, members.len() as int))
                    &&& final(self).species@[s].average_fitness@ == mean_fitness(
                        old(self).clients@,
                        members,
                    )
                    &&& final(self).species@[s].representative == old(self).species@[s].representative
                },
            models_of(final(self).species@) == culled(
                old(self).clients@,
                models_of(old(self).species@),
                old(self).config.kill_percentage@,
            ),
    {
        cull(&mut self.clients, &mut self.species, self.config.kill_percentage);
        proof {
            lemma_reflagged_at_home(old(self).clients@, self.clients@, self.registry@);
        }
    }

    /// Takes every species with fewer than two members off the list and
    /// leaves its member without a species: see [`prune`].
    pub fn remove_extinct_species(&mut self)
        requires
            old(self).wf_loose(),
        ensures
            final(self).wf(),
            final(self).registry == old(self).registry,
            final(self).config == old(self).config,
            final(self).population_size == old(self).population_size,
            reflagged(old(self).clients@, final(self).clients@),
            final(self).species@.len() == alive(old(self).species@, 0).len(),
            forall|k: int|
                0 <= k < final(self).species@.len() ==> same_as(
                    #[trigger] final(self).species@[k],
                    old(self).species@[alive(old(self).species@, 0)[k]],
                ),
            models_of(final(self).species@) == survivors(models_of(old(self).species@), 0),
    {
        prune(&mut self.clients, &mut self.species);
        proof {
            lemma_reflagged_at_home(old(self).clients@, self.clients@, self.registry@);
        }
    }

    /// Gives every client without a species a genome bred by a species
    /// selected at random, and makes it a member of that species: see
    /// [`breed_orphans`].
    pub fn reproduce(&mut self) -> (done: Result<(), EvolveError>)
        requires
            old(self).wf(),
        ensures
            final(self).wf(),
            final(self).registry == old(self).registry,
            final(self).config == old(self).config,
            final(self).population_size == old(self).population_size,
            grown(old(self).species@, final(self).species@),
            all_bred(
                final(self).clients@,
                old(self).species@,
                final(self).species@,
                final(self).registry@,
            ),
            forall|i: int|
                0 <= i < old(self).clients@.len() ==> {
                    &&& (#[trigger] final(self).clients@[i]).fitness == old(self).clients@[i].fitness
                    &&& final(self).clients@[i].calculator == old(self).clients@[i].calculator
                    &&& old(self).clients@[i].has_species ==> final(self).clients@[i] == old(self).clients@[i]
                },
            done is Ok == (all_housed(old(self).clients@) || selectable(
                scores(old(self).species@),
            )),
            done is Ok ==> all_housed(final(self).clients@),
            done is Err ==> final(self).clients@ == old(self).clients@ && same_species(
                old(self).species@,
                final(self).species@,
            ) && done->Err_0 == breed_error(select_error(scores(old(self).species@))),
            grown_models(models_of(old(self).species@), models_of(final(self).species@)),
            done is Err ==> models_of(final(self).species@) == models_of(old(self).species@),
            all_forward(old(self).clients@) ==> all_forward(final(self).clients@),
    {
        proof {
            lemma_grown_same(self.species@);
        }
        let done = breed_orphans(&mut self.clients, &mut self.species, &self.registry);
        proof {
            lemma_grown_models(old(self).species@, self.species@);
        }
        done
    }

    /// Mutates the genome of every client, one after the other in the
    /// order of the clients: see [`all_mutated`].
    pub fn mutate(&mut self)
        requires
            old(self).wf(),
        ensures
            final(self).wf(),
            extends(final(self).registry@, old(self).registry@),
            all_mutated(
                old(self).clients@,
                final(self).clients@,
                old(self).registry@,
                final(self).registry@,
                old(self).config,
            ),
            final(self).config == old(self).config,
            final(self).population_size == old(self).population_size,
            same_species(old(self).species@, final(self).species@),
            final(self).species@ == old(self).species@,
            all_forward(old(self).clients@) ==> all_forward(final(self).clients@),
            final(self).clients@.len() == old(self).clients@.len(),
            forall|i: int|
                0 <= i < old(self).clients@.len() ==> {
                    &&& (#[trigger] final(self).clients@[i]).fitness == old(self).clients@[i].fitness
                    &&& final(self).clients@[i].calculator == old(self).clients@[i].calculator
                    &&& final(self).clients@[i].has_species == old(self).clients@[i].has_species
                },
    {
        mutate_all(&mut self.clients, &mut self.registry, &self.config);
        proof {
            lemma_flags_decide(old(self).clients@, self.clients@, self.species@);
            lemma_grown_same(self.species@);
        }
    }

    /// One generation: the clients are clustered into species, the
    /// species lose their worst members, species with fewer than two
    /// members go, the clients without a species get new genomes from
    /// the species that are left, every genome is mutated, and every
    /// calculator is built anew.
    ///
    /// The fitness of the clients is read and never written. The number
    /// of clients does not change, and the registry only grows. After a
    /// generation that was completed every client is a member of exactly
    /// one species, the clients that were left without a species have
    /// genomes bred by the species they are now members of, and every
    /// genome has been mutated once: see [`bred_from`] and
    /// [`all_mutated`]. A generation that cannot be completed, because
    /// clients need new genomes and no species can be selected, stops
    /// before any genome is changed.
    pub fn evolve(&mut self) -> (done: Result<(), EvolveError>)
        requires
            old(self).wf(),
        ensures
            final(self).wf(),
            final(self).config == old(self).config,
            final(self).population_size == old(self).population_size,
            final(self).clients@.len() == old(self).clients@.len(),
            extends(final(self).registry@, old(self).registry@),
            final(self).registry@.catalog.len() >= old(self).registry@.catalog.len(),
            forall|i: int|
                0 <= i < old(self).clients@.len() ==> (#[trigger] final(self).clients@[i]).fitness
                    == old(self).clients@[i].fitness,
            done is Ok ==> all_housed(final(self).clients@),
            done is Ok ==> forall|i: int|
                0 <= i < final(self).clients@.len() ==> {
                    let client = #[trigger] final(self).clients@[i];
                    client.calculator is Some && client.calculator.unwrap()@.compiled(
                        client.genome.nodes@,
                        client.genome.connections@,
                        old(self).config.activation,
                        old(self).config.bias,
                    )
                },
            done is Err ==> final(self).registry == old(self).registry && reflagged(
                old(self).clients@,
                final(self).clients@,
            ),
            done is Err ==> !all_housed(final(self).clients@) && !selectable(
                scores(final(self).species@),
            ) && done->Err_0 == breed_error(select_error(scores(final(self).species@))),
            all_forward(old(self).clients@) ==> all_forward(final(self).clients@),
            done is Ok ==> covered(
                models_of(final(self).species@),
                final(self).clients@.len() as int,
            ),
            done is Ok ==> member_count(final(self).species@, final(self).species@.len() as int)
                == final(self).clients@.len(),
            exists|chosen: Seq<SpeciesModel>, bred: Seq<Client>|
                started_anew(old(self).species@, chosen) && #[trigger] bred_from(
                    old(self).clients@,
                    left_to_breed(old(self).clients@, chosen, old(self).config),
                    bred,
                    models_of(final(self).species@),
                    old(self).registry@,
                ) && {
                    let left = left_to_breed(old(self).clients@, chosen, old(self).config);
                    &&& (done is Ok) == can_breed(old(self).clients@, chosen, old(self).config)
                    &&& done is Ok ==> all_mutated(
                        bred,
                        final(self).clients@,
                        old(self).registry@,
                        final(self).registry@,
                        old(self).config,
                    )
                    &&& done is Err ==> models_of(final(self).species@) == left && done->Err_0
                        == breed_error(select_error(model_scores(left)))
                },
    {
        proof {
            lemma_extends_reflexive(self.registry@);
        }
        self.gen_species();
        let ghost clustered = self.clients@;
        let ghost clustered_species = self.species@;
        let ghost chosen = choose|chosen: Seq<SpeciesModel>|
            #[trigger] started_anew(old(self).species@, chosen) && models_of(clustered_species)
                == all_housed_in(
                genes_of(old(self).clients@),
                Seq::new(old(self).clients@.len(), |i: int| represents(chosen, i)),
                chosen,
                old(self).config,
                old(self).clients@.len() as int,
            );
        self.kill();
        let ghost culled_clients = self.clients@;
        self.remove_extinct_species();
        let ghost pruned = self.clients@;
        let ghost pruned_species = self.species@;
        let ghost left = left_to_breed(old(self).clients@, chosen, old(self).config);
        proof {
            lemma_reflagged_twice(old(self).clients@, clustered, culled_clients);
            lemma_reflagged_twice(old(self).clients@, culled_clients, pruned);
            if all_forward(old(self).clients@) {
                lemma_reflagged_forward(old(self).clients@, pruned);
            }
            assert forall|s: int| 0 <= s < models_of(clustered_species).len() implies within(
                (#[trigger] models_of(clustered_species)[s]).clients,
                clustered.len(),
            ) by {
                lemma_members_within(clustered, clustered_species, s);
            }
            assert forall|i: int| 0 <= i < clustered.len() implies (
            #[trigger] clustered[i]).fitness == old(self).clients@[i].fitness by {
                assert(clustered[i] == (Client {
                    has_species: clustered[i].has_species,
                    ..old(self).clients@[i]
                }));
            }
            lemma_culled_by_fitness(
                clustered,
                old(self).clients@,
                models_of(clustered_species),
                old(self).config.kill_percentage@,
            );
            assert(models_of(pruned_species) == left);
            lemma_covered(pruned, pruned_species);
            lemma_model_scores(pruned_species);
        }
        let done = self.reproduce();
        let ghost bred = self.clients@;
        proof {
            assert forall|i: int| 0 <= i < pruned.len() implies (#[trigger] pruned[i]).genome
                == old(self).clients@[i].genome && pruned[i].fitness == old(
                self,
            ).clients@[i].fitness by {
                assert(pruned[i] == (Client {
                    has_species: pruned[i].has_species,
                    ..old(self).clients@[i]
                }));
            }
            lemma_bred_from(
                old(self).clients@,
                pruned,
                pruned_species,
                bred,
                self.species@,
                self.registry@,
            );
        }
        match done {
            Err(reason) => {
                proof {
                    lemma_model_scores(self.species@);
                }
                return Err(reason);
            },
            Ok(()) => {},
        }
        let ghost bred_species = self.species@;
        proof {
            lemma_covered(bred, bred_species);
        }
        self.mutate();
        let ghost mutated = self.clients@;
        recompile_all(&mut self.clients, &self.config);
        proof {
            lemma_same_genomes_mutated(
                bred,
                mutated,
                self.clients@,
                old(self).registry@,
                self.registry@,
                self.config,
            );
            lemma_flags_decide(mutated, self.clients@, self.species@);
            lemma_same_genomes_at_home(mutated, self.clients@, self.registry@);
            if all_forward(mutated) {
                lemma_same_genomes_forward(mutated, self.clients@);
            }
            assert forall|i: int| 0 <= i < old(self).clients@.len() implies (
            #[trigger] self.clients@[i]).fitness == old(self).clients@[i].fitness by {
                assert(pruned[i] == (Client {
                    has_species: pruned[i].has_species,
                    ..old(self).clients@[i]
                }));
                assert(bred[i].fitness == pruned[i].fitness);
                assert(mutated[i].fitness == bred[i].fitness);
            }
            assert forall|c: int| 0 <= c < self.clients@.len() implies (
            #[trigger] self.clients@[c]).has_species by {
                assert(bred[c].has_species);
                assert(mutated[c].has_species == bred[c].has_species);
            }
            lemma_member_count(self.clients@, self.species@);
        }
        Ok(())
    }

    /// The clients, to read them and to set their fitness.
    pub fn iter_clients(&mut self) -> (clients: &mut Vec<Client>)
        ensures
            *clients == old(self).clients,
            final(self).clients == *final(clients),
            final(self).registry == old(self).registry,
            final(self).species == old(self).species,
            final(self).config == old(self).config,
            final(self).population_size == old(self).population_size,
    {
        &mut self.clients
    }
}

/// Clients with the genomes of clients whose genomes can have come out
/// of the registry have such genomes.
pub proof fn lemma_same_genomes_at_home(
    before: Seq<Client>,
    after: Seq<Client>,
    registry: RegistryModel,
)
    requires
        at_home(before, registry),
        after.len() == before.len(),
        forall|i: int| 0 <= i < before.len() ==> (#[trigger] after[i]).genome == before[i].genome,
    ensures
        at_home(after, registry),
{
    assert forall|i: int| 0 <= i < after.len() implies (#[trigger] after[i]).genome.belongs_to(
        registry,
    ) by {
        assert(before[i].genome.belongs_to(registry));
    }
}

/// Changing species flags changes no genome.
pub proof fn lemma_reflagged_at_home(
    before: Seq<Client>,
    after: Seq<Client>,
    registry: RegistryModel,
)
    requires
        at_home(before, registry),
        reflagged(before, after),
    ensures
        at_home(after, registry),
{
    assert forall|i: int| 0 <= i < after.len() implies (#[trigger] after[i]).genome.belongs_to(
        registry,
    ) by {
        assert(before[i].genome.belongs_to(registry));
    }
}

/// Changing species flags changes no connection.
pub proof fn lemma_reflagged_forward(before: Seq<Client>, after: Seq<Client>)
    requires
        all_forward(before),
        reflagged(before, after),
    ensures
        all_forward(after),
{
    assert forall|i: int| 0 <= i < after.len() implies forward(
        (#[trigger] after[i]).genome.connections@,
    ) by {
        assert(forward(before[i].genome.connections@));
    }
}

/// Nothing changed is species flags changed.
pub proof fn lemma_reflagged_same(clients: Seq<Client>)
    ensures
        reflagged(clients, clients),
{
}

} // verus!
