//! The species of one generation as plain values, from the clustering of
//! the clients up to the breeding of new genomes.

use crate::data_structures::pseudo_float::PseudoFloat;
use crate::data_structures::random_selector::{selectable, some_positive};
use crate::neat::client::Client;
use crate::neat::config::Config;
use crate::genome::connection_gene::ConnectionGene;
use crate::neat::evolution::{
    alive,
    all_bred,
    all_housed_in,
    bred_in,
    close,
    first_home,
    housed,
    genes_of,
    grown,
    lemma_alive,
    lemma_first_home,
    started_anew,
    models_of,
    represents,
    same_as,
    scores,
    SpeciesModel,
};
use crate::neat::population::{all_housed, has_home, partitioned, roster, same_species};
use crate::neat::registry::RegistryModel;
use crate::neat::species::{
    fitness_sum,
    kill_count,
    lemma_fitness_decides,
    lemma_ranked_same_members,
    mean_fitness,
    names,
    ranked,
    within,
    Species,
};
use vstd::prelude::*;

verus! {

/// The species after each has worked out its mean fitness and has lost
/// the share `percentage` of its members, lowest fitness first.
pub open spec fn culled(
    clients: Seq<Client>,
    species: Seq<SpeciesModel>,
    percentage: int,
) -> Seq<SpeciesModel> {
    Seq::new(
        species.len(),
        |s: int|
            SpeciesModel {
                clients: ranked(
                    clients,
                    species[s].clients,
                    species[s].clients.len() as int,
                ).skip(kill_count(percentage, species[s].clients.len() as int)),
                representative: species[s].representative,
                average_fitness: PseudoFloat {
                    units: mean_fitness(clients, species[s].clients) as i64,
                },
            },
    )
}

/// The species from `from` on that have more than one member, in their
/// order.
pub open spec fn survivors(species: Seq<SpeciesModel>, from: int) -> Seq<SpeciesModel>
    decreases species.len() - from,
{
    if from < 0 || from >= species.len() {
        Seq::empty()
    } else if species[from].clients.len() > 1 {
        seq![species[from]] + survivors(species, from + 1)
    } else {
        survivors(species, from + 1)
    }
}

/// Whether the client at `client` is a member of one of the species.
pub open spec fn homed(species: Seq<SpeciesModel>, client: int) -> bool {
    exists|s: int| 0 <= s < species.len() && names((#[trigger] species[s]).clients, client)
}

/// Whether each of the first `count` clients is a member of one of the
/// species.
pub open spec fn covered(species: Seq<SpeciesModel>, count: int) -> bool {
    forall|client: int| 0 <= client < count ==> #[trigger] homed(species, client)
}

/// The species by their places, each with its mean fitness as score.
pub open spec fn model_scores(species: Seq<SpeciesModel>) -> Seq<(usize, PseudoFloat)> {
    Seq::new(species.len(), |s: int| (s as usize, species[s].average_fitness))
}

/// Whether every species of `later` has the representative and the mean
/// fitness it has in `earlier`, and the members it has there before any
/// others.
pub open spec fn grown_models(earlier: Seq<SpeciesModel>, later: Seq<SpeciesModel>) -> bool {
    &&& later.len() == earlier.len()
    &&& forall|s: int|
        0 <= s < earlier.len() ==> {
            &&& (#[trigger] later[s]).representative == earlier[s].representative
            &&& later[s].average_fitness == earlier[s].average_fitness
            &&& earlier[s].clients.len() <= later[s].clients.len()
            &&& later[s].clients.take(earlier[s].clients.len() as int) == earlier[s].clients
        }
}

/// The species that are left to breed in a generation that started
/// from the species `chosen`, each a species of before started anew: the
/// clients that represent no species find their homes in the order of
/// the clients, every species loses its worst members, and the species
/// with fewer than two members go.
pub open spec fn left_to_breed(
    clients: Seq<Client>,
    chosen: Seq<SpeciesModel>,
    config: Config,
) -> Seq<SpeciesModel> {
    survivors(
        culled(
            clients,
            all_housed_in(
                genes_of(clients),
                Seq::new(clients.len(), |i: int| represents(chosen, i)),
                chosen,
                config,
                clients.len() as int,
            ),
            config.kill_percentage@,
        ),
        0,
    )
}

/// Whether every member that a species of `later` has behind the
/// members it has in `earlier` has a genome bred from two of the members
/// before it: see [`bred_in`].
pub open spec fn bred_members(
    clients: Seq<Client>,
    earlier: Seq<SpeciesModel>,
    later: Seq<SpeciesModel>,
    registry: RegistryModel,
) -> bool {
    forall|s: int, k: int|
        0 <= s < earlier.len() && earlier[s].clients.len() <= k < later[s].clients.len()
            ==> #[trigger] bred_in(clients, later[s].clients, k, registry)
}

/// Whether `bred` are the clients `clients` behind the breeding that
/// made the species `later` out of the species `left`: every species has
/// kept its members and has new ones behind them, the members that were
/// there have the genomes they had, every new member has a genome bred
/// from two members before it, and no fitness has changed.
pub open spec fn bred_from(
    clients: Seq<Client>,
    left: Seq<SpeciesModel>,
    bred: Seq<Client>,
    later: Seq<SpeciesModel>,
    registry: RegistryModel,
) -> bool {
    &&& bred.len() == clients.len()
    &&& grown_models(left, later)
    &&& forall|i: int|
        0 <= i < clients.len() ==> (#[trigger] bred[i]).fitness == clients[i].fitness && (homed(
            left,
            i,
        ) ==> bred[i].genome == clients[i].genome)
    &&& bred_members(bred, left, later, registry)
}

/// Behind a breeding that left every client with a species, a client
/// that had none before is a new member of a species and has a genome
/// bred from two members before it.
pub proof fn lemma_orphan_bred(
    clients: Seq<Client>,
    left: Seq<SpeciesModel>,
    bred: Seq<Client>,
    later: Seq<SpeciesModel>,
    registry: RegistryModel,
    orphan: int,
)
    requires
        bred_from(clients, left, bred, later, registry),
        covered(later, clients.len() as int),
        0 <= orphan < clients.len(),
        !homed(left, orphan),
    ensures
        exists|s: int, k: int|
            0 <= s < later.len() && left[s].clients.len() <= k < later[s].clients.len()
                && later[s].clients[k] == orphan && #[trigger] bred_in(
                bred,
                later[s].clients,
                k,
                registry,
            ),
{
    assert(homed(later, orphan));
    let s = choose|s: int| 0 <= s < later.len() && names((#[trigger] later[s]).clients, orphan);
    let k = choose|k: int|
        0 <= k < later[s].clients.len() && #[trigger] later[s].clients[k] == orphan;
    if k < left[s].clients.len() {
        assert(later[s].clients.take(left[s].clients.len() as int)[k] == later[s].clients[k]);
        assert(left[s].clients[k] == orphan);
        assert(names(left[s].clients, orphan));
        assert(homed(left, orphan));
    }
    assert(bred_in(bred, later[s].clients, k, registry));
}

/// Where the species share out the clients before and behind the
/// breeding, the clients with a species kept what they had, and the new
/// members were bred, the clients are those behind the breeding.
pub proof fn lemma_bred_from(
    clients: Seq<Client>,
    pruned: Seq<Client>,
    species: Seq<Species>,
    bred: Seq<Client>,
    later: Seq<Species>,
    registry: RegistryModel,
)
    requires
        partitioned(pruned, species),
        pruned.len() == clients.len(),
        bred.len() == clients.len(),
        forall|i: int|
            0 <= i < clients.len() ==> (#[trigger] pruned[i]).genome == clients[i].genome
                && pruned[i].fitness == clients[i].fitness,
        forall|i: int|
            0 <= i < clients.len() ==> (#[trigger] bred[i]).fitness == pruned[i].fitness && (
            pruned[i].has_species ==> bred[i] == pruned[i]),
        grown_models(models_of(species), models_of(later)),
        all_bred(bred, species, later, registry),
    ensures
        bred_from(clients, models_of(species), bred, models_of(later), registry),
{
    let left = models_of(species);
    assert forall|i: int| 0 <= i < clients.len() implies (#[trigger] bred[i]).fitness
        == clients[i].fitness && (homed(left, i) ==> bred[i].genome == clients[i].genome) by {
        assert(pruned[i].fitness == clients[i].fitness);
        if homed(left, i) {
            let s = choose|s: int| 0 <= s < left.len() && names((#[trigger] left[s]).clients, i);
            let k = choose|k: int|
                0 <= k < roster(species, s).len() && #[trigger] roster(species, s)[k] == i;
            assert(pruned[roster(species, s)[k] as int].has_species);
        }
    }
    assert forall|s: int, k: int|
        0 <= s < left.len() && left[s].clients.len() <= k < models_of(later)[s].clients.len()
        implies #[trigger] bred_in(bred, models_of(later)[s].clients, k, registry) by {
        assert(roster(species, s) == left[s].clients);
        assert(roster(later, s) == models_of(later)[s].clients);
        assert(bred_in(bred, roster(later, s), k, registry));
    }
}

/// Whether a generation that started from the species `chosen` can be
/// completed: no client is left without a species, or a species that is
/// left can be selected to breed.
pub open spec fn can_breed(clients: Seq<Client>, chosen: Seq<SpeciesModel>, config: Config) -> bool {
    covered(left_to_breed(clients, chosen, config), clients.len() as int)
        || crate::data_structures::random_selector::selectable(
        model_scores(left_to_breed(clients, chosen, config)),
    )
}

/// The scores of species are the scores of the species as plain values.
pub proof fn lemma_model_scores(species: Seq<Species>)
    ensures
        scores(species) == model_scores(models_of(species)),
{
    assert(scores(species) =~= model_scores(models_of(species)));
}

/// What is culled depends on the fitness of the clients alone.
pub proof fn lemma_culled_by_fitness(
    first: Seq<Client>,
    second: Seq<Client>,
    species: Seq<SpeciesModel>,
    percentage: int,
)
    requires
        first.len() == second.len(),
        forall|i: int| 0 <= i < first.len() ==> (#[trigger] first[i]).fitness == second[i].fitness,
        forall|s: int| 0 <= s < species.len() ==> within((#[trigger] species[s]).clients, first.len()),
    ensures
        culled(first, species, percentage) == culled(second, species, percentage),
{
    assert forall|s: int| 0 <= s < species.len() implies culled(first, species, percentage)[s]
        == culled(second, species, percentage)[s] by {
        assert(within(species[s].clients, first.len()));
        lemma_fitness_decides(
            first,
            second,
            species[s].clients,
            species[s].clients.len() as int,
        );
    }
    assert(culled(first, species, percentage) =~= culled(second, species, percentage));
}

/// The species that survive are the species at the places that are
/// alive.
pub proof fn lemma_survivors(species: Seq<Species>, from: int)
    requires
        0 <= from <= species.len(),
    ensures
        survivors(models_of(species), from).len() == alive(species, from).len(),
        forall|k: int|
            0 <= k < alive(species, from).len() ==> #[trigger] survivors(
                models_of(species),
                from,
            )[k] == models_of(species)[alive(species, from)[k]],
    decreases species.len() - from,
{
    if from < species.len() {
        lemma_survivors(species, from + 1);
        lemma_alive(species, from + 1);
        let rest = survivors(models_of(species), from + 1);
        let all = survivors(models_of(species), from);
        assert(models_of(species)[from].clients == roster(species, from));
        assert forall|k: int| 0 <= k < alive(species, from).len() implies #[trigger] all[k]
            == models_of(species)[alive(species, from)[k]] by {
            if roster(species, from).len() > 1 {
                if k > 0 {
                    assert(all[k] == rest[k - 1]);
                    assert(alive(species, from)[k] == alive(species, from + 1)[k - 1]);
                }
            }
        }
    }
}

/// Species that are, one by one, the species of before at the places
/// that are alive are the survivors of the species of before.
pub proof fn lemma_pruned(before: Seq<Species>, after: Seq<Species>)
    requires
        after.len() == alive(before, 0).len(),
        forall|k: int|
            0 <= k < after.len() ==> same_as(#[trigger] after[k], before[alive(before, 0)[k]]),
    ensures
        models_of(after) == survivors(models_of(before), 0),
{
    lemma_survivors(before, 0);
    lemma_alive(before, 0);
    assert forall|k: int| 0 <= k < after.len() implies models_of(after)[k] == survivors(
        models_of(before),
        0,
    )[k] by {
        assert(same_as(after[k], before[alive(before, 0)[k]]));
    }
    assert(models_of(after) =~= survivors(models_of(before), 0));
}

/// Where the species share out the clients, every client has a species
/// exactly when every client is a member of a species.
pub proof fn lemma_covered(clients: Seq<Client>, species: Seq<Species>)
    requires
        partitioned(clients, species),
    ensures
        all_housed(clients) == covered(models_of(species), clients.len() as int),
{
    if all_housed(clients) {
        assert forall|client: int| 0 <= client < clients.len() implies #[trigger] homed(
            models_of(species),
            client,
        ) by {
            assert(clients[client].has_species);
            assert(has_home(species, client));
            let s = choose|s: int|
                0 <= s < species.len() && #[trigger] names(roster(species, s), client);
            assert(models_of(species)[s].clients == roster(species, s));
        }
    }
    if covered(models_of(species), clients.len() as int) {
        assert forall|client: int| 0 <= client < clients.len() implies (
        #[trigger] clients[client]).has_species by {
            assert(homed(models_of(species), client));
            let s = choose|s: int|
                0 <= s < species.len() && names(
                    (#[trigger] models_of(species)[s]).clients,
                    client,
                );
            let k = choose|k: int|
                0 <= k < roster(species, s).len() && #[trigger] roster(species, s)[k] == client;
            assert(clients[roster(species, s)[k] as int].has_species);
        }
    }
}

/// Species that have grown out of species have, as plain values, grown
/// out of them, and are the same where no member came.
pub proof fn lemma_grown_models(earlier: Seq<Species>, later: Seq<Species>)
    requires
        grown(earlier, later),
    ensures
        grown_models(models_of(earlier), models_of(later)),
        same_species(earlier, later) ==> models_of(later) == models_of(earlier),
{
    if same_species(earlier, later) {
        assert forall|s: int| 0 <= s < earlier.len() implies models_of(later)[s] == models_of(
            earlier,
        )[s] by {
            assert(roster(earlier, s) == roster(later, s));
            assert(later[s].average_fitness == earlier[s].average_fitness);
        }
        assert(models_of(later) =~= models_of(earlier));
    }
}

/// The places from zero up to `count`, in their order.
pub open spec fn lined_up(count: int) -> Seq<usize> {
    Seq::new(count as nat, |i: int| i as usize)
}

/// Where there is no species and every client is close to the first
/// client, the first `count` clients find their home in one species,
/// which the first client represents.
pub proof fn lemma_one_species(
    genes: Seq<Seq<ConnectionGene>>,
    flags: Seq<bool>,
    config: Config,
    count: int,
)
    requires
        1 <= count <= usize::MAX,
        forall|i: int| 0 <= i < count ==> !(#[trigger] flags[i]),
        forall|i: int| 0 <= i < count ==> #[trigger] close(genes, i, 0, config),
    ensures
        all_housed_in(genes, flags, Seq::empty(), config, count) == seq![
            SpeciesModel {
                clients: lined_up(count),
                representative: 0,
                average_fitness: PseudoFloat { units: 0 },
            },
        ],
    decreases count,
{
    let nobody = Seq::<SpeciesModel>::empty();
    let goal = seq![
        SpeciesModel {
            clients: lined_up(count),
            representative: 0,
            average_fitness: PseudoFloat { units: 0 },
        },
    ];
    assert(!flags[count - 1]);
    if count == 1 {
        assert(all_housed_in(genes, flags, nobody, config, 0) == nobody);
        assert(first_home(genes, nobody, config, 0, 0) == 0);
        let after = housed(genes, nobody, config, 0usize);
        assert(after.len() == 1);
        assert(after[0].clients =~= lined_up(1));
        assert(after =~= goal);
    } else {
        lemma_one_species(genes, flags, config, count - 1);
        let before = all_housed_in(genes, flags, nobody, config, count - 1);
        let client = (count - 1) as usize;
        assert(close(genes, client as int, 0, config));
        assert(first_home(genes, before, config, client as int, 0) == 0);
        let after = housed(genes, before, config, client);
        assert(after.len() == 1);
        assert(after[0].clients =~= lined_up(count));
        assert(after =~= goal);
    }
}

/// A first generation can be completed where there is no species yet,
/// every client is close to the first client, no member is removed, and
/// there is not just one client: all clients stay together in one
/// species.
pub proof fn lemma_first_generation(clients: Seq<Client>, config: Config)
    requires
        clients.len() != 1,
        clients.len() <= usize::MAX,
        forall|i: int| 0 <= i < clients.len() ==> #[trigger] close(genes_of(clients), i, 0, config),
        kill_count(config.kill_percentage@, clients.len() as int) == 0,
    ensures
        can_breed(clients, Seq::<SpeciesModel>::empty(), config),
{
    let n = clients.len() as int;
    let nobody = Seq::<SpeciesModel>::empty();
    let flags = Seq::new(clients.len(), |i: int| represents(nobody, i));
    let left = left_to_breed(clients, nobody, config);
    if n >= 2 {
        lemma_one_species(genes_of(clients), flags, config, n);
        let together = all_housed_in(genes_of(clients), flags, nobody, config, n);
        let members = lined_up(n);
        let after = culled(clients, together, config.kill_percentage@);
        lemma_ranked_same_members(clients, members, n);
        let ranking = ranked(clients, members, n);
        assert(after[0].clients =~= ranking);
        assert(survivors(after, 1) =~= Seq::<SpeciesModel>::empty());
        assert(survivors(after, 0) =~= seq![after[0]]);
        assert forall|client: int| 0 <= client < n implies #[trigger] homed(left, client) by {
            assert(names(ranking, members[client] as int));
            assert(left[0].clients == ranking);
        }
    }
}

/// Clients that find a home among species whose members are clients
/// leave species whose members are clients.
pub proof fn lemma_housed_within(
    genes: Seq<Seq<ConnectionGene>>,
    flags: Seq<bool>,
    species: Seq<SpeciesModel>,
    config: Config,
    n: int,
    count: nat,
)
    requires
        n <= count <= usize::MAX,
        forall|s: int| 0 <= s < species.len() ==> within((#[trigger] species[s]).clients, count),
    ensures
        forall|s: int|
            0 <= s < all_housed_in(genes, flags, species, config, n).len() ==> within(
                (#[trigger] all_housed_in(genes, flags, species, config, n)[s]).clients,
                count,
            ),
    decreases n,
{
    if n > 0 {
        lemma_housed_within(genes, flags, species, config, n - 1, count);
        let before = all_housed_in(genes, flags, species, config, n - 1);
        if !flags[n - 1] {
            let client = (n - 1) as usize;
            let after = housed(genes, before, config, client);
            let home = first_home(genes, before, config, client as int, 0);
            lemma_first_home(genes, before, config, client as int, 0);
            assert forall|s: int| 0 <= s < after.len() implies within(
                (#[trigger] after[s]).clients,
                count,
            ) by {
                if s < before.len() {
                    assert(within(before[s].clients, count));
                }
            }
        }
    }
}

/// The species that a generation starts from have clients as members.
pub proof fn lemma_started_within(
    clients: Seq<Client>,
    species: Seq<Species>,
    chosen: Seq<SpeciesModel>,
)
    requires
        partitioned(clients, species),
        started_anew(species, chosen),
    ensures
        forall|s: int|
            0 <= s < chosen.len() ==> within((#[trigger] chosen[s]).clients, clients.len()),
{
    assert forall|s: int| 0 <= s < chosen.len() implies within(
        (#[trigger] chosen[s]).clients,
        clients.len(),
    ) by {
        let who = chosen[s].representative;
        assert(names(roster(species, s), who as int));
        let k = choose|k: int|
            0 <= k < roster(species, s).len() && #[trigger] roster(species, s)[k] == who as int;
        assert(roster(species, s)[k] < clients.len());
    }
}

/// The fitness of members that all have a fitness above zero adds up to
/// their number or more.
pub proof fn lemma_fitness_sum_positive(clients: Seq<Client>, members: Seq<usize>, n: int)
    requires
        0 <= n <= members.len(),
        within(members, clients.len()),
        forall|i: int| 0 <= i < clients.len() ==> (#[trigger] clients[i]).fitness@ > 0,
    ensures
        n <= fitness_sum(clients, members, n) <= n * i64::MAX,
    decreases n,
{
    if n > 0 {
        lemma_fitness_sum_positive(clients, members, n - 1);
        let who = members[n - 1];
        assert(clients[who as int].fitness@ > 0);
        assert((n - 1) * i64::MAX + i64::MAX == n * i64::MAX) by (nonlinear_arith);
    }
}

/// Members that all have a fitness above zero have a mean fitness above
/// zero.
pub proof fn lemma_mean_positive(clients: Seq<Client>, members: Seq<usize>)
    requires
        members.len() > 0,
        within(members, clients.len()),
        forall|i: int| 0 <= i < clients.len() ==> (#[trigger] clients[i]).fitness@ > 0,
    ensures
        0 < mean_fitness(clients, members) <= i64::MAX,
{
    let n = members.len() as int;
    lemma_fitness_sum_positive(clients, members, n);
    let sum = fitness_sum(clients, members, n);
    assert(1 <= sum / n <= i64::MAX) by (nonlinear_arith)
        requires
            n > 0,
            n <= sum <= n * i64::MAX,
    ;
}

/// Every species that survives is one of the species from `from` on and
/// has more than one member.
pub proof fn lemma_survivor(species: Seq<SpeciesModel>, from: int, k: int)
    requires
        0 <= from,
        0 <= k < survivors(species, from).len(),
    ensures
        exists|t: int|
            from <= t < species.len() && survivors(species, from)[k] == #[trigger] species[t]
                && species[t].clients.len() > 1,
    decreases species.len() - from,
{
    if from < species.len() {
        if species[from].clients.len() > 1 {
            if k == 0 {
                assert(survivors(species, from)[k] == species[from]);
            } else {
                lemma_survivor(species, from + 1, k - 1);
                let t = choose|t: int|
                    from + 1 <= t < species.len() && survivors(species, from + 1)[k - 1]
                        == #[trigger] species[t] && species[t].clients.len() > 1;
                assert(survivors(species, from)[k] == species[t]);
            }
        } else {
            lemma_survivor(species, from + 1, k);
            let t = choose|t: int|
                from + 1 <= t < species.len() && survivors(species, from + 1)[k]
                    == #[trigger] species[t] && species[t].clients.len() > 1;
            assert(survivors(species, from)[k] == species[t]);
        }
    }
}

/// A generation can be completed where every client has a fitness above
/// zero and some species is left with two members or more: every species
/// that is left then has a mean fitness above zero and can be selected to
/// breed.
pub proof fn lemma_fit_generation(clients: Seq<Client>, chosen: Seq<SpeciesModel>, config: Config)
    requires
        clients.len() <= usize::MAX,
        forall|s: int|
            0 <= s < chosen.len() ==> within((#[trigger] chosen[s]).clients, clients.len()),
        forall|i: int| 0 <= i < clients.len() ==> (#[trigger] clients[i]).fitness@ > 0,
        left_to_breed(clients, chosen, config).len() > 0,
    ensures
        selectable(model_scores(left_to_breed(clients, chosen, config))),
        can_breed(clients, chosen, config),
{
    let n = clients.len() as int;
    let flags = Seq::new(clients.len(), |i: int| represents(chosen, i));
    let clustered = all_housed_in(genes_of(clients), flags, chosen, config, n);
    let after = culled(clients, clustered, config.kill_percentage@);
    let left = survivors(after, 0);
    let marks = model_scores(left);
    lemma_housed_within(genes_of(clients), flags, chosen, config, n, clients.len());
    assert forall|k: int| 0 <= k < marks.len() implies (#[trigger] marks[k]).1@ > 0 by {
        lemma_survivor(after, 0, k);
        let t = choose|t: int|
            0 <= t < after.len() && left[k] == #[trigger] after[t] && after[t].clients.len() > 1;
        let members = clustered[t].clients;
        assert(within(members, clients.len()));
        if members.len() == 0 {
            assert(after[t].clients.len() == 0);
        }
        lemma_mean_positive(clients, members);
    }
    assert(marks[0].1@ > 0);
    assert(some_positive(marks));
}

/// A generation of a population that the species share out can be
/// completed where every client has a fitness above zero and some
/// species is left with two members or more.
pub proof fn lemma_fit_population(
    clients: Seq<Client>,
    species: Seq<Species>,
    chosen: Seq<SpeciesModel>,
    config: Config,
)
    requires
        clients.len() <= usize::MAX,
        partitioned(clients, species),
        started_anew(species, chosen),
        forall|i: int| 0 <= i < clients.len() ==> (#[trigger] clients[i]).fitness@ > 0,
        left_to_breed(clients, chosen, config).len() > 0,
    ensures
        can_breed(clients, chosen, config),
{
    lemma_started_within(clients, species, chosen);
    lemma_fit_generation(clients, chosen, config);
}

/// Where there was no species, a generation starts from no species.
pub proof fn lemma_fresh_start(chosen: Seq<SpeciesModel>)
    requires
        chosen.len() == 0,
    ensures
        chosen == Seq::<SpeciesModel>::empty(),
{
    assert(chosen =~= Seq::<SpeciesModel>::empty());
}

} // verus!
