//! What it means that the species of a population share out its clients,
//! and the steps that keep it so.

use crate::genome::genome::Genome;
use crate::genome::mutation::{forward, mutated, Trace};
use crate::neat::client::Client;
use crate::neat::config::Config;
use crate::neat::registry::{extends, lemma_extends_transitive, RegistryModel};
use crate::neat::species::{names, Species};
use vstd::prelude::*;
use vstd::set_lib::{lemma_int_range, set_int_range};

verus! {

/// The members of the species at `s`.
pub open spec fn roster(species: Seq<Species>, s: int) -> Seq<usize> {
    species[s].clients@
}

/// Whether every client is in order.
pub open spec fn clients_wf(clients: Seq<Client>) -> bool {
    forall|i: int| 0 <= i < clients.len() ==> (#[trigger] clients[i]).wf()
}

/// Whether the genome of every client can have come out of the
/// registry.
pub open spec fn at_home(clients: Seq<Client>, registry: RegistryModel) -> bool {
    forall|i: int| 0 <= i < clients.len() ==> (#[trigger] clients[i]).genome.belongs_to(registry)
}

/// Whether every connection of every client runs from a node to a node
/// of larger `x`, so that no network has a cycle.
pub open spec fn all_forward(clients: Seq<Client>) -> bool {
    forall|i: int| 0 <= i < clients.len() ==> forward((#[trigger] clients[i]).genome.connections@)
}

/// Whether the genome `after` is the genome `before` after one mutation
/// that found the registry somewhere between `first` and `last` and left
/// it there, grown or as it was: see [`mutated`].
pub open spec fn mutated_between(
    before: Genome,
    after: Genome,
    first: RegistryModel,
    last: RegistryModel,
    config: Config,
) -> bool {
    exists|trace: Trace, found: RegistryModel, left: RegistryModel|
        extends(found, first) && extends(left, found) && extends(last, left) && #[trigger] mutated(
            trace,
            before.connections@,
            before.nodes@,
            found,
            after.connections@,
            after.nodes@,
            left,
            config,
        )
}

/// Whether the genome of every client of `after` is the genome of the
/// client of `before` in its place after one mutation, while the
/// registry grew from `first` to `last`.
pub open spec fn all_mutated(
    before: Seq<Client>,
    after: Seq<Client>,
    first: RegistryModel,
    last: RegistryModel,
    config: Config,
) -> bool {
    &&& after.len() == before.len()
    &&& forall|i: int|
        0 <= i < before.len() ==> #[trigger] mutated_between(
            before[i].genome,
            after[i].genome,
            first,
            last,
            config,
        )
}

/// A mutation that lies between two registries lies between the first
/// and any registry that grew out of the second.
pub proof fn lemma_mutated_on(
    before: Genome,
    after: Genome,
    first: RegistryModel,
    last: RegistryModel,
    later: RegistryModel,
    config: Config,
)
    requires
        mutated_between(before, after, first, last, config),
        extends(later, last),
    ensures
        mutated_between(before, after, first, later, config),
{
    let (trace, found, left) = choose|trace: Trace, found: RegistryModel, left: RegistryModel|
        extends(found, first) && extends(left, found) && extends(last, left) && #[trigger] mutated(
            trace,
            before.connections@,
            before.nodes@,
            found,
            after.connections@,
            after.nodes@,
            left,
            config,
        );
    lemma_extends_transitive(later, last, left);
}

/// Clients with the genomes of mutated clients are mutated clients.
pub proof fn lemma_same_genomes_mutated(
    before: Seq<Client>,
    middle: Seq<Client>,
    after: Seq<Client>,
    first: RegistryModel,
    last: RegistryModel,
    config: Config,
)
    requires
        all_mutated(before, middle, first, last, config),
        after.len() == middle.len(),
        forall|i: int| 0 <= i < middle.len() ==> (#[trigger] after[i]).genome == middle[i].genome,
    ensures
        all_mutated(before, after, first, last, config),
{
    assert forall|i: int| 0 <= i < before.len() implies #[trigger] mutated_between(
        before[i].genome,
        after[i].genome,
        first,
        last,
        config,
    ) by {
        assert(mutated_between(before[i].genome, middle[i].genome, first, last, config));
        assert(after[i].genome == middle[i].genome);
    }
}

/// Clients with the genomes of clients whose connections run towards
/// larger `x` have such connections.
pub proof fn lemma_same_genomes_forward(before: Seq<Client>, after: Seq<Client>)
    requires
        all_forward(before),
        after.len() == before.len(),
        forall|i: int| 0 <= i < before.len() ==> (#[trigger] after[i]).genome == before[i].genome,
    ensures
        all_forward(after),
{
    assert forall|i: int| 0 <= i < after.len() implies forward(
        (#[trigger] after[i]).genome.connections@,
    ) by {
        assert(forward(before[i].genome.connections@));
    }
}

/// Whether every species has a member, and a representative that is a
/// client.
pub open spec fn species_wf(clients: Seq<Client>, species: Seq<Species>) -> bool {
    forall|s: int|
        0 <= s < species.len() ==> (#[trigger] roster(species, s)).len() > 0
            && species[s].representative < clients.len()
}

/// Whether the species share out the clients that have a species: every
/// member of a species is a client that has a species, no client is a
/// member twice, in one species or in two, and every client that has a
/// species is a member of one.
pub open spec fn partitioned(clients: Seq<Client>, species: Seq<Species>) -> bool {
    &&& forall|s: int, k: int|
        0 <= s < species.len() && 0 <= k < roster(species, s).len() ==> (#[trigger] roster(
            species,
            s,
        )[k]) < clients.len() && clients[roster(species, s)[k] as int].has_species
    &&& forall|s1: int, k1: int, s2: int, k2: int|
        0 <= s1 < species.len() && 0 <= k1 < roster(species, s1).len() && 0 <= s2 < species.len()
            && 0 <= k2 < roster(species, s2).len() && (s1 != s2 || k1 != k2) ==> (
        #[trigger] roster(species, s1)[k1]) != (#[trigger] roster(species, s2)[k2])
    &&& forall|c: int|
        0 <= c < clients.len() && (#[trigger] clients[c]).has_species ==> has_home(species, c)
}

/// Whether the client at `c` is a member of some species.
pub open spec fn has_home(species: Seq<Species>, c: int) -> bool {
    exists|s: int| 0 <= s < species.len() && #[trigger] names(roster(species, s), c)
}

/// A client that has a species is a member of exactly one species, at
/// exactly one place.
pub proof fn lemma_exactly_one(clients: Seq<Client>, species: Seq<Species>, c: int)
    requires
        partitioned(clients, species),
        0 <= c < clients.len(),
        clients[c].has_species,
    ensures
        exists|s: int, k: int|
            0 <= s < species.len() && 0 <= k < roster(species, s).len() && #[trigger] roster(
                species,
                s,
            )[k] == c && forall|t: int, j: int|
                0 <= t < species.len() && 0 <= j < roster(species, t).len() && #[trigger] roster(
                    species,
                    t,
                )[j] == c ==> t == s && j == k,
{
    assert(has_home(species, c));
    let s = choose|s: int| 0 <= s < species.len() && #[trigger] names(roster(species, s), c);
    let k = choose|k: int| 0 <= k < roster(species, s).len() && #[trigger] roster(species, s)[k] == c;
    assert forall|t: int, j: int|
        0 <= t < species.len() && 0 <= j < roster(species, t).len() && #[trigger] roster(
            species,
            t,
        )[j] == c implies t == s && j == k by {
        if t != s || j != k {
            assert(roster(species, t)[j] != roster(species, s)[k]);
        }
    }
}

/// The number of members of the first `n` species together.
pub open spec fn member_count(species: Seq<Species>, n: int) -> int
    decreases n,
{
    if n <= 0 {
        0
    } else {
        member_count(species, n - 1) + roster(species, n - 1).len()
    }
}

/// The members of the first `n` species, one species after the other.
pub open spec fn lined_members(species: Seq<Species>, n: int) -> Seq<int>
    decreases n,
{
    if n <= 0 {
        Seq::empty()
    } else {
        lined_members(species, n - 1) + Seq::new(
            roster(species, n - 1).len(),
            |k: int| roster(species, n - 1)[k] as int,
        )
    }
}

/// Whether the client at `c` is a member of one of the first `n`
/// species.
pub open spec fn member_of(species: Seq<Species>, n: int, c: int) -> bool {
    exists|s: int, k: int|
        0 <= s < n && 0 <= k < roster(species, s).len() && #[trigger] roster(species, s)[k] == c
}

/// The members of the first `n` species are as many as the species
/// count, each is a member of one of these species, and every member of
/// these species is among them.
pub proof fn lemma_lined_members(species: Seq<Species>, n: int)
    requires
        0 <= n <= species.len(),
    ensures
        lined_members(species, n).len() == member_count(species, n),
        forall|i: int|
            0 <= i < lined_members(species, n).len() ==> #[trigger] member_of(
                species,
                n,
                lined_members(species, n)[i],
            ),
        forall|s: int, k: int|
            0 <= s < n && 0 <= k < roster(species, s).len() ==> lined_members(species, n).contains(
                #[trigger] roster(species, s)[k] as int,
            ),
    decreases n,
{
    if n > 0 {
        lemma_lined_members(species, n - 1);
        let head = lined_members(species, n - 1);
        let last = Seq::new(
            roster(species, n - 1).len(),
            |k: int| roster(species, n - 1)[k] as int,
        );
        let all = lined_members(species, n);
        assert(all == head + last);
        assert forall|i: int| 0 <= i < all.len() implies #[trigger] member_of(
            species,
            n,
            all[i],
        ) by {
            if i < head.len() {
                assert(all[i] == head[i]);
                assert(member_of(species, n - 1, head[i]));
                let (s, k) = choose|s: int, k: int|
                    0 <= s < n - 1 && 0 <= k < roster(species, s).len() && #[trigger] roster(
                        species,
                        s,
                    )[k] == head[i];
                assert(roster(species, s)[k] == all[i]);
            } else {
                assert(all[i] == last[i - head.len()]);
                assert(roster(species, n - 1)[i - head.len()] == all[i]);
            }
        }
        assert forall|s: int, k: int|
            0 <= s < n && 0 <= k < roster(species, s).len() implies all.contains(
            #[trigger] roster(species, s)[k] as int,
        ) by {
            if s < n - 1 {
                assert(head.contains(roster(species, s)[k] as int));
                let i = choose|i: int|
                    0 <= i < head.len() && head[i] == roster(species, s)[k] as int;
                assert(all[i] == head[i]);
            } else {
                assert(all[head.len() + k] == last[k]);
            }
        }
    }
}

/// Where the species share out the clients, no client is a member
/// twice.
pub proof fn lemma_lined_once(clients: Seq<Client>, species: Seq<Species>, n: int)
    requires
        partitioned(clients, species),
        0 <= n <= species.len(),
    ensures
        lined_members(species, n).no_duplicates(),
    decreases n,
{
    if n > 0 {
        lemma_lined_once(clients, species, n - 1);
        lemma_lined_members(species, n - 1);
        let head = lined_members(species, n - 1);
        let last = Seq::new(
            roster(species, n - 1).len(),
            |k: int| roster(species, n - 1)[k] as int,
        );
        let all = lined_members(species, n);
        assert(all == head + last);
        assert forall|i: int, j: int|
            0 <= i < all.len() && 0 <= j < all.len() && i != j implies all[i] != all[j] by {
            if i < head.len() && j < head.len() {
                assert(head[i] != head[j]);
            } else if i >= head.len() && j >= head.len() {
                let a = i - head.len();
                let b = j - head.len();
                assert(roster(species, n - 1)[a] != roster(species, n - 1)[b]);
            } else {
                let inner = if i < head.len() { i } else { j };
                let outer = if i < head.len() { j } else { i };
                assert(member_of(species, n - 1, head[inner]));
                let (s, k) = choose|s: int, k: int|
                    0 <= s < n - 1 && 0 <= k < roster(species, s).len() && #[trigger] roster(
                        species,
                        s,
                    )[k] == head[inner];
                let b = outer - head.len();
                assert(roster(species, s)[k] != roster(species, n - 1)[b]);
                assert(all[inner] == head[inner]);
                assert(all[outer] == last[b]);
            }
        }
    }
}

/// Where the species share out the clients and every client has a
/// species, the species have as many members together as there are
/// clients.
pub proof fn lemma_member_count(clients: Seq<Client>, species: Seq<Species>)
    requires
        partitioned(clients, species),
        all_housed(clients),
    ensures
        member_count(species, species.len() as int) == clients.len(),
{
    let n = species.len() as int;
    let all = lined_members(species, n);
    lemma_lined_members(species, n);
    lemma_lined_once(clients, species, n);
    all.unique_seq_to_set();
    lemma_int_range(0, clients.len() as int);
    assert forall|c: int| all.to_set().contains(c) <==> set_int_range(
        0,
        clients.len() as int,
    ).contains(c) by {
        if all.to_set().contains(c) {
            let i = choose|i: int| 0 <= i < all.len() && all[i] == c;
            assert(member_of(species, n, all[i]));
            let (s, k) = choose|s: int, k: int|
                0 <= s < n && 0 <= k < roster(species, s).len() && #[trigger] roster(species, s)[k]
                    == all[i];
            assert(roster(species, s)[k] < clients.len());
        }
        if 0 <= c < clients.len() {
            assert(clients[c].has_species);
            assert(has_home(species, c));
            let s = choose|s: int|
                0 <= s < species.len() && #[trigger] names(roster(species, s), c);
            let k = choose|k: int|
                0 <= k < roster(species, s).len() && #[trigger] roster(species, s)[k] == c;
            assert(all.contains(roster(species, s)[k] as int));
        }
    }
    assert(all.to_set() =~= set_int_range(0, clients.len() as int));
}

/// Whether every client has a species.
pub open spec fn all_housed(clients: Seq<Client>) -> bool {
    forall|c: int| 0 <= c < clients.len() ==> (#[trigger] clients[c]).has_species
}

/// Whether `after` has the same species flags as `before`.
pub open spec fn same_flags(before: Seq<Client>, after: Seq<Client>) -> bool {
    &&& after.len() == before.len()
    &&& forall|c: int|
        0 <= c < before.len() ==> (#[trigger] after[c]).has_species == before[c].has_species
}

/// Whether `after` is `before` but for the species at `s`, whose
/// members are now `kept`.
pub open spec fn rewritten(
    before: Seq<Species>,
    after: Seq<Species>,
    s: int,
    kept: Seq<usize>,
) -> bool {
    &&& after.len() == before.len()
    &&& 0 <= s < before.len()
    &&& roster(after, s) == kept
    &&& forall|t: int| 0 <= t < before.len() && t != s ==> #[trigger] roster(after, t) == roster(before, t)
}

/// Whether two lists of species have the same members and the same
/// representatives.
pub open spec fn same_species(first: Seq<Species>, second: Seq<Species>) -> bool {
    &&& first.len() == second.len()
    &&& forall|s: int|
        0 <= s < first.len() ==> #[trigger] roster(first, s) == roster(second, s)
            && first[s].representative == second[s].representative
}

/// Whether every representative is a client.
pub open spec fn represented(clients: Seq<Client>, species: Seq<Species>) -> bool {
    forall|s: int|
        0 <= s < species.len() ==> (#[trigger] species[s]).representative < clients.len()
}

/// A sharing out depends on the members of the species alone.
pub proof fn lemma_same_species(clients: Seq<Client>, first: Seq<Species>, second: Seq<Species>)
    requires
        same_species(first, second),
    ensures
        partitioned(clients, first) ==> partitioned(clients, second),
        species_wf(clients, first) ==> species_wf(clients, second),
        represented(clients, first) ==> represented(clients, second),
{
    if partitioned(clients, first) {
        assert forall|s: int, k: int|
            0 <= s < second.len() && 0 <= k < roster(second, s).len() implies (#[trigger] roster(
            second,
            s,
        )[k]) < clients.len() && clients[roster(second, s)[k] as int].has_species by {
            assert(roster(first, s) == roster(second, s));
            assert(clients[roster(first, s)[k] as int].has_species);
        }
        assert forall|s1: int, k1: int, s2: int, k2: int|
            0 <= s1 < second.len() && 0 <= k1 < roster(second, s1).len() && 0 <= s2 < second.len()
                && 0 <= k2 < roster(second, s2).len() && (s1 != s2 || k1 != k2) implies (
        #[trigger] roster(second, s1)[k1]) != (#[trigger] roster(second, s2)[k2]) by {
            assert(roster(first, s1) == roster(second, s1));
            assert(roster(first, s2) == roster(second, s2));
            assert(roster(first, s1)[k1] != roster(first, s2)[k2]);
        }
        assert forall|c: int|
            0 <= c < clients.len() && (#[trigger] clients[c]).has_species implies has_home(
            second,
            c,
        ) by {
            let t = choose|t: int| 0 <= t < first.len() && #[trigger] names(roster(first, t), c);
            assert(roster(first, t) == roster(second, t));
            assert(names(roster(second, t), c));
        }
    }
    if species_wf(clients, first) {
        assert forall|s: int| 0 <= s < second.len() implies (#[trigger] roster(second, s)).len() > 0
            && second[s].representative < clients.len() by {
            assert(roster(first, s) == roster(second, s));
        }
    }
    if represented(clients, first) {
        assert forall|s: int| 0 <= s < second.len() implies (#[trigger] second[s]).representative
            < clients.len() by {
            assert(roster(first, s) == roster(second, s));
        }
    }
}

/// A sharing out depends on the species flags of the clients alone.
pub proof fn lemma_flags_decide(
    before: Seq<Client>,
    after: Seq<Client>,
    species: Seq<Species>,
)
    requires
        partitioned(before, species),
        same_flags(before, after),
    ensures
        partitioned(after, species),
{
    assert forall|s: int, k: int|
        0 <= s < species.len() && 0 <= k < roster(species, s).len() implies (#[trigger] roster(
        species,
        s,
    )[k]) < after.len() && after[roster(species, s)[k] as int].has_species by {
        let c = roster(species, s)[k] as int;
        assert(before[c].has_species);
        assert(after[c].has_species == before[c].has_species);
    }
    assert forall|c: int|
        0 <= c < after.len() && (#[trigger] after[c]).has_species implies has_home(species, c) by {
        assert(before[c].has_species);
    }
}

/// A client without species that becomes the last member of a species
/// leaves the clients shared out.
pub proof fn lemma_join(
    clients: Seq<Client>,
    species: Seq<Species>,
    after_clients: Seq<Client>,
    after_species: Seq<Species>,
    s: int,
    who: usize,
)
    requires
        partitioned(clients, species),
        who < clients.len(),
        !clients[who as int].has_species,
        after_clients.len() == clients.len(),
        forall|i: int|
            0 <= i < clients.len() ==> (#[trigger] after_clients[i]).has_species == (i == who
                || clients[i].has_species),
        rewritten(species, after_species, s, roster(species, s).push(who)),
    ensures
        partitioned(after_clients, after_species),
{
    let c = who as int;
    lemma_is_no_member(clients, species, c);
    assert forall|t: int, k: int|
        0 <= t < after_species.len() && 0 <= k < roster(after_species, t).len() implies (
    #[trigger] roster(after_species, t)[k]) < after_clients.len() && after_clients[roster(
        after_species,
        t,
    )[k] as int].has_species by {
        if t != s {
            assert(roster(after_species, t) == roster(species, t));
            assert(clients[roster(species, t)[k] as int].has_species);
        } else if k < roster(species, s).len() {
            assert(clients[roster(species, s)[k] as int].has_species);
        }
    }
    assert forall|s1: int, k1: int, s2: int, k2: int|
        0 <= s1 < after_species.len() && 0 <= k1 < roster(after_species, s1).len() && 0 <= s2
            < after_species.len() && 0 <= k2 < roster(after_species, s2).len() && (s1 != s2 || k1
            != k2) implies (#[trigger] roster(after_species, s1)[k1]) != (#[trigger] roster(
        after_species,
        s2,
    )[k2]) by {
        lemma_old_or_new(species, after_species, s, who, s1, k1);
        lemma_old_or_new(species, after_species, s, who, s2, k2);
        let last = roster(species, s).len() as int;
        let new1 = s1 == s && k1 == last;
        let new2 = s2 == s && k2 == last;
        if !new1 && !new2 {
            assert(roster(species, s1)[k1] != roster(species, s2)[k2]);
        } else if new1 {
            assert(names(roster(species, s2), roster(species, s2)[k2] as int));
        } else {
            assert(names(roster(species, s1), roster(species, s1)[k1] as int));
        }
    }
    assert forall|i: int|
        0 <= i < after_clients.len() && (#[trigger] after_clients[i]).has_species implies has_home(
        after_species,
        i,
    ) by {
        if i == c {
            assert(roster(after_species, s)[roster(species, s).len() as int] == c);
            assert(names(roster(after_species, s), c));
        } else {
            assert(clients[i].has_species);
            let t = choose|t: int| 0 <= t < species.len() && #[trigger] names(roster(species, t), i);
            let k = choose|k: int|
                0 <= k < roster(species, t).len() && #[trigger] roster(species, t)[k] == i;
            if t != s {
                assert(roster(after_species, t) == roster(species, t));
            } else {
                assert(roster(after_species, t)[k] == i);
            }
            assert(names(roster(after_species, t), i));
        }
    }
}

/// A member of the species after a client joined the species at `s` is
/// the new member or was a member at the same place before.
proof fn lemma_old_or_new(
    species: Seq<Species>,
    after_species: Seq<Species>,
    s: int,
    c: usize,
    t: int,
    k: int,
)
    requires
        rewritten(species, after_species, s, roster(species, s).push(c)),
        0 <= t < after_species.len(),
        0 <= k < roster(after_species, t).len(),
    ensures
        (t == s && k == roster(species, s).len() && roster(after_species, t)[k] == c) || (
        k < roster(species, t).len() && roster(after_species, t)[k] == roster(species, t)[k]),
{
    if t != s {
        assert(roster(after_species, t) == roster(species, t));
    }
}

/// A client without species is a member of no species.
pub proof fn lemma_is_no_member(clients: Seq<Client>, species: Seq<Species>, c: int)
    requires
        partitioned(clients, species),
        0 <= c < clients.len(),
        !clients[c].has_species,
    ensures
        forall|s: int| 0 <= s < species.len() ==> !names(#[trigger] roster(species, s), c),
{
    assert forall|s: int| 0 <= s < species.len() implies !names(#[trigger] roster(species, s), c) by {
        if names(roster(species, s), c) {
            let k = choose|k: int|
                0 <= k < roster(species, s).len() && #[trigger] roster(species, s)[k] == c;
            assert(clients[roster(species, s)[k] as int].has_species);
        }
    }
}

/// A client without species that founds a species leaves the clients
/// shared out.
pub proof fn lemma_found(
    clients: Seq<Client>,
    species: Seq<Species>,
    after_clients: Seq<Client>,
    after_species: Seq<Species>,
    who: usize,
)
    requires
        partitioned(clients, species),
        who < clients.len(),
        !clients[who as int].has_species,
        after_clients.len() == clients.len(),
        forall|i: int|
            0 <= i < clients.len() ==> (#[trigger] after_clients[i]).has_species == (i == who
                || clients[i].has_species),
        after_species.len() == species.len() + 1,
        forall|t: int| 0 <= t < species.len() ==> #[trigger] roster(after_species, t) == roster(species, t),
        roster(after_species, species.len() as int) == seq![who],
    ensures
        partitioned(after_clients, after_species),
{
    let c = who as int;
    lemma_is_no_member(clients, species, c);
    let last = species.len() as int;
    assert forall|t: int, k: int|
        0 <= t < after_species.len() && 0 <= k < roster(after_species, t).len() implies (
    #[trigger] roster(after_species, t)[k]) < after_clients.len() && after_clients[roster(
        after_species,
        t,
    )[k] as int].has_species by {
        if t != last {
            assert(roster(after_species, t) == roster(species, t));
            assert(clients[roster(species, t)[k] as int].has_species);
        }
    }
    assert forall|s1: int, k1: int, s2: int, k2: int|
        0 <= s1 < after_species.len() && 0 <= k1 < roster(after_species, s1).len() && 0 <= s2
            < after_species.len() && 0 <= k2 < roster(after_species, s2).len() && (s1 != s2 || k1
            != k2) implies (#[trigger] roster(after_species, s1)[k1]) != (#[trigger] roster(
        after_species,
        s2,
    )[k2]) by {
        if s1 != last {
            assert(roster(after_species, s1) == roster(species, s1));
        }
        if s2 != last {
            assert(roster(after_species, s2) == roster(species, s2));
        }
        if s1 != last && s2 != last {
            assert(roster(species, s1)[k1] != roster(species, s2)[k2]);
        } else if s1 == last {
            assert(names(roster(species, s2), roster(species, s2)[k2] as int));
        } else {
            assert(names(roster(species, s1), roster(species, s1)[k1] as int));
        }
    }
    assert forall|i: int|
        0 <= i < after_clients.len() && (#[trigger] after_clients[i]).has_species implies has_home(
        after_species,
        i,
    ) by {
        if i == c {
            assert(roster(after_species, last)[0] == c);
            assert(names(roster(after_species, last), c));
        } else {
            assert(clients[i].has_species);
            let t = choose|t: int| 0 <= t < species.len() && #[trigger] names(roster(species, t), i);
            assert(roster(after_species, t) == roster(species, t));
            assert(names(roster(after_species, t), i));
        }
    }
}

/// A species that keeps some of its members, each once, and lets the
/// others go without a species leaves the clients shared out.
pub proof fn lemma_keep(
    clients: Seq<Client>,
    species: Seq<Species>,
    after_clients: Seq<Client>,
    after_species: Seq<Species>,
    s: int,
    kept: Seq<usize>,
)
    requires
        partitioned(clients, species),
        rewritten(species, after_species, s, kept),
        forall|k: int| 0 <= k < kept.len() ==> names(roster(species, s), #[trigger] kept[k] as int),
        forall|k1: int, k2: int| 0 <= k1 < k2 < kept.len() ==> kept[k1] != kept[k2],
        after_clients.len() == clients.len(),
        forall|i: int|
            0 <= i < clients.len() ==> (#[trigger] after_clients[i]).has_species == (if names(
                roster(species, s),
                i,
            ) {
                names(kept, i)
            } else {
                clients[i].has_species
            }),
    ensures
        partitioned(after_clients, after_species),
{
    let old_members = roster(species, s);
    assert forall|t: int, k: int|
        0 <= t < after_species.len() && 0 <= k < roster(after_species, t).len() implies (
    #[trigger] roster(after_species, t)[k]) < after_clients.len() && after_clients[roster(
        after_species,
        t,
    )[k] as int].has_species by {
        if t != s {
            assert(roster(after_species, t) == roster(species, t));
            let m = roster(species, t)[k] as int;
            assert(clients[m].has_species);
            if names(old_members, m) {
                let j = choose|j: int| 0 <= j < old_members.len() && #[trigger] old_members[j] == m;
                assert(roster(species, s)[j] != roster(species, t)[k]);
            }
        } else {
            let m = kept[k] as int;
            assert(names(old_members, m));
            let j = choose|j: int| 0 <= j < old_members.len() && #[trigger] old_members[j] == m;
            assert(roster(species, s)[j] < clients.len());
            assert(names(kept, m));
        }
    }
    assert forall|s1: int, k1: int, s2: int, k2: int|
        0 <= s1 < after_species.len() && 0 <= k1 < roster(after_species, s1).len() && 0 <= s2
            < after_species.len() && 0 <= k2 < roster(after_species, s2).len() && (s1 != s2 || k1
            != k2) implies (#[trigger] roster(after_species, s1)[k1]) != (#[trigger] roster(
        after_species,
        s2,
    )[k2]) by {
        if s1 != s {
            assert(roster(after_species, s1) == roster(species, s1));
        }
        if s2 != s {
            assert(roster(after_species, s2) == roster(species, s2));
        }
        if s1 != s && s2 != s {
            assert(roster(species, s1)[k1] != roster(species, s2)[k2]);
        } else if s1 == s && s2 == s {
            if k1 < k2 {
                assert(kept[k1] != kept[k2]);
            } else {
                assert(kept[k2] != kept[k1]);
            }
        } else if s1 == s {
            let m = kept[k1] as int;
            assert(names(old_members, m));
            let j = choose|j: int| 0 <= j < old_members.len() && #[trigger] old_members[j] == m;
            assert(roster(species, s)[j] != roster(species, s2)[k2]);
        } else {
            let m = kept[k2] as int;
            assert(names(old_members, m));
            let j = choose|j: int| 0 <= j < old_members.len() && #[trigger] old_members[j] == m;
            assert(roster(species, s)[j] != roster(species, s1)[k1]);
        }
    }
    assert forall|i: int|
        0 <= i < after_clients.len() && (#[trigger] after_clients[i]).has_species implies has_home(
        after_species,
        i,
    ) by {
        if names(old_members, i) {
            assert(names(kept, i));
            assert(names(roster(after_species, s), i));
        } else {
            assert(clients[i].has_species);
            let t = choose|t: int| 0 <= t < species.len() && #[trigger] names(roster(species, t), i);
            assert(t != s);
            assert(roster(after_species, t) == roster(species, t));
            assert(names(roster(after_species, t), i));
        }
    }
}

/// Taking a species off the list and leaving its members without a
/// species leaves the clients shared out.
pub proof fn lemma_dissolve(
    clients: Seq<Client>,
    species: Seq<Species>,
    after_clients: Seq<Client>,
    after_species: Seq<Species>,
    s: int,
)
    requires
        partitioned(clients, species),
        0 <= s < species.len(),
        after_clients.len() == clients.len(),
        forall|i: int|
            0 <= i < clients.len() ==> (#[trigger] after_clients[i]).has_species == (
            clients[i].has_species && !names(roster(species, s), i)),
        after_species.len() == species.len() - 1,
        forall|t: int| 0 <= t < s ==> #[trigger] roster(after_species, t) == roster(species, t),
        forall|t: int|
            s <= t < after_species.len() ==> #[trigger] roster(after_species, t) == roster(
                species,
                t + 1,
            ),
    ensures
        partitioned(after_clients, after_species),
{
    let gone = roster(species, s);
    assert forall|t: int, k: int|
        0 <= t < after_species.len() && 0 <= k < roster(after_species, t).len() implies (
    #[trigger] roster(after_species, t)[k]) < after_clients.len() && after_clients[roster(
        after_species,
        t,
    )[k] as int].has_species by {
        let u = if t < s {
            t
        } else {
            t + 1
        };
        assert(roster(after_species, t) == roster(species, u));
        let m = roster(species, u)[k] as int;
        assert(clients[m].has_species);
        if names(gone, m) {
            let j = choose|j: int| 0 <= j < gone.len() && #[trigger] gone[j] == m;
            assert(roster(species, s)[j] != roster(species, u)[k]);
        }
    }
    assert forall|s1: int, k1: int, s2: int, k2: int|
        0 <= s1 < after_species.len() && 0 <= k1 < roster(after_species, s1).len() && 0 <= s2
            < after_species.len() && 0 <= k2 < roster(after_species, s2).len() && (s1 != s2 || k1
            != k2) implies (#[trigger] roster(after_species, s1)[k1]) != (#[trigger] roster(
        after_species,
        s2,
    )[k2]) by {
        let u1 = if s1 < s {
            s1
        } else {
            s1 + 1
        };
        let u2 = if s2 < s {
            s2
        } else {
            s2 + 1
        };
        assert(roster(after_species, s1) == roster(species, u1));
        assert(roster(after_species, s2) == roster(species, u2));
        assert(roster(species, u1)[k1] != roster(species, u2)[k2]);
    }
    assert forall|i: int|
        0 <= i < after_clients.len() && (#[trigger] after_clients[i]).has_species implies has_home(
        after_species,
        i,
    ) by {
        assert(clients[i].has_species);
        let t = choose|t: int| 0 <= t < species.len() && #[trigger] names(roster(species, t), i);
        assert(t != s);
        let u = if t < s {
            t
        } else {
            t - 1
        };
        assert(roster(after_species, u) == roster(species, t));
        assert(names(roster(after_species, u), i));
    }
}

} // verus!
