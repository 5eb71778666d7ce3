use crate::calculations::calculator::{CalculateError, CalculatorModel};
use crate::data_structures::pseudo_float::PseudoFloat;
use crate::genome::connection_gene::ConnectionGene;
use crate::genome::genome::Genome;
use crate::genome::node_gene::NodeGene;
use crate::neat::client::{calculated, Client};
use crate::neat::config::Config;
use crate::neat::population::{at_home, clients_wf, lemma_flags_decide, partitioned, species_wf};
use crate::neat::registry::{initial_nodes, MAX_NODES, Registry};
use crate::neat::species::Species;
use vstd::prelude::*;

verus! {

/// Why a generation could not be completed.
#[derive(Clone, Copy, Debug, PartialEq, Eq, Structural)]
pub enum EvolveError {
    /// A client needs a new genome and no species is left to breed it.
    NoSpecies,
    /// A client needs a new genome and a species has a negative mean
    /// fitness.
    NegativeFitness,
    /// A client needs a new genome and no species has a positive mean
    /// fitness.
    NoFitness,
}

/// The registry, the clients and the species of one run.
#[derive(Clone, Debug)]
pub struct Neat {
    /// The registry that numbers the genes of this run.
    pub registry: Registry,
    /// The population. Its size does not change.
    pub clients: Vec<Client>,
    /// The species of the current generation.
    pub species: Vec<Species>,
    /// The number of clients.
    pub population_size: u32,
    /// The parameters of this run.
    pub config: Config,
}

impl Neat {
    /// The registry, the configuration and the clients are in order,
    /// there are as many clients as the population size says, every
    /// genome can have come out of the registry, every species has a
    /// representative among the clients, and the species share out the
    /// clients that have a species.
    pub open spec fn wf_loose(&self) -> bool {
        &&& self.registry.wf()
        &&& self.config.wf()
        &&& self.clients@.len() == self.population_size
        &&& clients_wf(self.clients@)
        &&& at_home(self.clients@, self.registry@)
        &&& forall|s: int|
            0 <= s < self.species@.len() ==> (#[trigger] self.species@[s]).representative
                < self.clients@.len()
        &&& partitioned(self.clients@, self.species@)
    }

    /// All of [`Neat::wf_loose`], and every species has a member.
    pub open spec fn wf(&self) -> bool {
        &&& self.wf_loose()
        &&& species_wf(self.clients@, self.species@)
    }

    /// A population of `population_size` clients for networks with
    /// `input_size` inputs and `output_size` outputs. Every client has
    /// the genome without connections and its calculator, a fitness of
    /// zero and no species. There is no species yet.
    pub fn new(input_size: u32, output_size: u32, population_size: u32, config: Config) -> (neat:
        Self)
        requires
            input_size + output_size < MAX_NODES,
            config.wf(),
        ensures
            neat.wf(),
            neat.config == config,
            neat.population_size == population_size,
            neat.registry@.nodes == initial_nodes(
                input_size as nat,
                output_size as nat,
                config.bias,
            ),
            neat.registry@.catalog == Map::<u64, ConnectionGene>::empty(),
            neat.registry@.inputs == input_size,
            neat.registry@.outputs == output_size,
            neat.registry@.bias == config.bias,
            neat.species@.len() == 0,
            forall|i: int|
                0 <= i < population_size ==> {
                    let client = #[trigger] neat.clients@[i];
                    &&& client.genome.nodes@ == neat.registry@.base_nodes()
                    &&& client.genome.connections@ == Seq::<ConnectionGene>::empty()
                    &&& client.fitness@ == 0
                    &&& !client.has_species
                    &&& client.calculator is Some
                },
    {
        let registry = Registry::new(input_size, output_size, config.bias);
        let mut clients: Vec<Client> = Vec::new();
        let mut index: u32 = 0;
        while index < population_size
            invariant
                index <= population_size,
                registry.wf(),
                clients@.len() == index,
                clients_wf(clients@),
                at_home(clients@, registry@),
                forall|i: int|
                    0 <= i < index ==> {
                        let client = #[trigger] clients@[i];
                        &&& client.genome.nodes@ == registry@.base_nodes()
                        &&& client.genome.connections@ == Seq::<ConnectionGene>::empty()
                        &&& client.fitness@ == 0
                        &&& !client.has_species
                        &&& client.calculator is Some
                    },
            decreases population_size - index,
        {
            let mut client = Client::new(registry.empty_genome());
            client.generate_calculator(&config);
            clients.push(client);
            index += 1;
        }
        Neat { registry, clients, species: Vec::new(), population_size, config }
    }

    /// Starts over with new sizes: see [`Neat::new`]. The configuration
    /// stays.
    pub fn reset(&mut self, input_size: u32, output_size: u32, population_size: u32)
        requires
            input_size + output_size < MAX_NODES,
            old(self).config.wf(),
        ensures
            final(self).wf(),
            final(self).config == old(self).config,
            final(self).population_size == population_size,
            final(self).registry@.nodes == initial_nodes(
                input_size as nat,
                output_size as nat,
                old(self).config.bias,
            ),
            final(self).registry@.catalog == Map::<u64, ConnectionGene>::empty(),
            final(self).registry@.inputs == input_size,
            final(self).registry@.outputs == output_size,
            final(self).registry@.bias == old(self).config.bias,
            final(self).species@.len() == 0,
            forall|i: int|
                0 <= i < population_size ==> {
                    let client = #[trigger] final(self).clients@[i];
                    &&& client.genome.nodes@ == final(self).registry@.base_nodes()
                    &&& client.genome.connections@ == Seq::<ConnectionGene>::empty()
                    &&& client.fitness@ == 0
                    &&& !client.has_species
                    &&& client.calculator is Some
                },
    {
        *self = Neat::new(input_size, output_size, population_size, self.config);
    }

    /// The client at `index`.
    pub fn get_client(&self, index: usize) -> (client: &Client)
        requires
            index < self.clients@.len(),
        ensures
            *client == self.clients@[index as int],
    {
        &self.clients[index]
    }

    /// Gives the client at `index` the fitness `fitness`.
    pub fn set_fitness(&mut self, index: usize, fitness: PseudoFloat)
        requires
            old(self).wf(),
            index < old(self).clients@.len(),
        ensures
            final(self).wf(),
            final(self).registry == old(self).registry,
            final(self).species == old(self).species,
            final(self).config == old(self).config,
            final(self).population_size == old(self).population_size,
            final(self).clients@ == old(self).clients@.update(
                index as int,
                Client { fitness, ..old(self).clients@[index as int] },
            ),
    {
        self.clients[index].fitness = fitness;
        proof {
            lemma_flags_decide(old(self).clients@, self.clients@, self.species@);
            assert forall|i: int| 0 <= i < self.clients@.len() implies (
            #[trigger] self.clients@[i]).genome.belongs_to(self.registry@) by {
                assert(old(self).clients@[i].genome.belongs_to(self.registry@));
            }
        }
    }

    /// Works out what the network of the client at `index` makes of
    /// `inputs`: see [`Client::calculate`].
    pub fn calculate(&mut self, index: usize, inputs: &Vec<PseudoFloat>) -> (outputs: Result<
        Vec<PseudoFloat>,
        CalculateError,
    >)
        requires
            old(self).wf(),
            index < old(self).clients@.len(),
        ensures
            final(self).wf(),
            final(self).registry == old(self).registry,
            final(self).species == old(self).species,
            final(self).config == old(self).config,
            final(self).population_size == old(self).population_size,
            final(self).clients@.len() == old(self).clients@.len(),
            forall|i: int|
                0 <= i < old(self).clients@.len() && i != index ==> final(self).clients@[i] == old(self).clients@[i],
            final(self).clients@[index as int].genome == old(self).clients@[index as int].genome,
            final(self).clients@[index as int].fitness == old(self).clients@[index as int].fitness,
            final(self).clients@[index as int].has_species == old(self).clients@[index as int].has_species,
            final(self).clients@[index as int].calculator is Some,
            old(self).clients@[index as int].calculator is Some ==> calculated(
                old(self).clients@[index as int].calculator.unwrap()@,
                final(self).clients@[index as int].calculator.unwrap()@,
                inputs@,
                outputs,
            ),
            old(self).clients@[index as int].calculator is None ==> exists|
                before: CalculatorModel,
            |
                #[trigger] before.compiled(
                    old(self).clients@[index as int].genome.nodes@,
                    old(self).clients@[index as int].genome.connections@,
                    old(self).config.activation,
                    old(self).config.bias,
                ) && calculated(
                    before,
                    final(self).clients@[index as int].calculator.unwrap()@,
                    inputs@,
                    outputs,
                ),
    {
        let outputs = self.clients[index].calculate(inputs, &self.config);
        proof {
            lemma_flags_decide(old(self).clients@, self.clients@, self.species@);
            assert forall|i: int| 0 <= i < self.clients@.len() implies (
            #[trigger] self.clients@[i]).genome.belongs_to(self.registry@) by {
                assert(old(self).clients@[i].genome.belongs_to(self.registry@));
            }
        }
        outputs
    }

    /// A genome of the nodes every network has, without connections.
    pub fn empty_genome(&self) -> (genome: Genome)
        requires
            self.registry.wf(),
        ensures
            genome.wf(),
            genome.connections@ == Seq::<ConnectionGene>::empty(),
            genome.nodes@ == self.registry@.base_nodes(),
    {
        self.registry.empty_genome()
    }

    /// Makes a node at (`x`, `y`) under the next free number.
    pub fn create_node(&mut self, x: PseudoFloat, y: PseudoFloat) -> (node: NodeGene)
        requires
            old(self).registry.wf(),
            old(self).registry@.has_room_for_node(),
        ensures
            final(self).registry.wf(),
            final(self).registry@ == old(self).registry@.with_node(x, y),
            node == old(self).registry@.new_node(x, y),
            final(self).clients == old(self).clients,
            final(self).species == old(self).species,
            final(self).config == old(self).config,
            final(self).population_size == old(self).population_size,
    {
        self.registry.create_node(x, y)
    }

    /// The node with number `index`, counted from one, if it has been
    /// handed out.
    pub fn get_node(&self, index: usize) -> (node: Option<NodeGene>)
        ensures
            1 <= index <= self.registry@.nodes.len() ==> node == Some(
                self.registry@.nodes[index - 1],
            ),
            !(1 <= index <= self.registry@.nodes.len()) ==> node is None,
    {
        self.registry.get_node(index)
    }

    /// The gene of the connection from `node1` to `node2`: see
    /// [`Registry::get_connection`].
    pub fn get_connection(&mut self, node1: NodeGene, node2: NodeGene) -> (gene: ConnectionGene)
        requires
            old(self).registry.wf(),
            old(self).registry@.knows(node1, node2) || old(self).registry@.has_room_for_connections(1),
        ensures
            final(self).registry.wf(),
            final(self).registry@ == old(self).registry@.connect(node1, node2),
            gene == old(self).registry@.connection(node1, node2),
            final(self).clients == old(self).clients,
            final(self).species == old(self).species,
            final(self).config == old(self).config,
            final(self).population_size == old(self).population_size,
    {
        self.registry.get_connection(node1, node2)
    }

    /// Remembers that node number `replace_index` split the connection
    /// from `from` to `to`.
    pub fn set_replace_index(&mut self, from: NodeGene, to: NodeGene, replace_index: usize)
        requires
            old(self).registry.wf(),
            old(self).registry@.knows(from, to),
        ensures
            final(self).registry.wf(),
            final(self).registry@ == old(self).registry@.with_replace_index(
                from,
                to,
                replace_index,
            ),
            final(self).clients == old(self).clients,
            final(self).species == old(self).species,
            final(self).config == old(self).config,
            final(self).population_size == old(self).population_size,
    {
        self.registry.set_replace_index(from, to, replace_index);
    }

    /// The number of the node that once split the connection from `from`
    /// to `to`, or zero where none did.
    pub fn get_replace_index(&self, from: NodeGene, to: NodeGene) -> (replace_index: usize)
        ensures
            replace_index == self.registry@.replace_index(from, to),
    {
        self.registry.get_replace_index(from, to)
    }

    /// The client of the highest fitness, the first one of them where
    /// several have it, or nothing where there is no client.
    pub fn best_client(&self) -> (best: Option<&Client>)
        ensures
            best is None == (self.clients@.len() == 0),
            best is Some ==> exists|place: int|
                0 <= place < self.clients@.len() && #[trigger] self.clients@[place]
                    == *best.unwrap() && is_first_best(self.clients@, place),
    {
        if self.clients.len() == 0 {
            return None;
        }
        let mut best: usize = 0;
        let mut index: usize = 1;
        while index < self.clients.len()
            invariant
                1 <= index <= self.clients@.len(),
                best < index,
                is_first_best(self.clients@.take(index as int), best as int),
            decreases self.clients@.len() - index,
        {
            if self.clients[index].fitness.units > self.clients[best].fitness.units {
                best = index;
            }
            index += 1;
            proof {
                let head = self.clients@.take(index as int);
                let before = self.clients@.take(index - 1);
                assert forall|j: int| 0 <= j < head.len() implies (#[trigger] head[j]).fitness@
                    <= head[best as int].fitness@ by {
                    if j < index - 1 {
                        assert(before[j] == head[j]);
                    }
                }
                assert forall|j: int| 0 <= j < best implies (#[trigger] head[j]).fitness@
                    < head[best as int].fitness@ by {
                    assert(before[j] == head[j]);
                }
            }
        }
        assert(self.clients@.take(index as int) =~= self.clients@);
        Some(&self.clients[best])
    }
}

/// Whether the client at `place` has the highest fitness and is the
/// first one that has it.
pub open spec fn is_first_best(clients: Seq<Client>, place: int) -> bool {
    &&& 0 <= place < clients.len()
    &&& forall|j: int|
        0 <= j < clients.len() ==> (#[trigger] clients[j]).fitness@ <= clients[place].fitness@
    &&& forall|j: int| 0 <= j < place ==> (#[trigger] clients[j]).fitness@ < clients[place].fitness@
}

} // verus!
