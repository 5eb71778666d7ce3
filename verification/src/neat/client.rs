use crate::calculations::calculator::{CalculateError, Calculator, CalculatorModel, read_out};
use crate::data_structures::pseudo_float::PseudoFloat;
use crate::genome::alignment::distance_of;
use crate::genome::genome::Genome;
use crate::genome::mutation::{forward, mutated, Trace};
use crate::neat::config::Config;
use crate::neat::registry::{extends, Registry};
use vstd::prelude::*;

verus! {

/// One member of the population: a genome, the calculator last built
/// from it, the fitness the caller gave it, and whether a species has it.
#[derive(Clone, Debug)]
pub struct Client {
    /// The genome of this client.
    pub genome: Genome,
    /// The calculator last built from the genome, if one was built. It
    /// is not rebuilt when the genome changes.
    pub calculator: Option<Calculator>,
    /// How well the client did. The caller sets it; nothing here does.
    pub fitness: PseudoFloat,
    /// Whether the client is a member of a species.
    pub has_species: bool,
}

/// Whether a calculator that was `before` is `after` and has handed out
/// `outputs` once it has calculated on `inputs`: it refuses inputs of
/// the wrong number and stays as it was, and otherwise runs and hands
/// out what its output nodes then put out.
pub open spec fn calculated(
    before: CalculatorModel,
    after: CalculatorModel,
    inputs: Seq<PseudoFloat>,
    outputs: Result<Vec<PseudoFloat>, CalculateError>,
) -> bool {
    if inputs.len() == before.input_count() {
        &&& outputs is Ok
        &&& after == CalculatorModel { nodes: before.run(inputs), ..before }
        &&& outputs->Ok_0@ == read_out(after.nodes, before.output_nodes)
    } else {
        &&& outputs == Err::<Vec<PseudoFloat>, CalculateError>(CalculateError::WrongInputCount)
        &&& after == before
    }
}

impl Client {
    /// The genome and the calculator, if there is one, are in order.
    pub open spec fn wf(&self) -> bool {
        &&& self.genome.wf()
        &&& self.calculator is Some ==> self.calculator.unwrap().wf()
    }

    /// A client of fitness zero without calculator and without species.
    pub fn new(genome: Genome) -> (client: Self)
        ensures
            client.genome == genome,
            client.calculator is None,
            client.fitness@ == 0,
            !client.has_species,
    {
        Client { genome, calculator: None, fitness: PseudoFloat::zero(), has_species: false }
    }

    /// Builds the calculator anew from the genome as it is now.
    pub fn generate_calculator(&mut self, config: &Config)
        requires
            old(self).genome.wf(),
        ensures
            final(self).wf(),
            final(self).genome == old(self).genome,
            final(self).fitness == old(self).fitness,
            final(self).has_species == old(self).has_species,
            final(self).calculator is Some,
            final(self).calculator.unwrap()@.compiled(
                old(self).genome.nodes@,
                old(self).genome.connections@,
                config.activation,
                config.bias,
            ),
    {
        self.calculator = Some(Calculator::new(&self.genome, config));
    }

    /// Works out what the network of this client makes of `inputs`, with
    /// the calculator it has, or with one built now where it has none.
    /// Refuses a list of input values of the wrong length.
    pub fn calculate(&mut self, inputs: &Vec<PseudoFloat>, config: &Config) -> (outputs: Result<
        Vec<PseudoFloat>,
        CalculateError,
    >)
        requires
            old(self).wf(),
        ensures
            final(self).wf(),
            final(self).genome == old(self).genome,
            final(self).fitness == old(self).fitness,
            final(self).has_species == old(self).has_species,
            final(self).calculator is Some,
            old(self).calculator is Some ==> calculated(
                old(self).calculator.unwrap()@,
                final(self).calculator.unwrap()@,
                inputs@,
                outputs,
            ),
            old(self).calculator is None ==> exists|before: CalculatorModel|
                #[trigger] before.compiled(
                    old(self).genome.nodes@,
                    old(self).genome.connections@,
                    config.activation,
                    config.bias,
                ) && calculated(before, final(self).calculator.unwrap()@, inputs@, outputs),
    {
        if self.calculator.is_none() {
            self.generate_calculator(config);
        }
        let ghost before = self.calculator.unwrap()@;
        let mut calculator = self.calculator.take().unwrap();
        let outputs = calculator.calculate(inputs);
        self.calculator = Some(calculator);
        proof {
            if old(self).calculator is None {
                assert(before.compiled(
                    old(self).genome.nodes@,
                    old(self).genome.connections@,
                    config.activation,
                    config.bias,
                ));
            }
        }
        outputs
    }

    /// The compatibility distance of the genomes of two clients.
    pub fn distance(&self, other: &Client, config: &Config) -> (distance: PseudoFloat)
        requires
            self.genome.wf(),
            other.genome.wf(),
        ensures
            distance@ == distance_of(self.genome.connections@, other.genome.connections@, *config),
    {
        Genome::distance(&self.genome, &other.genome, config)
    }

    /// Mutates the genome of this client by the five steps of a mutation:
    /// see [`mutated`]. The calculator stays as it is.
    pub fn mutate(&mut self, registry: &mut Registry, config: &Config)
        requires
            old(self).wf(),
            old(registry).wf(),
            config.wf(),
        ensures
            final(self).wf(),
            final(registry).wf(),
            extends(final(registry)@, old(registry)@),
            final(self).calculator == old(self).calculator,
            final(self).fitness == old(self).fitness,
            final(self).has_species == old(self).has_species,
            old(self).genome.belongs_to(old(registry)@) ==> final(self).genome.belongs_to(
                final(registry)@,
            ),
            forward(old(self).genome.connections@) ==> forward(final(self).genome.connections@),
            exists|trace: Trace|
                #[trigger] mutated(
                    trace,
                    old(self).genome.connections@,
                    old(self).genome.nodes@,
                    old(registry)@,
                    final(self).genome.connections@,
                    final(self).genome.nodes@,
                    final(registry)@,
                    *config,
                ),
    {
        self.genome.mutate(registry, config);
        proof {
            let trace = choose|trace: Trace|
                #[trigger] mutated(
                    trace,
                    old(self).genome.connections@,
                    old(self).genome.nodes@,
                    old(registry)@,
                    self.genome.connections@,
                    self.genome.nodes@,
                    registry@,
                    *config,
                );
            assert(mutated(
                trace,
                old(self).genome.connections@,
                old(self).genome.nodes@,
                old(registry)@,
                self.genome.connections@,
                self.genome.nodes@,
                registry@,
                *config,
            ));
        }
    }
}

} // verus!
