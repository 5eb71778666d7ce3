use crate::data_structures::pseudo_float::PseudoFloat;
use vstd::prelude::*;
use vstd::string::StringSliceAdditionalSpecFns;

verus! {

/// How a node turns the sum of what flows in into what flows out.
#[derive(Clone, Copy, Debug, PartialEq, Eq, Structural)]
pub enum ActivationFunction {
    /// One over one plus e to the minus sum.
    Sigmoid,
    /// The sum where it is positive, else zero.
    Relu,
}

/// Why a configuration was turned down.
#[derive(Clone, Copy, Debug, PartialEq, Eq, Structural)]
pub enum ConfigError {
    /// The list of numbers does not hold exactly twelve.
    WrongLength,
    /// The activation is neither `relu` nor `sigmoid`.
    UnknownActivation,
    /// A line names a parameter that does not exist.
    UnknownKey,
    /// A parameter is named and no value follows.
    MissingValue,
    /// The value of a parameter is not a decimal number.
    InvalidNumber,
    /// A text leaves one of the thirteen parameters without a value.
    MissingKey,
}

/// The activation function that `name` spells, if it spells one.
pub open spec fn activation_named(name: Seq<u8>) -> Option<ActivationFunction> {
    if name == "relu".spec_bytes() {
        Some(ActivationFunction::Relu)
    } else if name == "sigmoid".spec_bytes() {
        Some(ActivationFunction::Sigmoid)
    } else {
        None
    }
}

/// Whether `text` holds exactly the bytes of `word`.
pub fn spells(text: &[u8], word: &[u8]) -> (same: bool)
    ensures
        same == (text@ == word@),
{
    if text.len() != word.len() {
        return false;
    }
    let mut at: usize = 0;
    while at < text.len()
        invariant
            at <= text.len(),
            text.len() == word.len(),
            forall|i: int| 0 <= i < at ==> text@[i] == word@[i],
        decreases text.len() - at,
    {
        if text[at] != word[at] {
            return false;
        }
        at += 1;
    }
    assert(text@ =~= word@);
    true
}

impl ActivationFunction {
    /// The activation function that the bytes of `name` spell: `relu` or
    /// `sigmoid`, in lower case.
    pub fn from_bytes(name: &[u8]) -> (activation: Option<ActivationFunction>)
        ensures
            activation == activation_named(name@),
    {
        if spells(name, "relu".as_bytes()) {
            Some(ActivationFunction::Relu)
        } else if spells(name, "sigmoid".as_bytes()) {
            Some(ActivationFunction::Sigmoid)
        } else {
            None
        }
    }

    /// The activation function that `name` spells: `relu` or `sigmoid`.
    pub fn from_name(name: &str) -> (activation: Option<ActivationFunction>)
        ensures
            activation == activation_named(name.spec_bytes()),
    {
        ActivationFunction::from_bytes(name.as_bytes())
    }
}

/// The parameters of a run.
#[derive(Clone, Copy, Debug)]
pub struct Config {
    /// What one disjoint gene adds to the distance of two genomes.
    pub mult_disjoint: PseudoFloat,
    /// What one excess gene adds to the distance of two genomes.
    pub mult_excess: PseudoFloat,
    /// What the mean weight difference of matching genes is multiplied by.
    pub mult_weight_diff: PseudoFloat,
    /// The largest amount by which a weight is shifted, and the largest
    /// size of the weight of a new link.
    pub weight_shift_strength: PseudoFloat,
    /// The largest size of a weight that is drawn anew for a connection.
    pub weight_random_strength: PseudoFloat,
    /// The chance that a mutation adds a link.
    pub prob_mutate_link: PseudoFloat,
    /// The chance that a mutation adds a node.
    pub prob_mutate_node: PseudoFloat,
    /// The chance that a mutation shifts a weight.
    pub prob_mutate_weight_shift: PseudoFloat,
    /// The chance that a mutation draws a weight anew.
    pub prob_mutate_weight_random: PseudoFloat,
    /// The chance that a mutation switches a link on or off.
    pub prob_mutate_toggle_link: PseudoFloat,
    /// The distance below which a client joins a species.
    pub species_threshold: PseudoFloat,
    /// The share of each species that is removed in a generation.
    pub kill_percentage: PseudoFloat,
    /// The activation function of every node.
    pub activation: ActivationFunction,
    /// Whether the networks have one more input that is always one.
    pub bias: bool,
}

impl Config {
    /// The strengths are not negative, so that a weight can be drawn
    /// between minus the strength and the strength.
    pub open spec fn wf(&self) -> bool {
        &&& self.weight_shift_strength@ >= 0
        &&& self.weight_random_strength@ >= 0
    }

    /// Whether the strengths are not negative.
    pub fn is_valid(&self) -> (valid: bool)
        ensures
            valid == self.wf(),
    {
        self.weight_shift_strength.units >= 0 && self.weight_random_strength.units >= 0
    }

    /// The configuration that `variables` and `activation` describe.
    ///
    /// The twelve numbers are, in this order: the three distance
    /// multipliers (disjoint, excess, weight difference), the two weight
    /// strengths (shift, random), the five mutation chances (link, node,
    /// weight shift, weight random, toggle link), the species threshold
    /// and the kill percentage. The networks get a bias input.
    pub fn from_vec(variables: &Vec<PseudoFloat>, activation: &str) -> (config: Result<
        Config,
        ConfigError,
    >)
        ensures
            variables@.len() != 12 ==> config == Err::<Config, ConfigError>(
                ConfigError::WrongLength,
            ),
            variables@.len() == 12 && activation_named(activation.spec_bytes()) is None ==> config
                == Err::<Config, ConfigError>(ConfigError::UnknownActivation),
            variables@.len() == 12 && activation_named(activation.spec_bytes()) is Some ==> config
                == Ok::<Config, ConfigError>(
                Config {
                    mult_disjoint: variables@[0],
                    mult_excess: variables@[1],
                    mult_weight_diff: variables@[2],
                    weight_shift_strength: variables@[3],
                    weight_random_strength: variables@[4],
                    prob_mutate_link: variables@[5],
                    prob_mutate_node: variables@[6],
                    prob_mutate_weight_shift: variables@[7],
                    prob_mutate_weight_random: variables@[8],
                    prob_mutate_toggle_link: variables@[9],
                    species_threshold: variables@[10],
                    kill_percentage: variables@[11],
                    activation: activation_named(activation.spec_bytes()).unwrap(),
                    bias: true,
                },
            ),
    {
        if variables.len() != 12 {
            return Err(ConfigError::WrongLength);
        }
        match ActivationFunction::from_name(activation) {
            None => Err(ConfigError::UnknownActivation),
            Some(function) => Ok(
                Config {
                    mult_disjoint: variables[0],
                    mult_excess: variables[1],
                    mult_weight_diff: variables[2],
                    weight_shift_strength: variables[3],
                    weight_random_strength: variables[4],
                    prob_mutate_link: variables[5],
                    prob_mutate_node: variables[6],
                    prob_mutate_weight_shift: variables[7],
                    prob_mutate_weight_random: variables[8],
                    prob_mutate_toggle_link: variables[9],
                    species_threshold: variables[10],
                    kill_percentage: variables[11],
                    activation: function,
                    bias: true,
                },
            ),
        }
    }

    /// The configuration in which every number is zero, with rectified
    /// linear activation and a bias input.
    pub open spec fn zeroed() -> Config {
        Config {
            mult_disjoint: PseudoFloat { units: 0 },
            mult_excess: PseudoFloat { units: 0 },
            mult_weight_diff: PseudoFloat { units: 0 },
            weight_shift_strength: PseudoFloat { units: 0 },
            weight_random_strength: PseudoFloat { units: 0 },
            prob_mutate_link: PseudoFloat { units: 0 },
            prob_mutate_node: PseudoFloat { units: 0 },
            prob_mutate_weight_shift: PseudoFloat { units: 0 },
            prob_mutate_weight_random: PseudoFloat { units: 0 },
            prob_mutate_toggle_link: PseudoFloat { units: 0 },
            species_threshold: PseudoFloat { units: 0 },
            kill_percentage: PseudoFloat { units: 0 },
            activation: ActivationFunction::Relu,
            bias: true,
        }
    }

    /// The configuration in which every number is zero, with rectified
    /// linear activation and a bias input.
    pub fn init_zero() -> (config: Config)
        ensures
            config == Config::zeroed(),
            config.wf(),
            config.mult_disjoint@ == 0,
            config.mult_excess@ == 0,
            config.mult_weight_diff@ == 0,
            config.weight_shift_strength@ == 0,
            config.weight_random_strength@ == 0,
            config.prob_mutate_link@ == 0,
            config.prob_mutate_node@ == 0,
            config.prob_mutate_weight_shift@ == 0,
            config.prob_mutate_weight_random@ == 0,
            config.prob_mutate_toggle_link@ == 0,
            config.species_threshold@ == 0,
            config.kill_percentage@ == 0,
            config.activation == ActivationFunction::Relu,
            config.bias,
    {
        let zero = PseudoFloat::zero();
        Config {
            mult_disjoint: zero,
            mult_excess: zero,
            mult_weight_diff: zero,
            weight_shift_strength: zero,
            weight_random_strength: zero,
            prob_mutate_link: zero,
            prob_mutate_node: zero,
            prob_mutate_weight_shift: zero,
            prob_mutate_weight_random: zero,
            prob_mutate_toggle_link: zero,
            species_threshold: zero,
            kill_percentage: zero,
            activation: ActivationFunction::Relu,
            bias: true,
        }
    }
}

} // verus!
