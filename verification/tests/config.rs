use profqu_neat::data_structures::PseudoFloat;
use profqu_neat::neat::config_text::{read_key, read_number, ConfigKey};
use profqu_neat::neat::{ActivationFunction, Config, ConfigError};

fn single(value: PseudoFloat) -> f32 {
    (value.parse() as f64 / 1e9) as f32
}

const TEST_CONFIG: &str = "mult_disjoint: 3.0
mult_excess: 2.0
mult_weight_diff: 4.0

weight_shift_strength: 0.3
weight_random_strength: 1.0

prob_mutate_link: 0.01
prob_mutate_node: 0.003
prob_mutate_weight_shift: 0.002
prob_mutate_weight_random: 0.002
prob_mutate_toggle_link: 0.0

species_threshold: 4.0

kill_percentage: 0.2

activation: sigmoid
";

#[test]
fn from_file() {
    let config = Config::from_text(TEST_CONFIG).unwrap();

    assert_eq!(single(config.mult_disjoint), 3.0);
    assert_eq!(single(config.mult_excess), 2.0);
    assert_eq!(single(config.mult_weight_diff), 4.0);

    assert_eq!(single(config.weight_shift_strength), 0.3);
    assert_eq!(single(config.weight_random_strength), 1.0);

    assert_eq!(single(config.prob_mutate_link), 0.01);
    assert_eq!(single(config.prob_mutate_node), 0.003);
    assert_eq!(single(config.prob_mutate_weight_shift), 0.002);
    assert_eq!(single(config.prob_mutate_weight_random), 0.002);
    assert_eq!(single(config.prob_mutate_toggle_link), 0.0);

    assert_eq!(single(config.species_threshold), 4.0);

    assert_eq!(single(config.kill_percentage), 0.2);

    assert_eq!(config.activation, ActivationFunction::Sigmoid);
    assert!(config.bias);
    assert!(config.is_valid());
}

const REST: &str = "mult_excess: 2: mult_weight_diff: 4\nweight_shift_strength: 0.3\r\n\
weight_random_strength: 1\nprob_mutate_link: 0.01\nprob_mutate_node: 0.003\n\
prob_mutate_weight_shift: 0.002\nprob_mutate_weight_random: 0.002\n\
prob_mutate_toggle_link: 0\nspecies_threshold: 4\n";

#[test]
fn text_keys_in_any_case_and_on_one_line() {
    let text =
        format!("Mult_Disjoint: 1.5: KILL_PERCENTAGE: -0.25\r\n\r\n{REST}: : \nactivation: relu: ");
    let config = Config::from_text(&text).unwrap();

    assert_eq!(config.mult_disjoint.parse(), 1_500_000_000);
    assert_eq!(config.kill_percentage.parse(), -250_000_000);
    assert_eq!(config.activation, ActivationFunction::Relu);
    assert_eq!(config.mult_excess.parse(), 2_000_000_000);
    assert_eq!(config.species_threshold.parse(), 4_000_000_000);
    assert!(config.bias);

    // A parameter that is given twice has the value that was given last.
    let twice = format!("{text}\nmult_disjoint: 7");
    assert_eq!(Config::from_text(&twice).unwrap().mult_disjoint.parse(), 7_000_000_000);
}

#[test]
fn text_that_leaves_a_parameter_out_is_refused() {
    let error = |text: &str| Config::from_text(text).map(|_| ()).unwrap_err();

    assert_eq!(error(""), ConfigError::MissingKey);
    assert_eq!(error("\n\n: : \n"), ConfigError::MissingKey);
    assert_eq!(error("mult_disjoint: 3.0"), ConfigError::MissingKey);
    // Everything but the activation.
    assert_eq!(
        error(&format!("mult_disjoint: 3\nkill_percentage: 0.2\n{REST}")),
        ConfigError::MissingKey
    );
    // Everything but one number.
    assert_eq!(error(&format!("kill_percentage: 0.2\nactivation: relu\n{REST}")), ConfigError::MissingKey);
    for line in TEST_CONFIG.lines().filter(|line| !line.is_empty()) {
        let without: Vec<&str> = TEST_CONFIG.lines().filter(|other| *other != line).collect();
        assert_eq!(error(&without.join("\n")), ConfigError::MissingKey);
    }
    // A line that cannot be read is refused before the missing parameter.
    assert_eq!(error("speed: 3"), ConfigError::UnknownKey);
}

#[test]
fn text_errors() {
    let error = |text: &str| Config::from_text(text).map(|_| ()).unwrap_err();

    assert_eq!(error("mult_disjoint: 1\nspeed: 3\n"), ConfigError::UnknownKey);
    assert_eq!(error("mult disjoint: 1"), ConfigError::UnknownKey);
    assert_eq!(error(" mult_disjoint: 1"), ConfigError::UnknownKey);
    assert_eq!(error("mult_disjoint:1"), ConfigError::UnknownKey);
    assert_eq!(error("mult_disjoint"), ConfigError::MissingValue);
    assert_eq!(error("mult_excess: 2\r"), ConfigError::InvalidNumber);
    assert_eq!(error("mult_disjoint: "), ConfigError::InvalidNumber);
    assert_eq!(error("mult_disjoint: 1,5"), ConfigError::InvalidNumber);
    assert_eq!(error("mult_disjoint: 1e3"), ConfigError::InvalidNumber);
    assert_eq!(error("mult_disjoint: ."), ConfigError::InvalidNumber);
    assert_eq!(error("mult_disjoint: 9223372037"), ConfigError::InvalidNumber);
    assert_eq!(error("activation: Relu"), ConfigError::UnknownActivation);
    assert_eq!(error("activation: tanh"), ConfigError::UnknownActivation);
    assert_eq!(error("kill_percentage: 0.2: mult_excess"), ConfigError::MissingValue);
}

#[test]
fn numbers() {
    let read = |text: &str| read_number(text.as_bytes(), 0, text.len()).map(|value| value.parse());

    assert_eq!(read("0"), Some(0));
    assert_eq!(read("-0"), Some(0));
    assert_eq!(read("7"), Some(7_000_000_000));
    assert_eq!(read("+7."), Some(7_000_000_000));
    assert_eq!(read(".5"), Some(500_000_000));
    assert_eq!(read("-.5"), Some(-500_000_000));
    assert_eq!(read("0.003"), Some(3_000_000));
    assert_eq!(read("3.1415926535897932"), Some(3_141_592_653));
    assert_eq!(read("000012.000000001"), Some(12_000_000_001));
    assert_eq!(read("9223372036.854775807"), Some(i64::MAX));
    assert_eq!(read("-9223372036.854775807"), Some(-i64::MAX));
    assert_eq!(read("9223372036.854775808"), None);
    assert_eq!(read(""), None);
    assert_eq!(read("-"), None);
    assert_eq!(read("1.2.3"), None);
    assert_eq!(read("1 "), None);
    assert_eq!(read("--1"), None);
    assert_eq!(read_number(b"x12.5y", 1, 5).map(|value| value.parse()), Some(12_500_000_000));
}

#[test]
fn keys() {
    let key = |text: &str| read_key(text.as_bytes(), 0, text.len());

    assert_eq!(key("species_threshold"), Some(ConfigKey::SpeciesThreshold));
    assert_eq!(key("PROB_MUTATE_TOGGLE_LINK"), Some(ConfigKey::ProbMutateToggleLink));
    assert_eq!(key("Activation"), Some(ConfigKey::Activation));
    assert_eq!(key("activatio"), None);
    assert_eq!(key(""), None);
}

#[test]
fn from_vec_takes_twelve_numbers_in_order() {
    let numbers: Vec<PseudoFloat> = (1..=12).map(|units| PseudoFloat::new(units)).collect();

    let config = Config::from_vec(&numbers, "relu").unwrap();
    assert_eq!(config.mult_disjoint.parse(), 1);
    assert_eq!(config.mult_excess.parse(), 2);
    assert_eq!(config.mult_weight_diff.parse(), 3);
    assert_eq!(config.weight_shift_strength.parse(), 4);
    assert_eq!(config.weight_random_strength.parse(), 5);
    assert_eq!(config.prob_mutate_link.parse(), 6);
    assert_eq!(config.prob_mutate_node.parse(), 7);
    assert_eq!(config.prob_mutate_weight_shift.parse(), 8);
    assert_eq!(config.prob_mutate_weight_random.parse(), 9);
    assert_eq!(config.prob_mutate_toggle_link.parse(), 10);
    assert_eq!(config.species_threshold.parse(), 11);
    assert_eq!(config.kill_percentage.parse(), 12);
    assert_eq!(config.activation, ActivationFunction::Relu);
    assert!(config.bias);

    assert_eq!(
        Config::from_vec(&numbers[..11].to_vec(), "relu").map(|_| ()),
        Err(ConfigError::WrongLength)
    );
    assert_eq!(
        Config::from_vec(&numbers, "Sigmoid").map(|_| ()),
        Err(ConfigError::UnknownActivation)
    );
    assert_eq!(ActivationFunction::from_name("sigmoid"), Some(ActivationFunction::Sigmoid));
    assert_eq!(ActivationFunction::from_bytes(b"relu"), Some(ActivationFunction::Relu));

    let mut invalid = Config::init_zero();
    assert!(invalid.is_valid());
    invalid.weight_shift_strength = PseudoFloat::new(-1);
    assert!(!invalid.is_valid());
}
