use profqu_neat::calculations::activation::{activate, exp_negative, relu, sigmoid};
use profqu_neat::calculations::{CalculateError, Calculator, Connection, Node};
use profqu_neat::data_structures::PseudoFloat;
use profqu_neat::neat::{ActivationFunction, Client, Config, Neat};

fn fixed_point(value: f64) -> PseudoFloat {
    PseudoFloat::new((value * 1e9).round() as i64)
}

fn floating(value: PseudoFloat) -> f32 {
    (value.parse() as f64 / 1e9) as f32
}

fn floats(values: Vec<PseudoFloat>) -> Vec<f32> {
    values.into_iter().map(floating).collect()
}

fn fixed_points(values: &[f64]) -> Vec<PseudoFloat> {
    values.iter().map(|value| fixed_point(*value)).collect()
}

fn sigmoid_config() -> Config {
    let numbers =
        fixed_points(&[3.0, 2.0, 4.0, 0.3, 1.0, 0.01, 0.003, 0.002, 0.002, 0.0, 4.0, 0.2]);
    Config::from_vec(&numbers, "sigmoid").expect("a valid configuration")
}

#[test]
fn calculator_new() {
    let config = sigmoid_config();
    let mut neat = Neat::new(3, 3, 10, config);

    let mut genome = neat.empty_genome();

    let calc = Calculator::new(&genome, &config);

    assert_eq!(calc.input_nodes().len(), 4);
    assert_eq!(calc.output_nodes().len(), 3);
    assert_eq!(calc.hidden_nodes().len(), 0);

    genome.add_connection(&mut neat.registry, 0, 4);

    let calc = Calculator::new(&genome, &config);

    assert_eq!(calc.input_nodes().len(), 4);
    assert_eq!(calc.output_nodes().len(), 3);

    let node = neat.create_node(fixed_point(0.5), fixed_point(0.5));
    genome.nodes.add(node);

    let calc = Calculator::new(&genome, &config);

    assert_eq!(calc.input_nodes().len(), 4);
    assert_eq!(calc.output_nodes().len(), 3);
    assert_eq!(calc.hidden_nodes().len(), 1);
    assert_eq!(floating(calc.x_of(calc.hidden_nodes()[0]).unwrap()), 0.5);

    let node = neat.create_node(fixed_point(0.3), fixed_point(0.5));
    genome.nodes.add(node);

    let calc = Calculator::new(&genome, &config);

    assert_eq!(calc.hidden_nodes().len(), 2);
    assert_eq!(floating(calc.x_of(calc.hidden_nodes()[0]).unwrap()), 0.3);
}

#[test]
fn calculate() {
    let config = sigmoid_config();
    let mut neat = Neat::new(3, 3, 10, config);

    let mut genome = neat.empty_genome();

    let mut calc = Calculator::new(&genome, &config);
    let result = calc.calculate(&fixed_points(&[0.0, 0.0, 0.0])).unwrap();
    assert_eq!(floats(result), vec![0.5, 0.5, 0.5]);

    genome.add_connection(&mut neat.registry, 0, 4);

    let mut calc = Calculator::new(&genome, &config);
    assert_eq!(
        floats(calc.calculate(&fixed_points(&[1.0, 0.0, 0.0])).unwrap()),
        vec![0.7310586, 0.5, 0.5]
    );

    genome.add_connection(&mut neat.registry, 1, 4);

    let mut calc = Calculator::new(&genome, &config);
    assert_eq!(
        floats(calc.calculate(&fixed_points(&[1.0, 2.0, 0.0])).unwrap()),
        vec![0.95257413, 0.5, 0.5]
    );
}

#[test]
fn calculate2() {
    let config = sigmoid_config();
    let mut neat = Neat::new(3, 3, 10, config);

    let mut genome = neat.empty_genome();

    let mut calc = Calculator::new(&genome, &config);
    let result = calc.calculate(&fixed_points(&[0.0, 0.0, 0.0])).unwrap();
    assert_eq!(floats(result), vec![0.5, 0.5, 0.5]);
    let bias = *calc.input_nodes().last().unwrap();
    assert_eq!(floating(calc.output_of(bias).unwrap()), 1.0);

    genome.add_connection(&mut neat.registry, 0, 4);

    let mut calc = Calculator::new(&genome, &config);
    assert_eq!(
        floats(calc.calculate(&fixed_points(&[1.0, 0.0, 0.0])).unwrap()),
        vec![0.7310586, 0.5, 0.5]
    );
    let bias = *calc.input_nodes().last().unwrap();
    assert_eq!(floating(calc.output_of(bias).unwrap()), 1.0);

    genome.add_connection(&mut neat.registry, 1, 4);

    let mut calc = Calculator::new(&genome, &config);
    assert_eq!(
        floats(calc.calculate(&fixed_points(&[1.0, 2.0, 0.0])).unwrap()),
        vec![0.95257413, 0.5, 0.5]
    );
    let bias = *calc.input_nodes().last().unwrap();
    assert_eq!(floating(calc.output_of(bias).unwrap()), 1.0);
}

#[test]
fn calculate_refuses_the_wrong_number_of_inputs() {
    let config = sigmoid_config();
    let neat = Neat::new(3, 2, 1, config);
    let mut calc = Calculator::new(&neat.empty_genome(), &config);

    assert_eq!(calc.input_count(), Some(3));
    assert_eq!(
        calc.calculate(&fixed_points(&[1.0, 2.0])),
        Err(CalculateError::WrongInputCount)
    );
    assert_eq!(
        calc.calculate(&fixed_points(&[1.0, 2.0, 3.0, 4.0])),
        Err(CalculateError::WrongInputCount)
    );
    assert!(calc.calculate(&fixed_points(&[1.0, 2.0, 3.0])).is_ok());

    let mut plain = config;
    plain.bias = false;
    let neat = Neat::new(3, 2, 1, plain);
    let mut calc = Calculator::new(&neat.empty_genome(), &plain);
    assert_eq!(calc.input_count(), Some(3));
    assert!(calc.calculate(&fixed_points(&[1.0, 2.0, 3.0])).is_ok());
    assert_eq!(calc.output_of(0).map(floating), Some(1.0));
    assert_eq!(calc.output_of(2).map(floating), Some(3.0));
    assert!(calc.output_of(5).is_none());
    assert!(calc.x_of(5).is_none());
}

#[test]
fn hidden_nodes_are_worked_out_in_the_order_of_x() {
    let mut config = sigmoid_config();
    config.activation = ActivationFunction::Relu;
    config.bias = false;
    let mut neat = Neat::new(1, 1, 1, config);
    let mut genome = neat.empty_genome();
    // input -> late -> output, split once more in front: input -> early -> late.
    genome.add_connection(&mut neat.registry, 0, 1);
    genome.split_connection(&mut neat.registry, 0, PseudoFloat::zero());
    genome.split_connection(&mut neat.registry, 0, PseudoFloat::zero());
    genome.set_weight(0, fixed_point(0.5));
    genome.set_weight(1, fixed_point(-3.0));
    genome.set_weight(2, fixed_point(2.0));

    let mut calc = Calculator::new(&genome, &config);
    // The node made last lies in front of the node made first.
    assert_eq!(calc.hidden_nodes(), &vec![3, 2]);
    let order: Vec<(u32, u32, f32)> = genome
        .connections
        .data
        .iter()
        .map(|gene| (gene.from.innovation_number, gene.to.innovation_number, floating(gene.weight)))
        .collect();
    assert_eq!(order, vec![(3, 2, 0.5), (1, 4, -3.0), (4, 3, 2.0)]);

    // relu(relu(relu(-3 * -1) * 2) * 0.5) = 3
    assert_eq!(floats(calc.calculate(&fixed_points(&[-1.0])).unwrap()), vec![3.0]);
    // relu cuts off the negative sum at the first hidden node.
    assert_eq!(floats(calc.calculate(&fixed_points(&[1.0])).unwrap()), vec![0.0]);

    genome.toggle_link(2);
    let mut calc = Calculator::new(&genome, &config);
    assert_eq!(floats(calc.calculate(&fixed_points(&[-1.0])).unwrap()), vec![0.0]);
}

#[test]
fn activation_values() {
    assert_eq!(sigmoid(PseudoFloat::zero()).parse(), 500_000_000);
    assert_eq!(floating(sigmoid(fixed_point(1.0))), 0.7310586);
    assert_eq!(floating(sigmoid(fixed_point(-1.0))), 0.26894143);
    assert_eq!(floating(sigmoid(fixed_point(3.0))), 0.95257413);
    assert_eq!(sigmoid(fixed_point(40.0)).parse(), 1_000_000_000);
    assert_eq!(sigmoid(fixed_point(-40.0)).parse(), 0);
    assert_eq!(sigmoid(PseudoFloat::new(i64::MIN)).parse(), 0);
    assert_eq!(sigmoid(PseudoFloat::new(i64::MAX)).parse(), 1_000_000_000);
    assert_eq!(exp_negative(0), 1_000_000_000);
    assert_eq!(exp_negative(1_000_000_000), 367_879_441);
    for tenths in -400..400i64 {
        let x = tenths as f64 / 10.0;
        let exact = 1.0 / (1.0 + (-x).exp());
        let got = sigmoid(fixed_point(x)).parse() as f64 / 1e9;
        assert!((exact - got).abs() < 5e-9);
    }
    assert_eq!(relu(fixed_point(-0.5)).parse(), 0);
    assert_eq!(relu(fixed_point(0.5)).parse(), 500_000_000);
}

#[test]
fn node_sums_the_enabled_connections() {
    let mut sources = Vec::new();
    for value in [2.0, -1.0, 4.0] {
        let mut node = Node::new(PseudoFloat::zero(), ActivationFunction::Relu);
        node.output = fixed_point(value);
        sources.push(node);
    }
    let mut node = Node::new(fixed_point(0.5), ActivationFunction::Relu);
    let mut first = Connection::new(0);
    first.weight = fixed_point(1.5);
    let mut second = Connection::new(1);
    second.weight = fixed_point(0.5);
    let mut third = Connection::new(2);
    third.enabled = false;
    node.connections = vec![first, second, third, Connection::new(9)];

    assert_eq!(floating(node.calculate(&sources)), 2.5);
    node.connections[0].weight = fixed_point(-1.5);
    assert_eq!(floating(node.calculate(&sources)), 0.0);
    node.activation = ActivationFunction::Sigmoid;
    assert_eq!(floating(node.calculate(&sources)), floating(sigmoid(fixed_point(-3.5))));
}

#[test]
fn client_keeps_its_calculator_through_mutation() {
    let mut config = sigmoid_config();
    config.prob_mutate_link = fixed_point(1.0);
    let mut neat = Neat::new(2, 1, 1, config);
    let mut client = Client::new(neat.empty_genome());
    assert!(client.calculator.is_none());

    let before = client.calculate(&fixed_points(&[1.0, 1.0]), &config).unwrap();
    assert_eq!(floats(before.clone()), vec![0.5]);
    for _ in 0..20 {
        client.mutate(&mut neat.registry, &config);
    }
    assert!(client.genome.connections.len() > 0);
    // The calculator is the one of the genome before the mutations.
    assert_eq!(client.calculate(&fixed_points(&[1.0, 1.0]), &config).unwrap(), before);
    assert_eq!(
        client.calculate(&fixed_points(&[1.0]), &config),
        Err(CalculateError::WrongInputCount)
    );
    client.generate_calculator(&config);
    assert!(client.calculate(&fixed_points(&[1.0, 1.0]), &config).is_ok());
}

#[test]
fn activation_by_name() {
    let x = fixed_point(-2.0);
    assert_eq!(activate(ActivationFunction::Relu, x).parse(), 0);
    assert_eq!(
        activate(ActivationFunction::Sigmoid, x),
        sigmoid(x)
    );
    assert_eq!(floating(sigmoid(x)), 0.11920292);
}
