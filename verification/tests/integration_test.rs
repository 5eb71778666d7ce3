use profqu_neat::data_structures::PseudoFloat;
use profqu_neat::neat::{Config, Neat};

fn as_units(value: f64) -> PseudoFloat {
    PseudoFloat::new((value * 1e9).round() as i64)
}

fn run_config() -> Config {
    let numbers: Vec<PseudoFloat> =
        [1.0, 1.0, 1.0, 0.3, 1.0, 0.4, 0.2, 0.4, 0.2, 0.05, 4.0, 0.2]
            .iter()
            .map(|value| as_units(*value))
            .collect();
    Config::from_vec(&numbers, "sigmoid").expect("a valid configuration")
}

#[test]
fn max() {
    let inputs: Vec<PseudoFloat> = vec![as_units(rand::random::<f32>() as f64); 10];

    let mut neat = Neat::new(10, 1, 100, run_config());

    for _iteration in 0..100 {
        for client in neat.iter_clients().iter_mut() {
            let fitness =
                as_units(1.0).add(client.calculate(&inputs, &run_config()).unwrap()[0]);

            client.fitness = fitness;
        }

        neat.evolve().expect("every species has a positive mean fitness");
    }

    for species in &neat.species {
        println!("{species:?}");
    }
    let best = neat.best_client().expect("No clients");
    println!("Best: {:?}", best.fitness);
    assert_eq!(neat.clients.len(), 100);
    assert!(neat.clients.iter().all(|client| client.has_species));
}

#[test]
fn xor_scores_at_least_two_cases() {
    let inputs: Vec<Vec<f64>> =
        vec![vec![0.0, 0.0], vec![1.0, 0.0], vec![0.0, 1.0], vec![1.0, 1.0]];
    let outputs: Vec<f64> =
        inputs.iter().map(|input| (input[0] as i64 ^ input[1] as i64) as f64).collect();

    let mut neat = Neat::new(2, 1, 150, run_config());

    for _iteration in 0..30 {
        for index in 0..neat.clients.len() {
            let mut fitness = 0.0;

            for case in 0..inputs.len() {
                let values: Vec<PseudoFloat> =
                    inputs[case].iter().map(|value| as_units(*value)).collect();
                let result = neat.calculate(index, &values).unwrap()[0].parse() as f64 / 1e9;
                if (result >= 0.5 && outputs[case] == 1.0) || (result < 0.5 && outputs[case] == 0.0)
                {
                    if inputs[case][0] == 0.0 && inputs[case][1] == 0.0 {
                        fitness += 1.0;
                    } else {
                        fitness += 1.02;
                    }
                }
            }

            neat.set_fitness(index, as_units(fitness + 0.01));
        }

        neat.evolve().expect("every species has a positive mean fitness");
    }

    let best = neat.best_client().expect("No clients").clone();
    println!("Best: {:?}", best.fitness);

    // The best client of the last scoring answers at least two cases.
    assert!(best.fitness.parse() >= as_units(2.0).parse());
}
