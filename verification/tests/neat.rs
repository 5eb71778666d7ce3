use profqu_neat::data_structures::PseudoFloat;
use profqu_neat::genome::NodeGene;
use profqu_neat::neat::evolution::mutate_all;
use profqu_neat::neat::{Config, EvolveError, Neat, Registry, Species};

fn units_of(value: f64) -> PseudoFloat {
    PseudoFloat::new((value * 1e9).round() as i64)
}

fn as_float(value: PseudoFloat) -> f32 {
    (value.parse() as f64 / 1e9) as f32
}

fn test_config() -> Config {
    let numbers: Vec<PseudoFloat> =
        [3.0, 2.0, 4.0, 0.3, 1.0, 0.01, 0.003, 0.002, 0.002, 0.0, 4.0, 0.2]
            .iter()
            .map(|value| units_of(*value))
            .collect();
    Config::from_vec(&numbers, "sigmoid").expect("a valid configuration")
}

#[test]
fn neat_test_new() {
    let neat = Neat::new(3, 3, 15, test_config());
    assert_eq!(neat.registry.node_count(), 7);

    assert_eq!(neat.registry.input_size(), 3);
    assert_eq!(neat.registry.output_size(), 3);
    assert_eq!(neat.population_size, 15);
}

#[test]
fn inputs() {
    let neat = Neat::new(3, 3, 200, test_config());

    let x = neat.get_node(1).unwrap().x;
    let y = neat.get_node(1).unwrap().y;
    assert_eq!(as_float(x), 0.1);
    assert_eq!(as_float(y), 0.25);

    let x = neat.get_node(2).unwrap().x;
    let y = neat.get_node(2).unwrap().y;
    assert_eq!(as_float(x), 0.1);
    assert_eq!(as_float(y), 0.5);

    let x = neat.get_node(3).unwrap().x;
    let y = neat.get_node(3).unwrap().y;
    assert_eq!(as_float(x), 0.1);
    assert_eq!(as_float(y), 0.75);
}

#[test]
fn outputs() {
    let neat = Neat::new(3, 3, 40, test_config());

    let x = neat.get_node(4).unwrap().x;
    let y = neat.get_node(4).unwrap().y;
    assert_eq!(as_float(x), 0.1);
    assert_eq!(as_float(y), 0.9);

    let x = neat.get_node(5).unwrap().x;
    let y = neat.get_node(5).unwrap().y;
    assert_eq!(as_float(x), 0.9);
    assert_eq!(as_float(y), 0.25);

    let x = neat.get_node(6).unwrap().x;
    let y = neat.get_node(6).unwrap().y;
    assert_eq!(as_float(x), 0.9);
    assert_eq!(as_float(y), 0.5);

    let x = neat.get_node(7).unwrap().x;
    let y = neat.get_node(7).unwrap().y;
    assert_eq!(as_float(x), 0.9);
    assert_eq!(as_float(y), 0.75);
}

#[test]
fn empty_genome() {
    let neat = Neat::new(3, 3, 100, test_config());

    let genome = neat.empty_genome();

    for index in 1..=neat.registry.node_count() {
        let node = neat.get_node(index).unwrap();
        assert!(genome.nodes.contains(&node));
    }
    assert_eq!(genome.nodes.len(), 7);
    assert_eq!(genome.connections.len(), 0);
}

#[test]
fn empty_genome_without_bias() {
    let mut config = test_config();
    config.bias = false;
    let neat = Neat::new(3, 3, 100, config);

    let genome = neat.empty_genome();

    assert_eq!(genome.nodes.len(), 6);
    assert_eq!(genome.connections.len(), 0);
}

#[test]
fn create_node() {
    let mut neat = Neat::new(4, 5, 25, test_config());

    let node = neat.create_node(units_of(0.0), units_of(1.0));

    assert_eq!(as_float(node.x), 0.0);
    assert_eq!(as_float(node.y), 1.0);
    assert_eq!(node.innovation_number, 11);

    let node = neat.create_node(units_of(0.5), units_of(3.4));

    assert_eq!(as_float(node.x), 0.5);
    assert_eq!(as_float(node.y), 3.4);
    assert_eq!(node.innovation_number, 12);
}

#[test]
fn get_connection() {
    let mut neat = Neat::new(3, 3, 100, test_config());

    for i in 0..10 {
        let node1 = NodeGene::new(i * 2);
        let node2 = NodeGene::new(1 + i * 2);

        let connection = neat.get_connection(node1, node2);
        let connection2 = neat.get_connection(node1, node2);

        let connection3 = neat.get_connection(node2, node1);

        // Test innovation numbers of same connections
        assert_eq!(connection.innovation_number, i * 2 + 1);
        assert_eq!(connection.innovation_number, connection2.innovation_number);

        // Test innovation numbers of different connections
        assert_eq!(connection3.innovation_number, i * 2 + 2);
        assert_ne!(connection.innovation_number, connection3.innovation_number);

        // Test equality of same and different connections
        assert_eq!(connection, connection2);
        assert_ne!(connection, connection3);
    }
}

#[test]
fn get_node_is_counted_from_one_and_never_creates() {
    let neat = Neat::new(2, 1, 1, test_config());

    assert!(neat.get_node(0).is_none());
    assert_eq!(neat.get_node(1).unwrap().innovation_number, 1);
    assert_eq!(neat.get_node(4).unwrap().innovation_number, 4);
    assert!(neat.get_node(5).is_none());
    assert_eq!(neat.registry.node_count(), 4);
    assert!(neat.registry.has_bias());
}

#[test]
fn replace_index_is_remembered_with_the_connection() {
    let mut registry = Registry::new(1, 1, false);
    let from = registry.get_node(1).unwrap();
    let to = registry.get_node(2).unwrap();

    assert_eq!(registry.get_replace_index(from, to), 0);
    let first = registry.get_connection(from, to);
    assert_eq!(first.replace_index, 0);
    assert_eq!(as_float(first.weight), 1.0);
    assert!(first.enabled);
    registry.set_replace_index(from, to, 3);
    assert_eq!(registry.get_replace_index(from, to), 3);
    assert_eq!(registry.get_replace_index(to, from), 0);
    let again = registry.get_connection(from, to);
    assert_eq!(again.innovation_number, first.innovation_number);
    assert_eq!(again.replace_index, 3);
    assert_eq!(registry.connection_count(), 1);
    assert!(registry.has_room(3));
}

#[test]
fn best_client_is_the_first_of_the_fittest() {
    let mut neat = Neat::new(1, 1, 4, test_config());
    for (index, fitness) in [1.0, 3.0, 3.0, -2.0].iter().enumerate() {
        neat.set_fitness(index, units_of(*fitness));
    }
    neat.iter_clients()[2].has_species = true;
    neat.iter_clients()[2].has_species = false;
    let best = neat.best_client().expect("No clients");
    assert_eq!(as_float(best.fitness), 3.0);
    assert!(std::ptr::eq(best, neat.get_client(1)));

    let empty = Neat::new(1, 1, 0, test_config());
    assert!(empty.best_client().is_none());
}

#[test]
fn reset_starts_over() {
    let mut neat = Neat::new(3, 3, 15, test_config());
    let genome = neat.empty_genome();
    assert_eq!(genome.nodes.len(), 7);

    neat.reset(3, 5, 4);

    let genome = neat.empty_genome();
    assert_eq!(genome.nodes.len(), 9);
    assert_eq!(neat.clients.len(), 4);
    assert_eq!(neat.species.len(), 0);
}

fn check_shared_out(neat: &Neat) {
    let mut seen = vec![0usize; neat.clients.len()];
    for species in &neat.species {
        assert!(!species.is_empty());
        for member in &species.clients {
            seen[*member] += 1;
        }
    }
    for (index, client) in neat.clients.iter().enumerate() {
        assert_eq!(seen[index], if client.has_species { 1 } else { 0 });
    }
}

#[test]
fn evolve_keeps_the_clients_shared_out() {
    let numbers: Vec<PseudoFloat> =
        [3.0, 2.0, 4.0, 0.3, 1.0, 0.3, 0.1, 0.3, 0.1, 0.02, 4.0, 0.2]
            .iter()
            .map(|value| units_of(*value))
            .collect();
    let config = Config::from_vec(&numbers, "sigmoid").expect("a valid configuration");
    let mut neat = Neat::new(10, 1, 60, config);

    let input: Vec<PseudoFloat> = vec![units_of(0.625); 10];

    let fitness_before = neat.calculate(0, &input).unwrap()[0];
    let mut connections = neat.registry.connection_count();

    for _iteration in 0..30 {
        for index in 0..neat.clients.len() {
            let fitness = neat.calculate(index, &input).unwrap()[0];
            neat.set_fitness(index, fitness);
        }

        assert_eq!(neat.evolve(), Ok(()));

        assert_eq!(neat.clients.len(), 60);
        assert!(neat.clients.iter().all(|client| client.has_species));
        check_shared_out(&neat);
        assert!(neat.registry.connection_count() >= connections);
        connections = neat.registry.connection_count();
    }

    for index in 0..neat.clients.len() {
        let fitness = neat.calculate(index, &input).unwrap()[0];
        neat.set_fitness(index, fitness);
    }
    let best = neat.best_client().expect("Failed to get client");

    assert!(best.fitness.parse() >= fitness_before.parse());
}

#[test]
fn evolve_fails_without_fitness() {
    let mut neat = Neat::new(2, 1, 5, test_config());

    // Every fitness is zero, so no species can be selected to breed.
    assert_eq!(neat.evolve(), Err(EvolveError::NoFitness));
    assert_eq!(neat.clients.len(), 5);
    check_shared_out(&neat);

    let mut lonely = Neat::new(2, 1, 1, test_config());
    lonely.set_fitness(0, units_of(1.0));
    // The only species has one member and goes.
    assert_eq!(lonely.evolve(), Err(EvolveError::NoSpecies));

    let mut negative = Neat::new(2, 1, 5, test_config());
    negative.config.kill_percentage = units_of(0.5);
    for index in 0..5 {
        negative.set_fitness(index, units_of(-1.0));
    }
    assert_eq!(negative.evolve(), Err(EvolveError::NegativeFitness));
}

#[test]
fn the_steps_of_a_generation() {
    let mut neat = Neat::new(2, 1, 10, test_config());
    neat.config.kill_percentage = units_of(0.5);
    for index in 0..10 {
        neat.set_fitness(index, units_of(index as f64 + 1.0));
    }

    neat.gen_species();
    // All genomes are the same, so one species has them all.
    assert_eq!(neat.species.len(), 1);
    assert_eq!(neat.species[0].len(), 10);
    assert!(neat.clients.iter().all(|client| client.has_species));

    neat.kill();
    assert_eq!(as_float(neat.species[0].average_fitness), 5.5);
    assert_eq!(neat.species[0].clients, vec![5, 6, 7, 8, 9]);
    for index in 0..10 {
        assert_eq!(neat.clients[index].has_species, index >= 5);
    }

    neat.remove_extinct_species();
    assert_eq!(neat.species.len(), 1);

    assert_eq!(neat.reproduce(), Ok(()));
    assert_eq!(neat.species[0].len(), 10);
    assert_eq!(&neat.species[0].clients[..5], &[5, 6, 7, 8, 9]);
    assert!(neat.clients.iter().all(|client| client.has_species));
    check_shared_out(&neat);

    neat.mutate();
    check_shared_out(&neat);
}

#[test]
fn species_of_one_go() {
    let mut neat = Neat::new(2, 1, 3, test_config());
    neat.species.push(Species::new(0));
    neat.clients[0].has_species = true;
    neat.species.push(Species::new(1));
    neat.clients[1].has_species = true;
    neat.species[1].force_put(&mut neat.clients, 2);
    check_shared_out(&neat);

    neat.remove_extinct_species();

    assert_eq!(neat.species.len(), 1);
    assert_eq!(neat.species[0].clients, vec![1, 2]);
    assert!(!neat.clients[0].has_species);
    check_shared_out(&neat);
}

#[test]
fn clients_join_the_first_species_that_is_close() {
    let mut neat = Neat::new(2, 1, 5, test_config());
    let mut far = neat.empty_genome();
    far.add_connection(&mut neat.registry, 0, 3);
    far.add_connection(&mut neat.registry, 1, 3);
    let mut further = far.clone();
    further.add_connection(&mut neat.registry, 2, 3);
    further.add_connection(&mut neat.registry, 0, 1);
    neat.clients[1].genome = far.clone();
    neat.clients[2].genome = further;
    neat.clients[4].genome = far;

    neat.gen_species();

    // 0 founds a species, 1 is two genes away and founds the next, 2 is
    // two genes away from 1 and four from 0, 3 joins 0, and 4 joins 1.
    let members: Vec<Vec<usize>> =
        neat.species.iter().map(|species| species.clients.clone()).collect();
    assert_eq!(members, vec![vec![0, 3], vec![1, 4], vec![2]]);
    let representatives: Vec<usize> =
        neat.species.iter().map(|species| species.representative).collect();
    assert_eq!(representatives, vec![0, 1, 2]);
    check_shared_out(&neat);

    // Started anew, every species keeps one of its members.
    neat.gen_species();
    assert_eq!(neat.species.len(), 3);
    assert!([0, 3].contains(&neat.species[0].representative));
    assert!([1, 4].contains(&neat.species[1].representative));
    assert_eq!(neat.species[2].clients, vec![2]);
    let mut all: Vec<usize> =
        neat.species.iter().flat_map(|species| species.clients.clone()).collect();
    all.sort();
    assert_eq!(all, vec![0, 1, 2, 3, 4]);
    check_shared_out(&neat);
}

#[test]
fn a_first_generation_without_culling_succeeds() {
    let mut config = test_config();
    config.kill_percentage = units_of(0.0);
    // No fitness is needed: every client stays in the one species.
    let mut neat = Neat::new(2, 1, 5, config);
    assert_eq!(neat.evolve(), Ok(()));
    assert!(neat.clients.iter().all(|client| client.has_species));
    assert_eq!(neat.species.len(), 1);
    assert_eq!(neat.species[0].clients, vec![0, 1, 2, 3, 4]);
    assert_eq!(neat.species[0].average_fitness.parse(), 0);

    // Without clients there is nothing to do.
    let mut nobody = Neat::new(2, 1, 0, config);
    assert_eq!(nobody.evolve(), Ok(()));
    assert!(nobody.species.is_empty());
}

#[test]
fn speciation_zeroes_the_mean_fitness() {
    let mut neat = Neat::new(2, 1, 6, test_config());
    for index in 0..6 {
        neat.set_fitness(index, units_of(2.0));
    }
    neat.gen_species();
    neat.kill();
    assert_eq!(as_float(neat.species[0].average_fitness), 2.0);
    neat.gen_species();
    assert!(neat.species.iter().all(|species| species.average_fitness.parse() == 0));
}

#[test]
fn reset_fixes_the_shape_of_the_networks() {
    let mut config = test_config();
    let mut neat = Neat::new(3, 3, 15, config);
    assert_eq!(
        (neat.registry.input_size(), neat.registry.output_size(), neat.registry.has_bias()),
        (3, 3, true)
    );
    neat.reset(3, 5, 4);
    assert_eq!(
        (neat.registry.input_size(), neat.registry.output_size(), neat.registry.has_bias()),
        (3, 5, true)
    );
    assert_eq!(neat.empty_genome().nodes.len(), 9);
    assert_eq!(neat.registry.connection_count(), 0);
    config.bias = false;
    let plain = Neat::new(3, 5, 4, config);
    assert!(!plain.registry.has_bias());
    assert_eq!(plain.empty_genome().nodes.len(), 8);
}

#[test]
fn mutation_reaches_every_client() {
    let mut config = test_config();
    config.prob_mutate_link = units_of(1.0);
    config.prob_mutate_node = units_of(0.0);
    config.prob_mutate_weight_shift = units_of(0.0);
    config.prob_mutate_weight_random = units_of(0.0);
    config.prob_mutate_toggle_link = units_of(1.0);
    let mut neat = Neat::new(2, 1, 6, config);

    // Every genome gets a link, which is then switched off.
    neat.mutate();
    for client in &neat.clients {
        assert_eq!(client.genome.connections.len(), 1);
        assert!(!client.genome.connections.data[0].enabled);
    }
    assert!(neat.registry.connection_count() >= 1);
    check_shared_out(&neat);

    // Without new links, every mutation switches the one connection.
    config.prob_mutate_link = units_of(0.0);
    mutate_all(&mut neat.clients, &mut neat.registry, &config);
    for client in &neat.clients {
        assert_eq!(client.genome.connections.len(), 1);
        assert!(client.genome.connections.data[0].enabled);
    }
    let known = neat.registry.connection_count();
    neat.clients[3].mutate(&mut neat.registry, &config);
    for (index, client) in neat.clients.iter().enumerate() {
        assert_eq!(client.genome.connections.data[0].enabled, index != 3);
    }
    assert_eq!(neat.registry.connection_count(), known);
}

#[test]
fn a_generation_of_fit_clients_is_completed() {
    let mut neat = Neat::new(2, 1, 10, test_config());
    neat.config.kill_percentage = units_of(0.5);
    for index in 0..10 {
        neat.set_fitness(index, units_of(index as f64 + 1.0));
    }

    assert_eq!(neat.evolve(), Ok(()));

    // The five fittest stay where they were, and the others join them.
    assert_eq!(neat.species.len(), 1);
    assert_eq!(&neat.species[0].clients[..5], &[5, 6, 7, 8, 9]);
    let members: usize = neat.species.iter().map(|species| species.len()).sum();
    assert_eq!(members, 10);
    assert!(neat.clients.iter().all(|client| client.has_species));
    check_shared_out(&neat);
    for index in 0..10 {
        assert_eq!(neat.clients[index].fitness, units_of(index as f64 + 1.0));
    }
}
