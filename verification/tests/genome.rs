use profqu_neat::data_structures::PseudoFloat;
use profqu_neat::genome::genome::blend_counts;
use profqu_neat::genome::mutation::happens;
use profqu_neat::genome::{ConnectionGene, Genome, NodeGene};
use profqu_neat::neat::{Config, Neat};

fn number(value: f64) -> PseudoFloat {
    PseudoFloat::new((value * 1e9).round() as i64)
}

fn float(value: PseudoFloat) -> f32 {
    (value.parse() as f64 / 1e9) as f32
}

/// Disjoint 3, excess 2, weight difference 4, and lively mutation.
fn lively_config(bias: bool) -> Config {
    let numbers: Vec<PseudoFloat> = [3.0, 2.0, 4.0, 0.3, 1.0, 0.6, 0.3, 1.0, 0.5, 0.2, 4.0, 0.2]
        .iter()
        .map(|value| number(*value))
        .collect();
    let mut config = Config::from_vec(&numbers, "sigmoid").expect("a valid configuration");
    config.bias = bias;
    config
}

const WEIGHT_SHIFT_STRENGTH: f32 = 0.3;

#[test]
fn distance() {
    let config = lively_config(true);
    let mut neat = Neat::new(2, 2, 3, config);

    let mut genome1 = neat.empty_genome();
    let mut genome2 = neat.empty_genome();

    // Test that the distances are all zero for empty genomes
    assert_eq!(float(Genome::distance(&genome1, &genome1, &config)), 0.0);
    assert_eq!(float(Genome::distance(&genome2, &genome2, &config)), 0.0);
    assert_eq!(float(Genome::distance(&genome1, &genome2, &config)), 0.0);

    // Create and add a new connection to genome1
    genome1.add_connection(&mut neat.registry, 0, 2);

    // Now test the distances again
    assert_eq!(float(Genome::distance(&genome1, &genome1, &config)), 0.0);
    assert_eq!(float(Genome::distance(&genome1, &genome2, &config)), 2.0);

    // Create and add a new connection to genome2 which is identical to genome1
    genome2.add_connection(&mut neat.registry, 0, 2);

    // Now test the distances again
    assert_eq!(float(Genome::distance(&genome2, &genome2, &config)), 0.0);
    assert_eq!(float(Genome::distance(&genome1, &genome2, &config)), 0.0);
}

#[test]
fn crossover() {
    let config = lively_config(true);
    let mut neat = Neat::new(2, 2, 3, config);

    let mut genome1 = neat.empty_genome();
    let mut genome2 = neat.empty_genome();

    // Crossover
    let baby = Genome::crossover(&neat.registry, &genome1, &genome2);

    // Test distance
    assert_eq!(float(Genome::distance(&genome1, &genome2, &config)), 0.0);
    assert_eq!(float(Genome::distance(&genome1, &baby, &config)), 0.0);

    // Add connection
    genome1.add_connection(&mut neat.registry, 0, 2);

    // Test distance with connection
    assert_eq!(float(Genome::distance(&genome1, &genome2, &config)), 2.0);
    assert_eq!(float(Genome::distance(&genome1, &baby, &config)), 2.0);

    // Create a new crossover
    let baby = Genome::crossover(&neat.registry, &genome1, &genome2);

    // Distances have shifted
    assert_eq!(float(Genome::distance(&genome1, &genome2, &config)), 2.0);
    assert_eq!(float(Genome::distance(&genome1, &baby, &config)), 0.0);

    // Add a connection to genome2
    genome2.add_connection(&mut neat.registry, 3, 2);

    assert_eq!(float(Genome::distance(&genome1, &genome2, &config)), 5.0);
    assert_eq!(float(Genome::distance(&genome2, &baby, &config)), 5.0);

    // Crossover again to get closer to both
    let baby = Genome::crossover(&neat.registry, &genome1, &genome2);

    // Now test the distance again
    assert_eq!(float(Genome::distance(&genome1, &genome2, &config)), 5.0);
    assert_eq!(float(Genome::distance(&genome1, &baby, &config)), 0.0);
    assert_eq!(float(Genome::distance(&genome2, &baby, &config)), 5.0);
}

#[test]
fn crossover2() {
    let config = lively_config(true);
    let mut neat = Neat::new(2, 2, 3, config);

    let mut genome1 = neat.empty_genome();
    let mut genome2 = neat.empty_genome();

    let mut baby = neat.empty_genome();

    let mut previous1: f32;
    let mut previous2: f32;

    for _ in 0..10 {
        for _ in 0..200 {
            genome1.mutate(&mut neat.registry, &config);
            genome2.mutate(&mut neat.registry, &config);
        }

        previous1 = float(Genome::distance(&genome1, &baby, &config));
        previous2 = float(Genome::distance(&genome2, &baby, &config));

        baby = Genome::crossover(&neat.registry, &genome1, &genome2);

        let current1 = float(Genome::distance(&genome1, &baby, &config));
        let current2 = float(Genome::distance(&genome2, &baby, &config));

        assert!(previous1 > current1);
        assert_ne!(previous2, current2);
    }
}

#[test]
fn mutate() {
    let config = lively_config(false);
    let mut neat = Neat::new(5, 4, 90, config);

    let mut genome1 = neat.empty_genome();
    let mut genome2 = genome1.clone();

    assert_eq!(float(Genome::distance(&genome1, &genome2, &config)), 0.0);

    for _ in 0..10 {
        genome1.mutate(&mut neat.registry, &config);
        genome2.mutate(&mut neat.registry, &config);
    }

    let mut previous1 = genome1.clone();
    let mut previous2 = genome2.clone();

    for _ in 0..100 {
        for _ in 0..10 {
            genome1.mutate(&mut neat.registry, &config);
            genome2.mutate(&mut neat.registry, &config);
        }

        assert_ne!(genome1, previous1);
        assert_ne!(genome2, previous2);

        assert_ne!(genome1, genome2);

        previous1 = genome1.clone();
        previous2 = genome2.clone();
    }
}

#[test]
fn mutate2() {
    let config = lively_config(false);
    let mut neat = Neat::new(5, 4, 90, config);

    let mut genome1 = neat.empty_genome();
    let mut genome2 = genome1.clone();

    assert_eq!(float(Genome::distance(&genome1, &genome2, &config)), 0.0);

    let mut previous = float(Genome::distance(&genome1, &genome2, &config));

    for _ in 0..5 {
        for _ in 0..100 {
            genome1.mutate(&mut neat.registry, &config);
            genome2.mutate(&mut neat.registry, &config);
        }

        let current = float(Genome::distance(&genome1, &genome2, &config));

        assert_ne!(current, previous);

        previous = current;
    }
}

#[test]
fn mutate_link() {
    let config = lively_config(false);
    let mut neat = Neat::new(5, 4, 90, config);

    let mut genome = neat.empty_genome();

    assert_eq!(genome.nodes.len(), 9);
    assert_eq!(genome.connections.len(), 0);

    genome.mutate_link(&mut neat.registry, &config);

    assert_eq!(genome.nodes.len(), 9);
    assert_eq!(genome.connections.len(), 1);

    genome.mutate_link(&mut neat.registry, &config);

    assert_eq!(genome.nodes.len(), 9);
    assert_eq!(genome.connections.len(), 2);

    genome.mutate_link(&mut neat.registry, &config);

    assert_eq!(genome.nodes.len(), 9);
    assert_eq!(genome.connections.len(), 3);
}

#[test]
fn mutate_node() {
    let config = lively_config(false);
    let mut neat = Neat::new(2, 3, 90, config);

    let mut genome = neat.empty_genome();

    assert_eq!(genome.nodes.len(), 5);
    assert_eq!(genome.connections.len(), 0);

    genome.mutate_link(&mut neat.registry, &config);

    assert_eq!(genome.nodes.len(), 5);
    assert_eq!(genome.connections.len(), 1);

    genome.mutate_node(&mut neat.registry);

    assert_eq!(genome.nodes.len(), 6);
    assert_eq!(genome.connections.len(), 2);

    genome.mutate_node(&mut neat.registry);

    assert_eq!(genome.nodes.len(), 7);
    assert_eq!(genome.connections.len(), 3);
}

#[test]
fn mutate_node_with_disabled_link() {
    let config = lively_config(false);
    let mut neat = Neat::new(2, 3, 90, config);

    let mut genome = neat.empty_genome();

    assert_eq!(genome.nodes.len(), 5);
    assert_eq!(genome.connections.len(), 0);

    let node1 = neat.create_node(number(0.1), number(0.5));
    let node2 = neat.create_node(number(0.9), number(0.5));

    let mut connection = neat.get_connection(node1, node2);
    connection.enabled = false;

    genome.connections.add(connection);

    assert_eq!(genome.nodes.len(), 5);
    assert_eq!(genome.connections.len(), 1);
    assert!(!genome.get_connection(0).enabled);

    genome.mutate_node(&mut neat.registry);

    assert_eq!(genome.nodes.len(), 6);
    assert_eq!(genome.connections.len(), 2);

    assert!(genome.get_connection(0).enabled);
    assert!(!genome.get_connection(1).enabled);

    genome.mutate_node(&mut neat.registry);

    assert_eq!(genome.nodes.len(), 7);
    assert_eq!(genome.connections.len(), 3);
}

#[test]
fn mutate_weight_shift() {
    let config = lively_config(false);
    let mut neat = Neat::new(2, 3, 90, config);

    let mut genome = neat.empty_genome();

    genome.add_connection(&mut neat.registry, 0, 2);
    assert_eq!(float(genome.get_connection(0).weight), 1.0);

    for _ in 0..10 {
        let weight = float(genome.get_connection(0).weight);
        genome.mutate_weight_shift(&config);
        let new_weight = float(genome.get_connection(0).weight);
        let difference = (new_weight - weight).abs();
        assert!((0.0..WEIGHT_SHIFT_STRENGTH).contains(&difference));
    }
}

#[test]
fn mutate_weight_random() {
    let config = lively_config(false);
    let mut neat = Neat::new(2, 3, 90, config);

    let mut genome = neat.empty_genome();

    genome.add_connection(&mut neat.registry, 0, 2);
    assert_eq!(float(genome.get_connection(0).weight), 1.0);

    let mut previous = float(genome.get_connection(0).weight);

    for _ in 0..10 {
        genome.mutate_weight_random(&config);

        let current = float(genome.get_connection(0).weight);
        assert_ne!(current, previous);
        previous = current;
    }
}

#[test]
fn mutate_link_toggle() {
    let config = lively_config(false);
    let mut neat = Neat::new(2, 3, 90, config);

    let mut genome = neat.empty_genome();

    genome.add_connection(&mut neat.registry, 0, 2);
    genome.add_connection(&mut neat.registry, 1, 2);

    let mut previous1 = genome.get_connection(0).enabled;
    let mut previous2 = genome.get_connection(1).enabled;

    for _ in 0..50 {
        genome.mutate_link_toggle();

        let current1 = genome.get_connection(0).enabled;
        let current2 = genome.get_connection(1).enabled;

        assert!(current1 != previous1 || current2 != previous2);

        previous1 = current1;
        previous2 = current2;
    }
}

fn gene(registry_number: u32, from: u32, to: u32, weight: f64) -> ConnectionGene {
    let mut gene = ConnectionGene::new(NodeGene::new(from), NodeGene::new(to));
    gene.innovation_number = registry_number;
    gene.weight = number(weight);
    gene
}

fn genome_of(genes: &[ConnectionGene]) -> Genome {
    let mut genome = Genome::new();
    for gene in genes {
        assert!(genome.insert_connection(*gene));
    }
    genome
}

#[test]
fn distance_counts_matching_disjoint_and_excess() {
    let config = lively_config(true);
    // Numbers 1, 2, 4, 7, 8 against 1, 3, 4: the first list goes first.
    let long = genome_of(&[
        gene(1, 1, 2, 0.5),
        gene(2, 1, 3, 1.0),
        gene(4, 1, 4, -1.0),
        gene(7, 1, 5, 1.0),
        gene(8, 1, 6, 1.0),
    ]);
    let short = genome_of(&[gene(1, 1, 2, 1.0), gene(3, 2, 3, 1.0), gene(4, 1, 4, 0.25)]);

    let counts = Genome::walk(&long, &short);
    assert_eq!(counts.0, 2);
    assert_eq!(counts.1, 2);
    assert_eq!(counts.2, 500_000_000 + 1_250_000_000);
    assert_eq!(counts.3, 3);

    // 3 * 2 / 1 + 2 * 2 / 1 + 4 * (1.75 / 2)
    let expected = 6.0 + 4.0 + 3.5;
    assert_eq!(float(Genome::distance(&long, &short, &config)), expected);
    assert_eq!(float(Genome::distance(&short, &long, &config)), expected);
}

#[test]
fn distance_divides_by_the_longer_length_from_twenty_on() {
    let config = lively_config(true);
    let mut genes = Vec::new();
    for index in 0..20u32 {
        genes.push(gene(index + 1, 1, index + 2, 1.0));
    }
    let long = genome_of(&genes);
    let empty = Genome::new();
    let nineteen = genome_of(&genes[..19]);

    // Twenty excess genes over twenty genes.
    assert_eq!(float(Genome::distance(&long, &empty, &config)), 2.0);
    // Nineteen excess genes, not divided.
    assert_eq!(float(Genome::distance(&nineteen, &empty, &config)), 38.0);
    // One excess gene over twenty genes: 2 * 1 / 20.
    assert_eq!(Genome::distance(&long, &nineteen, &config).parse(), 100_000_000);
    assert_eq!(Genome::distance(&nineteen, &long, &config).parse(), 100_000_000);
}

#[test]
fn distance_is_symmetric_on_mutated_genomes() {
    let config = lively_config(true);
    let mut neat = Neat::new(3, 2, 1, config);
    let mut genome1 = neat.empty_genome();
    let mut genome2 = neat.empty_genome();
    for _ in 0..40 {
        for _ in 0..5 {
            genome1.mutate(&mut neat.registry, &config);
            genome2.mutate(&mut neat.registry, &config);
        }
        assert_eq!(
            Genome::distance(&genome1, &genome2, &config),
            Genome::distance(&genome2, &genome1, &config)
        );
        assert_eq!(Genome::distance(&genome1, &genome1, &config).parse(), 0);
        assert_eq!(Genome::distance(&genome2, &genome2, &config).parse(), 0);
    }
}

#[test]
fn crossover_of_a_genome_with_itself_gives_it_back() {
    let config = lively_config(true);
    let mut neat = Neat::new(3, 2, 1, config);
    let mut genome = neat.empty_genome();
    for _ in 0..60 {
        genome.mutate(&mut neat.registry, &config);
    }
    for _ in 0..5 {
        let baby = Genome::crossover(&neat.registry, &genome, &genome);
        assert_eq!(baby.connections.data, genome.connections.data);
        assert_eq!(baby.nodes.len(), genome.nodes.len());
        for node in &genome.nodes.data {
            assert!(baby.nodes.contains(node));
        }
    }
}

#[test]
fn crossover_takes_the_picked_parent_for_matching_genes() {
    let config = lively_config(true);
    let neat = Neat::new(1, 1, 1, config);
    let fitter = genome_of(&[gene(1, 1, 3, 0.5), gene(2, 2, 3, 0.5), gene(5, 1, 2, 0.5)]);
    let other = genome_of(&[gene(1, 1, 3, -1.0), gene(3, 3, 4, -1.0), gene(5, 1, 2, -1.0)]);

    let baby = Genome::crossover_with(&neat.registry, &fitter, &other, &vec![false, true, true]);
    let weights: Vec<(u32, f32)> = baby
        .connections
        .data
        .iter()
        .map(|gene| (gene.innovation_number, float(gene.weight)))
        .collect();
    assert_eq!(weights, vec![(1, -1.0), (2, 0.5), (5, 0.5)]);

    let baby = Genome::crossover_with(&neat.registry, &fitter, &other, &vec![true, true, false]);
    let weights: Vec<(u32, f32)> = baby
        .connections
        .data
        .iter()
        .map(|gene| (gene.innovation_number, float(gene.weight)))
        .collect();
    assert_eq!(weights, vec![(1, 0.5), (2, 0.5), (5, -1.0)]);

    // The nodes every network has, then the end points in order.
    let nodes: Vec<u32> = baby.nodes.data.iter().map(|node| node.innovation_number).collect();
    assert_eq!(nodes, vec![1, 2, 3]);
}

#[test]
fn split_connection_reuses_the_node_of_the_first_split() {
    let config = lively_config(false);
    let mut neat = Neat::new(1, 1, 1, config);
    let mut genome1 = neat.empty_genome();
    let mut genome2 = neat.empty_genome();
    genome1.add_connection(&mut neat.registry, 0, 1);
    genome2.add_connection(&mut neat.registry, 0, 1);
    let weight = number(-0.75);
    genome2.set_weight(0, weight);
    genome2.toggle_link(0);

    genome1.split_connection(&mut neat.registry, 0, number(0.01));
    genome2.split_connection(&mut neat.registry, 0, number(-0.02));

    assert_eq!(neat.registry.node_count(), 3);
    assert_eq!(neat.registry.connection_count(), 3);
    assert_eq!(genome1.nodes.len(), 3);
    assert_eq!(genome2.nodes.len(), 3);
    assert_eq!(genome1.nodes.get(2).unwrap().innovation_number, 3);
    assert_eq!(genome2.nodes.get(2).unwrap().innovation_number, 3);
    // The new node lies in the middle, moved by the jitter of the first split.
    assert_eq!(float(genome1.nodes.get(2).unwrap().x), 0.5);
    assert_eq!(genome1.nodes.get(2).unwrap().y.parse(), 510_000_000);
    assert_eq!(genome2.nodes.get(2).unwrap().y.parse(), 510_000_000);

    let numbers: Vec<u32> = genome2.connections.data.iter().map(|gene| gene.innovation_number).collect();
    assert_eq!(numbers, vec![2, 3]);
    let front = genome2.get_connection(0);
    let back = genome2.get_connection(1);
    assert_eq!((front.from.innovation_number, front.to.innovation_number), (1, 3));
    assert_eq!((back.from.innovation_number, back.to.innovation_number), (3, 2));
    assert_eq!(float(front.weight), 1.0);
    assert!(front.enabled);
    assert_eq!(back.weight, weight);
    assert!(!back.enabled);
    assert_eq!(float(Genome::distance(&genome1, &genome2, &config)), 4.0 * (1.75 / 2.0));
}

#[test]
fn links_run_towards_larger_x_and_are_never_doubled() {
    let config = lively_config(true);
    let mut neat = Neat::new(2, 2, 1, config);
    let mut genome = neat.empty_genome();
    for _ in 0..200 {
        genome.mutate_link(&mut neat.registry, &config);
        genome.mutate_node(&mut neat.registry);
    }
    let mut pairs = std::collections::HashSet::new();
    let mut numbers = Vec::new();
    for gene in &genome.connections.data {
        assert!(gene.from.x.parse() < gene.to.x.parse());
        assert!(pairs.insert((gene.from.innovation_number, gene.to.innovation_number)));
        numbers.push(gene.innovation_number);
    }
    let mut sorted = numbers.clone();
    sorted.sort();
    sorted.dedup();
    assert_eq!(numbers, sorted);
    assert!(genome.link_candidate(0, 1).is_none());
    assert_eq!(genome.highest_innov_num(), *numbers.last().unwrap());
}

#[test]
fn weights_change_by_the_given_amounts() {
    let config = lively_config(false);
    let mut neat = Neat::new(1, 1, 1, config);
    let mut genome = neat.empty_genome();
    genome.add_connection(&mut neat.registry, 0, 1);

    genome.shift_weight(0, number(0.25));
    assert_eq!(float(genome.get_connection(0).weight), 1.25);
    genome.shift_weight(0, PseudoFloat::new(i64::MAX));
    assert_eq!(genome.get_connection(0).weight.parse(), i64::MAX);
    genome.set_weight(0, number(-2.0));
    assert_eq!(float(genome.get_connection(0).weight), -2.0);
    genome.toggle_link(0);
    assert!(!genome.get_connection(0).enabled);

    let mut zero = config;
    zero.prob_mutate_link = number(0.0);
    zero.prob_mutate_node = number(0.0);
    zero.prob_mutate_weight_shift = number(0.0);
    zero.prob_mutate_weight_random = number(0.0);
    zero.prob_mutate_toggle_link = number(0.0);
    let before = genome.clone();
    for _ in 0..50 {
        genome.mutate(&mut neat.registry, &zero);
    }
    assert_eq!(genome, before);

    let mut empty = neat.empty_genome();
    empty.mutate_node(&mut neat.registry);
    empty.mutate_weight_shift(&config);
    empty.mutate_weight_random(&config);
    empty.mutate_link_toggle();
    assert_eq!(empty, neat.empty_genome());
}

#[test]
fn chances_of_nothing_and_of_all() {
    for _ in 0..100 {
        assert!(!happens(number(0.0)));
        assert!(!happens(number(-1.0)));
        assert!(happens(number(1.0)));
        assert!(happens(number(2.5)));
    }
    let hits = (0..2000).filter(|_| happens(number(0.5))).count();
    assert!(hits > 700 && hits < 1300);
}

#[test]
fn drawn_weights_stay_within_the_strength() {
    let mut config = lively_config(false);
    config.weight_shift_strength = number(0.0625);
    config.weight_random_strength = number(0.125);
    let mut neat = Neat::new(3, 3, 1, config);
    let mut genome = neat.empty_genome();
    let mut different = std::collections::HashSet::new();
    for _ in 0..9 {
        genome.mutate_link(&mut neat.registry, &config);
    }
    assert_eq!(genome.connections.len(), 9);
    // A new link has a weight within the weight shift strength.
    for gene in &genome.connections.data {
        assert!(gene.weight.parse().abs() <= 62_500_000);
        assert!(gene.from.x.parse() < gene.to.x.parse());
        different.insert(gene.weight.parse());
    }
    assert!(different.len() > 1);
    for _ in 0..40 {
        genome.mutate_weight_random(&config);
    }
    for gene in &genome.connections.data {
        assert!(gene.weight.parse().abs() <= 125_000_000);
        different.insert(gene.weight.parse());
    }
    assert!(different.len() > 1);
    // Every pair of an input and an output is linked: nothing is left to add.
    genome.mutate_link(&mut neat.registry, &config);
    assert_eq!(genome.connections.len(), 9);
    assert_eq!(neat.registry.connection_count(), 9);
}

#[test]
fn add_link_takes_the_number_of_the_registry() {
    let config = lively_config(false);
    let mut neat = Neat::new(2, 1, 1, config);
    let mut first = neat.empty_genome();
    let mut second = neat.empty_genome();
    let input = *first.nodes.get(1).unwrap();
    let output = *first.nodes.get(2).unwrap();

    assert_eq!(first.link_candidate(2, 1), Some((input, output)));
    assert_eq!(first.link_candidate(1, 2), Some((input, output)));
    assert_eq!(first.link_candidate(0, 1), None);
    first.add_link(&mut neat.registry, input, output, number(0.25));
    second.add_link(&mut neat.registry, *second.nodes.get(0).unwrap(), output, number(0.5));
    second.add_link(&mut neat.registry, input, output, number(-0.25));
    second.add_link(&mut neat.registry, input, output, number(0.75));

    assert_eq!(first.link_candidate(2, 1), None);
    assert_eq!(first.connections.len(), 1);
    assert_eq!(first.get_connection(0).innovation_number, 1);
    let genes: Vec<(u32, f32)> = second
        .connections
        .data
        .iter()
        .map(|gene| (gene.innovation_number, float(gene.weight)))
        .collect();
    // The link of the first genome goes before the link made later.
    assert_eq!(genes, vec![(1, -0.25), (2, 0.5)]);
    assert_eq!(neat.registry.connection_count(), 2);
}

#[test]
fn counts_blend_into_a_distance() {
    let config = lively_config(true);
    // 3 * 7 / 25 + 2 * 4 / 25 + 4 * (10 / 3), every quotient rounded down.
    let distance = blend_counts(&config, 3, 7, 10_000_000_000, 4, 25);
    assert_eq!(distance.parse(), 840_000_000 + 320_000_000 + 13_333_333_332);
    let mut negative = config;
    negative.mult_disjoint = number(-1.0);
    negative.mult_excess = number(0.0);
    negative.mult_weight_diff = number(0.0);
    // Rounded towards zero.
    let distance = blend_counts(&negative, 0, 1, 0, 0, 3);
    assert_eq!(distance.parse(), -333_333_333);
}

#[test]
fn repeated_splits_add_one_node_and_one_connection_each() {
    let config = lively_config(true);
    let mut neat = Neat::new(2, 2, 1, config);
    let mut genome = neat.empty_genome();
    genome.add_connection(&mut neat.registry, 0, 3);
    for round in 0..25 {
        let nodes = genome.nodes.len();
        let connections = genome.connections.len();
        // The last connection was made by the split before and is split for the first time.
        genome.split_connection(&mut neat.registry, connections - 1, number(0.0));
        assert_eq!(genome.nodes.len(), nodes + 1);
        assert_eq!(genome.connections.len(), connections + 1);
        assert_eq!(neat.registry.node_count(), 5 + round + 1);
    }
}

#[test]
fn a_split_by_a_node_the_genome_has_adds_nothing() {
    let config = lively_config(false);
    let mut neat = Neat::new(1, 1, 1, config);
    let mut genome = neat.empty_genome();
    let input = *genome.nodes.get(0).unwrap();
    let output = *genome.nodes.get(1).unwrap();
    genome.add_connection(&mut neat.registry, 0, 1);
    genome.split_connection(&mut neat.registry, 0, number(0.0));
    assert_eq!((genome.nodes.len(), genome.connections.len()), (3, 2));

    // The split pair is linked again and split again: its two halves are there already.
    genome.add_link(&mut neat.registry, input, output, number(0.5));
    assert_eq!(genome.connections.len(), 3);
    assert_eq!(genome.get_connection(0).innovation_number, 1);
    genome.split_connection(&mut neat.registry, 0, number(0.0));
    assert_eq!((genome.nodes.len(), genome.connections.len()), (3, 2));
    assert_eq!(neat.registry.node_count(), 3);
}

#[test]
fn a_chance_of_one_always_fires() {
    let mut config = lively_config(false);
    config.prob_mutate_link = number(0.0);
    config.prob_mutate_node = number(1.0);
    config.prob_mutate_weight_shift = number(0.0);
    config.prob_mutate_weight_random = number(0.0);
    config.prob_mutate_toggle_link = number(1.0);
    let mut neat = Neat::new(1, 1, 1, config);
    let mut genome = neat.empty_genome();
    genome.add_connection(&mut neat.registry, 0, 1);
    for round in 0..20 {
        let switched: usize = genome.connections.data.iter().filter(|gene| !gene.enabled).count();
        genome.mutate(&mut neat.registry, &config);
        // One split, which keeps the switches, and then one switch.
        assert_eq!(genome.nodes.len(), 3 + round);
        assert_eq!(genome.connections.len(), 2 + round);
        let now: usize = genome.connections.data.iter().filter(|gene| !gene.enabled).count();
        assert!(now == switched + 1 || now + 1 == switched);
        for gene in &genome.connections.data {
            assert_eq!(gene.weight.parse(), 1_000_000_000);
        }
    }
}

#[test]
fn a_connection_without_room_for_a_node_is_not_split() {
    let config = lively_config(false);
    let mut neat = Neat::new(1, 1, 1, config);
    let mut genome = neat.empty_genome();
    let start = neat.create_node(PseudoFloat::new(500_000_000), number(0.5));
    let next = neat.create_node(PseudoFloat::new(500_000_001), number(0.5));
    let beyond = neat.create_node(PseudoFloat::new(500_000_002), number(0.5));
    for node in [start, next, beyond] {
        genome.nodes.add(node);
    }
    genome.add_link(&mut neat.registry, start, next, number(1.0));
    genome.add_link(&mut neat.registry, start, beyond, number(1.0));
    let before = genome.clone();
    let nodes = neat.registry.node_count();
    let connections = neat.registry.connection_count();

    // One unit apart: no node fits between.
    genome.split_connection(&mut neat.registry, 0, number(0.0));
    assert_eq!(genome, before);
    assert_eq!(neat.registry.node_count(), nodes);
    assert_eq!(neat.registry.connection_count(), connections);

    // Two units apart: the node in the middle lies strictly between.
    genome.split_connection(&mut neat.registry, 1, number(0.0));
    assert_eq!(genome.nodes.len(), 6);
    assert_eq!(genome.nodes.get(5).unwrap().x.parse(), 500_000_001);
    assert_eq!(genome.connections.len(), 3);
    for gene in &genome.connections.data {
        assert!(gene.from.x.parse() < gene.to.x.parse());
    }
}

#[test]
fn connections_keep_running_towards_larger_x() {
    let config = lively_config(true);
    let mut neat = Neat::new(3, 2, 1, config);
    let mut genome1 = neat.empty_genome();
    let mut genome2 = neat.empty_genome();
    for _ in 0..30 {
        for _ in 0..20 {
            genome1.mutate(&mut neat.registry, &config);
            genome2.mutate(&mut neat.registry, &config);
        }
        let baby = Genome::crossover(&neat.registry, &genome1, &genome2);
        for genome in [&genome1, &genome2, &baby] {
            for gene in &genome.connections.data {
                assert!(gene.from.x.parse() < gene.to.x.parse());
                assert!(genome.nodes.contains(&gene.from) && genome.nodes.contains(&gene.to));
            }
        }
    }
}
