use profqu_neat::data_structures::PseudoFloat;
use profqu_neat::genome::Genome;
use profqu_neat::neat::{Client, Config, Neat, Species};

fn fixed(value: f64) -> PseudoFloat {
    PseudoFloat::new((value * 1e9).round() as i64)
}

fn to_float(value: PseudoFloat) -> f32 {
    (value.parse() as f64 / 1e9) as f32
}

fn busy_config() -> Config {
    let numbers: Vec<PseudoFloat> = [3.0, 2.0, 4.0, 0.3, 1.0, 0.3, 0.1, 0.3, 0.1, 0.05, 4.0, 0.2]
        .iter()
        .map(|value| fixed(*value))
        .collect();
    Config::from_vec(&numbers, "sigmoid").expect("a valid configuration")
}

#[test]
fn species_new() {
    let config = busy_config();
    let mut neat = Neat::new(3, 3, 100, config);

    let mut genome = neat.empty_genome();

    for _ in 0..100 {
        genome.mutate(&mut neat.registry, &config);
    }

    let population = vec![Client::new(genome)];

    let species = Species::new(0);

    assert_eq!(species.len(), 1);
    assert!(!species.is_empty());
    assert_eq!(population.len(), 1);
}

#[test]
fn put() {
    let config = busy_config();
    let mut neat = Neat::new(3, 3, 100, config);

    let mut genome1 = neat.empty_genome();
    let mut genome2 = neat.empty_genome();

    for _ in 0..5000 {
        genome1.mutate(&mut neat.registry, &config);
        genome2.mutate(&mut neat.registry, &config);
    }

    let mut population = vec![Client::new(genome1), Client::new(genome2)];

    let mut species = Species::new(0);

    assert_eq!(species.len(), 1);
    assert!(!species.is_empty());

    assert!(!species.put(&mut population, 1, &config));

    assert_eq!(species.len(), 1);

    species.force_put(&mut population, 1);

    assert_eq!(species.len(), 2);
}

#[test]
fn go_extinct() {
    let config = busy_config();
    let mut neat = Neat::new(3, 3, 100, config);

    let mut genome1 = neat.empty_genome();
    let mut genome2 = neat.empty_genome();

    for _ in 0..100 {
        genome1.mutate(&mut neat.registry, &config);
        genome2.mutate(&mut neat.registry, &config);
    }

    let mut rep = Client::new(genome1);
    rep.fitness = fixed(10.0);
    let mut population = vec![rep];

    let mut species = Species::new(0);

    for _ in 0..10 {
        let mut genome = neat.empty_genome();
        for _ in 0..100 {
            genome.mutate(&mut neat.registry, &config);
        }

        population.push(Client::new(genome));
        let place = population.len() - 1;

        species.force_put(&mut population, place);
    }

    assert_eq!(species.len(), 11);

    species.go_extinct(&mut population);
    assert_eq!(species.len(), 11);
    assert!(population.iter().all(|client| !client.has_species));
}

fn population_of(fitness: &[f64]) -> (Vec<Client>, Species) {
    let mut population = Vec::new();
    let mut species = Species::new(0);
    for (index, value) in fitness.iter().enumerate() {
        let mut client = Client::new(Genome::new());
        client.fitness = fixed(*value);
        population.push(client);
        if index == 0 {
            population[0].has_species = true;
        } else {
            species.force_put(&mut population, index);
        }
    }
    (population, species)
}

#[test]
fn kill_removes_the_five_lowest_of_ten() {
    let (mut population, mut species) =
        population_of(&[4.0, 9.0, 1.0, 7.0, 3.0, 10.0, 2.0, 8.0, 6.0, 5.0]);
    species.evaluate_fitness(&population);
    assert_eq!(to_float(species.average_fitness), 5.5);

    species.kill(&mut population, fixed(0.5));

    // The members that stay, in growing order of fitness.
    assert_eq!(species.clients, vec![8, 3, 7, 1, 5]);
    for (index, client) in population.iter().enumerate() {
        assert_eq!(client.has_species, [8, 3, 7, 1, 5].contains(&index));
    }
    assert_eq!(species.representative, 0);
}

#[test]
fn kill_rounds_down_and_stays_in_range() {
    let (mut population, mut species) = population_of(&[1.0, 1.0, 0.0, 1.0]);
    species.kill(&mut population, fixed(0.49));
    // One of four goes; equal members keep their order.
    assert_eq!(species.clients, vec![0, 1, 3]);

    species.kill(&mut population, fixed(-3.0));
    assert_eq!(species.clients, vec![0, 1, 3]);

    species.kill(&mut population, fixed(7.5));
    assert!(species.is_empty());
    assert!(population.iter().all(|client| !client.has_species));
    species.evaluate_fitness(&population);
    assert_eq!(species.average_fitness.parse(), 0);
}

#[test]
fn mean_fitness_rounds_towards_zero() {
    let (population, mut species) = population_of(&[1.0, 1.0, 0.0]);
    species.evaluate_fitness(&population);
    assert_eq!(species.average_fitness.parse(), 666_666_666);

    let (population, mut species) = population_of(&[-1.0, -1.0, 0.0]);
    species.evaluate_fitness(&population);
    assert_eq!(species.average_fitness.parse(), -666_666_666);
}

#[test]
fn reset_keeps_one_member() {
    let (mut population, mut species) = population_of(&[1.0, 2.0, 3.0, 4.0]);
    species.average_fitness = fixed(2.5);

    species.reset_to(&mut population, 2);

    assert_eq!(species.representative, 2);
    assert_eq!(species.clients, vec![2]);
    assert_eq!(species.average_fitness.parse(), 0);
    for (index, client) in population.iter().enumerate() {
        assert_eq!(client.has_species, index == 2);
    }

    let (mut population, mut species) = population_of(&[1.0, 2.0, 3.0, 4.0]);
    species.reset(&mut population);
    assert_eq!(species.clients, vec![species.representative]);
    assert_eq!(population.iter().filter(|client| client.has_species).count(), 1);
    assert!(population[species.representative].has_species);
}

#[test]
fn put_compares_with_the_representative() {
    let mut config = busy_config();
    let mut neat = Neat::new(2, 1, 1, config);
    let near = neat.empty_genome();
    let mut far = neat.empty_genome();
    far.add_connection(&mut neat.registry, 0, 3);
    far.add_connection(&mut neat.registry, 1, 3);
    let mut population =
        vec![Client::new(neat.empty_genome()), Client::new(near), Client::new(far)];
    let mut species = Species::new(0);

    // Two excess genes: a distance of four, which is not below four.
    assert!(!species.put(&mut population, 2, &config));
    assert!(!population[2].has_species);
    assert!(species.put(&mut population, 1, &config));
    assert!(population[1].has_species);
    assert_eq!(species.clients, vec![0, 1]);
    assert_eq!(to_float(population[2].distance(&population[0], &config)), 4.0);

    config.species_threshold = fixed(4.000000001);
    assert!(species.put(&mut population, 2, &config));
    assert_eq!(species.clients, vec![0, 1, 2]);
}

#[test]
fn breed_puts_the_fitter_parent_first() {
    let config = busy_config();
    let mut neat = Neat::new(2, 1, 1, config);
    let mut rich = neat.empty_genome();
    rich.add_connection(&mut neat.registry, 0, 3);
    rich.add_connection(&mut neat.registry, 1, 3);
    let poor = neat.empty_genome();
    let mut population = vec![Client::new(rich), Client::new(poor)];
    population[0].fitness = fixed(2.0);
    population[1].fitness = fixed(1.0);
    let mut species = Species::new(0);
    species.force_put(&mut population, 1);
    let picks = vec![true, true];

    let child = species.breed_with(&population, &neat.registry, 1, 0, &picks);
    assert_eq!(child.connections.len(), 2);
    let child = species.breed_with(&population, &neat.registry, 0, 1, &picks);
    assert_eq!(child.connections.len(), 2);

    population[1].fitness = fixed(2.0);
    // Equally fit: the second one is the fitter parent.
    let child = species.breed_with(&population, &neat.registry, 1, 0, &picks);
    assert_eq!(child.connections.len(), 2);
    let child = species.breed_with(&population, &neat.registry, 0, 1, &picks);
    assert_eq!(child.connections.len(), 0);

    let child = species.breed(&population, &neat.registry);
    assert_eq!(child.nodes.len(), 4);
}
