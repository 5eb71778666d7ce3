use profqu_neat::data_structures::{PseudoFloat, RandomSelector, SelectError};
use profqu_neat::genome::NodeGene;
use rand::Rng;

fn score_of(value: f64) -> PseudoFloat {
    PseudoFloat::new((value * 1e9).round() as i64)
}

#[test]
fn random_selector_new() {
    let selector: RandomSelector<NodeGene> = RandomSelector::new();

    assert_eq!(selector.len(), 0);
    assert!(selector.is_empty());
}

#[test]
fn add() {
    let mut selector: RandomSelector<NodeGene> = RandomSelector::new();
    let node1 = NodeGene::new(42);

    for round in 0..10 {
        let score = score_of(rand::random::<f64>());
        selector.add(node1, score);

        assert_eq!(selector.len(), round + 1);
        let chosen = selector.random_element();
        assert!(matches!(chosen, Ok(item) if item.0 == node1) || score.parse() == 0);
    }
}

#[test]
fn total_score() {
    let mut total_score: i128 = 0;

    let mut selector: RandomSelector<NodeGene> = RandomSelector::new();

    for _ in 0..100 {
        let score = score_of(rand::thread_rng().gen_range(0.0..10.0));
        total_score += score.parse() as i128;
        selector.add(NodeGene::new(rand::random()), score);

        assert_eq!(selector.total_score(), total_score);
    }
}

#[test]
fn random_selector_random_element() {
    let mut selector: RandomSelector<NodeGene> = RandomSelector::new();
    let node1 = NodeGene::new(1);
    let node2 = NodeGene::new(5);

    selector.add(node1, score_of(1.0));
    selector.add(node2, score_of(5.0));

    let mut results = Vec::new();

    for _ in 0..100 {
        results.push(selector.random_element().unwrap());
    }

    // Check if the number of occurences of node1 is less than those of node2
    assert!(
        results.iter().filter(|element| element.0 == node1).count()
            < results.iter().filter(|element| element.0 == node2).count()
    );
}

#[test]
fn selection_fails_for_a_reason() {
    let mut selector: RandomSelector<u8> = RandomSelector::new();
    assert_eq!(selector.random_element(), Err(SelectError::NoItem));

    selector.add(1, score_of(0.0));
    selector.add(2, score_of(0.0));
    assert_eq!(selector.random_element(), Err(SelectError::AllWeightsZero));

    selector.add(3, score_of(2.0));
    for _ in 0..50 {
        assert_eq!(selector.random_element().map(|item| item.0), Ok(3));
    }

    selector.add(4, score_of(-0.5));
    assert_eq!(selector.random_element(), Err(SelectError::InvalidWeight));

    selector.clear();
    assert!(selector.is_empty());
    assert_eq!(selector.total_score(), 0);
    selector.add(5, PseudoFloat::new(i64::MAX));
    selector.add(6, PseudoFloat::new(i64::MAX));
    assert!(selector.random_element().is_ok());
    assert_eq!(selector.total_score(), 2 * (i64::MAX as i128));
}

#[test]
fn defaults_are_empty() {
    let selector: RandomSelector<u8> = RandomSelector::default();
    assert!(selector.is_empty());
    let set: profqu_neat::data_structures::RandomHashSet<NodeGene> = Default::default();
    assert!(set.is_empty());
    let genome = profqu_neat::genome::Genome::default();
    assert!(genome.nodes.is_empty() && genome.connections.is_empty());
}
