use profqu_neat::data_structures::{PseudoFloat, RandomHashSet};
use profqu_neat::genome::{ConnectionGene, Gene, NodeGene};
use rand::Rng;

#[test]
fn random_hash_set_test_new() {
    let set = RandomHashSet::<NodeGene>::new();

    assert_eq!(set.data.len(), 0);
    assert_eq!(set.len(), 0);

    let set = RandomHashSet::<ConnectionGene>::new();

    assert_eq!(set.data.len(), 0);
    assert_eq!(set.len(), 0);
}

#[test]
fn add_remove() {
    let mut set = RandomHashSet::<NodeGene>::new();

    // ----- Add first node -----
    let node1 = NodeGene::new(0);

    set.add(node1);

    assert_eq!(set.data.len(), 1);
    assert_eq!(set.len(), 1);
    assert_eq!(set.len(), set.data.len());

    assert!(set.contains(&node1));

    // ----- Add second node -----
    let node2 = NodeGene::new(1);

    set.add(node2);

    assert_eq!(set.data.len(), 2);
    assert_eq!(set.len(), 2);
    assert_eq!(set.len(), set.data.len());

    assert!(set.contains(&node1));
    assert!(set.contains(&node2));

    // ----- Remove by index -----
    set.remove_index(0);

    assert_eq!(set.data.len(), 1);
    assert_eq!(set.len(), 1);
    assert_eq!(set.len(), set.data.len());

    assert!(!set.contains(&node1));
    assert!(set.contains(&node2));

    // Add the node back in
    set.add(node1);

    // ----- Remove by value -----
    set.remove_value(&node2);

    assert_eq!(set.data.len(), 1);
    assert_eq!(set.len(), 1);
    assert_eq!(set.len(), set.data.len());

    assert!(set.contains(&node1));
    assert!(!set.contains(&node2));

    // Add the node back in
    set.add(node2);

    // ----- Clear -----
    set.clear();

    assert_eq!(set.len(), 0);
}

#[test]
fn get() {
    let mut set = RandomHashSet::<NodeGene>::new();

    // ----- Add first node -----
    let node1 = NodeGene::new(0);
    set.add(node1);

    assert_eq!(set.get(0), Some(&node1));

    // ----- Add second node -----
    let node2 = NodeGene::new(1);
    set.add(node2);

    assert_eq!(set.get(0), Some(&node1));
    assert_eq!(set.get(1), Some(&node2));
}

#[test]
fn add_sorted() {
    let mut set = RandomHashSet::<NodeGene>::new();

    // ----- Add first node -----
    let node1 = NodeGene::new(3);
    set.add_sorted(node1);

    assert_eq!(set.get(0), Some(&node1));

    // ----- Add second node -----
    let node2 = NodeGene::new(1);
    set.add_sorted(node2);

    assert_eq!(set.get(0), Some(&node2));
    assert_eq!(set.get(1), Some(&node1));

    let node3 = NodeGene::new(2);
    set.add_sorted(node3);

    assert_eq!(set.get(0), Some(&node2));
    assert_eq!(set.get(1), Some(&node3));
    assert_eq!(set.get(2), Some(&node1));
}

#[test]
fn random_hash_set_test_random_element() {
    let mut set = RandomHashSet::<NodeGene>::new();

    // ----- Add first node -----
    let node1 = NodeGene::new(3);
    set.add(node1);

    // ----- Add second node -----
    let node2 = NodeGene::new(1);
    set.add(node2);

    let node3 = NodeGene::new(2);
    set.add(node3);

    let element = set.random_element().expect("No elements in set");
    // Use ^ (exclusive or) to test that only one has the same innovation number
    assert!(
        (element.innovation_number == node1.innovation_number)
            ^ (element.innovation_number == node2.innovation_number)
            ^ (element.innovation_number == node3.innovation_number)
    );
}

#[test]
fn add_ignores_an_equal_gene() {
    let mut set = RandomHashSet::<NodeGene>::new();
    let mut node = NodeGene::new(7);
    set.add(node);
    node.x = PseudoFloat::new(500_000_000);
    set.add(node);
    set.add_sorted(node);

    assert_eq!(set.len(), 1);
    assert_eq!(set.get(0).map(|gene| gene.x.parse()), Some(0));
}

#[test]
fn add_sorted_goes_behind_equal_numbers() {
    let from = NodeGene::new(1);
    let mut set = RandomHashSet::<ConnectionGene>::new();
    for (to, number) in [(2u32, 5u32), (3, 9), (4, 5), (5, 1), (6, 9)] {
        let mut gene = ConnectionGene::new(from, NodeGene::new(to));
        gene.set_innovation_number(number);
        set.add_sorted(gene);
    }
    let order: Vec<(u32, u32)> = set
        .data
        .iter()
        .map(|gene| (gene.get_innovation_number(), gene.to.innovation_number))
        .collect();

    assert_eq!(order, vec![(1, 5), (5, 2), (5, 4), (9, 3), (9, 6)]);
}

#[test]
fn remove_and_index_of() {
    let mut set = RandomHashSet::<NodeGene>::new();
    for number in [4u32, 8, 15, 16] {
        set.add(NodeGene::new(number));
    }

    assert_eq!(set.index_of(&NodeGene::new(15)), Some(2));
    assert_eq!(set.index_of(&NodeGene::new(23)), None);
    assert!(!set.remove_index(4));
    assert!(!set.remove_value(&NodeGene::new(23)));
    assert!(set.remove_value(&NodeGene::new(8)));
    assert_eq!(set.index_of(&NodeGene::new(15)), Some(1));
    assert_eq!(set.len(), 3);
    assert!(set.clone().contains(&NodeGene::new(16)));
    assert!(set.random_index().unwrap() < 3);
    assert!(RandomHashSet::<NodeGene>::new().random_element().is_none());
}

#[test]
fn replace_keeps_the_place() {
    let mut set = RandomHashSet::<NodeGene>::new();
    set.add(NodeGene::new(1));
    set.add(NodeGene::new(2));
    let mut moved = NodeGene::new(2);
    moved.y = PseudoFloat::new(42);
    set.replace(1, moved);

    assert_eq!(set.get(1).map(|gene| gene.y.parse()), Some(42));
    assert_eq!(set.find_place(1), 1);
    assert_eq!(set.find_place(0), 0);
    assert_eq!(set.find_place(9), 2);
}

#[test]
fn node_gene_test_hash() {
    let innov: u32 = rand::thread_rng().gen_range(0..100);

    let from = NodeGene::new(innov);
    let to = NodeGene::new(innov);

    let result_from = from.key();
    let result_to = to.key();

    assert_eq!(result_from, result_to);
}

#[test]
fn connection_gene_test_hash() {
    for _ in 0..10 {
        let from_innov: u32 = rand::thread_rng().gen_range(0..100);
        let to_innov: u32 = rand::thread_rng().gen_range(0..100);

        let from = NodeGene::new(from_innov);
        let to = NodeGene::new(to_innov);

        let connection = ConnectionGene::new(from, to);
        let result_connection = connection.key();

        let connection = ConnectionGene::new(from, to);
        let result_nodes = (connection.from.key() << 32) + connection.to.key();

        assert_eq!(result_connection, result_nodes);
        assert_eq!(connection.hash_code(), result_connection);
    }
}

#[test]
fn keys_tell_the_directions_apart() {
    let a = NodeGene::new(3);
    let b = NodeGene::new(4);

    assert_ne!(ConnectionGene::new(a, b).key(), ConnectionGene::new(b, a).key());
    assert_eq!(ConnectionGene::new(a, b).key(), 3 * 4_294_967_296 + 4);
}

#[test]
fn random_places_vary_and_stay_in_range() {
    let mut set = RandomHashSet::<NodeGene>::new();
    for number in 1..=3u32 {
        set.add(NodeGene::new(number));
    }
    let mut seen = [false; 3];
    for _ in 0..200 {
        let place = set.random_index().unwrap();
        assert!(place < 3);
        seen[place] = true;
        seen[profqu_neat::random::random_index(3)] = true;
    }
    assert!(seen.iter().filter(|hit| **hit).count() >= 2);
    assert_eq!(profqu_neat::random::random_index(1), 0);
}

#[test]
fn contains_goes_by_the_whole_gene() {
    let from = NodeGene::new(1);
    let to = NodeGene::new(2);
    let mut held = ConnectionGene::new(from, to);
    held.set_innovation_number(4);
    let mut set = RandomHashSet::<ConnectionGene>::new();
    set.add(held);
    let mut heavier = held;
    heavier.weight = PseudoFloat::new(2_000_000_000);
    let mut moved = held;
    moved.from.x = PseudoFloat::new(5);

    assert!(set.contains(&held));
    // The end points are compared as node genes, by their numbers.
    assert!(set.contains(&moved));
    assert!(!set.contains(&heavier));
    assert!(set.contains_key(&heavier));
    assert!(!set.contains(&ConnectionGene::new(to, from)));
    assert!(!set.contains_key(&ConnectionGene::new(to, from)));
    for probe in [held, moved, heavier] {
        let listed = (0..set.len()).any(|place| set.get(place) == Some(&probe));
        assert_eq!(set.contains(&probe), listed);
        assert_eq!(probe.is_same(&held), probe == held);
    }

    // Only an equal gene is taken out.
    assert!(!set.remove_value(&heavier));
    assert_eq!(set.len(), 1);
    assert!(set.remove_value(&moved));
    assert!(set.is_empty());
    assert!(!set.contains(&held));
    assert!(!set.contains_key(&held));
}

#[test]
fn add_takes_in_what_is_not_held() {
    let from = NodeGene::new(1);
    let to = NodeGene::new(2);
    let mut held = ConnectionGene::new(from, to);
    held.set_innovation_number(4);
    let mut heavier = held;
    heavier.weight = PseudoFloat::new(2_000_000_000);
    let mut off = held;
    off.enabled = false;
    let mut set = RandomHashSet::<ConnectionGene>::new();
    set.add(held);

    // A gene with the end points of another that differs from it is a gene of its own.
    assert!(!set.contains(&heavier));
    set.add(heavier);
    assert!(set.contains(&heavier));
    assert_eq!(set.len(), 2);
    assert_eq!(set.get(1), Some(&heavier));
    assert!(!set.contains(&off));
    set.add_sorted(off);
    assert!(set.contains(&off));
    assert_eq!(set.data, vec![held, heavier, off]);

    // Adding once more changes nothing.
    set.add(heavier);
    set.add_sorted(heavier);
    set.add(held);
    set.add_sorted(off);
    assert_eq!(set.data, vec![held, heavier, off]);

    // The key stays known as long as one gene has it.
    assert!(set.remove_value(&held));
    assert!(!set.contains(&held));
    assert!(set.contains(&heavier));
    assert!(set.contains_key(&held));
    assert_eq!(set.index_of(&held), Some(0));
    assert!(set.remove_index(0));
    assert!(set.contains_key(&held));
    assert!(set.remove_value(&off));
    assert!(!set.contains_key(&held));
    assert!(set.is_empty());
}
