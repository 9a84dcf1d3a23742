use consistent_hash::{ConsistentHash, LoadFactor, Node, RingError};

fn nodes_fixture(n: usize) -> Vec<Node> {
    let mut test_nodes: Vec<Node> = Vec::<Node>::new();
    for i in 0..n {
        test_nodes.push(Node::new(format!("test_node_{}", i)));
    }
    return test_nodes;
}

fn factor(load_factor: f64) -> LoadFactor {
    LoadFactor::new((load_factor * 1000.0).round() as u64, 1000).unwrap()
}

fn setup(nodes: Vec<Node>, replica_count: u32, load_factor: f64) -> ConsistentHash {
    let mut ch: ConsistentHash = ConsistentHash::with_load_factor(factor(load_factor));

    for node in nodes.iter() {
        ch.add_node(&node, replica_count);
    }
    ch
}

#[test]
fn add_nodes() {
    let nodes_count = 5;
    let test_nodes = nodes_fixture(nodes_count);
    let ch = setup(test_nodes, 3, 1.0);

    let ch_size = ch.size();
    assert!(ch_size == nodes_count * 3, "count mismatch. expected: {}, actual: {}", nodes_count * 3, ch_size);
}

#[test]
fn remove_nodes() {
    let nodes_count = 7;
    let test_nodes = nodes_fixture(nodes_count);
    let mut ch = setup(test_nodes, 5, 1.0);

    let mut ch_size = ch.size();
    assert!(ch_size == nodes_count * 5, "count mismatch after add_node. expected: {}, actual: {}", nodes_count * 3, ch_size);

    ch.remove_node("non_existant".to_string());
    ch_size = ch.size();
    assert!(ch_size == nodes_count * 5, "count mismatch after remove_node on non_existant. expected: {}, actual: {}", nodes_count * 5, ch_size);

    ch.remove_node("test_node_3".to_string());
    ch_size = ch.size();
    assert!(ch_size == (nodes_count - 1) * 5, "count mismatch after remove_node. expected: {}, actual: {}", (nodes_count - 1) * 5, ch_size);
}

#[test]
fn get_nodes() {
    let nodes_count = 7;
    let test_nodes = nodes_fixture(nodes_count);
    let mut ch = setup(test_nodes, 3, 1.0);

    let mut matched_node = ch.get_node(String::from("test_key1")).unwrap();
    assert_eq!(matched_node, Node::new(String::from("test_node_1")));

    ch.add_node(&Node::new(String::from("test_node_8")), 3);
    matched_node = ch.get_node(String::from("test_key1")).unwrap();
    assert_eq!(matched_node, Node::new(String::from("test_node_1")));
}

#[test]
fn assign_key() {
    let nodes_count = 3;
    let test_nodes = nodes_fixture(nodes_count);
    let mut ch = setup(test_nodes, 1, 1.0);

    let matched_node = ch.get_node(String::from("test_key1")).unwrap();
    assert_eq!(matched_node, Node::new(String::from("test_node_1")));

    assert_eq!(ch.total_load(), 0);

    let _ = ch.assign_key(String::from("test_key1"));
    assert_eq!(ch.total_load(), 1);
    let _ = ch.assign_key(String::from("test_key2"));
    assert_eq!(ch.total_load(), 2);
    let _ = ch.assign_key(String::from("test_key3"));
    assert_eq!(ch.total_load(), 3);
    let fourth = ch.assign_key(String::from("test_key4"));
    assert_eq!(ch.total_load(), 3);
    assert_eq!(fourth, Err(RingError::NoEligibleNode));
}

fn names_of(nodes: &Vec<Node>) -> Vec<String> {
    nodes.iter().map(|node| node.get_name().clone()).collect()
}

fn max_load(ch: &ConsistentHash, nodes: &Vec<Node>) -> u64 {
    let mut highest = 0;
    for node in nodes.iter() {
        let load = ch.load_of(node.get_name()).unwrap();
        if load > highest {
            highest = load;
        }
    }
    highest
}

#[test]
fn new_ring_is_empty() {
    let ch = ConsistentHash::new();
    assert_eq!(ch.size(), 0);
    assert_eq!(ch.node_count(), 0);
    assert_eq!(ch.total_load(), 0);
    assert_eq!(ch.load_factor(), LoadFactor::one());
    assert_eq!(ch.list_nodes(), None);
    assert_eq!(ch.ceiling(), None);
}

#[test]
fn default_ring_is_new_ring() {
    let ch = ConsistentHash::default();
    assert_eq!(ch.size(), 0);
    assert_eq!(ch.load_factor(), LoadFactor::one());
}

#[test]
fn load_factor_needs_a_denominator() {
    assert_eq!(LoadFactor::new(1, 0), None);
    let factor = LoadFactor::new(3, 2).unwrap();
    assert_eq!(factor.numerator(), 3);
    assert_eq!(factor.denominator(), 2);
    assert_eq!(LoadFactor::one(), LoadFactor::new(1, 1).unwrap());
    let ch = ConsistentHash::with_load_factor(factor);
    assert_eq!(ch.load_factor(), factor);
}

#[test]
fn empty_ring_reports_empty_ring() {
    let mut ch = ConsistentHash::new();
    assert_eq!(ch.lookup(String::from("anything")), Err(RingError::EmptyRing));
    assert_eq!(ch.get_node(String::from("anything")), None);
    assert_eq!(ch.assign_key(String::from("anything")), Err(RingError::EmptyRing));
    assert_eq!(ch.nearest(&vec![1, 2, 3]), Err(RingError::EmptyRing));
    assert_eq!(ch.nearest_node_under_load(&vec![1, 2, 3]), Err(RingError::EmptyRing));
    assert_eq!(ch.assign_at(&vec![1, 2, 3]), Err(RingError::EmptyRing));
    assert_eq!(ch.total_load(), 0);
    assert!(!ch.check_load(&String::from("anything")));
}

#[test]
fn size_counts_positions_not_nodes() {
    let mut ch = ConsistentHash::new();
    ch.add_node(&Node::new(String::from("a")), 4);
    assert_eq!(ch.size(), 4);
    assert_eq!(ch.node_count(), 1);
    ch.add_node(&Node::new(String::from("b")), 2);
    assert_eq!(ch.size(), 6);
    assert_eq!(ch.node_count(), 2);
}

#[test]
fn zero_replicas_register_without_ring_presence() {
    let mut ch = ConsistentHash::new();
    let idle = Node::new(String::from("idle"));
    ch.add_node(&idle, 0);
    assert_eq!(ch.size(), 0);
    assert_eq!(ch.node_count(), 1);
    assert_eq!(ch.replica_count(idle.get_name()), Some(0));
    assert_eq!(ch.load_of(idle.get_name()), Some(0));
    assert_eq!(ch.get_node(String::from("k")), None);
    assert_eq!(ch.lookup(String::from("k")), Err(RingError::EmptyRing));

    let busy = Node::new(String::from("busy"));
    ch.add_node(&busy, 2);
    assert_eq!(ch.size(), 2);
    for i in 0..50 {
        assert_eq!(ch.lookup(format!("key{}", i)), Ok(busy.clone()));
    }
    // the idle node counts toward the average: one key is all that fits
    assert_eq!(ch.assign_key(String::from("k1")), Ok(busy.clone()));
    assert_eq!(ch.ceiling(), Some(1));
    assert_eq!(ch.assign_key(String::from("k2")), Err(RingError::NoEligibleNode));
    assert_eq!(ch.load_of(idle.get_name()), Some(0));
}

#[test]
fn removal_on_an_empty_ring_changes_nothing() {
    let mut ch = ConsistentHash::new();
    let idle = Node::new(String::from("idle"));
    ch.add_node(&idle, 0);
    ch.remove_node(String::from("idle"));
    assert_eq!(ch.replica_count(idle.get_name()), Some(0));
    assert_eq!(ch.node_count(), 1);
    assert_eq!(ch.size(), 0);
}

#[test]
fn unknown_removal_changes_nothing() {
    let nodes = nodes_fixture(3);
    let mut ch = setup(nodes_fixture(3), 2, 1.0);
    let _ = ch.assign_key(String::from("k"));
    let listing = ch.list_nodes();
    ch.remove_node(String::from("stranger"));
    assert_eq!(ch.size(), 6);
    assert_eq!(ch.node_count(), 3);
    assert_eq!(ch.total_load(), 1);
    assert_eq!(ch.list_nodes(), listing);
    assert_eq!(ch.replica_count(&String::from("stranger")), None);
    assert_eq!(max_load(&ch, &nodes), 1);
}

#[test]
fn removal_takes_the_load_from_the_total() {
    let mut ch = setup(nodes_fixture(2), 3, 4.0);
    let first = ch.assign_key(String::from("k1")).unwrap();
    let _ = ch.assign_key(String::from("k2")).unwrap();
    let _ = ch.assign_key(String::from("k3")).unwrap();
    assert_eq!(ch.total_load(), 3);
    let load = ch.load_of(first.get_name()).unwrap();
    assert!(load >= 1);
    ch.remove_node(first.get_name().clone());
    assert_eq!(ch.total_load(), 3 - load);
    assert_eq!(ch.load_of(first.get_name()), None);
    assert_eq!(ch.replica_count(first.get_name()), None);
    assert_eq!(ch.size(), 3);
    assert_eq!(ch.node_count(), 1);
    for node in ch.list_nodes().unwrap() {
        assert_ne!(node, first);
    }
}

#[test]
fn register_then_unregister_restores_the_ring() {
    let mut ch = setup(nodes_fixture(4), 3, 1.0);
    let size = ch.size();
    let listing = ch.list_nodes();
    let before: Vec<Result<Node, RingError>> =
        (0..40).map(|i| ch.lookup(format!("key{}", i))).collect();

    ch.add_node(&Node::new(String::from("guest")), 5);
    assert_eq!(ch.size(), size + 5);
    ch.remove_node(String::from("guest"));

    assert_eq!(ch.size(), size);
    assert_eq!(ch.node_count(), 4);
    assert_eq!(ch.list_nodes(), listing);
    let after: Vec<Result<Node, RingError>> =
        (0..40).map(|i| ch.lookup(format!("key{}", i))).collect();
    assert_eq!(before, after);
}

#[test]
fn registering_again_with_the_same_count_keeps_the_load() {
    let mut ch = ConsistentHash::new();
    let only = Node::new(String::from("only"));
    ch.add_node(&only, 3);
    assert_eq!(ch.assign_key(String::from("k")), Ok(only.clone()));
    ch.add_node(&only, 3);
    assert_eq!(ch.size(), 3);
    assert_eq!(ch.node_count(), 1);
    assert_eq!(ch.load_of(only.get_name()), Some(1));
    assert_eq!(ch.total_load(), 1);
}

#[test]
fn lookup_is_stable() {
    let ch = setup(nodes_fixture(6), 4, 1.0);
    for i in 0..30 {
        let key = format!("key{}", i);
        let first = ch.lookup(key.clone());
        assert!(first.is_ok());
        assert_eq!(ch.lookup(key.clone()), first);
        assert_eq!(ch.get_node(key.clone()), ch.get_node(key.clone()));
        // nothing is assigned yet, so the ceiling turns no node away
        assert_eq!(ch.get_node(key), first.ok());
    }
}

#[test]
fn lookup_goes_by_the_md5_of_the_key() {
    let ch = setup(nodes_fixture(5), 3, 1.0);
    let key = String::from("some key");
    let hash = consistent_hash::position::position_of_key(&key);
    assert_eq!(ch.lookup(key.clone()), ch.nearest(&hash));
    assert_eq!(ch.get_node(key), ch.nearest_node_under_load(&hash).ok());
}

#[test]
fn a_new_node_takes_keys_only_for_itself() {
    let mut ch = setup(nodes_fixture(5), 3, 1.0);
    let keys: Vec<String> = (0..200).map(|i| format!("sample-{}", i)).collect();
    let before: Vec<Node> = keys.iter().map(|k| ch.lookup(k.clone()).unwrap()).collect();

    let newcomer = Node::new(String::from("newcomer"));
    ch.add_node(&newcomer, 3);

    let mut moved = 0;
    for (key, owner) in keys.iter().zip(before.iter()) {
        let now = ch.lookup(key.clone()).unwrap();
        if now != *owner {
            assert_eq!(now, newcomer);
            moved += 1;
        }
    }
    assert!(moved < keys.len());
}

#[test]
fn three_nodes_take_one_key_each_under_factor_one() {
    let a = Node::new(String::from("A"));
    let b = Node::new(String::from("B"));
    let c = Node::new(String::from("C"));
    let mut ch = ConsistentHash::with_load_factor(LoadFactor::one());
    ch.add_node(&a, 3);
    ch.add_node(&b, 3);
    ch.add_node(&c, 3);
    assert_eq!(ch.size(), 9);
    assert_eq!(ch.ceiling(), Some(1));

    let first = ch.assign_key(String::from("k1")).unwrap();
    assert_eq!(ch.load_of(first.get_name()), Some(1));
    assert_eq!(ch.ceiling(), Some(1));
    let second = ch.assign_key(String::from("k2")).unwrap();
    assert_eq!(ch.load_of(second.get_name()), Some(1));
    assert_eq!(ch.ceiling(), Some(1));
    let third = ch.assign_key(String::from("k3")).unwrap();
    assert_eq!(ch.load_of(third.get_name()), Some(1));
    assert_ne!(first, second);
    assert_ne!(first, third);
    assert_ne!(second, third);
    assert_eq!(ch.total_load(), 3);

    // the average is now 3/3, so the ceiling is still 1 and every node is at it
    assert_eq!(ch.ceiling(), Some(1));
    assert_eq!(ch.assign_key(String::from("k4")), Err(RingError::NoEligibleNode));
    assert_eq!(ch.get_node(String::from("k4")), None);
    assert_eq!(ch.total_load(), 3);
    assert_eq!(ch.load_of(a.get_name()), Some(1));
    assert_eq!(ch.load_of(b.get_name()), Some(1));
    assert_eq!(ch.load_of(c.get_name()), Some(1));
    // the unweighted lookup still answers
    assert!(ch.lookup(String::from("k4")).is_ok());
}

#[test]
fn loads_stay_within_the_average_under_factor_one() {
    let nodes = nodes_fixture(4);
    let mut ch = setup(nodes_fixture(4), 3, 1.0);
    let count = nodes.len() as u64;
    for i in 0..20 {
        if let Ok(node) = ch.assign_key(format!("key{}", i)) {
            let total = ch.total_load();
            let average_up = (total + count - 1) / count;
            assert!(ch.load_of(node.get_name()).unwrap() <= average_up);
            assert!(max_load(&ch, &nodes) <= average_up);
        }
    }
    assert_eq!(ch.total_load(), 4);
    let mut sum = 0;
    for name in names_of(&nodes) {
        sum += ch.load_of(&name).unwrap();
    }
    assert_eq!(sum, ch.total_load());
}

#[test]
fn ceiling_follows_the_formula() {
    let mut ch = ConsistentHash::with_load_factor(LoadFactor::new(3, 1).unwrap());
    ch.add_node(&Node::new(String::from("a")), 1);
    ch.add_node(&Node::new(String::from("b")), 1);
    // nothing assigned: the average counts as 1
    assert_eq!(ch.ceiling(), Some(3));
    assert!(ch.assign_key(String::from("k1")).is_ok());
    // ceil(1 * 3 / 2)
    assert_eq!(ch.ceiling(), Some(2));
    assert!(ch.assign_key(String::from("k2")).is_ok());
    // ceil(2 * 3 / 2)
    assert_eq!(ch.ceiling(), Some(3));
    assert!(ch.assign_key(String::from("k3")).is_ok());
    // ceil(3 * 3 / 2)
    assert_eq!(ch.ceiling(), Some(5));

    let mut loose = ConsistentHash::with_load_factor(LoadFactor::new(5, 2).unwrap());
    loose.add_node(&Node::new(String::from("a")), 2);
    // ceil(1 * 5 / 2)
    assert_eq!(loose.ceiling(), Some(3));
    assert!(loose.assign_key(String::from("k1")).is_ok());
    // ceil(1 * 5 / (1 * 2))
    assert_eq!(loose.ceiling(), Some(3));
    assert!(loose.assign_key(String::from("k2")).is_ok());
    // ceil(2 * 5 / 2)
    assert_eq!(loose.ceiling(), Some(5));
}

#[test]
fn a_factor_under_one_can_close_the_ring() {
    let mut ch = ConsistentHash::with_load_factor(LoadFactor::new(0, 1).unwrap());
    ch.add_node(&Node::new(String::from("a")), 2);
    assert_eq!(ch.ceiling(), Some(0));
    assert!(!ch.check_load(&String::from("a")));
    assert_eq!(ch.assign_key(String::from("k")), Err(RingError::NoEligibleNode));
    assert_eq!(ch.total_load(), 0);
}

#[test]
fn check_load_compares_with_the_ceiling() {
    let mut ch = setup(nodes_fixture(2), 2, 1.0);
    let zero = String::from("test_node_0");
    let one = String::from("test_node_1");
    assert!(ch.check_load(&zero));
    assert!(ch.check_load(&one));
    assert!(!ch.check_load(&String::from("stranger")));
    let taken = ch.assign_key(String::from("k")).unwrap();
    assert!(!ch.check_load(taken.get_name()));
    let other = if *taken.get_name() == zero { one } else { zero };
    assert!(ch.check_load(&other));
}

#[test]
fn a_node_at_the_ceiling_is_passed_over() {
    let mut ch = setup(nodes_fixture(2), 1, 1.0);
    let key = String::from("k");
    let nearest = ch.lookup(key.clone()).unwrap();
    assert_eq!(ch.assign_key(key.clone()), Ok(nearest.clone()));
    // the nearest node is full now: the walk goes on to the other one
    let next = ch.get_node(key.clone()).unwrap();
    assert_ne!(next, nearest);
    assert_eq!(ch.lookup(key.clone()), Ok(nearest.clone()));
    assert_eq!(ch.assign_key(key.clone()), Ok(next));
    assert_eq!(ch.assign_key(key), Err(RingError::NoEligibleNode));
    assert_eq!(ch.total_load(), 2);
}

#[test]
fn assign_at_counts_for_the_node_it_returns() {
    let mut ch = setup(nodes_fixture(3), 2, 2.0);
    let hash = consistent_hash::position::position_of_key(&String::from("k"));
    let expected = ch.nearest_node_under_load(&hash);
    let taken = ch.assign_at(&hash);
    assert_eq!(taken, expected);
    let node = taken.unwrap();
    assert_eq!(ch.load_of(node.get_name()), Some(1));
    assert_eq!(ch.total_load(), 1);
    assert_eq!(ch.size(), 6);
}

#[test]
fn list_nodes_names_each_position() {
    let nodes = nodes_fixture(3);
    let ch = setup(nodes_fixture(3), 4, 1.0);
    let listing = ch.list_nodes().unwrap();
    assert_eq!(listing.len(), ch.size());
    for node in nodes.iter() {
        assert_eq!(listing.iter().filter(|n| *n == node).count(), 4);
    }
}

#[test]
fn a_clone_is_a_ring_of_its_own() {
    let mut ch = setup(nodes_fixture(3), 2, 1.0);
    let copy = ch.clone();
    let _ = ch.assign_key(String::from("k"));
    ch.remove_node(String::from("test_node_0"));
    assert_eq!(copy.size(), 6);
    assert_eq!(copy.total_load(), 0);
    assert_eq!(copy.node_count(), 3);
}

#[test]
fn colliding_names_share_one_position() {
    // two names with the same MD5 digest: the later registration wins
    let first = Node::new(String::from(
        "TEXTCOLLBYfGiJUETHQ4hAcKSMd5zYpgqf1YRDhkmxHkhPWptrkoyz28wnI9V0aHeAuaKnak",
    ));
    let second = Node::new(String::from(
        "TEXTCOLLBYfGiJUETHQ4hEcKSMd5zYpgqf1YRDhkmxHkhPWptrkoyz28wnI9V0aHeAuaKnak",
    ));
    assert_ne!(first, second);
    assert_eq!(
        consistent_hash::position::position_of_replica(first.get_name(), 0),
        consistent_hash::position::position_of_replica(second.get_name(), 0)
    );
    let mut ch = ConsistentHash::new();
    ch.add_node(&first, 1);
    ch.add_node(&second, 1);
    assert_eq!(ch.size(), 1);
    assert_eq!(ch.node_count(), 2);
    assert_eq!(ch.lookup(String::from("k")), Ok(second.clone()));
    // removing the first node takes the shared position with it
    ch.remove_node(first.get_name().clone());
    assert_eq!(ch.size(), 0);
    assert_eq!(ch.node_count(), 1);
}
