use consistent_hash::order::{compare, Placement};
use consistent_hash::position::{
    identifier_bytes, position_of_key, position_of_replica, push_decimal,
};
use consistent_hash::ring::Ring;
use consistent_hash::Node;

fn node(name: &str) -> Node {
    Node::new(String::from(name))
}

#[test]
fn node_keeps_its_name() {
    let n = Node::new(String::from("alpha"));
    assert_eq!(n.get_name(), "alpha");
    assert_eq!(n.clone(), n);
    assert_eq!(n, node("alpha"));
    assert_ne!(n, node("beta"));
}

#[test]
fn compare_is_lexicographic() {
    assert_eq!(compare(&vec![1, 2], &vec![1, 3]), Placement::Before);
    assert_eq!(compare(&vec![1, 3], &vec![1, 2]), Placement::After);
    assert_eq!(compare(&vec![1, 2], &vec![1, 2]), Placement::Same);
    assert_eq!(compare(&vec![], &vec![]), Placement::Same);
    assert_eq!(compare(&vec![], &vec![0]), Placement::Before);
    assert_eq!(compare(&vec![1, 2], &vec![1, 2, 0]), Placement::Before);
    assert_eq!(compare(&vec![1, 2, 0], &vec![1, 2]), Placement::After);
    assert_eq!(compare(&vec![2], &vec![1, 9]), Placement::After);
    assert_eq!(compare(&vec![0, 255], &vec![1]), Placement::Before);
}

#[test]
fn decimal_numerals() {
    let mut out = vec![b'x'];
    push_decimal(&mut out, 0);
    assert_eq!(out, b"x0".to_vec());
    push_decimal(&mut out, 7);
    assert_eq!(out, b"x07".to_vec());
    push_decimal(&mut out, 10);
    assert_eq!(out, b"x0710".to_vec());
    push_decimal(&mut out, 4294967295);
    assert_eq!(out, b"x07104294967295".to_vec());
    let mut fresh = Vec::new();
    push_decimal(&mut fresh, 1203);
    assert_eq!(fresh, b"1203".to_vec());
}

#[test]
fn replica_identifiers() {
    let name = String::from("node");
    assert_eq!(identifier_bytes(&name, 0), b"node".to_vec());
    assert_eq!(identifier_bytes(&name, 1), b"node-1".to_vec());
    assert_eq!(identifier_bytes(&name, 12), b"node-12".to_vec());
    assert_eq!(identifier_bytes(&name, 100), b"node-100".to_vec());
    assert_eq!(identifier_bytes(&String::new(), 3), b"-3".to_vec());
    let accented = String::from("n\u{153}ud");
    assert_eq!(identifier_bytes(&accented, 2), format!("{}-{}", accented, 2).into_bytes());
}

#[test]
fn positions_are_md5_digests() {
    assert_eq!(
        position_of_key(&String::from("abcdefghijklmnopqrstuvwxyz")),
        vec![
            0xc3, 0xfc, 0xd3, 0xd7, 0x61, 0x92, 0xe4, 0x00, 0x7d, 0xfb, 0x49, 0x6c, 0xca, 0x67,
            0xe1, 0x3b
        ]
    );
    assert_eq!(
        position_of_key(&String::new()),
        vec![
            0xd4, 0x1d, 0x8c, 0xd9, 0x8f, 0x00, 0xb2, 0x04, 0xe9, 0x80, 0x09, 0x98, 0xec, 0xf8,
            0x42, 0x7e
        ]
    );
    let name = String::from("node");
    assert_eq!(position_of_replica(&name, 0), position_of_key(&name));
    assert_eq!(position_of_replica(&name, 2), position_of_key(&String::from("node-2")));
    assert_ne!(position_of_replica(&name, 1), position_of_replica(&name, 2));
    assert_eq!(position_of_replica(&name, 1).len(), 16);
}

#[test]
fn ring_wraps_around() {
    let mut ring = Ring::new();
    assert!(ring.is_empty());
    assert_eq!(ring.nearest(&vec![1]), None);
    assert_eq!(ring.list_nodes(), None);

    ring.insert(vec![20], node("b"));
    ring.insert(vec![10], node("a"));
    ring.insert(vec![30], node("c"));
    assert_eq!(ring.size(), 3);
    assert!(!ring.is_empty());

    assert_eq!(ring.nearest(&vec![5]), Some(node("a")));
    assert_eq!(ring.nearest(&vec![10]), Some(node("a")));
    assert_eq!(ring.nearest(&vec![10, 0]), Some(node("b")));
    assert_eq!(ring.nearest(&vec![15]), Some(node("b")));
    assert_eq!(ring.nearest(&vec![20]), Some(node("b")));
    assert_eq!(ring.nearest(&vec![21]), Some(node("c")));
    assert_eq!(ring.nearest(&vec![30]), Some(node("c")));
    // past the last position the ring starts over
    assert_eq!(ring.nearest(&vec![31]), Some(node("a")));
    assert_eq!(ring.nearest(&vec![255, 255]), Some(node("a")));
    assert_eq!(ring.nearest(&vec![]), Some(node("a")));

    assert_eq!(ring.successor_of(&vec![15]), 1);
    assert_eq!(ring.successor_of(&vec![31]), 0);
    assert_eq!(ring.rank_of(&vec![31]), 3);
    assert_eq!(ring.rank_of(&vec![20]), 1);
    assert_eq!(ring.node_at(2), &node("c"));
    assert_eq!(ring.list_nodes(), Some(vec![node("a"), node("b"), node("c")]));
}

#[test]
fn ring_insert_overwrites() {
    let mut ring = Ring::new();
    ring.insert(vec![10], node("a"));
    ring.insert(vec![20], node("b"));
    ring.insert(vec![10], node("z"));
    assert_eq!(ring.size(), 2);
    assert_eq!(ring.nearest(&vec![10]), Some(node("z")));
    assert_eq!(ring.list_nodes(), Some(vec![node("z"), node("b")]));
    assert!(ring.contains(&vec![10]));
    assert!(!ring.contains(&vec![11]));
}

#[test]
fn ring_remove_takes_one_position() {
    let mut ring = Ring::new();
    ring.insert(vec![10], node("a"));
    ring.insert(vec![20], node("b"));
    ring.insert(vec![30], node("a"));
    ring.remove(&vec![25]);
    assert_eq!(ring.size(), 3);
    ring.remove(&vec![20]);
    assert_eq!(ring.size(), 2);
    assert_eq!(ring.nearest(&vec![15]), Some(node("a")));
    assert_eq!(ring.list_nodes(), Some(vec![node("a"), node("a")]));
    ring.remove(&vec![10]);
    ring.remove(&vec![30]);
    assert!(ring.is_empty());
    assert_eq!(ring.nearest(&vec![15]), None);
}
