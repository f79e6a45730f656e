use ringstore::cluster::{Cluster, ConsistentHashRing};
use ringstore::consistent_hash::ConsistentHash;

#[test]
fn consistent_hash_test_get_node_address() {
    let nodes_ips = vec![
        "127.0.0.1:3000".to_string(),
        "127.0.0.1:3001".to_string(),
        "127.0.0.1:3002".to_string(),
    ];

    let cluster = Cluster { nodes: nodes_ips };

    let ring = ConsistentHashRing::new(&cluster);

    assert_eq!(ring.get_node_address("test_key"), "127.0.0.1:3002");
}

#[test]
fn consistent_hash_test_hash() {
    let ip = "127.0.0.1:3000";
    let hash = ConsistentHash::calculate_hash(ip);
    assert_eq!(hash, 2784727742823359555);
}

#[test]
fn cluster_ring_agrees_with_node_ring() {
    let addresses = vec![
        "127.0.0.1:3000".to_string(),
        "127.0.0.1:3001".to_string(),
        "127.0.0.1:3002".to_string(),
    ];
    let cluster = Cluster { nodes: addresses.clone() };
    let client_ring = ConsistentHashRing::new(&cluster);

    let nodes = addresses
        .iter()
        .map(|a| ringstore::consistent_hash_ring::Node { address: a.clone() })
        .collect::<Vec<_>>();
    let node_ring = ringstore::consistent_hash_ring::ConsistentHashRing::new(nodes);

    for i in 0..100 {
        let value = format!("value-{}", i);
        assert_eq!(
            client_ring.get_node_address(&value),
            node_ring.get_node_address(&value)
        );
    }
}
