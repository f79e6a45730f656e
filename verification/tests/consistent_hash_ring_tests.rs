use ringstore::consistent_hash_ring::{ConsistentHashRing, Node, Range};

#[test]
fn consistent_hash_ring_test_get_node_address() {
    let nodes_ips = vec![
        Node {
            address: "127.0.0.1:3000".to_string(),
        },
        Node {
            address: "127.0.0.1:3001".to_string(),
        },
        Node {
            address: "127.0.0.1:3002".to_string(),
        },
    ];

    let ring = ConsistentHashRing::new(nodes_ips);

    assert_eq!(ring.get_node_address("test_key"), "127.0.0.1:3002");
}

#[test]
fn consistent_hash_ring_test_hash() {
    let ip = "127.0.0.1:3000";
    let hash = ConsistentHashRing::calculate_hash(ip);
    assert_eq!(hash, 2784727742823359555);
}

#[test]
fn test_add_node_to_the_ring() {
    let nodes_ips = vec![
        Node {
            address: "127.0.0.1:3000".to_string(),
        },
        Node {
            address: "127.0.0.1:3001".to_string(),
        },
        Node {
            address: "127.0.0.1:3002".to_string(),
        },
    ];

    let new_node_ip = "127.0.0.1:3003";
    let new_node = Node {
        address: "127.0.0.1:3003".to_string(),
    };

    let mut ring = ConsistentHashRing::new(nodes_ips);

    assert_eq!(ring.get_node_address("test_key1"), "127.0.0.1:3002");

    ring.add_node(new_node);

    let hash1 = ConsistentHashRing::calculate_hash("test_key1");
    let mut count = 0;

    let new_node_ranges = ring.get_ranges_for_node(new_node_ip);
    for range in new_node_ranges.iter() {
        if hash1 > range.start && hash1 < range.end {
            count += 1;
        }
    }

    assert_eq!(count, 1);
    assert_eq!(ring.get_node_address("test_key1"), "127.0.0.1:3003");

    let res = ring.get_ranges_for_node("127.0.0.1:3003");

    for range in res.iter() {
        if range.start > range.end {
            panic!("Wrong range!");
        }
    }
}

#[test]
fn owner_is_stable_across_calls() {
    let nodes = vec![
        Node {
            address: "127.0.0.1:3000".to_string(),
        },
        Node {
            address: "127.0.0.1:3001".to_string(),
        },
    ];
    let ring = ConsistentHashRing::new(nodes);
    let first = ring.get_node_address("some_value").to_string();
    let second = ring.get_node_address("some_value").to_string();
    assert_eq!(first, second);
}

#[test]
fn ranges_start_at_zero_for_first_entry() {
    let nodes = vec![Node {
        address: "127.0.0.1:3000".to_string(),
    }];
    let ring = ConsistentHashRing::new(nodes);
    let ranges = ring.get_ranges_for_node("127.0.0.1:3000");
    assert_eq!(ranges.len(), 10);
    assert_eq!(ranges[0].start, 0);
    for w in ranges.windows(2) {
        assert_eq!(w[1].start, w[0].end);
        assert!(w[0].end < w[1].end);
    }
    assert_eq!(ring.get_ranges_for_node("127.0.0.1:9999"), Vec::<Range>::new());
}
