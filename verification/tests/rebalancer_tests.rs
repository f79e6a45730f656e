use ringstore::consistent_hash_ring::{ConsistentHashRing, Node, Range};
use ringstore::protocol::types::{Request, Response};
use ringstore::rebalancer::{add_node, Rebalancer};
use ringstore::server::Server;
use std::collections::BTreeSet;

fn node_list(addresses: &[&str]) -> Vec<Node> {
    addresses
        .iter()
        .map(|a| Node {
            address: a.to_string(),
        })
        .collect()
}

fn all_values(server: &mut Server) -> Vec<String> {
    match server.process_message(Request::GetBatch(vec![Range {
        start: 0,
        end: u64::MAX,
    }])) {
        Response::Array(values) => values,
        other => panic!("expected an array, got {:?}", other),
    }
}

fn in_ranges(token: u64, ranges: &[Range]) -> bool {
    ranges.iter().any(|r| r.start <= token && token <= r.end)
}

#[test]
fn rebalancer_phases_are_strictly_sequential() {
    let members = node_list(&["a:1", "b:2"]);
    let new_node = Node {
        address: "c:3".to_string(),
    };
    let ranges = vec![Range { start: 1, end: 2 }];
    let mut rb = Rebalancer::new(members, new_node, ranges.clone());

    // first every member is read, in order
    let (addr, req) = rb.next_request().unwrap();
    assert_eq!(addr, "a:1");
    assert_eq!(req, Request::GetBatch(ranges.clone()));
    rb.on_response(Response::Array(vec!["v1".to_string()]));

    let (addr, req) = rb.next_request().unwrap();
    assert_eq!(addr, "b:2");
    assert_eq!(req, Request::GetBatch(ranges.clone()));
    // a reply of another kind contributes nothing
    rb.on_response(Response::String("nothing here".to_string()));

    // then the new node receives everything collected, at once
    let (addr, req) = rb.next_request().unwrap();
    assert_eq!(addr, "c:3");
    assert_eq!(req, Request::AddBatch(vec!["v1".to_string()]));
    rb.on_response(Response::String("Inserted batch of 1".to_string()));

    // then every member is pruned, in order
    let (addr, req) = rb.next_request().unwrap();
    assert_eq!(addr, "a:1");
    assert_eq!(req, Request::DropBatch(ranges.clone()));
    rb.on_response(Response::String("Removed: 1".to_string()));

    let (addr, req) = rb.next_request().unwrap();
    assert_eq!(addr, "b:2");
    assert_eq!(req, Request::DropBatch(ranges.clone()));
    rb.on_response(Response::String("Removed: 0".to_string()));

    assert!(rb.next_request().is_none());

    let members = rb.into_members();
    let addresses: Vec<&str> = members.iter().map(|n| n.address.as_str()).collect();
    assert_eq!(addresses, vec!["a:1", "b:2", "c:3"]);
}

#[test]
fn rebalance_conserves_every_value() {
    let member_addresses = ["127.0.0.1:3000", "127.0.0.1:3001", "127.0.0.1:3002"];
    let new_address = "127.0.0.1:3003";

    // three nodes hold 3000 integer-string values, routed by the ring
    let mut servers: Vec<(String, Server)> = member_addresses
        .iter()
        .map(|a| (a.to_string(), Server::new()))
        .collect();
    let mut ring = ConsistentHashRing::new(node_list(&member_addresses));

    let values: Vec<String> = (0..3000).map(|i| i.to_string()).collect();
    let mut pre_owner = Vec::new();
    for value in &values {
        let owner = ring.get_node_address(value).to_string();
        let server = &mut servers.iter_mut().find(|(a, _)| *a == owner).unwrap().1;
        server.process_message(Request::Add(value.clone()));
        pre_owner.push(owner);
    }

    // the operator adds a fourth node and runs the rebalance
    let new_node = Node {
        address: new_address.to_string(),
    };
    let ranges = add_node(new_node.clone(), &mut ring);
    servers.push((new_address.to_string(), Server::new()));

    let mut rb = Rebalancer::new(node_list(&member_addresses), new_node, ranges.clone());
    while let Some((addr, req)) = rb.next_request() {
        let server = &mut servers.iter_mut().find(|(a, _)| *a == addr).unwrap().1;
        let response = server.process_message(req);
        rb.on_response(response);
    }
    assert!(rb.next_request().is_none());

    // the union of all nodes' sets equals the original set
    let mut union = BTreeSet::new();
    let mut total = 0;
    for (_, server) in servers.iter_mut() {
        let held = all_values(server);
        total += held.len();
        union.extend(held);
    }
    assert_eq!(total, values.len());
    assert_eq!(union.len(), values.len());
    for value in &values {
        assert!(union.contains(value));
    }

    // every value sits on exactly one of its old owner and the new node,
    // and on the new node exactly when a migrated range covers its token
    for (i, value) in values.iter().enumerate() {
        let token = ConsistentHashRing::calculate_hash(value);
        let migrated = in_ranges(token, &ranges);
        let expected_holder = if migrated {
            new_address.to_string()
        } else {
            pre_owner[i].clone()
        };
        for (addr, server) in servers.iter_mut() {
            let held = matches!(
                server.process_message(Request::Check(value.clone())),
                Response::Bool(true)
            );
            assert_eq!(held, *addr == expected_holder, "value {}", value);
        }
    }
}
