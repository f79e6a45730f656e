use ringstore::consistent_hash_ring::{ConsistentHashRing, Node, Range};
use ringstore::handlers::Handler;
use ringstore::handlers::add_handler::AddHandler;
use ringstore::handlers::check_handler::CheckHandler;
use ringstore::protocol::types::{Request, Response};
use ringstore::numerals::{parse_i32, u64_to_string};
use ringstore::server::Server;
use ringstore::storage::BTreeStorage;

#[test]
fn add_then_check() {
    // A two-node cluster routes "42" to its owner; that node adds it.
    let nodes = vec![
        Node {
            address: "127.0.0.1:3000".to_string(),
        },
        Node {
            address: "127.0.0.1:3001".to_string(),
        },
    ];
    let ring = ConsistentHashRing::new(nodes);
    let owner = ring.get_node_address("42").to_string();
    assert!(owner == "127.0.0.1:3000" || owner == "127.0.0.1:3001");

    let mut node = Server::new();
    let reply = node.process_message(Request::Add("42".to_string()));
    assert_eq!(
        reply,
        Response::String("Added 42, there are currently 1".to_string())
    );

    let reply = node.process_message(Request::Check("42".to_string()));
    assert_eq!(reply, Response::Bool(true));

    let reply = node.process_message(Request::Check("7".to_string()));
    assert_eq!(
        reply,
        Response::String("Value: 7 doesn't exist".to_string())
    );
}

#[test]
fn count_monotonicity_under_add() {
    let mut node = Server::new();
    let reply = node.process_message(Request::Add("one".to_string()));
    assert_eq!(
        reply,
        Response::String("Added one, there are currently 1".to_string())
    );
    let reply = node.process_message(Request::Add("two".to_string()));
    assert_eq!(
        reply,
        Response::String("Added two, there are currently 2".to_string())
    );
    // the same value again overwrites: the count does not move
    let reply = node.process_message(Request::Add("two".to_string()));
    assert_eq!(
        reply,
        Response::String("Added two, there are currently 2".to_string())
    );
}

#[test]
fn get_batch_over_inclusive_range() {
    let mut node = Server::new();
    let values = ["alpha", "beta", "gamma"];
    let mut tokens: Vec<(u64, &str)> = values
        .iter()
        .map(|v| (ConsistentHashRing::calculate_hash(v), *v))
        .collect();
    tokens.sort();
    for v in values {
        node.process_message(Request::Add(v.to_string()));
    }

    // both ends of the range are included
    let reply = node.process_message(Request::GetBatch(vec![Range {
        start: tokens[0].0,
        end: tokens[1].0,
    }]));
    assert_eq!(
        reply,
        Response::Array(vec![tokens[0].1.to_string(), tokens[1].1.to_string()])
    );

    // a range covering everything returns the values in token order
    let reply = node.process_message(Request::GetBatch(vec![Range {
        start: 0,
        end: u64::MAX,
    }]));
    assert_eq!(
        reply,
        Response::Array(vec![
            tokens[0].1.to_string(),
            tokens[1].1.to_string(),
            tokens[2].1.to_string()
        ])
    );
}

#[test]
fn add_batch_and_drop_batch() {
    let mut node = Server::new();
    let reply = node.process_message(Request::AddBatch(vec![
        "a".to_string(),
        "b".to_string(),
        "c".to_string(),
    ]));
    assert_eq!(reply, Response::String("Inserted batch of 3".to_string()));

    let token_b = ConsistentHashRing::calculate_hash("b");
    let reply = node.process_message(Request::DropBatch(vec![Range {
        start: token_b,
        end: token_b,
    }]));
    assert_eq!(reply, Response::String("Removed: 1".to_string()));

    assert_eq!(
        node.process_message(Request::Check("b".to_string())),
        Response::String("Value: b doesn't exist".to_string())
    );
    assert_eq!(
        node.process_message(Request::Check("a".to_string())),
        Response::Bool(true)
    );

    // overlapping ranges remove each entry once
    let reply = node.process_message(Request::DropBatch(vec![
        Range { start: 0, end: u64::MAX },
        Range { start: 0, end: u64::MAX },
    ]));
    assert_eq!(reply, Response::String("Removed: 2".to_string()));
}

#[test]
fn handlers_answer_their_own_kind() {
    let mut add = AddHandler::new(BTreeStorage::new());
    let reply = add.handle(Request::Add("42".to_string())).unwrap();
    assert_eq!(
        reply,
        Response::String("Added 42, there are currently 1".to_string())
    );
    let reply = add.handle(Request::Check("42".to_string())).unwrap();
    assert_eq!(reply, Response::String("Wrong handler!".to_string()));

    let mut check = CheckHandler::new(BTreeStorage::new());
    let reply = check.handle(Request::Check("42".to_string())).unwrap();
    assert_eq!(
        reply,
        Response::String("Value: 42 doesn't exist".to_string())
    );
}

#[test]
fn get_port_parses_the_port_argument() {
    let args = vec!["node".to_string(), "port=5005".to_string()];
    assert_eq!(Server::get_port(args), 5005);

    let args = vec!["node".to_string()];
    assert_eq!(Server::get_port(args), 4000);

    let arg = "port=4000".to_string();
    assert_eq!(Server::parse_port(&arg), 4000);

    // only the piece between the first and second '=' is read
    let arg = "port=40=1".to_string();
    assert_eq!(Server::parse_port(&arg), 40);

    let arg = "port=-7".to_string();
    assert_eq!(Server::parse_port(&arg), -7);
}

#[test]
fn decimal_rendering_and_parsing() {
    assert_eq!(u64_to_string(0), "0");
    assert_eq!(u64_to_string(7), "7");
    assert_eq!(u64_to_string(1234567890), "1234567890");
    assert_eq!(u64_to_string(u64::MAX), "18446744073709551615");
    assert_eq!(parse_i32("0"), 0);
    assert_eq!(parse_i32("+4000"), 4000);
    assert_eq!(parse_i32("-2147483648"), -2147483648);
    assert_eq!(parse_i32("2147483647"), 2147483647);
    assert_eq!(parse_i32("0004000"), 4000);
}
