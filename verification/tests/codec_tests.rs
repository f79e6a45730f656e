use ringstore::consistent_hash_ring::Range;
use ringstore::error::Error;
use ringstore::protocol::codec::{
    deserialize_request, deserialize_response, serialize_request, serialize_response,
};
use ringstore::protocol::types::{Request, Response};

#[test]
fn request_round_trips() {
    let requests = vec![
        Request::Add("42".to_string()),
        Request::Check("héllo, wörld".to_string()),
        Request::AddBatch(vec!["a".to_string(), "".to_string(), "c".to_string()]),
        Request::GetBatch(vec![
            Range { start: 100, end: 200 },
            Range { start: 0, end: u64::MAX },
        ]),
        Request::DropBatch(vec![Range { start: 7, end: 7 }]),
        Request::AddBatch(vec![]),
        Request::GetBatch(vec![]),
    ];
    for request in requests {
        let bytes = serialize_request(&request);
        let back = deserialize_request(&bytes).unwrap();
        assert_eq!(back, request);
    }
}

#[test]
fn response_round_trips() {
    let responses = vec![
        Response::String("Added 42, there are currently 1".to_string()),
        Response::Array(vec!["x".to_string(), "yß".to_string()]),
        Response::Array(vec![]),
        Response::Bool(true),
        Response::Bool(false),
    ];
    for response in responses {
        let bytes = serialize_response(&response);
        let back = deserialize_response(&bytes).unwrap();
        assert_eq!(back, response);
    }
}

#[test]
fn request_layout_matches_reference_encoding() {
    // The body layout is the reference one: little-endian scalars, 64-bit
    // length prefixes, and a 32-bit variant tag in declaration order.
    let add = serialize_request(&Request::Add("42".to_string()));
    let expected: Vec<u8> = bincode::serialize(&(0u32, "42".to_string())).unwrap();
    assert_eq!(add, expected);

    let check = serialize_request(&Request::Check("x".to_string()));
    let expected: Vec<u8> = bincode::serialize(&(1u32, "x".to_string())).unwrap();
    assert_eq!(check, expected);

    let batch = serialize_request(&Request::AddBatch(vec!["a".to_string(), "b".to_string()]));
    let expected: Vec<u8> =
        bincode::serialize(&(2u32, vec!["a".to_string(), "b".to_string()])).unwrap();
    assert_eq!(batch, expected);

    let get = serialize_request(&Request::GetBatch(vec![Range { start: 100, end: 200 }]));
    let expected: Vec<u8> = bincode::serialize(&(3u32, vec![(100u64, 200u64)])).unwrap();
    assert_eq!(get, expected);

    let drop = serialize_request(&Request::DropBatch(vec![Range { start: 1, end: 2 }]));
    let expected: Vec<u8> = bincode::serialize(&(4u32, vec![(1u64, 2u64)])).unwrap();
    assert_eq!(drop, expected);
}

#[test]
fn response_layout_matches_reference_encoding() {
    let s = serialize_response(&Response::String("ok".to_string()));
    let expected: Vec<u8> = bincode::serialize(&(0u32, "ok".to_string())).unwrap();
    assert_eq!(s, expected);

    let a = serialize_response(&Response::Array(vec!["v".to_string()]));
    let expected: Vec<u8> = bincode::serialize(&(1u32, vec!["v".to_string()])).unwrap();
    assert_eq!(a, expected);

    let b = serialize_response(&Response::Bool(true));
    let expected: Vec<u8> = bincode::serialize(&(2u32, true)).unwrap();
    assert_eq!(b, expected);
}

#[test]
fn deserialize_rejects_malformed_bodies() {
    // too short for a tag
    assert!(matches!(deserialize_request(&[0, 0]), Err(Error::ParseError)));
    // unknown tag
    assert!(matches!(
        deserialize_request(&[9, 0, 0, 0]),
        Err(Error::ParseError)
    ));
    // Add with a truncated string
    let mut bytes = serialize_request(&Request::Add("hello".to_string()));
    bytes.pop();
    assert!(matches!(deserialize_request(&bytes), Err(Error::ParseError)));
    // Add with trailing garbage
    let mut bytes = serialize_request(&Request::Add("hello".to_string()));
    bytes.push(0);
    assert!(matches!(deserialize_request(&bytes), Err(Error::ParseError)));
    // a string that is not valid UTF-8
    let mut bad = vec![0u8, 0, 0, 0];
    bad.extend_from_slice(&1u64.to_le_bytes());
    bad.push(0xff);
    assert!(matches!(deserialize_request(&bad), Err(Error::ParseError)));
    // a bool carried by a byte other than 0 or 1
    let mut bad_bool = vec![2u8, 0, 0, 0];
    bad_bool.push(2);
    assert!(matches!(
        deserialize_response(&bad_bool),
        Err(Error::ParseError)
    ));
}
