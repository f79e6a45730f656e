use ringstore::protocol::codec::{
    request_from_frame, request_message_bytes, response_from_frame, response_message_bytes,
};
use ringstore::protocol::frame::{Flags, Frame, Opcode, Version};
use ringstore::protocol::types::{Request, Response};

#[test]
fn test_send_request() {
    let request = Request::Add("Test data".to_string());
    let write_op_result = request_message_bytes(&request);

    assert!(write_op_result.is_ok());

    let bytes = write_op_result.unwrap();
    let frame = Frame::decode(&bytes).unwrap();

    assert_eq!(frame.version, Version::Request);
    assert_eq!(frame.flags, Flags::Empty);
    assert_eq!(frame.stream, 0);
    assert_eq!(frame.opcode, Opcode::Query);

    let expected_body: Vec<u8> = bincode::serialize(&(0u32, "Test data".to_string())).unwrap();
    assert_eq!(frame.body, expected_body);

    let request = request_from_frame(&frame).unwrap();

    assert_eq!(request, Request::Add("Test data".to_string()));
}

#[test]
fn response_message_round_trips() {
    let response = Response::Array(vec!["a".to_string(), "b".to_string()]);
    let bytes = response_message_bytes(&response).unwrap();
    let frame = Frame::decode(&bytes).unwrap();
    assert_eq!(frame.version, Version::Response);
    assert_eq!(frame.opcode, Opcode::Query);
    let back = response_from_frame(&frame).unwrap();
    assert_eq!(back, response);
}
