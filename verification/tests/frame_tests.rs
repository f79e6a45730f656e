use ringstore::error::Error;
use ringstore::protocol::frame::{Flags, Frame, Opcode, Version};

#[test]
fn new_should_create_frame() {
    let actual = vec![0u8; 1];
    let expected = actual.clone();

    let frame = Frame::new(
        Version::Request,
        None,
        None,
        Opcode::Query,
        actual.len() as u32,
        actual,
    );

    assert_eq!(frame.version, Version::Request);
    assert_eq!(frame.flags, Flags::Empty);
    assert_eq!(frame.stream, 0);
    assert_eq!(frame.opcode, Opcode::Query);
    assert_eq!(frame.length, expected.len() as u32);
    assert_eq!(frame.body, expected);
}

#[test]
fn encode_should_return_bytes() {
    let body = vec![0u8; 1];

    let frame = Frame::new(
        Version::Request,
        Some(Flags::CustomPayload),
        Some(1234),
        Opcode::Query,
        body.len() as u32,
        body,
    );
    let encoded_frame_result = frame.encode();

    assert_eq!(encoded_frame_result.is_ok(), true);

    let encoded_frame = encoded_frame_result.unwrap();
    assert_eq!(encoded_frame[0], 0x04);
    assert_eq!(encoded_frame[1], 0x04);
    assert_eq!(
        i16::from_be_bytes([encoded_frame[2], encoded_frame[3]]),
        1234
    );
    assert_eq!(encoded_frame[4], 0x07);
    assert_eq!(
        u32::from_be_bytes([
            encoded_frame[5],
            encoded_frame[6],
            encoded_frame[7],
            encoded_frame[8]
        ]),
        1
    );
    assert_eq!(encoded_frame[9..10], vec![0u8; 1]);
}

#[test]
fn decode_should_return_bytes() {
    let body = "test data".as_bytes().to_vec();
    let expected_body = body.clone();
    let frame = Frame::new(
        Version::Request,
        Some(Flags::CustomPayload),
        Some(1234),
        Opcode::Query,
        body.len() as u32,
        body,
    );
    let encoded_frame_result = frame.encode();

    assert_eq!(encoded_frame_result.is_ok(), true);

    let encoded = encoded_frame_result.unwrap();

    let decoded_frame_result = Frame::decode(&encoded);
    assert_eq!(decoded_frame_result.is_ok(), true);

    let decoded_frame = decoded_frame_result.unwrap();
    assert_eq!(decoded_frame.version, Version::Request);
    assert_eq!(decoded_frame.flags, Flags::CustomPayload);
    assert_eq!(decoded_frame.stream, 1234);
    assert_eq!(decoded_frame.opcode, Opcode::Query);
    assert_eq!(decoded_frame.length, expected_body.len() as u32);
    assert_eq!(decoded_frame.body, expected_body);
}

#[test]
fn frame_encode_layout() {
    let frame = Frame::new(
        Version::Request,
        Some(Flags::CustomPayload),
        Some(1234),
        Opcode::Query,
        1,
        vec![0u8],
    );
    let bytes = frame.encode().unwrap();
    assert_eq!(
        &bytes[..10],
        &[0x04, 0x04, 0x04, 0xD2, 0x07, 0x00, 0x00, 0x00, 0x01, 0x00]
    );
}

#[test]
fn frame_round_trip_all_header_kinds() {
    let versions = [Version::Request, Version::Response];
    let flags = [
        Flags::Empty,
        Flags::Compression,
        Flags::Tracing,
        Flags::CustomPayload,
        Flags::Warning,
    ];
    let opcodes = [
        Opcode::Error,
        Opcode::Startup,
        Opcode::Ready,
        Opcode::Authenticate,
        Opcode::Options,
        Opcode::Supported,
        Opcode::Query,
        Opcode::Result,
        Opcode::Prepare,
        Opcode::Execute,
        Opcode::Register,
        Opcode::Event,
        Opcode::Batch,
        Opcode::AuthChallenge,
        Opcode::AuthResponse,
        Opcode::AuthSuccess,
    ];
    for v in versions {
        for f in flags {
            for o in opcodes {
                let body = vec![1u8, 2, 3];
                let frame = Frame::new(v, Some(f), Some(777), o, 3, body.clone());
                let bytes = frame.encode().unwrap();
                let back = Frame::decode(&bytes).unwrap();
                assert_eq!(back.version, v);
                assert_eq!(back.flags, f);
                assert_eq!(back.stream, 777);
                assert_eq!(back.opcode, o);
                assert_eq!(back.length, 3);
                assert_eq!(back.body, body);
            }
        }
    }
}

#[test]
fn decode_rejects_malformed_frames() {
    // too short for a header: a parse error
    assert!(matches!(Frame::decode(&[0x04, 0x00]), Err(Error::ParseError)));
    // unknown version byte
    let bad_version = [0x05, 0x00, 0x00, 0x00, 0x07, 0, 0, 0, 0];
    assert!(matches!(Frame::decode(&bad_version), Err(Error::ParseError)));
    // unknown flags byte
    let bad_flags = [0x04, 0x03, 0x00, 0x00, 0x07, 0, 0, 0, 0];
    assert!(matches!(Frame::decode(&bad_flags), Err(Error::ParseError)));
    // unknown opcode byte
    let bad_opcode = [0x04, 0x00, 0x00, 0x00, 0x44, 0, 0, 0, 0];
    assert!(matches!(Frame::decode(&bad_opcode), Err(Error::ParseError)));
    // announced body longer than the buffer
    let short_body = [0x04, 0x00, 0x00, 0x00, 0x07, 0, 0, 0, 2, 9];
    assert!(matches!(Frame::decode(&short_body), Err(Error::ParseError)));
}

#[test]
fn decode_length_reads_the_length_field() {
    let header = [0x04, 0x00, 0x00, 0x00, 0x07, 0x00, 0x01, 0x02, 0x03];
    assert_eq!(Frame::decode_length(&header).unwrap(), 0x00010203);
    assert!(matches!(
        Frame::decode_length(&header[..5]),
        Err(Error::ConnectionError(None))
    ));
}
