use binvis::codec::{
    decode_control, decode_data, decode_message, decode_sample_request, encode_data,
    encode_error, encode_message,
};
use binvis::protocol::{DataMessage, ErrorMessage, Message, MessageType};

fn sample_envelope() -> Message {
    Message {
        type_field: MessageType::Control,
        id: String::from("abc"),
        timestamp: 5,
        payload: vec![1, 2, 3],
    }
}

#[test]
fn encode_message_exact_bytes() {
    let encoded = encode_message(&sample_envelope());
    let expected: Vec<u8> = vec![
        0x84, // four-entry map
        0xa4, b't', b'y', b'p', b'e', 0xa7, b'c', b'o', b'n', b't', b'r', b'o', b'l',
        0xa2, b'i', b'd', 0xa3, b'a', b'b', b'c',
        0xa9, b't', b'i', b'm', b'e', b's', b't', b'a', b'm', b'p', 0x05,
        0xa7, b'p', b'a', b'y', b'l', b'o', b'a', b'd', 0xc4, 0x03, 0x01, 0x02, 0x03,
    ];
    assert_eq!(encoded, expected);
}

#[test]
fn encode_message_matches_reference_writer() {
    // The reference implementation of the wire format must produce the same
    // bytes for the same envelope.
    let encoded = encode_message(&sample_envelope());
    let mut expected: Vec<u8> = Vec::new();
    rmp::encode::write_map_len(&mut expected, 4).unwrap();
    rmp::encode::write_str(&mut expected, "type").unwrap();
    rmp::encode::write_str(&mut expected, "control").unwrap();
    rmp::encode::write_str(&mut expected, "id").unwrap();
    rmp::encode::write_str(&mut expected, "abc").unwrap();
    rmp::encode::write_str(&mut expected, "timestamp").unwrap();
    rmp::encode::write_uint(&mut expected, 5).unwrap();
    rmp::encode::write_str(&mut expected, "payload").unwrap();
    rmp::encode::write_bin(&mut expected, &[1, 2, 3]).unwrap();
    assert_eq!(encoded, expected);
}

#[test]
fn encode_data_matches_reference_writer() {
    let data_msg = DataMessage { offset: 262144, total: 1_000_000, chunk: vec![9; 70_000] };
    let encoded = encode_data(&data_msg);
    let mut expected: Vec<u8> = Vec::new();
    rmp::encode::write_map_len(&mut expected, 3).unwrap();
    rmp::encode::write_str(&mut expected, "offset").unwrap();
    rmp::encode::write_uint(&mut expected, 262144).unwrap();
    rmp::encode::write_str(&mut expected, "total").unwrap();
    rmp::encode::write_uint(&mut expected, 1_000_000).unwrap();
    rmp::encode::write_str(&mut expected, "chunk").unwrap();
    rmp::encode::write_bin(&mut expected, &vec![9u8; 70_000]).unwrap();
    assert_eq!(encoded, expected);
}

#[test]
fn message_round_trip() {
    let message = Message {
        type_field: MessageType::Data,
        id: String::from("0f8b3a60-1c24-4a5e-9d17-6b2f0c4d8e9a"),
        timestamp: 1_700_000_000,
        payload: vec![0u8; 300],
    };
    let encoded = encode_message(&message);
    let decoded = decode_message(&encoded).expect("round trip must succeed");
    assert_eq!(decoded.type_field, MessageType::Data);
    assert_eq!(decoded.id, message.id);
    assert_eq!(decoded.timestamp, message.timestamp);
    assert_eq!(decoded.payload, message.payload);
}

#[test]
fn data_round_trip() {
    let data_msg = DataMessage { offset: 0, total: 300, chunk: vec![7; 300] };
    let encoded = encode_data(&data_msg);
    let decoded = decode_data(&encoded).expect("round trip must succeed");
    assert_eq!(decoded.offset, 0);
    assert_eq!(decoded.total, 300);
    assert_eq!(decoded.chunk, vec![7; 300]);
}

#[test]
fn decode_rejects_garbage() {
    assert!(decode_message(&[]).is_none());
    assert!(decode_message(&[0x84, 0x00]).is_none());
    assert!(decode_message(b"not a frame").is_none());
    assert!(decode_data(&[0x83]).is_none());
    assert!(decode_control(&[0xff, 0xfe]).is_none());
    assert!(decode_sample_request(&[]).is_none());
}

#[test]
fn decode_rejects_trailing_bytes() {
    let mut encoded = encode_message(&sample_envelope());
    let clean = encoded.clone();
    assert!(decode_message(&clean).is_some());
    encoded.push(0x00);
    assert!(decode_message(&encoded).is_none());
}

#[test]
fn decode_control_splits_command_and_params() {
    // {command: "sample", params: {sample_size: 1000}}
    let mut payload: Vec<u8> = vec![0x82];
    payload.extend_from_slice(&[0xa7, b'c', b'o', b'm', b'm', b'a', b'n', b'd']);
    payload.extend_from_slice(&[0xa6, b's', b'a', b'm', b'p', b'l', b'e']);
    payload.extend_from_slice(&[0xa6, b'p', b'a', b'r', b'a', b'm', b's']);
    let params: Vec<u8> = vec![
        0x81, 0xab, b's', b'a', b'm', b'p', b'l', b'e', b'_', b's', b'i', b'z', b'e', 0xcd,
        0x03, 0xe8,
    ];
    payload.extend_from_slice(&params);
    let control = decode_control(&payload).expect("control payload must decode");
    assert_eq!(control.command, "sample");
    assert_eq!(control.params, Some(params.clone()));
    let request = decode_sample_request(&params).expect("params must decode");
    assert_eq!(request.sample_size, 1000);
    assert!(request.method.is_none());
}

#[test]
fn decode_control_nil_params_is_absent() {
    let mut payload: Vec<u8> = vec![0x82];
    payload.extend_from_slice(&[0xa7, b'c', b'o', b'm', b'm', b'a', b'n', b'd']);
    payload.extend_from_slice(&[0xa6, b's', b'a', b'm', b'p', b'l', b'e']);
    payload.extend_from_slice(&[0xa6, b'p', b'a', b'r', b'a', b'm', b's']);
    payload.push(0xc0);
    let control = decode_control(&payload).expect("control payload must decode");
    assert_eq!(control.command, "sample");
    assert!(control.params.is_none());
}

#[test]
fn decode_sample_request_with_method() {
    // {sample_size: 64, method: "uniform"}
    let mut params: Vec<u8> = vec![0x82];
    params.extend_from_slice(&[
        0xab, b's', b'a', b'm', b'p', b'l', b'e', b'_', b's', b'i', b'z', b'e', 0x40,
    ]);
    params.extend_from_slice(&[0xa6, b'm', b'e', b't', b'h', b'o', b'd']);
    params.extend_from_slice(&[0xa7, b'u', b'n', b'i', b'f', b'o', b'r', b'm']);
    let request = decode_sample_request(&params).expect("params must decode");
    assert_eq!(request.sample_size, 64);
    assert_eq!(request.method.as_deref(), Some("uniform"));
}

#[test]
fn encode_error_exact_bytes() {
    let error_msg =
        ErrorMessage { code: 400, message: String::from("Bad request: x"), details: None };
    let encoded = encode_error(&error_msg);
    let mut expected: Vec<u8> = vec![0x83];
    expected.extend_from_slice(&[0xa4, b'c', b'o', b'd', b'e', 0xcd, 0x01, 0x90]);
    expected.extend_from_slice(&[0xa7, b'm', b'e', b's', b's', b'a', b'g', b'e']);
    expected.push(0xae);
    expected.extend_from_slice(b"Bad request: x");
    expected.extend_from_slice(&[0xa7, b'd', b'e', b't', b'a', b'i', b'l', b's', 0xc0]);
    assert_eq!(encoded, expected);
}

#[test]
fn control_round_trip() {
    let params = vec![0x81, 0xab, b's', b'a', b'm', b'p', b'l', b'e', b'_', b's', b'i', b'z',
        b'e', 0x40];
    let control = binvis::protocol::ControlMessage {
        command: String::from("sample"),
        params: Some(params.clone()),
    };
    let encoded = binvis::codec::encode_control(&control);
    let decoded = decode_control(&encoded).expect("round trip must succeed");
    assert_eq!(decoded.command, "sample");
    assert_eq!(decoded.params, Some(params));
}

#[test]
fn sample_request_round_trip() {
    let request = binvis::protocol::SampleRequest { sample_size: 70_000, method: None };
    let encoded = binvis::codec::encode_sample_request(&request);
    let decoded = decode_sample_request(&encoded).expect("round trip must succeed");
    assert_eq!(decoded.sample_size, 70_000);
    assert!(decoded.method.is_none());

    let request = binvis::protocol::SampleRequest {
        sample_size: 9,
        method: Some(String::from("uniform")),
    };
    let encoded = binvis::codec::encode_sample_request(&request);
    let decoded = decode_sample_request(&encoded).expect("round trip must succeed");
    assert_eq!(decoded.sample_size, 9);
    assert_eq!(decoded.method.as_deref(), Some("uniform"));
}

#[test]
fn client_built_request_is_accepted_end_to_end() {
    // A client builds its request entirely with the library's encoders; the
    // session must accept it.
    let params = binvis::codec::encode_sample_request(&binvis::protocol::SampleRequest {
        sample_size: 512,
        method: None,
    });
    let payload = binvis::codec::encode_control(&binvis::protocol::ControlMessage {
        command: String::from("sample"),
        params: Some(params),
    });
    let frame = encode_message(&Message {
        type_field: MessageType::Control,
        id: String::from("c1a0"),
        timestamp: 1,
        payload,
    });
    let request = binvis::session::parse_request(&frame).expect("client frame must parse");
    assert_eq!(request.sample_size, 512);
}
