use binvis::cache::Cache;
use binvis::codec::{decode_data, decode_message};
use binvis::errors::AppError;
use binvis::protocol::MessageType;
use binvis::session::{
    build_data_frames, build_error_frame, cached_sample, chunk_sample, parse_request,
    sample_and_store, CHUNK_SIZE,
};

fn control_frame(command: &str, params: Option<&[u8]>) -> Vec<u8> {
    let mut payload: Vec<u8> = vec![0x82];
    payload.extend_from_slice(&[0xa7, b'c', b'o', b'm', b'm', b'a', b'n', b'd']);
    assert!(command.len() < 32);
    payload.push(0xa0 + command.len() as u8);
    payload.extend_from_slice(command.as_bytes());
    payload.extend_from_slice(&[0xa6, b'p', b'a', b'r', b'a', b'm', b's']);
    match params {
        None => payload.push(0xc0),
        Some(p) => payload.extend_from_slice(p),
    }
    envelope(MessageType::Control, &payload)
}

fn envelope(kind: MessageType, payload: &[u8]) -> Vec<u8> {
    let mut frame: Vec<u8> = vec![0x84];
    frame.extend_from_slice(&[0xa4, b't', b'y', b'p', b'e']);
    match kind {
        MessageType::Data => frame.extend_from_slice(&[0xa4, b'd', b'a', b't', b'a']),
        MessageType::Control => {
            frame.extend_from_slice(&[0xa7, b'c', b'o', b'n', b't', b'r', b'o', b'l'])
        }
        MessageType::Error => frame.extend_from_slice(&[0xa5, b'e', b'r', b'r', b'o', b'r']),
    }
    frame.extend_from_slice(&[0xa2, b'i', b'd', 0xa1, b'x']);
    frame.extend_from_slice(&[
        0xa9, b't', b'i', b'm', b'e', b's', b't', b'a', b'm', b'p', 0x07,
    ]);
    frame.extend_from_slice(&[0xa7, b'p', b'a', b'y', b'l', b'o', b'a', b'd']);
    assert!(payload.len() < 256);
    frame.extend_from_slice(&[0xc4, payload.len() as u8]);
    frame.extend_from_slice(payload);
    frame
}

fn sample_params(size: u64) -> Vec<u8> {
    let mut params: Vec<u8> = vec![0x81];
    params.extend_from_slice(&[
        0xab, b's', b'a', b'm', b'p', b'l', b'e', b'_', b's', b'i', b'z', b'e',
    ]);
    if size < 0x80 {
        params.push(size as u8);
    } else {
        params.push(0xcd);
        params.push((size >> 8) as u8);
        params.push(size as u8);
    }
    params
}

#[test]
fn sample_request_is_accepted() {
    let frame = control_frame("sample", Some(&sample_params(1000)));
    let request = parse_request(&frame).expect("sample command must parse");
    assert_eq!(request.sample_size, 1000);
    assert!(request.method.is_none());
}

#[test]
fn unknown_command_yields_bad_request_error_frame() {
    // Unknown control command "foo": the session must answer with exactly one
    // Error frame carrying a bad-request code, then close.
    let frame = control_frame("foo", Some(&sample_params(1000)));
    let err = parse_request(&frame).expect_err("unknown command must be rejected");
    match &err {
        AppError::BadRequest(msg) => assert!(msg.contains("foo")),
        AppError::InvalidMessage | AppError::FileNotFound(_) | AppError::FileTooLarge(_) | AppError::FileAccess(_) | AppError::SamplingFailed(_) | AppError::InvalidSampleSize(_) | AppError::Internal(_) | AppError::ConnectionClosed => panic!("expected BadRequest"),
    }
    let error_frame = build_error_frame(&err);
    let decoded = decode_message(&error_frame).expect("error frame must decode");
    assert_eq!(decoded.type_field, MessageType::Error);
    // The payload starts with {code: 400, ...}: a three-entry map, the "code"
    // key, and 400 as a two-byte unsigned integer.
    let expected_start = [0xa4, b'c', b'o', b'd', b'e', 0xcd, 0x01, 0x90];
    assert_eq!(decoded.payload[0], 0x83);
    assert_eq!(&decoded.payload[1..9], &expected_start);
}

#[test]
fn missing_params_is_bad_request() {
    let frame = control_frame("sample", None);
    match parse_request(&frame) {
        Err(AppError::BadRequest(_)) => {}
        _ => panic!("expected BadRequest"),
    }
}

#[test]
fn malformed_params_is_bad_request() {
    let frame = control_frame("sample", Some(&[0xff, 0x00]));
    match parse_request(&frame) {
        Err(AppError::BadRequest(_)) => {}
        _ => panic!("expected BadRequest"),
    }
}

#[test]
fn non_control_frame_is_invalid_message() {
    let frame = envelope(MessageType::Data, &[0x01, 0x02]);
    match parse_request(&frame) {
        Err(AppError::InvalidMessage) => {}
        _ => panic!("expected InvalidMessage"),
    }
}

#[test]
fn undecodable_frame_is_invalid_message() {
    match parse_request(b"junk") {
        Err(AppError::InvalidMessage) => {}
        _ => panic!("expected InvalidMessage"),
    }
}

#[test]
fn chunks_reassemble_to_sample() {
    let sample: Vec<u8> = (0..=255u8).cycle().take(10_000).collect();
    let chunks = chunk_sample(&sample, 4096);
    assert_eq!(chunks.len(), 3);
    let mut reassembled: Vec<u8> = Vec::new();
    for (i, chunk) in chunks.iter().enumerate() {
        assert_eq!(chunk.offset, i * 4096);
        assert_eq!(chunk.total, sample.len());
        reassembled.extend_from_slice(&chunk.chunk);
    }
    assert_eq!(reassembled, sample);
    let last = chunks.last().unwrap();
    assert_eq!(last.offset + last.chunk.len(), last.total);
}

#[test]
fn data_frames_reassemble_to_sample() {
    // The full streaming path: frames decoded from the wire, ordered by
    // offset, concatenate back to the exact sample, and the last chunk ends
    // at `total`.
    let sample: Vec<u8> = (0..=255u8).cycle().take(CHUNK_SIZE * 2 + 123).collect();
    let frames = build_data_frames(&sample);
    assert_eq!(frames.len(), 3);
    let mut reassembled: Vec<u8> = Vec::new();
    let mut previous_offset: Option<usize> = None;
    for frame in &frames {
        let message = decode_message(frame).expect("data frame must decode");
        assert_eq!(message.type_field, MessageType::Data);
        assert_eq!(message.id.len(), 36, "frame ids are canonical 36-character identifiers");
        let data_msg = decode_data(&message.payload).expect("data payload must decode");
        assert_eq!(data_msg.total, sample.len());
        if let Some(prev) = previous_offset {
            assert!(data_msg.offset > prev, "offsets must strictly increase");
        }
        previous_offset = Some(data_msg.offset);
        assert_eq!(data_msg.offset, reassembled.len());
        reassembled.extend_from_slice(&data_msg.chunk);
    }
    assert_eq!(reassembled, sample);
}

#[test]
fn empty_sample_builds_no_frames() {
    let frames = build_data_frames(&[]);
    assert!(frames.is_empty());
}

#[test]
fn oversize_request_is_rejected_before_any_work() {
    let mut cache = Cache::new(1000);
    match cached_sample(&mut cache, "f", 2048, 1024) {
        Err(AppError::InvalidSampleSize(size)) => assert_eq!(size, 2048),
        _ => panic!("expected InvalidSampleSize"),
    }
    assert_eq!(cache.stats().entries, 0);
}

#[test]
fn miss_then_store_then_hit() {
    let mut cache = Cache::new(100_000);
    let data: Vec<u8> = (0..=255u8).cycle().take(5_000).collect();
    let first = cached_sample(&mut cache, "file-1", 64, 1024).expect("size is acceptable");
    assert!(first.is_none(), "first lookup must miss");
    let sampled = sample_and_store(&mut cache, "file-1", 64, &data);
    assert!(sampled.len() <= 64.max(data.len()));
    let second = cached_sample(&mut cache, "file-1", 64, 1024).expect("size is acceptable");
    assert_eq!(second, Some(sampled), "second lookup must hit with the stored bytes");
}

#[test]
fn error_descriptions_and_codes() {
    let err = AppError::FileTooLarge(5);
    assert_eq!(err.describe(), "File too large: 5 bytes");
    assert_eq!(err.status_code(), 413);
    let err = AppError::BadRequest(String::from("x"));
    assert_eq!(err.describe(), "Bad request: x");
    assert_eq!(err.status_code(), 400);
    let err = AppError::FileNotFound(String::from("abc"));
    assert_eq!(err.describe(), "File not found: abc");
    assert_eq!(err.status_code(), 404);
    let err = AppError::InvalidSampleSize(4096);
    assert_eq!(err.describe(), "Invalid sample size: 4096");
    assert_eq!(err.status_code(), 400);
    assert_eq!(AppError::InvalidMessage.status_code(), 500);
    assert_eq!(AppError::InvalidMessage.describe(), "Invalid message format");
    assert_eq!(AppError::ConnectionClosed.describe(), "Connection closed");
}

#[test]
fn config_defaults() {
    let config = binvis::config::Config::default();
    assert_eq!(config.port, 3000);
    assert_eq!(config.max_file_size, 10 * 1024 * 1024 * 1024);
    assert_eq!(config.max_sample_size, 128 * 1024 * 1024);
    assert_eq!(config.cache_size, 512 * 1024 * 1024);
    assert_eq!(config.max_connections, 100);
    assert_eq!(config.upload_dir, "./uploads");
}
