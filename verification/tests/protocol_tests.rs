use kglite_visual::protocol::{
    chunk_bytes, decode_frame, MessageType, ProtocolError, ResponseEncoder, CHUNK_TARGET_BYTES,
    HEADER_BYTES, PROTOCOL_VERSION, RECORD_BYTES,
};

fn f32_bytes(values: &[f32]) -> Vec<u8> {
    let mut out = Vec::with_capacity(values.len() * 4);
    for v in values {
        out.extend_from_slice(&v.to_le_bytes());
    }
    out
}

fn f32_values(bytes: &[u8]) -> Vec<f32> {
    bytes
        .chunks_exact(4)
        .map(|b| f32::from_le_bytes([b[0], b[1], b[2], b[3]]))
        .collect()
}

#[test]
fn json_frame_round_trips() {
    let frames = {
        let mut enc = ResponseEncoder::new();
        enc.push_json(MessageType::SessionInfo, r#"{"a":1}"#);
        enc.finish()
    };
    assert_eq!(frames.len(), 1);
    let decoded = decode_frame(&frames[0]).expect("round trip");
    assert_eq!(decoded.msg_type, MessageType::SessionInfo);
    assert_eq!(decoded.seq, 0);
    assert!(decoded.terminal);
    assert_eq!(decoded.payload, br#"{"a":1}"#);
}

#[test]
fn every_frame_is_four_byte_aligned() {
    let mut enc = ResponseEncoder::new();
    enc.push_json(MessageType::Error, r#"{"e":1}"#);
    enc.push_array_bytes(MessageType::Points, &f32_bytes(&[1.0, 2.0]));
    for frame in enc.finish() {
        assert_eq!(frame.len() % 4, 0, "frame length must be a multiple of 4");
    }
}

#[test]
fn f32_payload_round_trips_bit_exactly() {
    let values: Vec<f32> = (0..1000).map(|i| i as f32 * 0.5).collect();
    let mut enc = ResponseEncoder::new();
    enc.push_array_bytes(MessageType::Points, &f32_bytes(&values));
    let frames = enc.finish();
    assert_eq!(frames.len(), 1, "4 KB fits in one chunk");
    let decoded = decode_frame(&frames[0]).unwrap();
    assert_eq!(f32_values(&decoded.payload), values);
}

#[test]
fn a_large_array_chunks_and_reassembles_by_offset() {
    let values: Vec<f32> = (0..400_000).map(|i| i as f32).collect();
    let mut enc = ResponseEncoder::new();
    enc.push_array_bytes(MessageType::Points, &f32_bytes(&values));
    let frames = enc.finish();
    assert!(frames.len() > 3, "expected several chunks, got {}", frames.len());
    let mut reassembled = vec![0u8; values.len() * 4];
    for (i, frame) in frames.iter().enumerate() {
        let d = decode_frame(frame).unwrap();
        assert_eq!(d.seq, i as u32);
        assert_eq!(d.terminal, i == frames.len() - 1);
        assert_eq!(d.payload.len() % RECORD_BYTES, 0, "a chunk never splits a record");
        let at = d.payload_offset as usize;
        reassembled[at..at + d.payload.len()].copy_from_slice(&d.payload);
    }
    assert_eq!(f32_values(&reassembled), values);
}

#[test]
fn an_empty_array_still_emits_a_frame() {
    let mut enc = ResponseEncoder::new();
    enc.push_array_bytes(MessageType::Links, &[]);
    let frames = enc.finish();
    assert_eq!(frames.len(), 1);
    let d = decode_frame(&frames[0]).unwrap();
    assert!(d.payload.is_empty());
    assert!(d.terminal);
}

#[test]
fn a_version_mismatch_fails_decode_loudly() {
    let mut enc = ResponseEncoder::new();
    enc.push_json(MessageType::SessionInfo, "{}");
    let mut frame = enc.finish().remove(0);
    frame[0..4].copy_from_slice(&(PROTOCOL_VERSION + 1).to_le_bytes());
    let err = decode_frame(&frame).expect_err("a foreign version must not decode");
    assert_eq!(
        err,
        ProtocolError::VersionMismatch { expected: PROTOCOL_VERSION, found: PROTOCOL_VERSION + 1 }
    );
    let message = err.message();
    assert!(
        message.contains("protocol version mismatch"),
        "the message a user sees must name the cause: {message}"
    );
}

#[test]
fn a_version_mismatch_wins_over_every_other_defect() {
    let mut frame = vec![0u8; HEADER_BYTES];
    frame[0..4].copy_from_slice(&99u32.to_le_bytes());
    frame[4..8].copy_from_slice(&4242u32.to_le_bytes());
    frame[12..16].copy_from_slice(&0xffff_ffffu32.to_le_bytes());
    assert_eq!(
        decode_frame(&frame),
        Err(ProtocolError::VersionMismatch { expected: PROTOCOL_VERSION, found: 99 })
    );
}

#[test]
fn malformed_frames_are_refused() {
    assert_eq!(decode_frame(&[0u8; 8]), Err(ProtocolError::TooShort { got: 8 }));
    let base = {
        let mut enc = ResponseEncoder::new();
        enc.push_json(MessageType::SessionInfo, "{}");
        enc.finish().remove(0)
    };
    let mut bad_type = base.clone();
    bad_type[4..8].copy_from_slice(&77u32.to_le_bytes());
    assert_eq!(decode_frame(&bad_type), Err(ProtocolError::UnknownMessageType(77)));
    let mut bad_flags = base.clone();
    bad_flags[12..16].copy_from_slice(&0b110u32.to_le_bytes());
    assert_eq!(decode_frame(&bad_flags), Err(ProtocolError::UnknownFlags(0b110)));
    let mut long_len = base.clone();
    long_len[16..20].copy_from_slice(&999u32.to_le_bytes());
    assert_eq!(
        decode_frame(&long_len),
        Err(ProtocolError::LengthMismatch { declared: 999, available: 4 })
    );
    let mut unpadded = base.clone();
    unpadded[16..20].copy_from_slice(&0u32.to_le_bytes());
    assert_eq!(decode_frame(&unpadded), Err(ProtocolError::BadPadding));
}

#[test]
fn message_type_codes_are_frozen_for_v1() {
    assert_eq!(MessageType::MetaGraphMeta.code(), 1);
    assert_eq!(MessageType::Points.code(), 2);
    assert_eq!(MessageType::Links.code(), 3);
    assert_eq!(MessageType::SessionInfo.code(), 4);
    assert_eq!(MessageType::Error.code(), 5);
    assert_eq!(MessageType::ALL.len(), 5, "a new variant must join ALL");
}

#[test]
fn the_chunk_target_stays_inside_the_plans_window() {
    assert!((256 * 1024..=1024 * 1024).contains(&CHUNK_TARGET_BYTES));
    assert_eq!(chunk_bytes() % RECORD_BYTES, 0);
}

#[test]
fn every_code_decodes_back_to_its_type() {
    for m in MessageType::ALL {
        assert_eq!(MessageType::from_code(m.code()), Some(m));
    }
    assert_eq!(MessageType::from_code(0), None);
    assert_eq!(MessageType::from_code(6), None);
    assert_eq!(MessageType::Points.ts_name(), "POINTS");
}

#[test]
fn refusal_messages_name_their_numbers() {
    assert_eq!(
        ProtocolError::TooShort { got: 8 }.message(),
        "frame is 8 bytes, shorter than the 24-byte header"
    );
    assert_eq!(
        ProtocolError::VersionMismatch { expected: 1, found: 2 }.message(),
        "protocol version mismatch: this build speaks v1, the frame declares v2"
    );
    assert_eq!(ProtocolError::UnknownMessageType(77).message(), "unknown message type 77");
}

#[test]
fn a_json_frame_is_header_payload_and_zero_padding() {
    let mut enc = ResponseEncoder::new();
    enc.push_json(MessageType::Error, "abcde");
    let frames = enc.finish();
    let f = &frames[0];
    assert_eq!(f.len(), 24 + 8);
    assert_eq!(&f[0..4], &1u32.to_le_bytes());
    assert_eq!(&f[4..8], &5u32.to_le_bytes());
    assert_eq!(&f[12..16], &1u32.to_le_bytes(), "the only frame is terminal");
    assert_eq!(&f[16..20], &5u32.to_le_bytes());
    assert_eq!(&f[24..29], b"abcde");
    assert_eq!(&f[29..32], &[0, 0, 0]);
}
