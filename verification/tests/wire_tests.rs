//! Frame and payload codec behaviour: round trips for every message
//! variant, and the rejection of truncated, oversized, unknown and
//! malformed buffers.

use peerkv::wire::{decode_frame, decode_payload, encode_frame, encode_payload, parse_header,
    Address, ProtocolError, WireMessage};

fn sample_messages() -> Vec<WireMessage> {
    vec![
        WireMessage::Handshake {
            node_identity: String::from("aa:bb:cc:dd:ee:ff"),
            reachable_address: Address { host: String::from("192.168.0.7"), port: 9000 },
        },
        WireMessage::Greeting,
        WireMessage::Heartbeat,
        WireMessage::HeartbeatAck,
        WireMessage::SetValue { key: String::from("colour"), value: String::from("teal") },
        WireMessage::GetValue { key: String::from("colour") },
        WireMessage::ValueResponse { value: Some(String::from("teal")) },
        WireMessage::ValueResponse { value: None },
        WireMessage::Sync { key: String::from("colour"), value: String::from("teal") },
    ]
}

fn frame_round_trip(m: WireMessage) -> WireMessage {
    let frame = encode_frame(&m).expect("encoding a small message succeeds");
    let (back, used) = decode_frame(&frame).expect("decoding the frame succeeds");
    assert_eq!(used, frame.len());
    back
}

#[test]
fn frame_round_trip_every_variant() {
    for m in sample_messages() {
        let copy = frame_round_trip(frame_round_trip_clone(&m));
        assert_eq!(copy, m);
    }
}

fn frame_round_trip_clone(m: &WireMessage) -> WireMessage {
    let frame = encode_frame(m).expect("encoding a small message succeeds");
    decode_frame(&frame).expect("decoding the frame succeeds").0
}

#[test]
fn frame_round_trip_empty_strings() {
    let m = WireMessage::SetValue { key: String::from(""), value: String::from("") };
    assert_eq!(frame_round_trip_clone(&m), m);
}

#[test]
fn frame_round_trip_multibyte_strings() {
    let m = WireMessage::Sync {
        key: String::from("gr\u{00fc}n\u{2603}"),
        value: String::from("\u{1f600} caf\u{00e9}"),
    };
    assert_eq!(frame_round_trip_clone(&m), m);
}

#[test]
fn payload_round_trip_handshake() {
    let m = WireMessage::Handshake {
        node_identity: String::from("node-1"),
        reachable_address: Address { host: String::from("10.0.0.2"), port: 9000 },
    };
    let payload = encode_payload(&m).unwrap();
    assert_eq!(decode_payload(&payload).unwrap(), m);
}

#[test]
fn every_truncation_of_a_frame_is_an_error() {
    let m = WireMessage::SetValue { key: String::from("k"), value: String::from("v") };
    let frame = encode_frame(&m).unwrap();
    for k in 0..frame.len() {
        let cut: Vec<u8> = frame[..k].to_vec();
        assert!(decode_frame(&cut).is_err(), "prefix of {} bytes must be rejected", k);
    }
}

#[test]
fn truncated_header_is_truncated_error() {
    let buf: Vec<u8> = vec![0, 0, 1];
    assert_eq!(decode_frame(&buf), Err(ProtocolError::Truncated));
}

#[test]
fn frame_shorter_than_declared_is_truncated_error() {
    let buf: Vec<u8> = vec![0, 0, 0, 5, 2];
    assert_eq!(decode_frame(&buf), Err(ProtocolError::Truncated));
}

#[test]
fn oversized_declared_length_is_oversized_error() {
    let buf: Vec<u8> = vec![0, 1, 0, 1];
    assert_eq!(parse_header(&buf), Err(ProtocolError::Oversized));
    let mut framed: Vec<u8> = vec![0, 1, 0, 1];
    framed.extend(std::iter::repeat(0u8).take(70000));
    assert_eq!(decode_frame(&framed), Err(ProtocolError::Oversized));
}

#[test]
fn parse_header_reads_big_endian_length() {
    let buf: Vec<u8> = vec![0, 0, 1, 2];
    assert_eq!(parse_header(&buf), Ok(258));
    let short: Vec<u8> = vec![0, 0, 1];
    assert_eq!(parse_header(&short), Err(ProtocolError::Truncated));
}

#[test]
fn unknown_tag_is_unknown_tag_error() {
    let payload: Vec<u8> = vec![9];
    assert_eq!(decode_payload(&payload), Err(ProtocolError::UnknownTag));
    let framed: Vec<u8> = vec![0, 0, 0, 1, 42];
    assert_eq!(decode_frame(&framed), Err(ProtocolError::UnknownTag));
}

#[test]
fn empty_payload_is_truncated_error() {
    let payload: Vec<u8> = vec![];
    assert_eq!(decode_payload(&payload), Err(ProtocolError::Truncated));
}

#[test]
fn invalid_utf8_field_is_malformed_error() {
    let payload: Vec<u8> = vec![6, 0, 0, 0, 1, 0xFF];
    assert_eq!(decode_payload(&payload), Err(ProtocolError::Malformed));
}

#[test]
fn trailing_bytes_are_malformed_error() {
    let mut payload = encode_payload(&WireMessage::Greeting).unwrap();
    payload.push(0);
    assert_eq!(decode_payload(&payload), Err(ProtocolError::Malformed));
}

#[test]
fn string_field_running_past_payload_is_truncated_error() {
    let payload: Vec<u8> = vec![6, 0, 0, 0, 9, b'a', b'b'];
    assert_eq!(decode_payload(&payload), Err(ProtocolError::Truncated));
}

#[test]
fn bad_option_flag_is_malformed_error() {
    let payload: Vec<u8> = vec![7, 2];
    assert_eq!(decode_payload(&payload), Err(ProtocolError::Malformed));
}

#[test]
fn message_larger_than_frame_bound_is_oversized() {
    let big = "x".repeat(70000);
    let m = WireMessage::SetValue { key: String::from("k"), value: big };
    assert_eq!(encode_payload(&m), Err(ProtocolError::Oversized));
    assert_eq!(encode_frame(&m), Err(ProtocolError::Oversized));
}

#[test]
fn encoding_is_length_prefixed_and_tagged() {
    let frame = encode_frame(&WireMessage::Heartbeat).unwrap();
    assert_eq!(frame, vec![0, 0, 0, 1, 3]);
    let frame = encode_frame(&WireMessage::GetValue { key: String::from("ab") }).unwrap();
    assert_eq!(frame, vec![0, 0, 0, 7, 6, 0, 0, 0, 2, b'a', b'b']);
}
