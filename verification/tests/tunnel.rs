use entrouter_line::edge::{edge_of, EdgeKind, QUIC_FLOW_ID_BASE};
use entrouter_line::relay::crypto::{can_seal, key_from_hex, TunnelCrypto, TAG_SIZE};
use entrouter_line::relay::fec::{FecConfig, FecEncoder};
use entrouter_line::relay::tunnel::{fec_packets, loss_step, parse_frame, receive_step, seal_frame};
use entrouter_line::relay::wire::{self, decode_header, encode_header, HEADER_SIZE};

const KEY: [u8; 32] = [7u8; 32];

#[test]
fn header_layout_and_roundtrip() {
    let mut buf = [0xAAu8; 8];
    encode_header(&mut buf, wire::PACKET_PONG, 0x1234, 0x0506);
    assert_eq!(buf, [4, 0x34, 0x12, 0x06, 0x05, 0xAA, 0xAA, 0xAA]);
    assert_eq!(decode_header(&buf), (4, 0x1234, 0x0506));
    assert_eq!(HEADER_SIZE, 5);
}

#[test]
fn sealed_payload_opens_with_same_key_and_seq() {
    let c = TunnelCrypto::new(&KEY);
    let ct = c.encrypt(9, b"payload");
    assert!(can_seal(b"payload"));
    assert_eq!(ct.len(), 7 + TAG_SIZE);
    assert_ne!(&ct[..7], b"payload");
    assert_eq!(c.decrypt(9, &ct).unwrap(), b"payload".to_vec());
}

#[test]
fn wrong_seq_key_or_tampering_fails_to_open() {
    let c = TunnelCrypto::new(&KEY);
    let ct = c.encrypt(9, b"payload");
    assert!(c.decrypt(10, &ct).is_err());
    let other = TunnelCrypto::new(&[8u8; 32]);
    assert!(other.decrypt(9, &ct).is_err());
    let mut bad = ct.clone();
    bad[0] ^= 1;
    assert!(c.decrypt(9, &bad).is_err());
    assert!(c.decrypt(9, &[1, 2, 3]).is_err());
    assert_eq!(c.decrypt(9, &[1, 2, 3]).unwrap_err().message(), "authentication failed");
}

#[test]
fn sequence_number_changes_the_ciphertext() {
    let c = TunnelCrypto::new(&KEY);
    assert_ne!(c.encrypt(1, b"same"), c.encrypt(2, b"same"));
    assert_eq!(c.encrypt(1, b"same"), c.encrypt(1, b"same"));
}

#[test]
fn frame_roundtrip_through_parse_and_decrypt() {
    let c = TunnelCrypto::new(&KEY);
    let frame = seal_frame(&c, wire::PACKET_DATA, 300, b"hello");
    assert_eq!(frame.len(), HEADER_SIZE + 5 + TAG_SIZE);
    assert_eq!(&frame[..5], &[1, 44, 1, 21, 0]);
    let (t, seq, ct) = parse_frame(&frame).unwrap();
    assert_eq!((t, seq), (wire::PACKET_DATA, 300));
    assert_eq!(c.decrypt(seq, ct).unwrap(), b"hello".to_vec());
}

#[test]
fn short_or_truncated_datagrams_are_dropped() {
    assert!(parse_frame(&[1, 0, 0, 0]).is_none());
    assert!(parse_frame(&[1, 0, 0, 3, 0, 9, 9]).is_none());
    let (t, seq, ct) = parse_frame(&[2, 1, 0, 2, 0, 9, 8, 7]).unwrap();
    assert_eq!((t, seq, ct), (2, 1, &[9u8, 8][..]));
}

#[test]
fn fec_packets_split_pad_and_protect() {
    let config = FecConfig { data_shards: 3, parity_shards: 2 };
    let out = fec_packets(&[1, 2, 3, 4, 5, 6, 7], config).unwrap();
    assert_eq!(out.len(), 5);
    assert_eq!(out[0], (wire::PACKET_DATA, vec![1, 2, 3]));
    assert_eq!(out[1], (wire::PACKET_DATA, vec![4, 5, 6]));
    assert_eq!(out[2], (wire::PACKET_DATA, vec![7, 0, 0]));
    assert_eq!(out[3].0, wire::PACKET_PARITY);
    assert_eq!(out[4].0, wire::PACKET_PARITY);
    let mut expect = vec![vec![1, 2, 3], vec![4, 5, 6], vec![7, 0, 0]];
    FecEncoder::new(config).encode(&mut expect).unwrap();
    assert_eq!(out[3].1, expect[3]);
    assert_eq!(out[4].1, expect[4]);
}

#[test]
fn fec_packets_pad_missing_data_shards() {
    let config = FecConfig { data_shards: 4, parity_shards: 1 };
    let out = fec_packets(&[9], config).unwrap();
    assert_eq!(out.len(), 5);
    assert_eq!(out[0].1, vec![9]);
    assert_eq!(out[3].1, vec![0]);
    let mut expect = vec![vec![9], vec![0], vec![0], vec![0]];
    FecEncoder::new(config).encode(&mut expect).unwrap();
    assert_eq!(out[4], (wire::PACKET_PARITY, expect[4].clone()));
}

#[test]
fn fec_packets_refuse_invalid_shape() {
    let config = FecConfig { data_shards: 2, parity_shards: 0 };
    assert!(fec_packets(&[1, 2, 3], config).is_err());
}

#[test]
fn deliveries_route_by_flow_id() {
    assert_eq!(edge_of(1), EdgeKind::Tcp);
    assert_eq!(edge_of(QUIC_FLOW_ID_BASE - 1), EdgeKind::Tcp);
    assert_eq!(edge_of(QUIC_FLOW_ID_BASE), EdgeKind::Quic);
    assert_eq!(edge_of(u32::MAX), EdgeKind::Quic);
}

#[test]
fn hex_keys_are_read_high_nibble_first() {
    let text = "00ff10Ab".repeat(8);
    let key = key_from_hex(text.as_bytes()).unwrap();
    assert_eq!(&key[..4], &[0x00, 0xff, 0x10, 0xab]);
    assert_eq!(key[31], 0xab);
    assert!(key_from_hex(&text.as_bytes()[..62]).is_none());
    let mut bad = text.into_bytes();
    bad[5] = b'g';
    assert!(key_from_hex(&bad).is_none());
}

#[test]
fn loss_step_counts_skipped_sequence_numbers() {
    assert_eq!(loss_step(0, 0), (1, 0));
    assert_eq!(loss_step(3, 5), (6, 2));
    assert_eq!(loss_step(65534, 1), (2, 3));
    assert_eq!(loss_step(7, 65535), (0, 65528));
    assert_eq!(loss_step(9, 8), (9, 65535));
}

#[test]
fn receive_step_records_gaps_arrivals_and_failures() {
    let c = TunnelCrypto::new(&KEY);
    // too short: ignored
    assert_eq!(receive_step(&c, 4, &[1, 2, 3]), (4, vec![], None));
    // truncated: one loss, expectation kept
    assert_eq!(receive_step(&c, 4, &[1, 0, 0, 9, 0, 1]), (4, vec![false], None));
    // in order
    let f = seal_frame(&c, wire::PACKET_DATA, 4, b"abc");
    assert_eq!(receive_step(&c, 4, &f), (5, vec![true], Some((wire::PACKET_DATA, 4, b"abc".to_vec()))));
    // two skipped
    let f = seal_frame(&c, wire::PACKET_PING, 7, b"x");
    assert_eq!(receive_step(&c, 5, &f), (8, vec![false, false, true], Some((wire::PACKET_PING, 7, b"x".to_vec()))));
    // fails to open under another key
    let other = TunnelCrypto::new(&[1u8; 32]);
    assert_eq!(receive_step(&other, 7, &f), (8, vec![true, false], None));
}
