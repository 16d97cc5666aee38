use entrouter_line::relay::forwarder::{decode_relay_header, encode_relay_header};

#[test]
fn relay_header_roundtrip() {
    let data = b"hello world";
    let encoded = encode_relay_header(42, "syd-01", data);
    let (flow_id, dest, payload) = decode_relay_header(&encoded).unwrap();
    assert_eq!(flow_id, 42);
    assert_eq!(dest, "syd-01");
    assert_eq!(payload, data);
}

#[test]
fn relay_header_empty_data() {
    let encoded = encode_relay_header(0, "lon", &[]);
    let (flow_id, dest, payload) = decode_relay_header(&encoded).unwrap();
    assert_eq!(flow_id, 0);
    assert_eq!(dest, "lon");
    assert!(payload.is_empty());
}

#[test]
fn relay_header_too_short() {
    assert!(decode_relay_header(&[0, 1, 2]).is_none());
}

use entrouter_line::relay::fec::FecConfig;
use entrouter_line::relay::fec_codec::FecSender;
use entrouter_line::relay::forwarder::{Forwarder, ForwarderError, RelayAction};
use entrouter_line::relay::wire;

fn config() -> FecConfig {
    FecConfig {
        data_shards: 2,
        parity_shards: 1,
    }
}

#[test]
fn ping_is_answered_with_pong() {
    let mut f = Forwarder::new("syd".to_string(), config());
    f.add_tunnel("lon");
    let actions = f.handle_inbound("lon", wire::PACKET_PING, &[1, 2, 3, 4]);
    assert_eq!(actions.len(), 1);
    match &actions[0] {
        RelayAction::SendPacket { peer, packet_type, payload } => {
            assert_eq!(peer, "lon");
            assert_eq!(*packet_type, wire::PACKET_PONG);
            assert_eq!(payload, &vec![1, 2, 3, 4]);
        }
        _ => panic!("expected a PONG"),
    }
}

#[test]
fn pong_goes_to_prober_and_control_is_dropped() {
    let mut f = Forwarder::new("syd".to_string(), config());
    f.add_tunnel("lon");
    let actions = f.handle_inbound("lon", wire::PACKET_PONG, &[5, 0, 0, 0]);
    assert!(matches!(&actions[0], RelayAction::HandlePong { peer, payload } if peer == "lon" && payload == &vec![5, 0, 0, 0]));
    assert!(f.handle_inbound("lon", wire::PACKET_CONTROL, &[1]).is_empty());
    assert!(f.handle_inbound("lon", 0x7f, &[1]).is_empty());
}

#[test]
fn fec_block_from_peer_is_delivered_locally_and_forwarded() {
    let mut f = Forwarder::new("syd".to_string(), config());
    f.add_tunnel("lon");
    let mut peer_sender = FecSender::new(config());
    assert!(peer_sender
        .submit(encode_relay_header(7, "syd", b"for syd"))
        .is_none());
    let shards = peer_sender
        .submit(encode_relay_header(8, "sgp", b"for sgp"))
        .unwrap();
    assert_eq!(shards.len(), 3);
    // lose the first data shard
    let a1 = f.handle_inbound("lon", shards[1].0, &shards[1].1);
    assert!(a1.is_empty());
    let a2 = f.handle_inbound("lon", shards[2].0, &shards[2].1);
    assert_eq!(a2.len(), 2);
    match &a2[0] {
        RelayAction::DeliverLocal(d) => {
            assert_eq!(d.flow_id, 7);
            assert_eq!(d.data, b"for syd".to_vec());
            assert_eq!(d.source_node, "lon");
        }
        _ => panic!("expected a local delivery"),
    }
    match &a2[1] {
        RelayAction::Forward { dest, relay_payload } => {
            assert_eq!(dest, "sgp");
            assert_eq!(relay_payload, &encode_relay_header(8, "sgp", b"for sgp"));
        }
        _ => panic!("expected a forward"),
    }
}

#[test]
fn data_from_peer_without_receiver_is_routed_directly() {
    let mut f = Forwarder::new("syd".to_string(), config());
    let actions = f.handle_inbound("lon", wire::PACKET_DATA, &encode_relay_header(3, "syd", b"x"));
    assert_eq!(actions.len(), 1);
    assert!(matches!(&actions[0], RelayAction::DeliverLocal(d) if d.flow_id == 3 && d.data == b"x".to_vec()));
    // an invalid relay header is dropped
    assert!(f.handle_inbound("lon", wire::PACKET_DATA, &[1, 2]).is_empty());
}

#[test]
fn forward_to_reports_missing_route_and_tunnel() {
    let mut f = Forwarder::new("syd".to_string(), config());
    f.add_tunnel("lon");
    match f.forward_to("sgp", b"abc", None) {
        Err(ForwarderError::NoRoute(d)) => assert_eq!(d, "sgp"),
        _ => panic!("expected NoRoute"),
    }
    match f.forward_to("sgp", b"abc", Some("sgp")) {
        Err(ForwarderError::NoTunnel(h)) => assert_eq!(h, "sgp"),
        _ => panic!("expected NoTunnel"),
    }
}

#[test]
fn send_to_node_buffers_until_block_is_full() {
    let mut f = Forwarder::new("syd".to_string(), config());
    f.add_tunnel("lon");
    assert_eq!(f.peer_count(), 1);
    let a1 = f.send_to_node("lon", 1, b"one", Some("lon")).ok().unwrap();
    assert!(a1.is_empty());
    let a2 = f.send_to_node("lon", 1, b"two", Some("lon")).ok().unwrap();
    assert_eq!(a2.len(), 1);
    match &a2[0] {
        RelayAction::SendShards { peer, shards } => {
            assert_eq!(peer, "lon");
            assert_eq!(shards.len(), 3);
            assert_eq!(shards[2].0, wire::PACKET_PARITY);
        }
        _ => panic!("expected shards"),
    }
}

#[test]
fn flush_fec_emits_partial_blocks() {
    let mut f = Forwarder::new("syd".to_string(), config());
    f.add_tunnel("lon");
    f.add_tunnel("sgp");
    assert!(f.flush_fec().is_empty());
    f.send_to_node("sgp", 9, b"partial", Some("sgp")).ok().unwrap();
    let actions = f.flush_fec();
    assert_eq!(actions.len(), 1);
    assert!(matches!(&actions[0], RelayAction::SendShards { peer, shards } if peer == "sgp" && shards.len() == 3));
    assert!(f.flush_fec().is_empty());
    assert_eq!(f.node_id(), "syd");
}
