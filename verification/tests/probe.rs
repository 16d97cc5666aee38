use entrouter_line::mesh::latency_matrix::LatencyMatrix;
use entrouter_line::mesh::probe::Prober;

#[test]
fn ping_carries_probe_id_and_is_pending() {
    let mut p = Prober::new("syd".to_string(), LatencyMatrix::new());
    let ping = p.create_ping("sgp");
    assert_eq!(ping, vec![1, 0, 0, 0]);
    assert_eq!(p.pending_count(), 1);
    let ping2 = p.create_ping("lon");
    assert_eq!(ping2, vec![2, 0, 0, 0]);
    assert_eq!(p.pending_count(), 2);
}

#[test]
fn pong_records_rtt_both_directions() {
    let mut p = Prober::new("syd".to_string(), LatencyMatrix::new());
    let ping = p.create_ping("sgp");
    let pong = Prober::create_pong(&ping);
    assert_eq!(pong, ping);
    p.handle_pong("sgp", &pong);
    assert_eq!(p.pending_count(), 0);
    assert!(p.matrix().get_rtt("syd", "sgp").is_some());
    assert!(p.matrix().get_rtt("sgp", "syd").is_some());
    assert_eq!(p.matrix().path_count(), 2);
}

#[test]
fn unknown_or_short_pong_is_ignored() {
    let mut p = Prober::new("syd".to_string(), LatencyMatrix::new());
    p.create_ping("sgp");
    p.handle_pong("sgp", &[9, 9, 9, 9]);
    p.handle_pong("sgp", &[1, 0]);
    assert_eq!(p.pending_count(), 1);
    assert_eq!(p.matrix().path_count(), 0);
}

#[test]
fn record_rtt_is_symmetric() {
    let mut p = Prober::new("syd".to_string(), LatencyMatrix::new());
    p.record_rtt("lon", 42_000);
    assert_eq!(p.matrix().get_rtt("syd", "lon"), Some(42_000));
    assert_eq!(p.matrix().get_rtt("lon", "syd"), Some(42_000));
}

#[test]
fn stale_probes_are_dropped_by_age() {
    let mut p = Prober::new("syd".to_string(), LatencyMatrix::new());
    p.create_ping("sgp");
    p.create_ping("lon");
    p.create_ping("nyc");
    assert_eq!(p.pending_count(), 3);
    p.remove_stale_probes(&vec![(1, 10_000_000_000), (2, 9_999_999_999), (7, 20_000_000_000)]);
    assert_eq!(p.pending_count(), 2);
    p.handle_pong("sgp", &[1, 0, 0, 0]);
    assert_eq!(p.matrix().path_count(), 0);
    p.handle_pong("lon", &[2, 0, 0, 0]);
    assert_eq!(p.matrix().path_count(), 2);
    assert_eq!(p.pending_count(), 1);
}
