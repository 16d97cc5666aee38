use std::time::Duration;

use entrouter_line::mesh::latency_matrix::LatencyMatrix;

#[test]
fn update_and_query() {
    let mut m = LatencyMatrix::new();
    m.update("syd", "sgp", Duration::from_millis(50).as_nanos());
    assert_eq!(
        Duration::from_nanos(m.get_rtt("syd", "sgp").unwrap() as u64),
        Duration::from_millis(50)
    );
    assert!(m.get_rtt("sgp", "syd").is_none());
}

#[test]
fn ewma_smoothing() {
    let mut m = LatencyMatrix::new();
    m.update("a", "b", Duration::from_millis(100).as_nanos());
    m.update("a", "b", Duration::from_millis(200).as_nanos());
    let rtt = Duration::from_nanos(m.get_rtt("a", "b").unwrap() as u64);
    // After EWMA: 100 * 0.875 + 200 * 0.125 = 112.5ms
    assert!(rtt.as_millis() >= 112 && rtt.as_millis() <= 113);
}

#[test]
fn all_edges_and_nodes() {
    let mut m = LatencyMatrix::new();
    m.update("syd", "sgp", Duration::from_millis(50).as_nanos());
    m.update("sgp", "lon", Duration::from_millis(80).as_nanos());
    assert_eq!(m.path_count(), 2);
    let nodes = m.nodes();
    assert!(nodes.contains(&"syd".to_string()));
    assert!(nodes.contains(&"sgp".to_string()));
    assert!(nodes.contains(&"lon".to_string()));
}

#[test]
fn ewma_exact_values_and_jitter() {
    let mut m = LatencyMatrix::new();
    m.update("a", "b", 100_000_000);
    m.update("a", "b", 200_000_000);
    let e = m.get_entry("a", "b").unwrap();
    // (7 * 100000 + 200000) / 8 = 112500 us; jitter (7 * 0 + 100000) / 8 = 12500 us
    assert_eq!(e.smoothed_rtt, 112_500_000);
    assert_eq!(e.jitter, 12_500_000);
    assert_eq!(e.samples, 2);
}

#[test]
fn first_sample_keeps_nanoseconds() {
    let mut m = LatencyMatrix::new();
    m.update("a", "b", 1_234_567);
    assert_eq!(m.get_rtt("a", "b"), Some(1_234_567));
    // the next sample works on whole microseconds: (7 * 1234 + 2000) / 8 = 1329 us
    m.update("a", "b", 2_000_999);
    assert_eq!(m.get_rtt("a", "b"), Some(1_329_000));
}

#[test]
fn all_edges_lists_each_path_once() {
    let mut m = LatencyMatrix::new();
    m.update("syd", "sgp", 50);
    m.update("sgp", "lon", 80);
    m.update("syd", "sgp", 50);
    let mut edges = m.all_edges();
    edges.sort();
    assert_eq!(edges.len(), 2);
    assert_eq!(edges[0].0, "sgp");
    assert_eq!(edges[0].1, "lon");
    assert_eq!(edges[1].0, "syd");
    assert_eq!(m.nodes().len(), 3);
}
