//! Latency probing between PoP pairs.
//!
//! PING payloads carry a 4-byte little-endian probe id; the peer echoes them
//! back as PONG, and the time between the two is the RTT sample recorded in
//! the latency matrix, in both directions.
use vstd::prelude::*;

use crate::clock;
use crate::mesh::latency_matrix::{LatencyMatrix, matrix_after_sample};
use crate::relay::fec_codec::{kept_younger, lemma_expired_by_age};
use crate::relay::forwarder::{le32, le32_value};

verus! {

/// Probes awaiting their PONG: probe id to (peer id, send time).
pub type PendingProbes = dashmap::DashMap<u32, (String, std::time::Instant)>;

/// The peer of each probe awaiting its PONG, by probe id.
pub uninterp spec fn pending_contents(m: PendingProbes) -> Map<u32, Seq<char>>;

/// No probes pending.
pub open spec fn no_probes() -> Map<u32, Seq<char>> {
    Map::empty()
}

/// Calls `dashmap::DashMap::new`: an empty map.
#[verifier::external_body]
fn pending_map_new() -> (fresh: PendingProbes)
    ensures
        pending_contents(fresh) == no_probes(),
{
    dashmap::DashMap::new()
}

/// Calls `dashmap::DashMap::insert` with key `id` and value
/// `(peer, sent)`: it replaces whatever was stored under `id`.
#[verifier::external_body]
fn pending_map_insert(m: &mut PendingProbes, id: u32, peer: &str, sent: std::time::Instant)
    ensures
        pending_contents(*final(m)) == pending_contents(*old(m)).insert(id, peer@),
        pending_contents(*final(m)).dom().finite(),
{
    m.insert(id, (peer.to_string(), sent));
}

/// Calls `dashmap::DashMap::remove` on key `id`: takes out and returns the
/// entry stored under `id`, if any.
#[verifier::external_body]
fn pending_map_remove(m: &mut PendingProbes, id: u32) -> (r: Option<(String, std::time::Instant)>)
    ensures
        pending_contents(*final(m)) == pending_contents(*old(m)).remove(id),
        pending_contents(*final(m)).dom().finite(),
        match r {
            Some((peer, _sent)) => pending_contents(*old(m)).contains_key(id) && peer@ == pending_contents(
                *old(m),
            )[id],
            None => !pending_contents(*old(m)).contains_key(id),
        },
{
    m.remove(&id).map(|(_id, entry)| entry)
}

/// Calls `dashmap::DashMap::len`: the number of entries.
#[verifier::external_body]
fn pending_map_len(m: &PendingProbes) -> (n: usize)
    ensures
        n == pending_contents(*m).len(),
{
    m.len()
}

/// Walks the map with `dashmap::DashMap::iter` and copies out each probe id
/// with its send time; every id held comes, and only those. The order is
/// the map's own and is left open.
#[verifier::external_body]
fn pending_map_send_times(m: &PendingProbes) -> (r: Vec<(u32, std::time::Instant)>)
    ensures
        forall|i: int| 0 <= i < r@.len() ==> pending_contents(*m).contains_key(#[trigger] r@[i].0),
        forall|k: u32|
            #[trigger] pending_contents(*m).contains_key(k) ==> exists|i: int| 0 <= i < r@.len() && (#[trigger] r@[i]).0 == k,
{
    let mut out = Vec::new();
    for e in m.iter() {
        out.push((*e.key(), e.value().1));
    }
    out
}

/// How long an unanswered probe is kept, in nanoseconds (10 s).
pub const PROBE_TIMEOUT_NANOS: u128 = 10_000_000_000;

/// The matrix after an RTT sample between `node` and `peer`, taken in both
/// directions (RTT is treated as symmetric).
pub open spec fn matrix_after_round_trip(
    m: Map<(Seq<char>, Seq<char>), (u128, u128, u64)>,
    node: Seq<char>,
    peer: Seq<char>,
    rtt: u128,
) -> Map<(Seq<char>, Seq<char>), (u128, u128, u64)> {
    matrix_after_sample(matrix_after_sample(m, node, peer, rtt), peer, node, rtt)
}

/// Sends probes, matches their echoes and records the RTTs.
pub struct Prober {
    node_id: String,
    matrix: LatencyMatrix,
    pending: PendingProbes,
    next_probe_id: u32,
}

impl Prober {
    /// This node's id.
    pub closed spec fn spec_node_id(&self) -> Seq<char> {
        self.node_id@
    }

    /// The latency matrix the prober records into.
    pub closed spec fn spec_matrix(&self) -> Map<(Seq<char>, Seq<char>), (u128, u128, u64)> {
        self.matrix@
    }

    /// The peer of each pending probe, by probe id.
    pub closed spec fn spec_pending(&self) -> Map<u32, Seq<char>> {
        pending_contents(self.pending)
    }

    /// The id the next probe gets.
    pub closed spec fn spec_next_probe_id(&self) -> u32 {
        self.next_probe_id
    }

    pub fn new(node_id: String, matrix: LatencyMatrix) -> (p: Self)
        ensures
            p.spec_node_id() == node_id@,
            p.spec_matrix() == matrix@,
            p.spec_pending() == no_probes(),
            p.spec_next_probe_id() == 1,
    {
        Self { node_id, matrix, pending: pending_map_new(), next_probe_id: 1 }
    }

    /// Records an RTT sample of `rtt` nanoseconds between this node and
    /// `peer`, in both directions.
    pub fn record_rtt(&mut self, peer: &str, rtt: u128)
        ensures
            final(self).spec_matrix() == matrix_after_round_trip(old(self).spec_matrix(), old(self).spec_node_id(), peer@, rtt),
            final(self).spec_node_id() == old(self).spec_node_id(),
            final(self).spec_pending() == old(self).spec_pending(),
            final(self).spec_next_probe_id() == old(self).spec_next_probe_id(),
    {
        self.matrix.update(self.node_id.as_str(), peer, rtt);
        self.matrix.update(peer, self.node_id.as_str(), rtt);
    }

    /// Handles an incoming PONG: when it echoes a pending probe, the probe
    /// is settled and the time since its PING is recorded as the RTT to the
    /// probed peer, in both directions. Anything else is ignored.
    pub fn handle_pong(&mut self, _from_peer: &str, payload: &[u8])
        ensures
            final(self).spec_node_id() == old(self).spec_node_id(),
            final(self).spec_next_probe_id() == old(self).spec_next_probe_id(),
            ({
                let id = le32_value(payload@[0], payload@[1], payload@[2], payload@[3]);
                if payload@.len() >= 4 && old(self).spec_pending().contains_key(id) {
                    &&& final(self).spec_pending() == old(self).spec_pending().remove(id)
                    &&& final(self).spec_pending().dom().finite()
                    &&& final(self).spec_pending().len() + 1 == old(self).spec_pending().len()
                    &&& exists|rtt: u128|
                        final(self).spec_matrix() == #[trigger] matrix_after_round_trip(
                            old(self).spec_matrix(),
                            old(self).spec_node_id(),
                            old(self).spec_pending()[id],
                            rtt,
                        )
                } else {
                    &&& final(self).spec_pending() == old(self).spec_pending()
                    &&& final(self).spec_matrix() == old(self).spec_matrix()
                }
            }),
    {
        if payload.len() < 4 {
            return;
        }
        let probe_id = payload[0] as u32 + (payload[1] as u32) * 256 + (payload[2] as u32) * 65536
            + (payload[3] as u32) * 16777216;
        assert(probe_id == le32_value(payload@[0], payload@[1], payload@[2], payload@[3]));
        let ghost before = *self;
        if let Some((peer_id, send_time)) = pending_map_remove(&mut self.pending, probe_id) {
            proof {
                let (o, f) = (before.spec_pending(), pending_contents(self.pending));
                assert(o.dom() =~= f.dom().insert(probe_id));
                assert(f.dom() =~= o.dom().remove(probe_id));
            }
            let rtt = clock::as_nanos(&clock::elapsed(&send_time));
            self.record_rtt(peer_id.as_str(), rtt);
            assert(self.spec_matrix() == matrix_after_round_trip(
                before.spec_matrix(),
                before.spec_node_id(),
                before.spec_pending()[probe_id],
                rtt,
            ));
        } else {
            assert(pending_contents(self.pending) =~= pending_contents(before.pending));
        }
    }

    /// Creates a PING payload (the new probe's id, 4 bytes LE) and records
    /// the probe as pending; probes unanswered for 10 s are dropped.
    pub fn create_ping(&mut self, peer_id: &str) -> (ping: Vec<u8>)
        ensures
            ping@ == le32(old(self).spec_next_probe_id()),
            final(self).spec_next_probe_id() == (old(self).spec_next_probe_id() + 1) % 0x1_0000_0000,
            final(self).spec_pending().submap_of(
                old(self).spec_pending().insert(old(self).spec_next_probe_id(), peer_id@),
            ),
            exists|age: Map<u32, u128>|
                age.dom() == old(self).spec_pending().insert(old(self).spec_next_probe_id(), peer_id@).dom()
                    && final(self).spec_pending() == #[trigger] kept_younger(
                    old(self).spec_pending().insert(old(self).spec_next_probe_id(), peer_id@),
                    age,
                    PROBE_TIMEOUT_NANOS,
                ),
            final(self).spec_node_id() == old(self).spec_node_id(),
            final(self).spec_matrix() == old(self).spec_matrix(),
    {
        let probe_id = self.next_probe_id;
        self.next_probe_id = self.next_probe_id.wrapping_add(1);
        pending_map_insert(&mut self.pending, probe_id, peer_id, clock::now());
        let ghost after_insert = pending_contents(self.pending);
        let ghost next = self.next_probe_id;
        assert(next == (probe_id + 1) % 0x1_0000_0000);

        // Clean up stale pending probes.
        let sent = pending_map_send_times(&self.pending);
        let mut ages: Vec<(u32, u128)> = Vec::new();
        let mut i: usize = 0;
        while i < sent.len()
            invariant
                0 <= i <= sent@.len(),
                ages@.len() == i,
                forall|j: int| 0 <= j < i ==> (#[trigger] ages@[j]).0 == sent@[j].0,
            decreases sent@.len() - i,
        {
            let (id, t) = sent[i];
            ages.push((id, clock::as_nanos(&clock::elapsed(&t))));
            i = i + 1;
        }
        assert forall|k: u32| #[trigger] after_insert.contains_key(k) implies exists|j: int|
            0 <= j < ages@.len() && (#[trigger] ages@[j]).0 == k by {
            let j = choose|j: int| 0 <= j < sent@.len() && (#[trigger] sent@[j]).0 == k;
            assert(ages@[j].0 == k);
        }
        self.remove_stale_probes(&ages);
        proof {
            lemma_expired_by_age(after_insert, pending_contents(self.pending), ages@, PROBE_TIMEOUT_NANOS);
        }

        let mut ping: Vec<u8> = Vec::new();
        ping.push((probe_id % 256) as u8);
        ping.push(((probe_id / 256) % 256) as u8);
        ping.push(((probe_id / 65536) % 256) as u8);
        ping.push((probe_id / 16777216) as u8);
        assert(ping@ =~= le32(probe_id));
        ping
    }

    /// Drops the pending probes that `ages` (probe id, nanoseconds since
    /// its PING) lists as at least `PROBE_TIMEOUT_NANOS` old.
    pub fn remove_stale_probes(&mut self, ages: &Vec<(u32, u128)>)
        ensures
            final(self).spec_pending() == old(self).spec_pending().remove_keys(
                Set::new(
                    |k: u32|
                        exists|j: int|
                            0 <= j < ages@.len() && (#[trigger] ages@[j]).0 == k && ages@[j].1 >= PROBE_TIMEOUT_NANOS,
                ),
            ),
            final(self).spec_node_id() == old(self).spec_node_id(),
            final(self).spec_next_probe_id() == old(self).spec_next_probe_id(),
            final(self).spec_matrix() == old(self).spec_matrix(),
    {
        let mut i: usize = 0;
        while i < ages.len()
            invariant
                0 <= i <= ages@.len(),
                self.node_id@ == old(self).node_id@,
                self.next_probe_id == old(self).next_probe_id,
                self.matrix@ == old(self).matrix@,
                pending_contents(self.pending) == pending_contents(old(self).pending).remove_keys(
                    Set::new(
                        |k: u32|
                            exists|j: int|
                                0 <= j < i && (#[trigger] ages@[j]).0 == k && ages@[j].1 >= PROBE_TIMEOUT_NANOS,
                    ),
                ),
            decreases ages@.len() - i,
        {
            let (id, age) = ages[i];
            let ghost s0 = Set::new(
                |k: u32| exists|j: int| 0 <= j < i && (#[trigger] ages@[j]).0 == k && ages@[j].1 >= PROBE_TIMEOUT_NANOS,
            );
            let ghost s1 = Set::new(
                |k: u32| exists|j: int| 0 <= j < i + 1 && (#[trigger] ages@[j]).0 == k && ages@[j].1 >= PROBE_TIMEOUT_NANOS,
            );
            if age >= PROBE_TIMEOUT_NANOS {
                let ghost prev = pending_contents(self.pending);
                let _ = pending_map_remove(&mut self.pending, id);
                assert(s1 =~= s0.insert(id)) by {
                    assert(ages@[i as int].0 == id);
                    assert forall|k: u32| s1.contains(k) implies s0.insert(id).contains(k) by {
                        let j = choose|j: int|
                            0 <= j < i + 1 && (#[trigger] ages@[j]).0 == k && ages@[j].1 >= PROBE_TIMEOUT_NANOS;
                        if j < i {
                            assert(s0.contains(k));
                        }
                    }
                    assert forall|k: u32| s0.insert(id).contains(k) implies s1.contains(k) by {
                        if k == id {
                            assert(0 <= i < i + 1 && ages@[i as int].0 == k && ages@[i as int].1 >= PROBE_TIMEOUT_NANOS);
                        } else {
                            let j = choose|j: int|
                                0 <= j < i && (#[trigger] ages@[j]).0 == k && ages@[j].1 >= PROBE_TIMEOUT_NANOS;
                            assert(0 <= j < i + 1);
                        }
                    }
                }
                assert(pending_contents(self.pending) =~= pending_contents(old(self).pending).remove_keys(s1));
            } else {
                assert(s1 =~= s0) by {
                    assert forall|k: u32| s1.contains(k) implies s0.contains(k) by {
                        let j = choose|j: int|
                            0 <= j < i + 1 && (#[trigger] ages@[j]).0 == k && ages@[j].1 >= PROBE_TIMEOUT_NANOS;
                        assert(j != i);
                    }
                    assert forall|k: u32| s0.contains(k) implies s1.contains(k) by {
                        let j = choose|j: int|
                            0 <= j < i && (#[trigger] ages@[j]).0 == k && ages@[j].1 >= PROBE_TIMEOUT_NANOS;
                        assert(0 <= j < i + 1);
                    }
                }
            }
            i = i + 1;
        }
    }

    /// Creates a PONG payload: the PING payload echoed back.
    pub fn create_pong(ping_payload: &[u8]) -> (pong: Vec<u8>)
        ensures
            pong@ == ping_payload@,
    {
        let mut pong: Vec<u8> = Vec::new();
        let mut i: usize = 0;
        while i < ping_payload.len()
            invariant
                0 <= i <= ping_payload@.len(),
                pong@ == ping_payload@.take(i as int),
            decreases ping_payload@.len() - i,
        {
            pong.push(ping_payload[i]);
            assert(ping_payload@.take(i + 1) =~= ping_payload@.take(i as int).push(ping_payload@[i as int]));
            i = i + 1;
        }
        assert(ping_payload@.take(i as int) =~= ping_payload@);
        pong
    }

    /// The latency matrix the prober records into.
    pub fn matrix(&self) -> (m: &LatencyMatrix)
        ensures
            m@ == self.spec_matrix(),
    {
        &self.matrix
    }

    /// Number of probes awaiting their PONG.
    pub fn pending_count(&self) -> (n: usize)
        ensures
            n == self.spec_pending().len(),
    {
        pending_map_len(&self.pending)
    }
}

} // verus!
