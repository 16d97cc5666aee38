//! Relay framing and the routing decisions of the packet forwarder.
//!
//! Relay header layout:
//! `[4 bytes flow_id LE] [1 byte dest_len] [dest_len bytes dest_node UTF-8] [rest: data]`.
use vstd::prelude::*;
use vstd::utf8::{valid_utf8, encode_utf8, encode_utf8_valid_utf8, encode_utf8_decode_utf8, decode_utf8};
use vstd::string::StringSliceAdditionalSpecFns;

use crate::relay::fec::FecConfig;
use crate::relay::fec::lemma_deep_view_push;
use crate::relay::fec_codec::{FecReceiver, FecSender, spec_receive, submitted, flushed, payload_fits, kept_younger};
use crate::relay::wire;

verus! {

/// Traffic delivered to the local edge (this node is the destination).
pub struct LocalDelivery {
    pub flow_id: u32,
    pub data: Vec<u8>,
    pub source_node: String,
}

/// An I/O failure reported by the socket layer.
#[verifier::external_type_specification]
#[verifier::external_body]
pub struct ExIoError(std::io::Error);

#[derive(Debug)]
pub enum ForwarderError {
    NoRoute(String),
    SendFailed(std::io::Error),
    NoTunnel(String),
}

// --- Relay header encoding/decoding ---

/// Little-endian bytes of a 32-bit value.
pub open spec fn le32(v: u32) -> Seq<u8> {
    seq![
        (v % 256) as u8,
        ((v / 256) % 256) as u8,
        ((v / 65536) % 256) as u8,
        (v / 16777216) as u8,
    ]
}

/// The 32-bit value of four little-endian bytes.
pub open spec fn le32_value(b0: u8, b1: u8, b2: u8, b3: u8) -> u32 {
    (b0 + b1 * 256 + b2 * 65536 + b3 * 16777216) as u32
}

/// Number of destination bytes the header carries: the name's UTF-8
/// length, cut at 255.
pub open spec fn dest_field_len(dest: Seq<u8>) -> nat {
    if dest.len() > 255 {
        255
    } else {
        dest.len()
    }
}

/// The relay payload for `data` sent on flow `flow_id` to the node whose
/// name has UTF-8 bytes `dest`.
pub open spec fn spec_relay_header(flow_id: u32, dest: Seq<u8>, data: Seq<u8>) -> Seq<u8> {
    let n = dest_field_len(dest);
    le32(flow_id) + seq![n as u8] + dest.take(n as int) + data
}

/// What `decode_relay_header` reads from `buf`: `(flow_id, UTF-8 bytes of
/// the destination, data)`, or `None` when `buf` is shorter than its header
/// or the destination is not UTF-8.
pub open spec fn spec_decode_relay_header(buf: Seq<u8>) -> Option<(u32, Seq<u8>, Seq<u8>)> {
    if buf.len() < 5 {
        None
    } else {
        let n = buf[4] as int;
        if buf.len() < 5 + n {
            None
        } else if !valid_utf8(buf.subrange(5, 5 + n)) {
            None
        } else {
            Some((le32_value(buf[0], buf[1], buf[2], buf[3]), buf.subrange(5, 5 + n), buf.skip(5 + n)))
        }
    }
}

/// Calls `std::str::from_utf8`: the bytes as a string slice when they are
/// valid UTF-8 (as the standard defines it, which `valid_utf8` writes out),
/// `None` otherwise.
#[verifier::external_body]
fn str_from_utf8(bytes: &[u8]) -> (r: Option<&str>)
    ensures
        r is Some <==> valid_utf8(bytes@),
        r matches Some(s) ==> s.spec_bytes() == bytes@,
{
    std::str::from_utf8(bytes).ok()
}

pub fn encode_relay_header(flow_id: u32, dest_node: &str, data: &[u8]) -> (buf: Vec<u8>)
    ensures
        buf@ == spec_relay_header(flow_id, dest_node.spec_bytes(), data@),
{
    let dest_bytes = dest_node.as_bytes();
    let dest_len: u8 = if dest_bytes.len() > 255 {
        255
    } else {
        dest_bytes.len() as u8
    };
    let mut buf: Vec<u8> = Vec::new();
    buf.push((flow_id % 256) as u8);
    buf.push(((flow_id / 256) % 256) as u8);
    buf.push(((flow_id / 65536) % 256) as u8);
    buf.push((flow_id / 16777216) as u8);
    buf.push(dest_len);
    let n = dest_len as usize;
    let mut i: usize = 0;
    while i < n
        invariant
            0 <= i <= n,
            n <= dest_bytes@.len(),
            buf@ == le32(flow_id) + seq![dest_len] + dest_bytes@.take(i as int),
        decreases n - i,
    {
        buf.push(dest_bytes[i]);
        assert(dest_bytes@.take(i + 1) =~= dest_bytes@.take(i as int).push(dest_bytes@[i as int]));
        i = i + 1;
    }
    let ghost head = buf@;
    let mut j: usize = 0;
    while j < data.len()
        invariant
            0 <= j <= data@.len(),
            buf@ == head + data@.take(j as int),
        decreases data@.len() - j,
    {
        buf.push(data[j]);
        assert(data@.take(j + 1) =~= data@.take(j as int).push(data@[j as int]));
        j = j + 1;
    }
    assert(data@.take(j as int) =~= data@);
    assert(buf@ =~= spec_relay_header(flow_id, dest_node.spec_bytes(), data@));
    buf
}

pub fn decode_relay_header(buf: &[u8]) -> (r: Option<(u32, &str, &[u8])>)
    ensures
        match spec_decode_relay_header(buf@) {
            None => r is None,
            Some((flow_id, dest, data)) => r matches Some((f, d, p)) && f == flow_id
                && d.spec_bytes() == dest && p@ == data,
        },
{
    if buf.len() < 5 {
        return None;
    }
    let flow_id = buf[0] as u32 + (buf[1] as u32) * 256 + (buf[2] as u32) * 65536 + (buf[3] as u32)
        * 16777216;
    let dest_len = buf[4] as usize;
    if buf.len() < 5 + dest_len {
        return None;
    }
    let dest_node = match str_from_utf8(&buf[5..5 + dest_len]) {
        Some(s) => s,
        None => return None,
    };
    let data = &buf[5 + dest_len..buf.len()];
    Some((flow_id, dest_node, data))
}

/// Decoding an encoded relay payload gives back the flow, the destination
/// and the data, whenever the destination's name is at most 255 bytes of
/// UTF-8 (longer names are cut and need not decode).
pub proof fn lemma_relay_header_roundtrip(flow_id: u32, dest: Seq<char>, data: Seq<u8>)
    requires
        encode_utf8(dest).len() <= 255,
    ensures
        spec_decode_relay_header(spec_relay_header(flow_id, encode_utf8(dest), data)) == Some(
            (flow_id, encode_utf8(dest), data),
        ),
        decode_utf8(encode_utf8(dest)) == dest,
{
    let bytes = encode_utf8(dest);
    let buf = spec_relay_header(flow_id, bytes, data);
    encode_utf8_valid_utf8(dest);
    encode_utf8_decode_utf8(dest);
    assert(bytes.take(bytes.len() as int) =~= bytes);
    assert(buf.subrange(5, 5 + bytes.len() as int) =~= bytes);
    assert(buf.skip(5 + bytes.len() as int) =~= data);
    assert(le32_value(buf[0], buf[1], buf[2], buf[3]) == flow_id);
}

/// Traffic framed for a node arrives there as a local delivery of its flow
/// and data, and anywhere else as a hop on toward that node (node names of
/// at most 255 UTF-8 bytes).
pub proof fn lemma_relay_payload_routing(node: Seq<char>, here: Seq<char>, from: Seq<char>, flow_id: u32, data: Seq<u8>)
    requires
        encode_utf8(node).len() <= 255,
    ensures
        here == node ==> route_action(here, from, spec_relay_header(flow_id, encode_utf8(node), data))
            == Some(RelayActionView::DeliverLocal(flow_id, data, from)),
        here != node ==> route_action(here, from, spec_relay_header(flow_id, encode_utf8(node), data))
            == Some(RelayActionView::Forward(node, spec_relay_header(flow_id, encode_utf8(node), data))),
{
    lemma_relay_header_roundtrip(flow_id, node, data);
}

// --- Forwarding decisions ---

/// What the forwarder asks its runtime to do.
pub enum RelayAction {
    /// Send one packet through the tunnel to `peer`.
    SendPacket { peer: String, packet_type: u8, payload: Vec<u8> },
    /// Send the shards of an FEC block through the tunnel to `peer`
    /// (fire and forget).
    SendShards { peer: String, shards: Vec<(u8, Vec<u8>)> },
    /// Hand traffic to the local edge: this node is its destination.
    DeliverLocal(LocalDelivery),
    /// Pass a PONG from `peer` to the prober.
    HandlePong { peer: String, payload: Vec<u8> },
    /// Route a relay payload on toward `dest`: choose the next hop toward
    /// `dest` and call `Forwarder::forward_to`.
    Forward { dest: String, relay_payload: Vec<u8> },
}

/// A `RelayAction` as plain values.
pub enum RelayActionView {
    SendPacket(Seq<char>, u8, Seq<u8>),
    SendShards(Seq<char>, Seq<(u8, Seq<u8>)>),
    DeliverLocal(u32, Seq<u8>, Seq<char>),
    HandlePong(Seq<char>, Seq<u8>),
    Forward(Seq<char>, Seq<u8>),
}

impl View for RelayAction {
    type V = RelayActionView;

    open spec fn view(&self) -> RelayActionView {
        match self {
            RelayAction::SendPacket { peer, packet_type, payload } => RelayActionView::SendPacket(
                peer@,
                *packet_type,
                payload@,
            ),
            RelayAction::SendShards { peer, shards } => RelayActionView::SendShards(peer@, shards.deep_view()),
            RelayAction::DeliverLocal(d) => RelayActionView::DeliverLocal(d.flow_id, d.data@, d.source_node@),
            RelayAction::HandlePong { peer, payload } => RelayActionView::HandlePong(peer@, payload@),
            RelayAction::Forward { dest, relay_payload } => RelayActionView::Forward(dest@, relay_payload@),
        }
    }
}

/// The peer an action is addressed to (empty for a local delivery or a
/// forward, which name no peer).
pub open spec fn action_peer(a: RelayActionView) -> Seq<char> {
    match a {
        RelayActionView::SendPacket(peer, _, _) => peer,
        RelayActionView::SendShards(peer, _) => peer,
        RelayActionView::HandlePong(peer, _) => peer,
        _ => Seq::empty(),
    }
}

/// The actions, as plain values.
pub open spec fn actions_view(actions: Seq<RelayAction>) -> Seq<RelayActionView> {
    actions.map_values(|a: RelayAction| a@)
}

/// What a relay payload arriving from `from` at node `node` becomes:
/// nothing when its header is invalid; a local delivery when this node is
/// its destination; otherwise a hop on toward its destination.
pub open spec fn route_action(node: Seq<char>, from: Seq<char>, payload: Seq<u8>) -> Option<RelayActionView> {
    match spec_decode_relay_header(payload) {
        None => None,
        Some((flow_id, dest, data)) => if decode_utf8(dest) == node {
            Some(RelayActionView::DeliverLocal(flow_id, data, from))
        } else {
            Some(RelayActionView::Forward(decode_utf8(dest), payload))
        },
    }
}

/// The actions for a run of relay payloads arriving from `from`.
pub open spec fn route_actions(node: Seq<char>, from: Seq<char>, payloads: Seq<Seq<u8>>) -> Seq<RelayActionView>
    decreases payloads.len(),
{
    if payloads.len() == 0 {
        Seq::empty()
    } else {
        let rest = route_actions(node, from, payloads.drop_last());
        match route_action(node, from, payloads.last()) {
            Some(a) => rest.push(a),
            None => rest,
        }
    }
}

/// FEC senders by peer id.
pub type PeerSenders = dashmap::DashMap<String, FecSender>;

/// FEC receivers by peer id.
pub type PeerReceivers = dashmap::DashMap<String, FecReceiver>;

/// The FEC sender of each peer, by peer id.
pub uninterp spec fn sender_contents(m: PeerSenders) -> Map<Seq<char>, FecSender>;

/// The FEC receiver of each peer, by peer id.
pub uninterp spec fn receiver_contents(m: PeerReceivers) -> Map<Seq<char>, FecReceiver>;

/// No senders.
pub open spec fn no_senders() -> Map<Seq<char>, FecSender> {
    Map::empty()
}

/// No receivers.
pub open spec fn no_receivers() -> Map<Seq<char>, FecReceiver> {
    Map::empty()
}

/// Calls `dashmap::DashMap::new`: an empty map.
#[verifier::external_body]
fn senders_new() -> (fresh: PeerSenders)
    ensures
        sender_contents(fresh) == no_senders(),
{
    dashmap::DashMap::new()
}

/// Calls `dashmap::DashMap::contains_key` on `peer`.
#[verifier::external_body]
fn senders_contains(m: &PeerSenders, peer: &str) -> (r: bool)
    ensures
        r == sender_contents(*m).contains_key(peer@),
{
    m.contains_key(peer)
}

/// Calls `dashmap::DashMap::remove` on `peer`: takes out the sender stored
/// under `peer`, if any.
#[verifier::external_body]
fn senders_take(m: &mut PeerSenders, peer: &str) -> (r: Option<FecSender>)
    ensures
        sender_contents(*final(m)) == sender_contents(*old(m)).remove(peer@),
        match r {
            Some(s) => sender_contents(*old(m)).contains_key(peer@) && s == sender_contents(*old(m))[peer@],
            None => !sender_contents(*old(m)).contains_key(peer@),
        },
{
    m.remove(peer).map(|(_peer, s)| s)
}

/// Calls `dashmap::DashMap::insert` with key `peer`: the sender replaces
/// whatever was stored under `peer`.
#[verifier::external_body]
fn senders_put(m: &mut PeerSenders, peer: &str, s: FecSender)
    ensures
        sender_contents(*final(m)) == sender_contents(*old(m)).insert(peer@, s),
{
    m.insert(peer.to_string(), s);
}

/// Walks the map with `dashmap::DashMap::iter` and copies out its keys:
/// each peer once, in the map's own order (left open).
#[verifier::external_body]
fn senders_peers(m: &PeerSenders) -> (r: Vec<String>)
    ensures
        forall|i: int| 0 <= i < r@.len() ==> sender_contents(*m).contains_key(#[trigger] r@[i]@),
        forall|i: int, j: int| 0 <= i < r@.len() && 0 <= j < r@.len() && i != j ==> r@[i]@ != r@[j]@,
        forall|k: Seq<char>| sender_contents(*m).contains_key(k) ==> exists|i: int| 0 <= i < r@.len() && k == (#[trigger] r@[i])@,
{
    let mut out = Vec::new();
    for e in m.iter() {
        out.push(e.key().clone());
    }
    out
}

/// Calls `dashmap::DashMap::len`: the number of entries.
#[verifier::external_body]
fn senders_len(m: &PeerSenders) -> (n: usize)
    ensures
        n == sender_contents(*m).len(),
{
    m.len()
}

/// Calls `dashmap::DashMap::new`: an empty map.
#[verifier::external_body]
fn receivers_new() -> (fresh: PeerReceivers)
    ensures
        receiver_contents(fresh) == no_receivers(),
{
    dashmap::DashMap::new()
}

/// Calls `dashmap::DashMap::contains_key` on `peer`.
#[verifier::external_body]
fn receivers_contains(m: &PeerReceivers, peer: &str) -> (r: bool)
    ensures
        r == receiver_contents(*m).contains_key(peer@),
{
    m.contains_key(peer)
}

/// Calls `dashmap::DashMap::remove` on `peer`: takes out the receiver
/// stored under `peer`, if any.
#[verifier::external_body]
fn receivers_take(m: &mut PeerReceivers, peer: &str) -> (r: Option<FecReceiver>)
    ensures
        receiver_contents(*final(m)) == receiver_contents(*old(m)).remove(peer@),
        match r {
            Some(s) => receiver_contents(*old(m)).contains_key(peer@) && s == receiver_contents(*old(m))[peer@],
            None => !receiver_contents(*old(m)).contains_key(peer@),
        },
{
    m.remove(peer).map(|(_peer, s)| s)
}

/// Calls `dashmap::DashMap::insert` with key `peer`: the receiver replaces
/// whatever was stored under `peer`.
#[verifier::external_body]
fn receivers_put(m: &mut PeerReceivers, peer: &str, s: FecReceiver)
    ensures
        receiver_contents(*final(m)) == receiver_contents(*old(m)).insert(peer@, s),
{
    m.insert(peer.to_string(), s);
}

/// Walks the map with `dashmap::DashMap::iter` and copies out its keys:
/// each peer once, in the map's own order (left open).
#[verifier::external_body]
fn receivers_peers(m: &PeerReceivers) -> (r: Vec<String>)
    ensures
        forall|i: int| 0 <= i < r@.len() ==> receiver_contents(*m).contains_key(#[trigger] r@[i]@),
        forall|i: int, j: int| 0 <= i < r@.len() && 0 <= j < r@.len() && i != j ==> r@[i]@ != r@[j]@,
        forall|k: Seq<char>| receiver_contents(*m).contains_key(k) ==> exists|i: int| 0 <= i < r@.len() && k == (#[trigger] r@[i])@,
{
    let mut out = Vec::new();
    for e in m.iter() {
        out.push(e.key().clone());
    }
    out
}

/// How long an incomplete FEC block is kept, in milliseconds.
pub const FEC_BLOCK_MAX_AGE_MS: u128 = 500;

/// The routing engine's state: this node's id and the FEC sender and
/// receiver of each peer it has a tunnel to.
pub struct Forwarder {
    node_id: String,
    fec_config: FecConfig,
    fec_senders: PeerSenders,
    fec_receivers: PeerReceivers,
}

impl Forwarder {
    pub closed spec fn spec_node_id(&self) -> Seq<char> {
        self.node_id@
    }

    pub closed spec fn spec_fec_config(&self) -> FecConfig {
        self.fec_config
    }

    /// The FEC sender of each peer.
    pub closed spec fn senders(&self) -> Map<Seq<char>, FecSender> {
        sender_contents(self.fec_senders)
    }

    /// The FEC receiver of each peer.
    pub closed spec fn receivers(&self) -> Map<Seq<char>, FecReceiver> {
        receiver_contents(self.fec_receivers)
    }

    /// The forwarder's invariant: a valid block shape, one sender and one
    /// receiver per peer, each sound, the senders using that shape.
    pub closed spec fn wf(&self) -> bool {
        &&& self.fec_config.valid()
        &&& self.senders().dom() == self.receivers().dom()
        &&& forall|p: Seq<char>| #[trigger] self.senders().contains_key(p) ==> self.senders()[p].wf()
            && self.senders()[p].spec_config() == self.fec_config
        &&& forall|p: Seq<char>| #[trigger] self.receivers().contains_key(p) ==> self.receivers()[p].wf()
    }

    pub fn new(node_id: String, fec_config: FecConfig) -> (f: Self)
        requires
            fec_config.valid(),
        ensures
            f.wf(),
            f.spec_node_id() == node_id@,
            f.spec_fec_config() == fec_config,
            f.senders() == no_senders(),
            f.receivers() == no_receivers(),
    {
        let f = Self { node_id, fec_config, fec_senders: senders_new(), fec_receivers: receivers_new() };
        assert(f.senders().dom() =~= f.receivers().dom());
        f
    }

    /// Registers a peer reached through a tunnel: it gets a fresh FEC
    /// sender and receiver unless it has them already.
    pub fn add_tunnel(&mut self, peer_id: &str)
        requires
            old(self).wf(),
        ensures
            final(self).wf(),
            final(self).spec_node_id() == old(self).spec_node_id(),
            final(self).spec_fec_config() == old(self).spec_fec_config(),
            final(self).senders().dom() == old(self).senders().dom().insert(peer_id@),
            old(self).senders().contains_key(peer_id@) ==> final(self).senders() == old(self).senders()
                && final(self).receivers() == old(self).receivers(),
            !old(self).senders().contains_key(peer_id@) ==> {
                &&& final(self).senders() == old(self).senders().insert(peer_id@, final(self).senders()[peer_id@])
                &&& final(self).senders()[peer_id@].buffered().len() == 0
                &&& final(self).senders()[peer_id@].spec_block_id() == 0
                &&& final(self).receivers() == old(self).receivers().insert(peer_id@, final(self).receivers()[peer_id@])
                &&& final(self).receivers()[peer_id@]@ == Map::<u16, (nat, nat, Seq<Option<Seq<u8>>>)>::empty()
            },
    {
        if !senders_contains(&self.fec_senders, peer_id) {
            let s = FecSender::new(self.fec_config);
            senders_put(&mut self.fec_senders, peer_id, s);
            let r = FecReceiver::new();
            receivers_put(&mut self.fec_receivers, peer_id, r);
            assert(self.senders().dom() =~= old(self).senders().dom().insert(peer_id@));
            assert(self.receivers().dom() =~= old(self).receivers().dom().insert(peer_id@));
        } else {
            assert(self.senders().dom() =~= old(self).senders().dom().insert(peer_id@));
        }
    }

    /// This node's id.
    pub fn node_id(&self) -> (id: &str)
        ensures
            id@ == self.spec_node_id(),
    {
        self.node_id.as_str()
    }

    /// Number of peers with a tunnel.
    pub fn peer_count(&self) -> (n: usize)
        ensures
            n == self.senders().len(),
    {
        senders_len(&self.fec_senders)
    }

    /// The action for a relay payload arriving from `from_peer`.
    fn route_data(&self, from_peer: &str, payload: &[u8]) -> (a: Option<RelayAction>)
        ensures
            match a {
                Some(action) => route_action(self.spec_node_id(), from_peer@, payload@) == Some(action@),
                None => route_action(self.spec_node_id(), from_peer@, payload@) is None,
            },
    {
        let (flow_id, dest_node, data) = match decode_relay_header(payload) {
            Some(h) => h,
            None => return None,
        };
        let dest = dest_node.to_string();
        proof {
            encode_utf8_decode_utf8(dest_node@);
        }
        if dest == self.node_id {
            Some(
                RelayAction::DeliverLocal(
                    LocalDelivery { flow_id, data: copy_bytes(data), source_node: from_peer.to_string() },
                ),
            )
        } else {
            Some(RelayAction::Forward { dest, relay_payload: copy_bytes(payload) })
        }
    }

    /// Appends the actions for relay payloads arriving from `from_peer`.
    fn route_all(&self, from_peer: &str, payloads: &Vec<Vec<u8>>, actions: &mut Vec<RelayAction>)
        ensures
            actions_view(final(actions)@) == actions_view(old(actions)@) + route_actions(
                self.spec_node_id(),
                from_peer@,
                payloads.deep_view(),
            ),
    {
        let mut i: usize = 0;
        while i < payloads.len()
            invariant
                0 <= i <= payloads@.len(),
                actions_view(actions@) == actions_view(old(actions)@) + route_actions(
                    self.spec_node_id(),
                    from_peer@,
                    payloads.deep_view().take(i as int),
                ),
            decreases payloads@.len() - i,
        {
            assert(payloads.deep_view().take(i + 1).drop_last() =~= payloads.deep_view().take(i as int));
            assert(payloads.deep_view().take(i + 1).last() == payloads@[i as int]@);
            let ghost before = actions@;
            if let Some(a) = self.route_data(from_peer, payloads[i].as_slice()) {
                actions.push(a);
                assert(actions_view(actions@) =~= actions_view(before).push(a@));
            }
            i = i + 1;
        }
        assert(payloads.deep_view().take(i as int) =~= payloads.deep_view());
    }

    /// Processes a packet of type `packet_type` received from `from_peer`:
    /// a PING is answered with a PONG, a PONG goes to the prober, data and
    /// parity shards go through the peer's FEC receiver (or, without one,
    /// straight to routing), anything else is dropped.
    pub fn handle_inbound(&mut self, from_peer: &str, packet_type: u8, payload: &[u8]) -> (actions: Vec<
        RelayAction,
    >)
        requires
            old(self).wf(),
        ensures
            final(self).wf(),
            final(self).spec_node_id() == old(self).spec_node_id(),
            final(self).spec_fec_config() == old(self).spec_fec_config(),
            final(self).senders() == old(self).senders(),
            packet_type == wire::PACKET_PING ==> actions_view(actions@) == seq![
                RelayActionView::SendPacket(from_peer@, wire::PACKET_PONG, payload@),
            ] && final(self).receivers() == old(self).receivers(),
            packet_type == wire::PACKET_PONG ==> actions_view(actions@) == seq![
                RelayActionView::HandlePong(from_peer@, payload@),
            ] && final(self).receivers() == old(self).receivers(),
            (packet_type == wire::PACKET_DATA || packet_type == wire::PACKET_PARITY) ==> {
                if old(self).receivers().contains_key(from_peer@) {
                    let (blocks, done) = spec_receive(old(self).receivers()[from_peer@]@, payload@);
                    &&& final(self).receivers().dom() == old(self).receivers().dom()
                    &&& final(self).receivers().remove(from_peer@) == old(self).receivers().remove(from_peer@)
                    &&& final(self).receivers()[from_peer@]@ == blocks
                    &&& actions_view(actions@) == match done {
                        Some(payloads) => route_actions(old(self).spec_node_id(), from_peer@, payloads),
                        None => Seq::<RelayActionView>::empty(),
                    }
                } else {
                    &&& final(self).receivers() == old(self).receivers()
                    &&& actions_view(actions@) == route_actions(old(self).spec_node_id(), from_peer@, seq![payload@])
                }
            },
            !(packet_type == wire::PACKET_PING || packet_type == wire::PACKET_PONG || packet_type == wire::PACKET_DATA
                || packet_type == wire::PACKET_PARITY) ==> actions@.len() == 0 && final(self).receivers() == old(self).receivers(),
    {
        let mut actions: Vec<RelayAction> = Vec::new();
        if packet_type == wire::PACKET_PING {
            let pong = copy_bytes(payload);
            actions.push(RelayAction::SendPacket { peer: from_peer.to_string(), packet_type: wire::PACKET_PONG, payload: pong });
            assert(actions_view(actions@) =~= seq![RelayActionView::SendPacket(from_peer@, wire::PACKET_PONG, payload@)]);
        } else if packet_type == wire::PACKET_PONG {
            actions.push(RelayAction::HandlePong { peer: from_peer.to_string(), payload: copy_bytes(payload) });
            assert(actions_view(actions@) =~= seq![RelayActionView::HandlePong(from_peer@, payload@)]);
        } else if packet_type == wire::PACKET_DATA || packet_type == wire::PACKET_PARITY {
            // Route through the peer's FEC receiver to reassemble blocks.
            match receivers_take(&mut self.fec_receivers, from_peer) {
                Some(mut receiver) => {
                    let done = receiver.receive_shard(payload);
                    let ghost updated = receiver;
                    receivers_put(&mut self.fec_receivers, from_peer, receiver);
                    assert(self.receivers().dom() =~= old(self).receivers().dom());
                    assert(self.receivers().remove(from_peer@) =~= old(self).receivers().remove(from_peer@));
                    assert(self.receivers()[from_peer@] == updated);
                    assert(self.senders() == old(self).senders());
                    assert forall|p: Seq<char>| #[trigger] self.receivers().contains_key(p) implies self.receivers()[p].wf() by {
                        if p != from_peer@ {
                            assert(self.receivers()[p] == old(self).receivers()[p]);
                        }
                    }
                    if let Some(payloads) = done {
                        self.route_all(from_peer, &payloads, &mut actions);
                        assert(actions_view(Seq::<RelayAction>::empty()) =~= Seq::<RelayActionView>::empty());
                    } else {
                        assert(actions_view(actions@) =~= Seq::<RelayActionView>::empty());
                    }
                },
                None => {
                    // No FEC receiver for this peer: pass through directly.
                    let mut single: Vec<Vec<u8>> = Vec::new();
                    let ghost empty = single;
                    let copy = copy_bytes(payload);
                    single.push(copy);
                    proof {
                        lemma_deep_view_push(empty, single, copy);
                    }
                    assert(single.deep_view() =~= seq![payload@]);
                    assert(self.receivers() =~= old(self).receivers());
                    self.route_all(from_peer, &single, &mut actions);
                    assert(actions_view(Seq::<RelayAction>::empty()) =~= Seq::<RelayActionView>::empty());
                },
            }
        }
        actions
    }

    /// Buffers a relay payload toward `dest` in the FEC sender of the next
    /// hop chosen for `dest` (`next_hop`, `None` when there is no route);
    /// when that completes a block, its shards are to be sent to the next
    /// hop.
    pub fn forward_to(&mut self, dest: &str, relay_payload: &[u8], next_hop: Option<&str>) -> (r: Result<
        Vec<RelayAction>,
        ForwarderError,
    >)
        requires
            old(self).wf(),
            payload_fits(relay_payload@),
        ensures
            final(self).wf(),
            final(self).spec_node_id() == old(self).spec_node_id(),
            final(self).spec_fec_config() == old(self).spec_fec_config(),
            final(self).receivers() == old(self).receivers(),
            match next_hop {
                None => r matches Err(ForwarderError::NoRoute(d)) && d@ == dest@ && final(self).senders()
                    == old(self).senders(),
                Some(hop) => if !old(self).senders().contains_key(hop@) {
                    r matches Err(ForwarderError::NoTunnel(h)) && h@ == hop@ && final(self).senders()
                        == old(self).senders()
                } else {
                    &&& r is Ok
                    &&& final(self).senders().dom() == old(self).senders().dom()
                    &&& final(self).senders().remove(hop@) == old(self).senders().remove(hop@)
                    &&& exists|out: Option<Seq<(u8, Seq<u8>)>>|
                        #[trigger] submitted(old(self).senders()[hop@], relay_payload@, final(self).senders()[hop@], out)
                            && actions_view(r->Ok_0@) == match out {
                                Some(shards) => seq![RelayActionView::SendShards(hop@, shards)],
                                None => Seq::<RelayActionView>::empty(),
                            }
                },
            },
    {
        let hop = match next_hop {
            Some(h) => h,
            None => return Err(ForwarderError::NoRoute(dest.to_string())),
        };
        let mut sender = match senders_take(&mut self.fec_senders, hop) {
            Some(s) => s,
            None => {
                assert(self.senders() =~= old(self).senders());
                return Err(ForwarderError::NoTunnel(hop.to_string()));
            },
        };
        let ghost before = sender;
        assert(before == old(self).senders()[hop@]);
        let out = sender.submit(copy_bytes(relay_payload));
        let ghost after = sender;
        senders_put(&mut self.fec_senders, hop, sender);
        assert(self.senders()[hop@] == after);
        assert forall|p: Seq<char>| #[trigger] self.senders().contains_key(p) implies self.senders()[p].wf()
            && self.senders()[p].spec_config() == self.fec_config by {
            if p != hop@ {
                assert(self.senders()[p] == old(self).senders()[p]);
            }
        }
        assert(self.senders().dom() =~= old(self).senders().dom());
        assert(self.senders().remove(hop@) =~= old(self).senders().remove(hop@));
        let mut actions: Vec<RelayAction> = Vec::new();
        match out {
            Some(shards) => {
                let ghost sv = shards.deep_view();
                actions.push(RelayAction::SendShards { peer: hop.to_string(), shards });
                assert(actions_view(actions@) =~= seq![RelayActionView::SendShards(hop@, sv)]);
                assert(submitted(before, relay_payload@, after, Some(sv)));
            },
            None => {
                assert(actions_view(actions@) =~= Seq::<RelayActionView>::empty());
                assert(submitted(before, relay_payload@, after, None));
            },
        }
        Ok(actions)
    }

    /// Sends `data` on flow `flow_id` to node `dest` (outbound traffic from
    /// the local edge): frames it with the relay header and forwards it.
    pub fn send_to_node(&mut self, dest_node: &str, flow_id: u32, data: &[u8], next_hop: Option<&str>) -> (r:
        Result<Vec<RelayAction>, ForwarderError>)
        requires
            old(self).wf(),
            payload_fits(spec_relay_header(flow_id, dest_node.spec_bytes(), data@)),
        ensures
            final(self).wf(),
            final(self).spec_node_id() == old(self).spec_node_id(),
            final(self).receivers() == old(self).receivers(),
            match next_hop {
                None => r matches Err(ForwarderError::NoRoute(d)) && d@ == dest_node@,
                Some(hop) => if !old(self).senders().contains_key(hop@) {
                    r matches Err(ForwarderError::NoTunnel(h)) && h@ == hop@
                } else {
                    &&& r is Ok
                    &&& final(self).senders().remove(hop@) == old(self).senders().remove(hop@)
                    &&& exists|out: Option<Seq<(u8, Seq<u8>)>>|
                        #[trigger] submitted(
                            old(self).senders()[hop@],
                            spec_relay_header(flow_id, dest_node.spec_bytes(), data@),
                            final(self).senders()[hop@],
                            out,
                        ) && actions_view(r->Ok_0@) == match out {
                            Some(shards) => seq![RelayActionView::SendShards(hop@, shards)],
                            None => Seq::<RelayActionView>::empty(),
                        }
                },
            },
    {
        let payload = encode_relay_header(flow_id, dest_node, data);
        self.forward_to(dest_node, payload.as_slice(), next_hop)
    }

    /// The periodic FEC flush: every peer's partial block is emitted (its
    /// shards to be sent to that peer), and incomplete receive blocks older
    /// than 500 ms are expired.
    pub fn flush_fec(&mut self) -> (actions: Vec<RelayAction>)
        requires
            old(self).wf(),
        ensures
            final(self).wf(),
            final(self).spec_node_id() == old(self).spec_node_id(),
            final(self).spec_fec_config() == old(self).spec_fec_config(),
            final(self).senders().dom() == old(self).senders().dom(),
            final(self).receivers().dom() == old(self).receivers().dom(),
            forall|p: Seq<char>| #[trigger] old(self).senders().contains_key(p) ==> exists|out: Option<Seq<(u8, Seq<u8>)>>|
                flushed(old(self).senders()[p], final(self).senders()[p], out) && (out matches Some(shards)
                    ==> actions_view(actions@).contains(RelayActionView::SendShards(p, shards))),
            forall|j: int| 0 <= j < actions@.len() ==> ((#[trigger] actions@[j])@ matches RelayActionView::SendShards(p, shards)
                && old(self).senders().contains_key(p) && flushed(old(self).senders()[p], final(self).senders()[p], Some(shards))),
            forall|a: int, b: int|
                0 <= a < actions@.len() && 0 <= b < actions@.len() && a != b ==> action_peer((#[trigger] actions@[a])@)
                    != action_peer((#[trigger] actions@[b])@),
            forall|p: Seq<char>| #[trigger] old(self).receivers().contains_key(p) ==> final(self).receivers()[p]@.submap_of(
                old(self).receivers()[p]@,
            ),
            forall|p: Seq<char>| #[trigger] old(self).receivers().contains_key(p) ==> exists|age: Map<u16, u128>|
                age.dom() == old(self).receivers()[p]@.dom() && final(self).receivers()[p]@ == #[trigger] kept_younger(
                    old(self).receivers()[p]@,
                    age,
                    FEC_BLOCK_MAX_AGE_MS,
                ),
            forall|p: Seq<char>| #[trigger] old(self).receivers().contains_key(p) ==> {
                &&& final(self).receivers()[p].measured_ages().dom() == old(self).receivers()[p]@.dom()
                &&& final(self).receivers()[p]@ == kept_younger(
                    old(self).receivers()[p]@,
                    final(self).receivers()[p].measured_ages(),
                    FEC_BLOCK_MAX_AGE_MS,
                )
            },
    {
        let mut actions: Vec<RelayAction> = Vec::new();
        let peers = senders_peers(&self.fec_senders);
        let ghost start = self.senders();
        let ghost mut outs: Map<Seq<char>, Option<Seq<(u8, Seq<u8>)>>> = Map::empty();
        let ghost mut pos: Map<Seq<char>, int> = Map::empty();
        let mut i: usize = 0;
        while i < peers.len()
            invariant
                0 <= i <= peers@.len(),
                self.wf(),
                self.spec_node_id() == old(self).spec_node_id(),
                self.spec_fec_config() == old(self).spec_fec_config(),
                self.receivers() == old(self).receivers(),
                self.senders().dom() == start.dom(),
                start == old(self).senders(),
                forall|a: int, b: int| 0 <= a < peers@.len() && 0 <= b < peers@.len() && a != b ==> peers@[a]@ != peers@[b]@,
                forall|a: int| 0 <= a < peers@.len() ==> start.contains_key(#[trigger] peers@[a]@),
                forall|k: Seq<char>| start.contains_key(k) ==> exists|a: int| 0 <= a < peers@.len() && k == (#[trigger] peers@[a])@,
                forall|a: int| i <= a < peers@.len() ==> self.senders()[#[trigger] peers@[a]@] == start[peers@[a]@],
                forall|a: int| 0 <= a < i ==> outs.contains_key(#[trigger] peers@[a]@),
                forall|k: Seq<char>| #[trigger] outs.contains_key(k) ==> {
                    &&& start.contains_key(k)
                    &&& flushed(start[k], self.senders()[k], outs[k])
                    &&& outs[k] is Some ==> 0 <= pos[k] < actions@.len() && actions@[pos[k]]@ == RelayActionView::SendShards(k, outs[k]->0)
                    &&& forall|a: int| i <= a < peers@.len() ==> k != (#[trigger] peers@[a])@
                },
                forall|j: int| 0 <= j < actions@.len() ==> ((#[trigger] actions@[j])@ matches RelayActionView::SendShards(p, shards)
                    && outs.contains_key(p) && outs[p] == Some(shards) && pos[p] == j),
            decreases peers@.len() - i,
        {
            let peer = peers[i].as_str();
            let ghost key = peers@[i as int]@;
            assert(start.contains_key(key));
            let mut sender = match senders_take(&mut self.fec_senders, peer) {
                Some(s) => s,
                None => {
                    return actions;
                },
            };
            assert(sender == start[key]);
            let out = sender.flush_partial();
            let ghost after = sender;
            senders_put(&mut self.fec_senders, peer, sender);
            assert(self.senders().dom() =~= start.dom());
            proof {
                outs = outs.insert(key, out.deep_view());
            }
            match out {
                Some(shards) => {
                    let ghost sv = shards.deep_view();
                    proof {
                        pos = pos.insert(key, actions@.len() as int);
                    }
                    actions.push(RelayAction::SendShards { peer: peer.to_string(), shards });
                    assert(actions@[actions@.len() - 1]@ == RelayActionView::SendShards(key, sv));
                },
                None => {},
            }
            assert forall|k: Seq<char>| #[trigger] outs.contains_key(k) implies {
                &&& start.contains_key(k)
                &&& flushed(start[k], self.senders()[k], outs[k])
                &&& outs[k] is Some ==> 0 <= pos[k] < actions@.len() && actions@[pos[k]]@ == RelayActionView::SendShards(k, outs[k]->0)
                &&& forall|a: int| i + 1 <= a < peers@.len() ==> k != (#[trigger] peers@[a])@
            } by {
                if k != key {
                    assert forall|a: int| i + 1 <= a < peers@.len() implies k != (#[trigger] peers@[a])@ by {}
                } else {
                    assert forall|a: int| i + 1 <= a < peers@.len() implies k != (#[trigger] peers@[a])@ by {
                        assert(peers@[a]@ != peers@[i as int]@);
                    }
                }
            }
            assert forall|a: int| i + 1 <= a < peers@.len() implies self.senders()[#[trigger] peers@[a]@] == start[peers@[a]@] by {
                assert(peers@[a]@ != peers@[i as int]@);
            }
            i = i + 1;
        }
        assert forall|p: Seq<char>| #[trigger] old(self).senders().contains_key(p) implies exists|out: Option<Seq<(u8, Seq<u8>)>>|
            flushed(old(self).senders()[p], self.senders()[p], out) && (out matches Some(shards)
                ==> actions_view(actions@).contains(RelayActionView::SendShards(p, shards))) by {
            let a = choose|a: int| 0 <= a < peers@.len() && p == (#[trigger] peers@[a])@;
            assert(outs.contains_key(p));
            if outs[p] is Some {
                assert(actions_view(actions@)[pos[p]] == RelayActionView::SendShards(p, outs[p]->0));
            }
        }

        assert forall|a: int, b: int|
            0 <= a < actions@.len() && 0 <= b < actions@.len() && a != b implies action_peer((#[trigger] actions@[a])@)
                != action_peer((#[trigger] actions@[b])@) by {
            if let RelayActionView::SendShards(pa, _) = actions@[a]@ {
                if let RelayActionView::SendShards(pb, _) = actions@[b]@ {
                    assert(pos[pa] == a && pos[pb] == b);
                }
            }
        }

        // Expire old incomplete receive blocks.
        let rpeers = receivers_peers(&self.fec_receivers);
        let ghost rstart = self.receivers();
        let ghost fin_senders = self.senders();
        let ghost mut ages_of: Map<Seq<char>, Map<u16, u128>> = Map::empty();
        let mut j: usize = 0;
        while j < rpeers.len()
            invariant
                0 <= j <= rpeers@.len(),
                self.fec_config.valid(),
                self.spec_node_id() == old(self).spec_node_id(),
                self.spec_fec_config() == old(self).spec_fec_config(),
                self.senders() == fin_senders,
                forall|p: Seq<char>| #[trigger] fin_senders.contains_key(p) ==> fin_senders[p].wf()
                    && fin_senders[p].spec_config() == self.fec_config,
                fin_senders.dom() == rstart.dom(),
                self.receivers().dom() == rstart.dom(),
                forall|p: Seq<char>| #[trigger] self.receivers().contains_key(p) ==> self.receivers()[p].wf()
                    && self.receivers()[p]@.submap_of(rstart[p]@),
                rstart == old(self).receivers(),
                forall|a: int, b: int| 0 <= a < rpeers@.len() && 0 <= b < rpeers@.len() && a != b ==> rpeers@[a]@ != rpeers@[b]@,
                forall|a: int| 0 <= a < rpeers@.len() ==> rstart.contains_key(#[trigger] rpeers@[a]@),
                forall|k: Seq<char>| rstart.contains_key(k) ==> exists|a: int| 0 <= a < rpeers@.len() && k == (#[trigger] rpeers@[a])@,
                forall|a: int| j <= a < rpeers@.len() ==> self.receivers()[#[trigger] rpeers@[a]@] == rstart[rpeers@[a]@],
                forall|a: int| 0 <= a < j ==> ages_of.contains_key(#[trigger] rpeers@[a]@),
                forall|k: Seq<char>| #[trigger] ages_of.contains_key(k) ==> {
                    &&& rstart.contains_key(k)
                    &&& ages_of[k].dom() == rstart[k]@.dom()
                    &&& self.receivers()[k]@ == kept_younger(rstart[k]@, ages_of[k], FEC_BLOCK_MAX_AGE_MS)
                    &&& self.receivers()[k].measured_ages() == ages_of[k]
                    &&& forall|a: int| j <= a < rpeers@.len() ==> k != (#[trigger] rpeers@[a])@
                },
            decreases rpeers@.len() - j,
        {
            let peer = rpeers[j].as_str();
            let ghost prev = self.receivers();
            match receivers_take(&mut self.fec_receivers, peer) {
                Some(mut receiver) => {
                    let ghost taken = receiver;
                    receiver.expire_old(FEC_BLOCK_MAX_AGE_MS);
                    let ghost expired = receiver;
                    receivers_put(&mut self.fec_receivers, peer, receiver);
                    assert(self.receivers().dom() =~= rstart.dom());
                    assert forall|p: Seq<char>| #[trigger] self.receivers().contains_key(p) implies self.receivers()[p].wf()
                        && self.receivers()[p]@.submap_of(rstart[p]@) by {
                        if p == rpeers@[j as int]@ {
                            assert(self.receivers()[p] == expired);
                            assert(taken == prev[p]);
                            assert(expired.wf());
                            assert(expired@.submap_of(taken@));
                            assert(taken@.submap_of(rstart[p]@));
                            assert forall|k: u16| #[trigger] expired@.contains_key(k) implies rstart[p]@.contains_key(k)
                                && expired@[k] == rstart[p]@[k] by {
                                assert(taken@.contains_key(k));
                            }
                        } else {
                            assert(self.receivers()[p] == prev[p]);
                        }
                    }
                    let ghost key = rpeers@[j as int]@;
                    assert(prev[key] == rstart[key]);
                    proof {
                        ages_of = ages_of.insert(key, expired.measured_ages());
                    }
                    assert forall|a: int| j + 1 <= a < rpeers@.len() implies self.receivers()[#[trigger] rpeers@[a]@]
                        == rstart[rpeers@[a]@] by {
                        assert(rpeers@[a]@ != rpeers@[j as int]@);
                    }
                    assert forall|k: Seq<char>| #[trigger] ages_of.contains_key(k) implies {
                        &&& rstart.contains_key(k)
                        &&& ages_of[k].dom() == rstart[k]@.dom()
                        &&& self.receivers()[k]@ == kept_younger(rstart[k]@, ages_of[k], FEC_BLOCK_MAX_AGE_MS)
                        &&& self.receivers()[k].measured_ages() == ages_of[k]
                        &&& forall|a: int| j + 1 <= a < rpeers@.len() ==> k != (#[trigger] rpeers@[a])@
                    } by {
                        if k != key {
                            assert(self.receivers()[k] == prev[k]);
                            assert forall|a: int| j + 1 <= a < rpeers@.len() implies k != (#[trigger] rpeers@[a])@ by {}
                        } else {
                            assert(self.receivers()[key] == expired);
                            assert forall|a: int| j + 1 <= a < rpeers@.len() implies k != (#[trigger] rpeers@[a])@ by {
                                assert(rpeers@[a]@ != rpeers@[j as int]@);
                            }
                        }
                    }
                },
                None => {
                    assert(self.receivers() =~= prev);
                    assert(false);
                },
            }
            j = j + 1;
        }
        assert forall|p: Seq<char>| #[trigger] old(self).receivers().contains_key(p) implies exists|age: Map<u16, u128>|
            age.dom() == old(self).receivers()[p]@.dom() && self.receivers()[p]@ == #[trigger] kept_younger(
                old(self).receivers()[p]@,
                age,
                FEC_BLOCK_MAX_AGE_MS,
            ) by {
            let a = choose|a: int| 0 <= a < rpeers@.len() && p == (#[trigger] rpeers@[a])@;
            assert(ages_of.contains_key(p));
            assert(ages_of[p].dom() == old(self).receivers()[p]@.dom());
        }
        assert forall|p: Seq<char>| #[trigger] old(self).receivers().contains_key(p) implies {
            &&& self.receivers()[p].measured_ages().dom() == old(self).receivers()[p]@.dom()
            &&& self.receivers()[p]@ == kept_younger(
                old(self).receivers()[p]@,
                self.receivers()[p].measured_ages(),
                FEC_BLOCK_MAX_AGE_MS,
            )
        } by {
            let a = choose|a: int| 0 <= a < rpeers@.len() && p == (#[trigger] rpeers@[a])@;
            assert(ages_of.contains_key(p));
        }
        actions
    }
}

/// A copy of `bytes`.
fn copy_bytes(bytes: &[u8]) -> (out: Vec<u8>)
    ensures
        out@ == bytes@,
{
    let mut out: Vec<u8> = Vec::new();
    let mut i: usize = 0;
    while i < bytes.len()
        invariant
            0 <= i <= bytes@.len(),
            out@ == bytes@.take(i as int),
        decreases bytes@.len() - i,
    {
        out.push(bytes[i]);
        assert(bytes@.take(i + 1) =~= bytes@.take(i as int).push(bytes@[i as int]));
        i = i + 1;
    }
    assert(bytes@.take(i as int) =~= bytes@);
    out
}

} // verus!
