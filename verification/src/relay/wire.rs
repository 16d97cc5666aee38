//! The tunnel wire protocol: packet types and the frame header.
//!
//! Every UDP datagram of a tunnel is one frame:
//! `[1B packet_type] [2B seq LE] [2B payload_len LE] [payload_len bytes]`,
//! where the payload is the sealed (encrypted and authenticated) packet body.
use vstd::prelude::*;

use crate::relay::fec_codec::{le16, le16_value, lemma_le16_roundtrip};

verus! {

/// A relay payload (or an FEC data shard carrying one).
pub const PACKET_DATA: u8 = 0x01;

/// An FEC parity shard.
pub const PACKET_PARITY: u8 = 0x02;

/// A latency probe.
pub const PACKET_PING: u8 = 0x03;

/// The echo of a latency probe.
pub const PACKET_PONG: u8 = 0x04;

/// A control message between PoPs.
pub const PACKET_CONTROL: u8 = 0x05;

/// Bytes of the frame header.
pub const HEADER_SIZE: usize = 5;

/// Largest datagram a tunnel reads.
pub const MAX_PACKET: usize = 65535;

/// The header bytes of a frame.
pub open spec fn spec_header(packet_type: u8, seq: u16, payload_len: u16) -> Seq<u8> {
    seq![packet_type] + le16(seq) + le16(payload_len)
}

/// The fields `(packet_type, seq, payload_len)` read from the front of `buf`.
pub open spec fn spec_decode_header(buf: Seq<u8>) -> (u8, u16, u16)
    recommends
        buf.len() >= HEADER_SIZE,
{
    (buf[0], le16_value(buf[1], buf[2]), le16_value(buf[3], buf[4]))
}

/// Writes the frame header into the first `HEADER_SIZE` bytes of `buf`.
pub fn encode_header(buf: &mut [u8], packet_type: u8, seq: u16, payload_len: u16)
    requires
        old(buf)@.len() >= HEADER_SIZE,
    ensures
        final(buf)@ == spec_header(packet_type, seq, payload_len) + old(buf)@.skip(HEADER_SIZE as int),
{
    buf[0] = packet_type;
    buf[1] = (seq % 256) as u8;
    buf[2] = (seq / 256) as u8;
    buf[3] = (payload_len % 256) as u8;
    buf[4] = (payload_len / 256) as u8;
    assert(buf@ =~= spec_header(packet_type, seq, payload_len) + old(buf)@.skip(HEADER_SIZE as int));
}

/// Reads `(packet_type, seq, payload_len)` from the front of `buf`.
pub fn decode_header(buf: &[u8]) -> (r: (u8, u16, u16))
    requires
        buf@.len() >= HEADER_SIZE,
    ensures
        r == spec_decode_header(buf@),
{
    let seq = buf[1] as u16 + (buf[2] as u16) * 256;
    let payload_len = buf[3] as u16 + (buf[4] as u16) * 256;
    (buf[0], seq, payload_len)
}

/// Decoding an encoded header gives back its fields, whatever follows it.
pub proof fn lemma_header_roundtrip(packet_type: u8, seq: u16, payload_len: u16, rest: Seq<u8>)
    ensures
        spec_decode_header(spec_header(packet_type, seq, payload_len) + rest) == (
            packet_type,
            seq,
            payload_len,
        ),
{
    lemma_le16_roundtrip(seq);
    lemma_le16_roundtrip(payload_len);
    let h = spec_header(packet_type, seq, payload_len) + rest;
    assert(h[0] == packet_type);
    assert(h[1] == le16(seq)[0] && h[2] == le16(seq)[1]);
    assert(h[3] == le16(payload_len)[0] && h[4] == le16(payload_len)[1]);
}

} // verus!
