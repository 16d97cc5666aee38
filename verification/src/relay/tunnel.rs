//! What a tunnel computes when it sends and receives: sealed frames, the
//! parsing of received datagrams, and the shards of an FEC-protected send.
//! The sockets themselves are driven by the application.
use vstd::prelude::*;

use crate::relay::crypto::{chacha_seal, packet_nonce, sealable, TunnelCrypto};
use crate::relay::fec::{all_len, lemma_bytes_deep_view, lemma_deep_view_push, lemma_deep_view_push_pair, rs_codeword, FecCodecError, FecConfig, FecEncoder};
use crate::relay::wire::{
    decode_header,
    encode_header,
    lemma_header_roundtrip,
    spec_decode_header,
    spec_header,
    HEADER_SIZE,
    PACKET_DATA,
    PACKET_PARITY,
};

verus! {

broadcast use lemma_bytes_deep_view;

/// The frame that carries `ciphertext`: the header (whose length field is
/// the length mod 2^16) followed by the ciphertext.
pub open spec fn spec_frame(packet_type: u8, seq: u16, ciphertext: Seq<u8>) -> Seq<u8> {
    spec_header(packet_type, seq, (ciphertext.len() % 65536) as u16) + ciphertext
}

/// What a received datagram carries: `(packet_type, seq, ciphertext)`, or
/// `None` when it is shorter than a header or than the length it announces.
/// Bytes past the announced length are ignored.
pub open spec fn spec_parse_frame(datagram: Seq<u8>) -> Option<(u8, u16, Seq<u8>)> {
    if datagram.len() < HEADER_SIZE {
        None
    } else {
        let (packet_type, seq, len) = spec_decode_header(datagram);
        if HEADER_SIZE + len > datagram.len() {
            None
        } else {
            Some((packet_type, seq, datagram.subrange(HEADER_SIZE as int, HEADER_SIZE + len)))
        }
    }
}

/// Encrypts `payload` as packet `seq` and frames it for the wire.
pub fn seal_frame(crypto: &TunnelCrypto, packet_type: u8, seq: u16, payload: &[u8]) -> (frame: Vec<u8>)
    requires
        sealable(payload@),
    ensures
        frame@ == spec_frame(packet_type, seq, chacha_seal(crypto.key(), packet_nonce(seq), payload@)),
{
    let mut ct = crypto.encrypt(seq, payload);
    let ct_len = (ct.len() % 65536) as u16;
    let mut frame: Vec<u8> = vec![0u8; HEADER_SIZE];
    encode_header(frame.as_mut_slice(), packet_type, seq, ct_len);
    frame.append(&mut ct);
    frame
}

/// Splits a received datagram into `(packet_type, seq, ciphertext)`.
pub fn parse_frame(datagram: &[u8]) -> (r: Option<(u8, u16, &[u8])>)
    ensures
        match spec_parse_frame(datagram@) {
            None => r is None,
            Some((t, s, ct)) => r matches Some((t2, s2, ct2)) && t2 == t && s2 == s && ct2@ == ct,
        },
{
    if datagram.len() < HEADER_SIZE {
        return None;
    }
    let (packet_type, seq, payload_len) = decode_header(datagram);
    let ct_end = HEADER_SIZE + payload_len as usize;
    if ct_end > datagram.len() {
        return None;
    }
    Some((packet_type, seq, &datagram[HEADER_SIZE..ct_end]))
}

/// A frame reads back as the packet type, sequence number and ciphertext it
/// was built from, whenever the ciphertext fits the 16-bit length field.
pub proof fn lemma_frame_roundtrip(packet_type: u8, seq: u16, ciphertext: Seq<u8>)
    requires
        ciphertext.len() <= 65535,
    ensures
        spec_parse_frame(spec_frame(packet_type, seq, ciphertext)) == Some((packet_type, seq, ciphertext)),
{
    let len = (ciphertext.len() % 65536) as u16;
    lemma_header_roundtrip(packet_type, seq, len, ciphertext);
    let f = spec_frame(packet_type, seq, ciphertext);
    assert(len == ciphertext.len());
    assert(f.subrange(HEADER_SIZE as int, HEADER_SIZE + len) =~= ciphertext);
}

/// Shard size when `len` bytes are split into `d` data shards.
pub open spec fn fec_shard_size(len: nat, d: nat) -> nat {
    ((len + d - 1) / (d as int)) as nat
}

/// The `d` data shards of `data`: shard `i` holds bytes `i*s .. i*s + s` of
/// `data` (with `s` the shard size), zero past the end of `data`.
pub open spec fn split_data(data: Seq<u8>, d: nat) -> Seq<Seq<u8>> {
    let s = fec_shard_size(data.len(), d);
    Seq::new(
        d,
        |i: int| Seq::new(s, |j: int| if i * s + j < data.len() { data[i * s + j] } else { 0u8 }),
    )
}

/// The packets of an FEC-protected send of `data`: the data shards, typed
/// `PACKET_DATA`, then the parity shards, typed `PACKET_PARITY`.
pub open spec fn spec_fec_packets(data: Seq<u8>, config: FecConfig) -> Seq<(u8, Seq<u8>)> {
    let d = config.data_shards as nat;
    let shards = rs_codeword(d, config.parity_shards as nat, split_data(data, d));
    Seq::new(shards.len(), |i: int| (if i < d { PACKET_DATA } else { PACKET_PARITY }, shards[i]))
}

proof fn lemma_shard_size(len: nat, d: nat)
    requires
        len > 0,
        d > 0,
    ensures
        fec_shard_size(len, d) > 0,
        d * fec_shard_size(len, d) >= len,
        d * fec_shard_size(len, d) <= len + d - 1,
{
    let s = fec_shard_size(len, d);
    assert(s > 0 && d * s >= len && d * s <= len + d - 1) by (nonlinear_arith)
        requires
            len > 0,
            d > 0,
            s == (len + d - 1) / (d as int),
    ;
}

/// The packets of an FEC-protected send of `data`: `data` split into
/// `data_shards` shards of equal size (the last ones zero-padded), each
/// followed by the parity the codec computes. Fails when the codec refuses
/// the block shape.
pub fn fec_packets(data: &[u8], config: FecConfig) -> (r: Result<Vec<(u8, Vec<u8>)>, FecCodecError>)
    requires
        data@.len() > 0,
        config.data_shards > 0,
        data@.len() + config.data_shards <= usize::MAX,
    ensures
        r is Ok <==> config.valid(),
        r matches Ok(out) ==> out.deep_view() == spec_fec_packets(data@, config),
        r matches Ok(out) ==> out@.len() == config.data_shards + config.parity_shards,
        r matches Ok(out) ==> forall|i: int|
            0 <= i < out@.len() ==> (#[trigger] out@[i]).0 == if i < config.data_shards {
                PACKET_DATA
            } else {
                PACKET_PARITY
            },
        r matches Ok(out) ==> forall|i: int|
            0 <= i < config.data_shards ==> (#[trigger] out@[i]).1@ == split_data(data@, config.data_shards as nat)[i],
{
    let d = config.data_shards;
    let len = data.len();
    let s = (len + d - 1) / d;
    proof {
        lemma_shard_size(len as nat, d as nat);
    }
    let ghost want = split_data(data@, d as nat);
    let mut shards: Vec<Vec<u8>> = Vec::new();
    let mut i: usize = 0;
    let mut off: usize = 0;
    while i < d
        invariant
            i <= d,
            s == fec_shard_size(len as nat, d as nat),
            len == data@.len(),
            off == i * s,
            d * s <= len + d - 1,
            len + d <= usize::MAX,
            want == split_data(data@, d as nat),
            shards.deep_view() == want.take(i as int),
        decreases d - i,
    {
        proof {
            assert((i + 1) * s <= d * s) by (nonlinear_arith)
                requires
                    i < d,
            ;
            assert((i + 1) * s == i * s + s) by (nonlinear_arith);
        }
        let mut shard: Vec<u8> = Vec::new();
        let mut j: usize = 0;
        while j < s
            invariant
                j <= s,
                off + s <= len + d - 1,
                len + d <= usize::MAX,
                len == data@.len(),
                shard@ == want[i as int].take(j as int),
                want == split_data(data@, d as nat),
                s == fec_shard_size(len as nat, d as nat),
                off == i * s,
                i < d,
            decreases s - j,
        {
            if off + j < len {
                shard.push(data[off + j]);
            } else {
                shard.push(0u8);
            }
            assert(shard@ =~= want[i as int].take(j + 1));
            j = j + 1;
        }
        assert(shard@ =~= want[i as int]);
        let ghost prev = shards;
        shards.push(shard);
        proof {
            lemma_deep_view_push(prev, shards, shard);
            assert(shards.deep_view() =~= want.take(i + 1));
        }
        off = off + s;
        i = i + 1;
    }
    assert(shards.deep_view() =~= want);
    assert(shards@.len() == d);
    assert(shards@[0]@ == want[0]);
    assert(all_len(shards.deep_view(), s as nat));
    let encoder = FecEncoder::new(config);
    let ghost data_shards = shards.deep_view();
    match encoder.encode(&mut shards) {
        Ok(()) => {},
        Err(_) => {
            return Err(FecCodecError);
        },
    }
    let ghost coded = rs_codeword(d as nat, config.parity_shards as nat, want);
    assert(shards.deep_view() == coded);
    let mut out: Vec<(u8, Vec<u8>)> = Vec::new();
    let mut k: usize = 0;
    while k < shards.len()
        invariant
            k <= shards@.len(),
            shards.deep_view() == coded,
            out.deep_view() == spec_fec_packets(data@, config).take(k as int),
            spec_fec_packets(data@, config).len() == coded.len(),
            d == config.data_shards,
            want == split_data(data@, d as nat),
            coded == rs_codeword(d as nat, config.parity_shards as nat, want),
        decreases shards@.len() - k,
    {
        let ptype = if k < d {
            PACKET_DATA
        } else {
            PACKET_PARITY
        };
        let shard = shards[k].clone();
        assert(shard@ =~= shards@[k as int]@);
        let ghost prev = out;
        out.push((ptype, shard));
        proof {
            lemma_deep_view_push_pair(prev, out, (ptype, shard));
            assert(shards.deep_view()[k as int] == shards@[k as int]@);
            assert(out.deep_view() =~= spec_fec_packets(data@, config).take(k + 1));
        }
        k = k + 1;
    }
    assert(out.deep_view() =~= spec_fec_packets(data@, config));
    assert forall|i: int| 0 <= i < out@.len() implies (#[trigger] out@[i]).0 == spec_fec_packets(data@, config)[i].0
        && out@[i].1@ == spec_fec_packets(data@, config)[i].1 by {
        assert(out.deep_view()[i] == (out@[i].0, out@[i].1@));
    }
    Ok(out)
}


/// Loss accounting on a tunnel's receive path: given the sequence number
/// expected next and the one that arrived, returns the sequence number
/// expected after it and how many packets were skipped in between (counted
/// as lost), sequence numbers wrapping at 2^16.
pub fn loss_step(expected: u16, seq: u16) -> (r: (u16, u16))
    ensures
        r.0 == (seq + 1) % 65536,
        r.1 == (seq - expected) % 65536,
{
    let skipped = if seq >= expected {
        seq - expected
    } else {
        ((seq as u32 + 65536) - expected as u32) as u16
    };
    let next = if seq == 65535 {
        0
    } else {
        seq + 1
    };
    (next, skipped)
}


/// The loss records of a frame with sequence number `seq` that arrives
/// while `expected` is expected: one loss per skipped sequence number, one
/// arrival, and one more loss when its payload fails to open.
pub open spec fn spec_receive_records(expected: u16, seq: u16, opened: bool) -> Seq<bool> {
    Seq::new(((seq - expected) % 65536) as nat, |i: int| false).push(true) + if opened {
        Seq::<bool>::empty()
    } else {
        seq![false]
    }
}

/// One step of a tunnel's receive loop: given the sequence number expected
/// next and a received datagram, returns the sequence number expected after
/// it, the loss records it gives (`true` an arrival, `false` a loss), and
/// the packet `(packet_type, seq, plaintext)` when the frame is whole and
/// its payload opens. A datagram shorter than a header is ignored; a frame
/// shorter than the length it announces counts one loss.
pub fn receive_step(crypto: &TunnelCrypto, expected: u16, datagram: &[u8]) -> (r: (
    u16,
    Vec<bool>,
    Option<(u8, u16, Vec<u8>)>,
))
    ensures
        datagram@.len() < HEADER_SIZE ==> r.0 == expected && r.1@ == Seq::<bool>::empty() && r.2 is None,
        datagram@.len() >= HEADER_SIZE && spec_parse_frame(datagram@) is None ==> r.0 == expected && r.1@
            == seq![false] && r.2 is None,
        spec_parse_frame(datagram@) matches Some((t, s, ct)) ==> {
            &&& r.0 == (s + 1) % 65536
            &&& r.1@ == spec_receive_records(expected, s, r.2 is Some)
            &&& r.2 matches Some((t2, s2, p)) ==> t2 == t && s2 == s && sealable(p@) && chacha_seal(
                crypto.key(),
                packet_nonce(s),
                p@,
            ) == ct
            &&& forall|p: Seq<u8>|
                sealable(p) && #[trigger] chacha_seal(crypto.key(), packet_nonce(s), p) == ct ==> (r.2 matches Some(
                    (_t3, _s3, q),
                ) && q@ == p)
        },
{
    let mut records: Vec<bool> = Vec::new();
    if datagram.len() < HEADER_SIZE {
        return (expected, records, None);
    }
    let (packet_type, seq, ciphertext) = match parse_frame(datagram) {
        Some(f) => f,
        None => {
            records.push(false);
            assert(records@ =~= seq![false]);
            return (expected, records, None);
        },
    };
    let (next, skipped) = loss_step(expected, seq);
    let mut k: u16 = 0;
    while k < skipped
        invariant
            k <= skipped,
            records@ == Seq::new(k as nat, |i: int| false),
        decreases skipped - k,
    {
        records.push(false);
        assert(records@ =~= Seq::new((k + 1) as nat, |i: int| false));
        k = k + 1;
    }
    records.push(true);
    match crypto.decrypt(seq, ciphertext) {
        Ok(plaintext) => {
            assert(records@ =~= spec_receive_records(expected, seq, true));
            (next, records, Some((packet_type, seq, plaintext)))
        },
        Err(_) => {
            records.push(false);
            assert(records@ =~= spec_receive_records(expected, seq, false));
            (next, records, None)
        },
    }
}

} // verus!
