//! FEC codec: block-level forward error correction for the relay tunnel.
//!
//! Send path: relay payloads are gathered into blocks of `data_shards`; each
//! full (or flushed) block is emitted as `data_shards` data shards followed by
//! `parity_shards` parity shards.
//!
//! Receive path: shards are collected by block id; as soon as `data_shards`
//! distinct shards of a block have arrived the block is reconstructed and its
//! relay payloads are returned.
//!
//! Shard header (7 bytes, in front of each shard):
//! `[2B block_id LE] [1B shard_idx] [1B data_shards] [1B parity_shards] [2B original_len LE]`.
//! Inside a data shard each payload is prefixed by its 2-byte LE length and
//! padded with zeros to the block's common shard size.
use vstd::prelude::*;

use crate::relay::fec::{lemma_bytes_deep_view, lemma_deep_view_push, lemma_deep_view_push_pair, FecConfig, FecEncoder, rs_parity, rs_reconstructed, rs_reconstructible, count_present, all_len, agrees_with, rs_codeword, rs_recovers, rs_params_ok, present_uniform, uniform_shards};
use crate::relay::wire;

verus! {

broadcast use lemma_bytes_deep_view;

pub const SHARD_HEADER_SIZE: usize = 7;

// --- Byte-level helpers ---

/// Little-endian bytes of a 16-bit value.
pub open spec fn le16(v: u16) -> Seq<u8> {
    seq![(v % 256) as u8, (v / 256) as u8]
}

/// The 16-bit value of two little-endian bytes.
pub open spec fn le16_value(lo: u8, hi: u8) -> u16 {
    (lo + hi * 256) as u16
}

/// `n` zero bytes.
pub open spec fn zeros(n: nat) -> Seq<u8> {
    Seq::new(n, |i: int| 0u8)
}

pub proof fn lemma_le16_roundtrip(v: u16)
    ensures
        le16_value(le16(v)[0], le16(v)[1]) == v,
{
}

// --- Shard header ---

/// The 7 header bytes of a shard.
pub open spec fn shard_header(
    block_id: u16,
    shard_idx: u8,
    data_shards: u8,
    parity_shards: u8,
    original_len: u16,
) -> Seq<u8> {
    le16(block_id) + seq![shard_idx, data_shards, parity_shards] + le16(original_len)
}

/// The header fields that `decode_shard_header` reads from `buf`.
pub open spec fn spec_decode_shard_header(buf: Seq<u8>) -> Option<(u16, u8, u8, u8, u16)> {
    if buf.len() < SHARD_HEADER_SIZE {
        None
    } else {
        Some((le16_value(buf[0], buf[1]), buf[2], buf[3], buf[4], le16_value(buf[5], buf[6])))
    }
}

/// Writes the shard header into the first 7 bytes of `buf`.
pub fn encode_shard_header(
    buf: &mut [u8],
    block_id: u16,
    shard_idx: u8,
    data_shards: u8,
    parity_shards: u8,
    original_len: u16,
)
    requires
        old(buf)@.len() >= SHARD_HEADER_SIZE,
    ensures
        final(buf)@ == shard_header(block_id, shard_idx, data_shards, parity_shards, original_len)
            + old(buf)@.skip(SHARD_HEADER_SIZE as int),
{
    buf[0] = (block_id % 256) as u8;
    buf[1] = (block_id / 256) as u8;
    buf[2] = shard_idx;
    buf[3] = data_shards;
    buf[4] = parity_shards;
    buf[5] = (original_len % 256) as u8;
    buf[6] = (original_len / 256) as u8;
    assert(buf@ =~= shard_header(block_id, shard_idx, data_shards, parity_shards, original_len)
        + old(buf)@.skip(SHARD_HEADER_SIZE as int));
}

/// Reads `(block_id, shard_idx, data_shards, parity_shards, original_len)`
/// from the front of `buf`; `None` when `buf` is shorter than a header.
pub fn decode_shard_header(buf: &[u8]) -> (r: Option<(u16, u8, u8, u8, u16)>)
    ensures
        r == spec_decode_shard_header(buf@),
{
    if buf.len() < SHARD_HEADER_SIZE {
        return None;
    }
    let block_id = buf[0] as u16 + (buf[1] as u16) * 256;
    let shard_idx = buf[2];
    let data_shards = buf[3];
    let parity_shards = buf[4];
    let original_len = buf[5] as u16 + (buf[6] as u16) * 256;
    Some((block_id, shard_idx, data_shards, parity_shards, original_len))
}

/// Decoding an encoded header gives back its fields, whatever follows it.
pub proof fn lemma_shard_header_roundtrip(
    block_id: u16,
    shard_idx: u8,
    data_shards: u8,
    parity_shards: u8,
    original_len: u16,
    rest: Seq<u8>,
)
    ensures
        spec_decode_shard_header(
            shard_header(block_id, shard_idx, data_shards, parity_shards, original_len) + rest,
        ) == Some((block_id, shard_idx, data_shards, parity_shards, original_len)),
{
    lemma_le16_roundtrip(block_id);
    lemma_le16_roundtrip(original_len);
}


// --- Block layout ---

/// A payload inside a data shard: its length (mod 2^16, LE) then its bytes.
pub open spec fn prefixed(payload: Seq<u8>) -> Seq<u8> {
    le16((payload.len() % 65536) as u16) + payload
}

/// The common shard size of a block: the longest prefixed payload, and
/// never less than the 2-byte prefix.
pub open spec fn block_shard_len(payloads: Seq<Seq<u8>>) -> nat
    decreases payloads.len(),
{
    if payloads.len() == 0 {
        2
    } else {
        let rest = block_shard_len(payloads.drop_last());
        let here = (2 + payloads.last().len()) as nat;
        if rest >= here {
            rest
        } else {
            here
        }
    }
}

/// The `data_shards` data shards of a block: each payload prefixed and
/// zero-padded to the block's shard size, then all-zero shards for the
/// slots that no payload fills.
pub open spec fn block_data_shards(data_shards: nat, payloads: Seq<Seq<u8>>) -> Seq<Seq<u8>> {
    let len = block_shard_len(payloads);
    Seq::new(
        data_shards,
        |i: int|
            if i < payloads.len() {
                prefixed(payloads[i]) + zeros((len - (2 + payloads[i].len())) as nat)
            } else {
                zeros(len)
            },
    )
}

/// The `original_len` field of shard `i` of a block: the payload's length
/// (mod 2^16) for a data shard that carries one, otherwise 0.
pub open spec fn block_original_len(payloads: Seq<Seq<u8>>, i: int) -> u16 {
    if 0 <= i < payloads.len() {
        (payloads[i].len() % 65536) as u16
    } else {
        0
    }
}

/// The shards emitted for a block: `(packet type, header + shard)` for the
/// data shards, then for the parity shards.
pub open spec fn block_output(config: FecConfig, block_id: u16, payloads: Seq<Seq<u8>>) -> Seq<(u8, Seq<u8>)> {
    let d = config.data_shards as nat;
    let p = config.parity_shards as nat;
    let data = block_data_shards(d, payloads);
    let all = data + rs_parity(d, p, data);
    Seq::new(
        d + p,
        |i: int|
            (
                if i < d {
                    wire::PACKET_DATA
                } else {
                    wire::PACKET_PARITY
                },
                shard_header(block_id, i as u8, d as u8, p as u8, block_original_len(payloads, i))
                    + all[i],
            ),
    )
}

/// The parity of the block's data shards is `parity_shards` shards of the
/// block's shard size (as every successful encode of that block shows).
pub open spec fn block_parity_shaped(config: FecConfig, payloads: Seq<Seq<u8>>) -> bool {
    let d = config.data_shards as nat;
    let p = config.parity_shards as nat;
    let data = block_data_shards(d, payloads);
    &&& rs_parity(d, p, data).len() == p
    &&& all_len(rs_parity(d, p, data), block_shard_len(payloads))
}

/// `out` is what the sender emits for the block `payloads` with id
/// `block_id`, coded by a codec whose shape is an erasure code.
pub open spec fn emitted_block(
    config: FecConfig,
    block_id: u16,
    payloads: Seq<Seq<u8>>,
    out: Seq<(u8, Seq<u8>)>,
) -> bool {
    &&& out == block_output(config, block_id, payloads)
    &&& block_parity_shaped(config, payloads)
    &&& rs_recovers(config.data_shards as nat, config.parity_shards as nat)
}

/// A payload the sender can frame: its shard, with prefix and header, has a
/// length that fits in `usize`.
pub open spec fn payload_fits(payload: Seq<u8>) -> bool {
    payload.len() + 9 <= usize::MAX
}

proof fn lemma_block_shard_len_bounds(payloads: Seq<Seq<u8>>)
    ensures
        block_shard_len(payloads) >= 2,
        forall|i: int| 0 <= i < payloads.len() ==> 2 + (#[trigger] payloads[i]).len() <= block_shard_len(payloads),
        (forall|i: int| 0 <= i < payloads.len() ==> payload_fits(#[trigger] payloads[i])) ==> block_shard_len(payloads) + 7 <= usize::MAX,
    decreases payloads.len(),
{
    if payloads.len() > 0 {
        lemma_block_shard_len_bounds(payloads.drop_last());
        assert forall|i: int| 0 <= i < payloads.len() implies 2 + (#[trigger] payloads[i]).len() <= block_shard_len(payloads) by {
            if i < payloads.len() - 1 {
                assert(payloads.drop_last()[i] == payloads[i]);
            }
        }
        if forall|i: int| 0 <= i < payloads.len() ==> payload_fits(#[trigger] payloads[i]) {
            assert forall|i: int| 0 <= i < payloads.drop_last().len() implies payload_fits(#[trigger] payloads.drop_last()[i]) by {
                assert(payloads.drop_last()[i] == payloads[i]);
            }
            assert(payload_fits(payloads[payloads.len() - 1]));
        }
    }
}

/// The block's shard size, computed.
fn max_shard_len(payloads: &Vec<Vec<u8>>) -> (len: usize)
    requires
        forall|i: int| 0 <= i < payloads@.len() ==> payload_fits(#[trigger] payloads@[i]@),
    ensures
        len == block_shard_len(payloads.deep_view()),
{
    let mut len: usize = 2;
    let mut i: usize = 0;
    while i < payloads.len()
        invariant
            0 <= i <= payloads@.len(),
            forall|j: int| 0 <= j < payloads@.len() ==> payload_fits(#[trigger] payloads@[j]@),
            len == block_shard_len(payloads.deep_view().take(i as int)),
        decreases payloads@.len() - i,
    {
        assert(payloads.deep_view().take(i + 1).drop_last() =~= payloads.deep_view().take(i as int));
        assert(payload_fits(payloads@[i as int]@));
        let here = 2 + payloads[i].len();
        if here > len {
            len = here;
        }
        i = i + 1;
    }
    assert(payloads.deep_view().take(i as int) =~= payloads.deep_view());
    len
}

/// One data shard: the prefixed payload, zero-padded to `shard_len` bytes.
fn frame_payload(payload: &Vec<u8>, shard_len: usize) -> (shard: Vec<u8>)
    requires
        2 + payload@.len() <= shard_len,
    ensures
        shard@ == prefixed(payload@) + zeros((shard_len - (2 + payload@.len())) as nat),
{
    let len = payload.len();
    let tag = (len % 65536) as u16;
    let mut shard: Vec<u8> = Vec::with_capacity(shard_len);
    shard.push((tag % 256) as u8);
    shard.push((tag / 256) as u8);
    let mut i: usize = 0;
    while i < len
        invariant
            0 <= i <= len,
            len == payload@.len(),
            shard@ == le16(tag) + payload@.take(i as int),
            tag == (len % 65536) as u16,
        decreases len - i,
    {
        shard.push(payload[i]);
        assert(payload@.take(i + 1) =~= payload@.take(i as int).push(payload@[i as int]));
        i = i + 1;
    }
    assert(payload@.take(len as int) =~= payload@);
    while shard.len() < shard_len
        invariant
            shard@.len() <= shard_len,
            shard@.len() >= 2 + len,
            shard@ == prefixed(payload@) + zeros((shard@.len() - (2 + len)) as nat),
            len == payload@.len(),
        decreases shard_len - shard@.len(),
    {
        shard.push(0u8);
        assert(shard@ =~= prefixed(payload@) + zeros((shard@.len() - (2 + len)) as nat));
    }
    shard
}

/// The `original_len` that the sender reads from the front of data shard
/// `i` is the one of `block_original_len`.
proof fn lemma_block_original_len(d: nat, payloads: Seq<Seq<u8>>, i: int)
    requires
        payloads.len() <= d,
        0 <= i < d,
    ensures
        block_data_shards(d, payloads)[i].len() >= 2,
        le16_value(block_data_shards(d, payloads)[i][0], block_data_shards(d, payloads)[i][1])
            == block_original_len(payloads, i),
{
    lemma_block_shard_len_bounds(payloads);
    let len = block_shard_len(payloads);
    let data = block_data_shards(d, payloads);
    if i < payloads.len() {
        let pl = payloads[i];
        assert(2 + pl.len() <= len);
        assert(data[i] == prefixed(pl) + zeros((len - (2 + pl.len())) as nat));
        assert(data[i][0] == le16((pl.len() % 65536) as u16)[0]);
        assert(data[i][1] == le16((pl.len() % 65536) as u16)[1]);
        lemma_le16_roundtrip((pl.len() % 65536) as u16);
    } else {
        assert(data[i] == zeros(len));
    }
}

/// A framed shard: its 7-byte header followed by the shard's bytes.
fn frame_shard(
    shard: &Vec<u8>,
    block_id: u16,
    shard_idx: u8,
    data_shards: u8,
    parity_shards: u8,
    original_len: u16,
) -> (framed: Vec<u8>)
    ensures
        framed@ == shard_header(block_id, shard_idx, data_shards, parity_shards, original_len) + shard@,
{
    let mut framed: Vec<u8> = vec![0u8; SHARD_HEADER_SIZE];
    encode_shard_header(framed.as_mut_slice(), block_id, shard_idx, data_shards, parity_shards, original_len);
    let mut j: usize = 0;
    while j < shard.len()
        invariant
            0 <= j <= shard@.len(),
            framed@ == shard_header(block_id, shard_idx, data_shards, parity_shards, original_len) + shard@.take(j as int),
        decreases shard@.len() - j,
    {
        framed.push(shard[j]);
        assert(shard@.take(j + 1) =~= shard@.take(j as int).push(shard@[j as int]));
        j = j + 1;
    }
    assert(shard@.take(j as int) =~= shard@);
    framed
}

// --- FEC Sender ---

/// `after` and `out` are the sender and the result of submitting `payload`
/// to `before`: the payload joins the buffer; when that fills a block, the
/// block is emitted under the current block id, the buffer empties and the
/// block id advances (wrapping).
pub open spec fn submitted(
    before: FecSender,
    payload: Seq<u8>,
    after: FecSender,
    out: Option<Seq<(u8, Seq<u8>)>>,
) -> bool {
    let pending = before.buffered().push(payload);
    &&& after.spec_config() == before.spec_config()
    &&& if pending.len() == before.spec_config().data_shards {
        &&& out is Some
        &&& emitted_block(before.spec_config(), before.spec_block_id(), pending, out->0)
        &&& after.buffered().len() == 0
        &&& after.spec_block_id() == (before.spec_block_id() + 1) % 65536
    } else {
        &&& out is None
        &&& after.buffered() =~= pending
        &&& after.spec_block_id() == before.spec_block_id()
    }
}

/// `after` and `out` are the sender and the result of flushing `before`:
/// nothing when nothing is buffered; otherwise the buffered payloads are
/// emitted as a (padded) block under the current block id, the buffer
/// empties and the block id advances (wrapping).
pub open spec fn flushed(before: FecSender, after: FecSender, out: Option<Seq<(u8, Seq<u8>)>>) -> bool {
    &&& after.spec_config() == before.spec_config()
    &&& before.buffered().len() == 0 ==> out is None && after == before
    &&& before.buffered().len() > 0 ==> {
        &&& out is Some
        &&& emitted_block(before.spec_config(), before.spec_block_id(), before.buffered(), out->0)
        &&& after.buffered().len() == 0
        &&& after.spec_block_id() == (before.spec_block_id() + 1) % 65536
    }
}


/// Accumulates relay payloads into FEC blocks and emits each block's shards.
pub struct FecSender {
    config: FecConfig,
    block_id: u16,
    buffer: Vec<Vec<u8>>,
    payload_lens: Vec<u16>,
}

impl FecSender {
    /// The block shape in use.
    pub closed spec fn spec_config(&self) -> FecConfig {
        self.config
    }

    /// The id the next emitted block gets.
    pub closed spec fn spec_block_id(&self) -> u16 {
        self.block_id
    }

    /// The payloads waiting for the current block.
    pub closed spec fn buffered(&self) -> Seq<Seq<u8>> {
        self.buffer.deep_view()
    }

    /// The sender's invariant: a valid shape, fewer payloads buffered than
    /// fill a block, each framable, with their lengths recorded.
    pub closed spec fn wf(&self) -> bool {
        &&& self.config.valid()
        &&& self.buffer@.len() < self.config.data_shards
        &&& self.payload_lens@.len() == self.buffer@.len()
        &&& forall|i: int| 0 <= i < self.buffer@.len() ==> self.payload_lens@[i] == (#[trigger] self.buffer@[i])@.len() % 65536
        &&& forall|i: int| 0 <= i < self.buffer@.len() ==> payload_fits(#[trigger] self.buffer@[i]@)
    }

    pub fn new(config: FecConfig) -> (s: Self)
        requires
            config.valid(),
        ensures
            s.wf(),
            s.spec_config() == config,
            s.spec_block_id() == 0,
            s.buffered() == Seq::<Seq<u8>>::empty(),
    {
        let s = Self {
            config,
            block_id: 0,
            buffer: Vec::with_capacity(config.data_shards),
            payload_lens: Vec::with_capacity(config.data_shards),
        };
        assert(s.buffer.deep_view() =~= Seq::<Seq<u8>>::empty());
        s
    }

    /// Submits a relay payload. When it completes a block, the block is
    /// emitted: returns its shards, each `(packet_type, header + shard)`.
    pub fn submit(&mut self, payload: Vec<u8>) -> (r: Option<Vec<(u8, Vec<u8>)>>)
        requires
            old(self).wf(),
            payload_fits(payload@),
        ensures
            final(self).wf(),
            submitted(*old(self), payload@, *final(self), r.deep_view()),
    {
        let ghost pending = self.buffer.deep_view().push(payload@);
        self.payload_lens.push((payload.len() % 65536) as u16);
        self.buffer.push(payload);
        assert(self.buffer.deep_view() =~= pending);
        if self.buffer.len() >= self.config.data_shards {
            let out = self.flush();
            let r = Some(out);
            assert(r.deep_view() == Some(out.deep_view()));
            r
        } else {
            None
        }
    }

    /// Emits whatever is buffered (for the flush timer), padded to a full
    /// block; `None` when nothing is buffered.
    pub fn flush_partial(&mut self) -> (r: Option<Vec<(u8, Vec<u8>)>>)
        requires
            old(self).wf(),
        ensures
            final(self).wf(),
            flushed(*old(self), *final(self), r.deep_view()),
    {
        if self.buffer.is_empty() {
            return None;
        }
        let out = self.flush();
        let r = Some(out);
        assert(r.deep_view() == Some(out.deep_view()));
        r
    }

    /// Number of payloads waiting for the current block.
    pub fn buffered_count(&self) -> (n: usize)
        ensures
            n == self.buffered().len(),
    {
        self.buffer.len()
    }

    fn flush(&mut self) -> (out: Vec<(u8, Vec<u8>)>)
        requires
            old(self).config.valid(),
            0 < old(self).buffer@.len() <= old(self).config.data_shards,
            forall|i: int| 0 <= i < old(self).buffer@.len() ==> payload_fits(#[trigger] old(self).buffer@[i]@),
        ensures
            final(self).config == old(self).config,
            final(self).buffer@.len() == 0,
            final(self).payload_lens@.len() == 0,
            final(self).block_id == (old(self).block_id + 1) % 65536,
            emitted_block(old(self).config, old(self).block_id, old(self).buffer.deep_view(), out.deep_view()),
    {
        let block_id = self.block_id;
        self.block_id = self.block_id.wrapping_add(1);

        let mut buffer: Vec<Vec<u8>> = Vec::new();
        std::mem::swap(&mut buffer, &mut self.buffer);
        self.payload_lens.clear();
        let ghost payloads = buffer.deep_view();
        let d = self.config.data_shards;
        let p = self.config.parity_shards;

        // Uniform shard size = longest prefixed payload.
        let max_len = max_shard_len(&buffer);
        proof {
            lemma_block_shard_len_bounds(payloads);
        }

        // Prefix each payload with its length and pad it to the shard size,
        // then fill the remaining data slots with zero shards.
        let mut shards: Vec<Vec<u8>> = Vec::new();
        let mut i: usize = 0;
        while i < buffer.len()
            invariant
                0 <= i <= buffer@.len(),
                buffer@.len() <= d,
                payloads == buffer.deep_view(),
                max_len == block_shard_len(payloads),
                forall|j: int| 0 <= j < payloads.len() ==> 2 + (#[trigger] payloads[j]).len() <= max_len,
                shards.deep_view() == block_data_shards(d as nat, payloads).take(i as int),
            decreases buffer@.len() - i,
        {
            assert(2 + payloads[i as int].len() <= max_len);
            assert(payloads[i as int] == buffer@[i as int]@);
            let shard = frame_payload(&buffer[i], max_len);
            let ghost before = shards;
            shards.push(shard);
            proof {
                lemma_deep_view_push(before, shards, shard);
            }
            assert(shards.deep_view() =~= block_data_shards(d as nat, payloads).take(i + 1));
            i = i + 1;
        }
        while shards.len() < d
            invariant
                payloads.len() <= shards@.len() <= d,
                max_len == block_shard_len(payloads),
                shards.deep_view() == block_data_shards(d as nat, payloads).take(shards@.len() as int),
            decreases d - shards@.len(),
        {
            let z: Vec<u8> = vec![0u8; max_len];
            let ghost k = shards@.len() as int;
            let ghost before = shards;
            shards.push(z);
            proof {
                lemma_deep_view_push(before, shards, z);
            }
            assert(z@ =~= zeros(max_len as nat));
            assert(shards.deep_view() =~= block_data_shards(d as nat, payloads).take(k + 1));
        }
        let ghost data = block_data_shards(d as nat, payloads);
        assert(shards.deep_view() =~= data);
        assert(all_len(data, max_len as nat)) by {
            assert forall|j: int| 0 <= j < data.len() implies (#[trigger] data[j]).len() == max_len by {
                if j < payloads.len() {
                    assert(2 + payloads[j].len() <= max_len);
                }
            }
        }

        assert(shards@[0]@ == data[0]);
        // Generate the parity shards.
        let encoder = FecEncoder::new(self.config);
        let _ = encoder.encode(&mut shards);
        let ghost all = data + rs_parity(d as nat, p as nat, data);
        assert(shards.deep_view() == all);

        // Frame each shard: header + shard data.
        let total = d + p;
        let mut output: Vec<(u8, Vec<u8>)> = Vec::new();
        let mut i: usize = 0;
        while i < total
            invariant
                0 <= i <= total,
                total == d + p,
                d + p <= 256,
                0 < d,
                0 < p,
                shards.deep_view() == all,
                all.len() == d + p,
                all == data + rs_parity(d as nat, p as nat, data),
                data == block_data_shards(d as nat, payloads),
                payloads.len() <= d,
                max_len == block_shard_len(payloads),
                max_len + 7 <= usize::MAX,
                all_len(all, max_len as nat),
                output.deep_view() == block_output(self.config, block_id, payloads).take(i as int),
                d == self.config.data_shards,
                p == self.config.parity_shards,
            decreases total - i,
        {
            let shard = &shards[i];
            assert(shard@ == all[i as int]);
            let ptype = if i < d {
                wire::PACKET_DATA
            } else {
                wire::PACKET_PARITY
            };
            // original_len in the header is informational; the real length is
            // embedded in the shard data.
            let original_len = if i < d && shard.len() >= 2 {
                shard[0] as u16 + (shard[1] as u16) * 256
            } else {
                0
            };
            proof {
                if i < d {
                    lemma_block_original_len(d as nat, payloads, i as int);
                    assert(all[i as int] == data[i as int]);
                }
            }
            let framed = frame_shard(shard, block_id, i as u8, d as u8, p as u8, original_len);
            let ghost before = output;
            output.push((ptype, framed));
            proof {
                lemma_deep_view_push_pair(before, output, (ptype, framed));
            }
            assert(output.deep_view() =~= block_output(self.config, block_id, payloads).take(i + 1));
            i = i + 1;
        }
        assert(output.deep_view() =~= block_output(self.config, block_id, payloads));
        assert(block_parity_shaped(self.config, payloads)) by {
            let par = rs_parity(d as nat, p as nat, data);
            assert forall|j: int| 0 <= j < par.len() implies (#[trigger] par[j]).len() == max_len by {
                assert(par[j] == all[d + j]);
            }
        }
        output
    }
}

// --- FEC Receiver ---

/// A pending block as the receiver sees it:
/// `(data_shards, parity_shards, shard slots)`.
pub open spec fn new_block_state(data_shards: u8, parity_shards: u8) -> (nat, nat, Seq<Option<Seq<u8>>>) {
    (
        data_shards as nat,
        parity_shards as nat,
        Seq::new((data_shards + parity_shards) as nat, |i: int| None::<Seq<u8>>),
    )
}

/// A shard stored in its slot; out-of-range indices and shards already
/// held leave the block as it was.
pub open spec fn block_insert(
    block: (nat, nat, Seq<Option<Seq<u8>>>),
    shard_idx: u8,
    shard: Seq<u8>,
) -> (nat, nat, Seq<Option<Seq<u8>>>) {
    if shard_idx < block.0 + block.1 && block.2[shard_idx as int] is None {
        (block.0, block.1, block.2.update(shard_idx as int, Some(shard)))
    } else {
        block
    }
}

/// The block holds enough shards to attempt reconstruction.
pub open spec fn block_ready(block: (nat, nat, Seq<Option<Seq<u8>>>)) -> bool {
    count_present(block.2) >= block.0
}

/// The payload a reconstructed data shard carries: the bytes after its
/// 2-byte length, when that length is non-zero and fits in the shard.
pub open spec fn shard_payload(shard: Seq<u8>) -> Option<Seq<u8>> {
    if shard.len() < 2 {
        None
    } else {
        let len = le16_value(shard[0], shard[1]) as int;
        if len == 0 {
            None
        } else if 2 + len > shard.len() {
            None
        } else {
            Some(shard.subrange(2, 2 + len))
        }
    }
}

/// The payloads carried by the given data shard slots, in order.
pub open spec fn spec_extract_payloads(shards: Seq<Option<Seq<u8>>>) -> Seq<Seq<u8>>
    decreases shards.len(),
{
    if shards.len() == 0 {
        Seq::empty()
    } else {
        let rest = spec_extract_payloads(shards.drop_last());
        match shards.last() {
            Some(shard) => match shard_payload(shard) {
                Some(payload) => rest.push(payload),
                None => rest,
            },
            None => rest,
        }
    }
}

/// What reconstructing a block yields: `None` when it holds too few shards
/// or the codec rejects its shard set, otherwise the payloads of its
/// reconstructed data shards.
pub open spec fn block_payloads(block: (nat, nat, Seq<Option<Seq<u8>>>)) -> Option<Seq<Seq<u8>>> {
    if !block_ready(block) {
        None
    } else if !rs_reconstructible(block.0, block.1, block.2) {
        None
    } else {
        Some(
            spec_extract_payloads(
                rs_reconstructed(block.0, block.1, block.2).map_values(|s: Seq<u8>| Some(s)).take(
                    block.0 as int,
                ),
            ),
        )
    }
}

/// One step of the receiver: the new pending-block map and the payloads
/// returned for the incoming shard `payload` (header + shard data).
pub open spec fn spec_receive(
    blocks: Map<u16, (nat, nat, Seq<Option<Seq<u8>>>)>,
    payload: Seq<u8>,
) -> (Map<u16, (nat, nat, Seq<Option<Seq<u8>>>)>, Option<Seq<Seq<u8>>>) {
    match spec_decode_shard_header(payload) {
        None => (blocks, None),
        Some((block_id, shard_idx, data_shards, parity_shards, _original_len)) => {
            let before = if blocks.contains_key(block_id) {
                blocks[block_id]
            } else {
                new_block_state(data_shards, parity_shards)
            };
            let after = block_insert(before, shard_idx, payload.skip(SHARD_HEADER_SIZE as int));
            if block_ready(after) {
                (blocks.remove(block_id), block_payloads(after))
            } else {
                (blocks.insert(block_id, after), None)
            }
        },
    }
}

/// The block that the incoming shard `payload` completes, if any.
pub open spec fn completed_block(
    blocks: Map<u16, (nat, nat, Seq<Option<Seq<u8>>>)>,
    payload: Seq<u8>,
) -> Option<(nat, nat, Seq<Option<Seq<u8>>>)> {
    match spec_decode_shard_header(payload) {
        None => None,
        Some((block_id, shard_idx, data_shards, parity_shards, _original_len)) => {
            let before = if blocks.contains_key(block_id) {
                blocks[block_id]
            } else {
                new_block_state(data_shards, parity_shards)
            };
            let after = block_insert(before, shard_idx, payload.skip(SHARD_HEADER_SIZE as int));
            if block_ready(after) {
                Some(after)
            } else {
                None
            }
        },
    }
}

/// The payloads carried by the data shards `data`.
pub open spec fn data_payloads(data: Seq<Seq<u8>>) -> Seq<Seq<u8>> {
    spec_extract_payloads(data.map_values(|s: Seq<u8>| Some(s)))
}

pub proof fn lemma_count_present_bounds(s: Seq<Option<Seq<u8>>>)
    ensures
        count_present(s) <= s.len(),
    decreases s.len(),
{
    if s.len() > 0 {
        lemma_count_present_bounds(s.drop_last());
    }
}

pub proof fn lemma_count_present_none(n: nat)
    ensures
        count_present(Seq::new(n, |i: int| None::<Seq<u8>>)) == 0,
    decreases n,
{
    if n > 0 {
        assert(Seq::new(n, |i: int| None::<Seq<u8>>).drop_last() =~= Seq::new(
            (n - 1) as nat,
            |i: int| None::<Seq<u8>>,
        ));
        lemma_count_present_none((n - 1) as nat);
    }
}

pub proof fn lemma_count_present_fill(s: Seq<Option<Seq<u8>>>, i: int, x: Seq<u8>)
    requires
        0 <= i < s.len(),
        s[i] is None,
    ensures
        count_present(s.update(i, Some(x))) == count_present(s) + 1,
    decreases s.len(),
{
    let t = s.update(i, Some(x));
    if i == s.len() - 1 {
        assert(t.drop_last() =~= s.drop_last());
    } else {
        assert(t.drop_last() =~= s.drop_last().update(i, Some(x)));
        lemma_count_present_fill(s.drop_last(), i, x);
    }
}

/// Partially-received FEC block being assembled.
struct PendingBlock {
    data_shards: usize,
    parity_shards: usize,
    shards: Vec<Option<Vec<u8>>>,
    received: usize,
    created_at: std::time::Instant,
}

impl PendingBlock {
    spec fn state(&self) -> (nat, nat, Seq<Option<Seq<u8>>>) {
        (self.data_shards as nat, self.parity_shards as nat, self.shards.deep_view())
    }

    spec fn wf(&self) -> bool {
        &&& self.data_shards <= 255
        &&& self.parity_shards <= 255
        &&& self.shards@.len() == self.data_shards + self.parity_shards
        &&& self.received == count_present(self.shards.deep_view())
    }

    fn new(data_shards: u8, parity_shards: u8) -> (b: Self)
        ensures
            b.wf(),
            b.state() == new_block_state(data_shards, parity_shards),
    {
        let total = data_shards as usize + parity_shards as usize;
        let mut shards: Vec<Option<Vec<u8>>> = Vec::new();
        while shards.len() < total
            invariant
                shards@.len() <= total,
                forall|j: int| 0 <= j < shards@.len() ==> (#[trigger] shards@[j]) is None,
            decreases total - shards@.len(),
        {
            shards.push(None);
        }
        let b = Self {
            data_shards: data_shards as usize,
            parity_shards: parity_shards as usize,
            shards,
            received: 0,
            created_at: crate::clock::now(),
        };
        assert(b.shards.deep_view() =~= Seq::new(total as nat, |i: int| None::<Seq<u8>>));
        proof {
            lemma_count_present_none(total as nat);
        }
        b
    }

    /// Stores a shard. Returns true if the block now holds enough shards to
    /// reconstruct.
    fn insert(&mut self, shard_idx: u8, shard_data: Vec<u8>) -> (ready: bool)
        requires
            old(self).wf(),
        ensures
            final(self).wf(),
            final(self).created_at == old(self).created_at,
            final(self).state() == block_insert(old(self).state(), shard_idx, shard_data@),
            ready == block_ready(final(self).state()),
    {
        let idx = shard_idx as usize;
        let total = self.data_shards + self.parity_shards;
        if idx >= total || self.shards[idx].is_some() {
            return self.received >= self.data_shards;
        }
        let ghost before = self.shards.deep_view();
        proof {
            lemma_count_present_fill(before, idx as int, shard_data@);
            lemma_count_present_bounds(before.update(idx as int, Some(shard_data@)));
        }
        self.shards.set(idx, Some(shard_data));
        assert(self.shards.deep_view() =~= before.update(idx as int, Some(shard_data@)));
        self.received = self.received + 1;
        self.received >= self.data_shards
    }

    /// Attempts reconstruction; returns the block's payloads on success.
    fn reconstruct(&mut self) -> (r: Option<Vec<Vec<u8>>>)
        requires
            old(self).wf(),
        ensures
            r.deep_view() == block_payloads(old(self).state()),
            forall|data: Seq<Seq<u8>>|
                block_ready(old(self).state()) && rs_reconstructible(
                    old(self).state().0,
                    old(self).state().1,
                    old(self).state().2,
                ) && data.len() == old(self).state().0 && uniform_shards(data) && agrees_with(
                    old(self).state().2,
                    #[trigger] rs_codeword(old(self).state().0, old(self).state().1, data),
                ) ==> r.deep_view() == Some(spec_extract_payloads(data.map_values(|s: Seq<u8>| Some(s)))),
            r is Some ==> agrees_with(
                old(self).state().2,
                rs_reconstructed(old(self).state().0, old(self).state().1, old(self).state().2),
            ),
            !block_ready(old(self).state()) ==> *final(self) == *old(self),
            r is None ==> final(self).state() == old(self).state() && final(self).wf(),
            final(self).created_at == old(self).created_at,
    {
        if self.received < self.data_shards {
            return None;
        }
        let config = FecConfig { data_shards: self.data_shards, parity_shards: self.parity_shards };
        let encoder = FecEncoder::new(config);
        let ghost before = self.state();
        if encoder.reconstruct(&mut self.shards).is_ok() {
            let ghost rec = rs_reconstructed(before.0, before.1, before.2);
            assert(self.shards.deep_view() == rec.map_values(|s: Seq<u8>| Some(s)));
            let payloads = extract_payloads(&self.shards, self.data_shards);
            assert forall|data: Seq<Seq<u8>>|
                data.len() == before.0 && uniform_shards(data) && agrees_with(
                    before.2,
                    #[trigger] rs_codeword(before.0, before.1, data),
                ) implies payloads.deep_view() == spec_extract_payloads(data.map_values(|s: Seq<u8>| Some(s))) by {
                assert(rec == rs_codeword(before.0, before.1, data));
                assert(rec.map_values(|s: Seq<u8>| Some(s)).take(before.0 as int) =~= data.map_values(|s: Seq<u8>| Some(s)));
            }
            Some(payloads)
        } else {
            None
        }
    }
}

/// Copies `buf[start..end]`.
fn copy_range(buf: &[u8], start: usize, end: usize) -> (out: Vec<u8>)
    requires
        start <= end <= buf@.len(),
    ensures
        out@ == buf@.subrange(start as int, end as int),
{
    let mut out: Vec<u8> = Vec::new();
    let mut i = start;
    while i < end
        invariant
            start <= i <= end,
            end <= buf@.len(),
            out@ == buf@.subrange(start as int, i as int),
        decreases end - i,
    {
        out.push(buf[i]);
        assert(out@ =~= buf@.subrange(start as int, i + 1));
        i = i + 1;
    }
    out
}

/// The relay payloads carried by the first `data_shards` slots of a
/// reconstructed shard set: for each present shard, the bytes after its
/// 2-byte length prefix; padding shards (length 0) and shards whose length
/// does not fit are skipped.
pub fn extract_payloads(shards: &Vec<Option<Vec<u8>>>, data_shards: usize) -> (payloads: Vec<Vec<u8>>)
    requires
        data_shards <= shards@.len(),
    ensures
        payloads.deep_view() == spec_extract_payloads(shards.deep_view().take(data_shards as int)),
{
    let mut payloads: Vec<Vec<u8>> = Vec::new();
    let mut i: usize = 0;
    while i < data_shards
        invariant
            0 <= i <= data_shards,
            data_shards <= shards@.len(),
            payloads.deep_view() == spec_extract_payloads(shards.deep_view().take(i as int)),
        decreases data_shards - i,
    {
        assert(shards.deep_view().take(i + 1).drop_last() =~= shards.deep_view().take(i as int));
        assert(shards.deep_view().take(i + 1).last() == shards.deep_view()[i as int]);
        if let Some(shard) = &shards[i] {
            assert(shards.deep_view()[i as int] == Some(shard@));
            if shard.len() >= 2 {
                // Length is embedded as the first 2 bytes of the shard data.
                let len = (shard[0] as u16 + (shard[1] as u16) * 256) as usize;
                if len != 0 && 2 + len <= shard.len() {
                    let payload = copy_range(shard.as_slice(), 2, 2 + len);
                    let ghost before = payloads;
                    payloads.push(payload);
                    proof {
                        lemma_deep_view_push(before, payloads, payload);
                    }
                }
            }
        }
        i = i + 1;
    }
    assert(shards.deep_view().take(data_shards as int) =~= shards.deep_view().take(i as int));
    payloads
}

/// Collects incoming shards by block id and reconstructs complete blocks.
pub struct FecReceiver {
    blocks: std::collections::HashMap<u16, PendingBlock>,
    /// The block ages (whole milliseconds) that the last expiry measured.
    measured: Ghost<Map<u16, u128>>,
}

impl View for FecReceiver {
    type V = Map<u16, (nat, nat, Seq<Option<Seq<u8>>>)>;

    /// The pending blocks by block id.
    closed spec fn view(&self) -> Self::V {
        self.blocks@.map_values(|b: PendingBlock| b.state())
    }
}

impl FecReceiver {
    /// When each pending block was created (its first shard arrived), by
    /// block id.
    pub closed spec fn created(&self) -> Map<u16, std::time::Instant> {
        self.blocks@.map_values(|b: PendingBlock| b.created_at)
    }

    /// The age, in whole milliseconds since its creation, that the last call
    /// of `expire_old` measured for each block then pending.
    pub closed spec fn measured_ages(&self) -> Map<u16, u128> {
        self.measured@
    }

    /// The receiver's invariant: each pending block is well formed and
    /// still short of the shards it needs.
    pub closed spec fn wf(&self) -> bool {
        forall|k: u16| #[trigger] self.blocks@.contains_key(k) ==> {
            &&& self.blocks@[k].wf()
            &&& !block_ready(self.blocks@[k].state())
        }
    }

    pub fn new() -> (r: Self)
        ensures
            r.wf(),
            r@ == Map::<u16, (nat, nat, Seq<Option<Seq<u8>>>)>::empty(),
    {
        let r = Self { blocks: std::collections::HashMap::new(), measured: Ghost(Map::empty()) };
        assert(r@ =~= Map::<u16, (nat, nat, Seq<Option<Seq<u8>>>)>::empty());
        r
    }

    /// Processes an incoming shard payload (FEC header + shard data).
    /// Returns the block's relay payloads when the shard completes a block.
    pub fn receive_shard(&mut self, payload: &[u8]) -> (r: Option<Vec<Vec<u8>>>)
        requires
            old(self).wf(),
        ensures
            final(self).wf(),
            (final(self)@, r.deep_view()) == spec_receive(old(self)@, payload@),
            match spec_decode_shard_header(payload@) {
                None => final(self).created() == old(self).created(),
                Some(h) => {
                    let (before, after) = (old(self).created(), final(self).created());
                    &&& after.remove(h.0) == before.remove(h.0)
                    &&& before.contains_key(h.0) && after.contains_key(h.0) ==> after[h.0] == before[h.0]
                },
            },
            forall|data: Seq<Seq<u8>>|
                completed_block(old(self)@, payload@) matches Some(b) && rs_reconstructible(b.0, b.1, b.2)
                    && data.len() == b.0 && uniform_shards(data) && agrees_with(b.2, rs_codeword(b.0, b.1, data))
                    ==> r.deep_view() == Some(#[trigger] data_payloads(data)),
            r is Some ==> (completed_block(old(self)@, payload@) matches Some(b) && agrees_with(
                b.2,
                rs_reconstructed(b.0, b.1, b.2),
            )),
    {
        broadcast use vstd::std_specs::hash::group_hash_axioms;

        let (block_id, shard_idx, data_shards, parity_shards, _original_len) = match decode_shard_header(
            payload,
        ) {
            Some(h) => h,
            None => return None,
        };
        let shard_data = copy_range(payload, SHARD_HEADER_SIZE, payload.len());
        assert(shard_data@ =~= payload@.skip(SHARD_HEADER_SIZE as int));
        let ghost old_blocks = self.blocks@;
        let mut block = match self.blocks.remove(&block_id) {
            Some(b) => b,
            None => PendingBlock::new(data_shards, parity_shards),
        };
        assert(self.blocks@ == old_blocks.remove(block_id));
        let can_reconstruct = block.insert(shard_idx, shard_data);
        if can_reconstruct {
            assert(self@ =~= old(self)@.remove(block_id));
            assert(self.created() =~= old(self).created().remove(block_id));
            block.reconstruct()
        } else {
            let ghost st = block.state();
            self.blocks.insert(block_id, block);
            assert(self@ =~= old(self)@.insert(block_id, st));
            assert(self.created().remove(block_id) =~= old(self).created().remove(block_id));
            None
        }
    }

    /// Drops the pending blocks that `ages` (block id, age in ms) lists
    /// with an age of at least `max_age_ms`.
    pub fn remove_expired(&mut self, ages: &Vec<(u16, u128)>, max_age_ms: u128)
        requires
            old(self).wf(),
        ensures
            final(self).wf(),
            final(self)@ == old(self)@.remove_keys(
                Set::new(|k: u16| exists|j: int| 0 <= j < ages@.len() && (#[trigger] ages@[j]).0 == k && ages@[j].1 >= max_age_ms),
            ),
    {
        broadcast use vstd::std_specs::hash::group_hash_axioms;

        let mut i: usize = 0;
        while i < ages.len()
            invariant
                0 <= i <= ages@.len(),
                self.wf(),
                self@ == old(self)@.remove_keys(
                    Set::new(|k: u16| exists|j: int| 0 <= j < i && (#[trigger] ages@[j]).0 == k && ages@[j].1 >= max_age_ms),
                ),
            decreases ages@.len() - i,
        {
            let (id, age) = ages[i];
            let ghost s0 = Set::new(|k: u16| exists|j: int| 0 <= j < i && (#[trigger] ages@[j]).0 == k && ages@[j].1 >= max_age_ms);
            let ghost s1 = Set::new(|k: u16| exists|j: int| 0 <= j < i + 1 && (#[trigger] ages@[j]).0 == k && ages@[j].1 >= max_age_ms);
            if age >= max_age_ms {
                let ghost prev = self@;
                let _ = self.blocks.remove(&id);
                assert(self@ =~= prev.remove(id));
                assert(s1 =~= s0.insert(id)) by {
                    assert(ages@[i as int].0 == id);
                    assert forall|k: u16| s1.contains(k) implies s0.insert(id).contains(k) by {
                        let j = choose|j: int| 0 <= j < i + 1 && (#[trigger] ages@[j]).0 == k && ages@[j].1 >= max_age_ms;
                        if j < i {
                            assert(s0.contains(k));
                        }
                    }
                    assert forall|k: u16| s0.insert(id).contains(k) implies s1.contains(k) by {
                        if k == id {
                            assert(0 <= i < i + 1 && ages@[i as int].0 == k && ages@[i as int].1 >= max_age_ms);
                        } else {
                            let j = choose|j: int| 0 <= j < i && (#[trigger] ages@[j]).0 == k && ages@[j].1 >= max_age_ms;
                            assert(0 <= j < i + 1);
                        }
                    }
                }
                assert(self@ =~= old(self)@.remove_keys(s1));
            } else {
                assert(s1 =~= s0) by {
                    assert forall|k: u16| s1.contains(k) implies s0.contains(k) by {
                        let j = choose|j: int| 0 <= j < i + 1 && (#[trigger] ages@[j]).0 == k && ages@[j].1 >= max_age_ms;
                        assert(j != i);
                    }
                    assert forall|k: u16| s0.contains(k) implies s1.contains(k) by {
                        let j = choose|j: int| 0 <= j < i && (#[trigger] ages@[j]).0 == k && ages@[j].1 >= max_age_ms;
                        assert(0 <= j < i + 1);
                    }
                }
            }
            i = i + 1;
        }
    }

    /// Expires incomplete blocks at least `max_age_ms` milliseconds old:
    /// the age of each pending block (whole milliseconds since its first
    /// shard, read from the clock once per call) is taken, and exactly the
    /// blocks whose age is at least `max_age_ms` are dropped. The ages
    /// themselves depend on the clock.
    pub fn expire_old(&mut self, max_age_ms: u128)
        requires
            old(self).wf(),
        ensures
            final(self).wf(),
            exists|age: Map<u16, u128>|
                age.dom() == old(self)@.dom() && final(self)@ == #[trigger] kept_younger(old(self)@, age, max_age_ms),
            final(self).measured_ages().dom() == old(self)@.dom(),
            final(self)@ == kept_younger(old(self)@, final(self).measured_ages(), max_age_ms),
    {
        broadcast use vstd::std_specs::hash::group_hash_axioms;

        let now = crate::clock::now();
        let mut ages: Vec<(u16, u128)> = Vec::new();
        let ghost listing = vstd::std_specs::iter::IteratorSpec::remaining(&vstd::std_specs::hash::spec_hash_map_iter(&self.blocks));
        for entry in it: self.blocks.iter()
            invariant
                ages@.len() == it.index(),
                it.seq() == listing,
                forall|j: int| 0 <= j < ages@.len() ==> (#[trigger] ages@[j]).0 == *it.seq()[j].0,
        {
            let (id, block) = entry;
            let age = crate::clock::as_millis(&crate::clock::duration_since(&now, &block.created_at));
            ages.push((*id, age));
        }
        let ghost before = self@;
        assert forall|k: u16| #[trigger] before.contains_key(k) implies exists|j: int|
            0 <= j < ages@.len() && (#[trigger] ages@[j]).0 == k by {
            assert(self.blocks@.contains_key(k));
            assert(listing.contains((&k, &self.blocks@[k])));
            let i = choose|i: int| 0 <= i < listing.len() && listing[i] == (&k, &self.blocks@[k]);
            assert(ages@[i].0 == k);
        }
        self.remove_expired(&ages, max_age_ms);
        let ghost measured = lemma_expired_by_age(before, self@, ages@, max_age_ms);
        self.measured = Ghost(measured);
    }
}

/// `entries` without those whose age (by `age`) is at least `max_age`.
pub open spec fn kept_younger<K, V>(entries: Map<K, V>, age: Map<K, u128>, max_age: u128) -> Map<K, V> {
    entries.restrict(Set::new(|k: K| age.contains_key(k) && age[k] < max_age))
}

/// Expiry keeps exactly the young entries, unchanged: with measured ages
/// `age`, an entry is kept under the limit `max_age` exactly when it was
/// there and its age is below the limit; and a larger limit keeps every
/// entry that a smaller one keeps (so expiring at the block age limit keeps
/// every block younger than it, whatever else it drops).
pub proof fn lemma_expiry_keeps_young<K, V>(entries: Map<K, V>, age: Map<K, u128>, small: u128, large: u128, k: K)
    requires
        age.dom() == entries.dom(),
        small <= large,
    ensures
        kept_younger(entries, age, small).contains_key(k) <==> entries.contains_key(k) && age[k] < small,
        kept_younger(entries, age, small).contains_key(k) ==> kept_younger(entries, age, small)[k] == entries[k],
        kept_younger(entries, age, small).submap_of(kept_younger(entries, age, large)),
{
}

/// Removing the keys that some listed `(key, age)` pair shows to be at
/// least `max_age` old, from a map whose every key is listed, keeps exactly
/// the entries younger than `max_age` by some age of each key.
pub(crate) proof fn lemma_expired_by_age<K, V>(
    before: Map<K, V>,
    after: Map<K, V>,
    ages: Seq<(K, u128)>,
    max_age: u128,
) -> (age: Map<K, u128>)
    requires
        forall|k: K| #[trigger] before.contains_key(k) ==> exists|j: int| 0 <= j < ages.len() && (#[trigger] ages[j]).0 == k,
        after == before.remove_keys(
            Set::new(|k: K| exists|j: int| 0 <= j < ages.len() && (#[trigger] ages[j]).0 == k && ages[j].1 >= max_age),
        ),
    ensures
        age.dom() == before.dom(),
        after == kept_younger(before, age, max_age),
        forall|k: K| #[trigger] age.contains_key(k) ==> exists|j: int| 0 <= j < ages.len() && (#[trigger] ages[j]).0 == k
            && ages[j].1 == age[k],
        exists|age: Map<K, u128>| age.dom() == before.dom() && after == #[trigger] kept_younger(before, age, max_age),
{
    let old_set = Set::new(|k: K| exists|j: int| 0 <= j < ages.len() && (#[trigger] ages[j]).0 == k && ages[j].1 >= max_age);
    let age = Map::new(
        |k: K| before.contains_key(k),
        |k: K|
            if old_set.contains(k) {
                ages[choose|j: int| 0 <= j < ages.len() && (#[trigger] ages[j]).0 == k && ages[j].1 >= max_age].1
            } else {
                ages[choose|j: int| 0 <= j < ages.len() && (#[trigger] ages[j]).0 == k].1
            },
    );
    assert(age.dom() =~= before.dom());
    assert forall|k: K| before.contains_key(k) implies (age[k] < max_age <==> !old_set.contains(k)) by {
        if old_set.contains(k) {
            let j = choose|j: int| 0 <= j < ages.len() && (#[trigger] ages[j]).0 == k && ages[j].1 >= max_age;
            assert(age[k] == ages[j].1);
        } else {
            let j = choose|j: int| 0 <= j < ages.len() && (#[trigger] ages[j]).0 == k;
            assert(age[k] == ages[j].1);
            if ages[j].1 >= max_age {
                assert(old_set.contains(k));
            }
        }
    }
    assert(after =~= kept_younger(before, age, max_age));
    assert forall|k: K| #[trigger] age.contains_key(k) implies exists|j: int| 0 <= j < ages.len() && (#[trigger] ages[j]).0
        == k && ages[j].1 == age[k] by {
        if old_set.contains(k) {
            let j = choose|j: int| 0 <= j < ages.len() && (#[trigger] ages[j]).0 == k && ages[j].1 >= max_age;
            assert(ages[j].1 == age[k]);
        } else {
            let j = choose|j: int| 0 <= j < ages.len() && (#[trigger] ages[j]).0 == k;
            assert(ages[j].1 == age[k]);
        }
    }
    age
}

// --- Laws of the codec ---

/// A payload the codec carries intact: non-empty (empty payloads are taken
/// for padding) and with a length that fits the 16-bit prefix.
pub open spec fn carried_payload(payload: Seq<u8>) -> bool {
    0 < payload.len() < 65536
}

/// Reading the data shards of a block gives back its payloads.
pub proof fn lemma_extract_block_data(d: nat, payloads: Seq<Seq<u8>>)
    requires
        payloads.len() <= d,
        forall|i: int| 0 <= i < payloads.len() ==> carried_payload(#[trigger] payloads[i]),
    ensures
        spec_extract_payloads(block_data_shards(d, payloads).map_values(|s: Seq<u8>| Some(s)))
            == payloads,
{
    lemma_block_shard_len_bounds(payloads);
    let len = block_shard_len(payloads);
    assert(block_data_shards(d, payloads).map_values(|s: Seq<u8>| Some(s)) =~= padded_slots(d, payloads, len));
    lemma_extract_padded(d, payloads, len);
}

/// The data-shard slots of `payloads` padded to shard size `len`.
spec fn padded_slots(d: nat, payloads: Seq<Seq<u8>>, len: nat) -> Seq<Option<Seq<u8>>> {
    Seq::new(
        d,
        |i: int|
            if i < payloads.len() {
                Some(prefixed(payloads[i]) + zeros((len - (2 + payloads[i].len())) as nat))
            } else {
                Some(zeros(len))
            },
    )
}

proof fn lemma_extract_padded(d: nat, payloads: Seq<Seq<u8>>, len: nat)
    requires
        payloads.len() <= d,
        forall|i: int| 0 <= i < payloads.len() ==> carried_payload(#[trigger] payloads[i]),
        forall|i: int| 0 <= i < payloads.len() ==> 2 + (#[trigger] payloads[i]).len() <= len,
    ensures
        spec_extract_payloads(padded_slots(d, payloads, len)) == payloads,
    decreases d,
{
    let slots = padded_slots(d, payloads, len);
    if d == 0 {
        assert(payloads =~= Seq::<Seq<u8>>::empty());
    } else if payloads.len() == d {
        let front = payloads.drop_last();
        let pl = payloads.last();
        assert(2 + pl.len() <= len);
        let shard = prefixed(pl) + zeros((len - (2 + pl.len())) as nat);
        assert(slots.last() == Some(shard));
        assert(shard[0] == le16((pl.len() % 65536) as u16)[0]);
        assert(shard[1] == le16((pl.len() % 65536) as u16)[1]);
        lemma_le16_roundtrip((pl.len() % 65536) as u16);
        assert(shard.subrange(2, 2 + pl.len() as int) =~= pl);
        assert(shard_payload(shard) == Some(pl));
        assert forall|i: int| 0 <= i < front.len() implies carried_payload(#[trigger] front[i]) && 2 + front[i].len() <= len by {
            assert(front[i] == payloads[i]);
        }
        lemma_extract_padded((d - 1) as nat, front, len);
        assert(slots.drop_last() =~= padded_slots((d - 1) as nat, front, len));
        assert(payloads =~= front.push(pl));
    } else {
        assert(slots.last() == Some(zeros(len)));
        assert(shard_payload(zeros(len)) is None);
        lemma_extract_padded((d - 1) as nat, payloads, len);
        assert(slots.drop_last() =~= padded_slots((d - 1) as nat, payloads, len));
    }
}

/// The receiver fed `packets` one after the other: the final pending-block
/// map and what each call returned.
pub open spec fn receive_all(
    blocks: Map<u16, (nat, nat, Seq<Option<Seq<u8>>>)>,
    packets: Seq<Seq<u8>>,
) -> (Map<u16, (nat, nat, Seq<Option<Seq<u8>>>)>, Seq<Option<Seq<Seq<u8>>>>)
    decreases packets.len(),
{
    if packets.len() == 0 {
        (blocks, Seq::empty())
    } else {
        let (mid, results) = receive_all(blocks, packets.drop_last());
        let (after, r) = spec_receive(mid, packets.last());
        (after, results.push(r))
    }
}

/// The shard slots of a block of which the shards at `indices` arrived.
pub open spec fn arrived_slots(all: Seq<Seq<u8>>, indices: Seq<int>) -> Seq<Option<Seq<u8>>> {
    Seq::new(all.len(), |j: int| if indices.contains(j) { Some(all[j]) } else { None })
}

/// The receiver state after the first `k` shards (in `order`) of an
/// emitted block arrived, while fewer than `data_shards` did.
proof fn lemma_receive_prefix(
    config: FecConfig,
    block_id: u16,
    payloads: Seq<Seq<u8>>,
    out: Seq<(u8, Seq<u8>)>,
    blocks: Map<u16, (nat, nat, Seq<Option<Seq<u8>>>)>,
    order: Seq<int>,
    k: nat,
)
    requires
        config.valid(),
        emitted_block(config, block_id, payloads, out),
        payloads.len() <= config.data_shards,
        !blocks.contains_key(block_id),
        order.no_duplicates(),
        forall|j: int| 0 <= j < order.len() ==> 0 <= #[trigger] order[j] < config.data_shards + config.parity_shards,
        k <= order.len(),
        k < config.data_shards,
    ensures
        ({
            let d = config.data_shards as nat;
            let p = config.parity_shards as nat;
            let data = block_data_shards(d, payloads);
            let all = data + rs_parity(d, p, data);
            let (st, results) = receive_all(blocks, order.take(k as int).map_values(|i: int| out[i].1));
            &&& results.len() == k
            &&& forall|j: int| 0 <= j < k ==> (#[trigger] results[j]) is None
            &&& k == 0 ==> st == blocks
            &&& k > 0 ==> st == blocks.insert(block_id, (d, p, arrived_slots(all, order.take(k as int))))
            &&& count_present(arrived_slots(all, order.take(k as int))) == k
        }),
    decreases k,
{
    let d = config.data_shards as nat;
    let p = config.parity_shards as nat;
    let data = block_data_shards(d, payloads);
    let all = data + rs_parity(d, p, data);
    let packets = order.take(k as int).map_values(|i: int| out[i].1);
    if k == 0 {
        assert(packets =~= Seq::<Seq<u8>>::empty());
        assert(arrived_slots(all, order.take(0)) =~= Seq::new(all.len(), |j: int| None::<Seq<u8>>));
        lemma_count_present_none(all.len());
    } else {
        let k1 = (k - 1) as nat;
        lemma_receive_prefix(config, block_id, payloads, out, blocks, order, k1);
        assert(packets.drop_last() =~= order.take(k1 as int).map_values(|i: int| out[i].1));
        let (mid, results) = receive_all(blocks, order.take(k1 as int).map_values(|i: int| out[i].1));
        let i = order[k1 as int];
        lemma_receive_emitted_shard(config, block_id, payloads, out, mid, order, k1);
        assert(packets.last() == out[i].1);
    }
}

/// One more emitted shard arriving after the first `k` of `order`.
proof fn lemma_receive_emitted_shard(
    config: FecConfig,
    block_id: u16,
    payloads: Seq<Seq<u8>>,
    out: Seq<(u8, Seq<u8>)>,
    mid: Map<u16, (nat, nat, Seq<Option<Seq<u8>>>)>,
    order: Seq<int>,
    k: nat,
)
    requires
        config.valid(),
        emitted_block(config, block_id, payloads, out),
        payloads.len() <= config.data_shards,
        order.no_duplicates(),
        forall|j: int| 0 <= j < order.len() ==> 0 <= #[trigger] order[j] < config.data_shards + config.parity_shards,
        k < order.len(),
        k < config.data_shards,
        ({
            let d = config.data_shards as nat;
            let p = config.parity_shards as nat;
            let data = block_data_shards(d, payloads);
            let all = data + rs_parity(d, p, data);
            &&& k == 0 ==> !mid.contains_key(block_id)
            &&& k > 0 ==> mid.contains_key(block_id) && mid[block_id] == (d, p, arrived_slots(all, order.take(k as int)))
            &&& count_present(arrived_slots(all, order.take(k as int))) == k
        }),
    ensures
        ({
            let d = config.data_shards as nat;
            let p = config.parity_shards as nat;
            let data = block_data_shards(d, payloads);
            let all = data + rs_parity(d, p, data);
            let slots = arrived_slots(all, order.take(k + 1int));
            let (after, r) = spec_receive(mid, out[order[k as int]].1);
            &&& count_present(slots) == k + 1
            &&& k + 1 < d ==> after == mid.insert(block_id, (d, p, slots)) && r is None
            &&& k + 1 == d ==> after == mid.remove(block_id) && r == block_payloads((d, p, slots))
        }),
{
    let d = config.data_shards as nat;
    let p = config.parity_shards as nat;
    let data = block_data_shards(d, payloads);
    let all = data + rs_parity(d, p, data);
    let i = order[k as int];
    let packet = out[i].1;
    let olen = block_original_len(payloads, i);
    assert(out == block_output(config, block_id, payloads));
    assert(all.len() == d + p);
    assert(packet == shard_header(block_id, i as u8, d as u8, p as u8, olen) + all[i]);
    lemma_shard_header_roundtrip(block_id, i as u8, d as u8, p as u8, olen, all[i]);
    assert(packet.skip(SHARD_HEADER_SIZE as int) =~= all[i]);
    let before_slots = arrived_slots(all, order.take(k as int));
    let slots = arrived_slots(all, order.take(k + 1int));
    assert(order.take(k + 1int) =~= order.take(k as int).push(i));
    assert(!order.take(k as int).contains(i)) by {
        if order.take(k as int).contains(i) {
            let j = choose|j: int| 0 <= j < k && order.take(k as int)[j] == i;
            assert(order[j] == order[k as int]);
        }
    }
    assert(slots =~= before_slots.update(i, Some(all[i]))) by {
        let t0 = order.take(k as int);
        let t1 = order.take(k + 1int);
        assert forall|j: int| 0 <= j < all.len() implies slots[j] == before_slots.update(i, Some(all[i]))[j] by {
            if j == i {
                assert(t1[k as int] == i);
                assert(t1.contains(j));
            } else if t0.contains(j) {
                let m = choose|m: int| 0 <= m < t0.len() && t0[m] == j;
                assert(t1[m] == j);
                assert(t1.contains(j));
            } else if t1.contains(j) {
                let m = choose|m: int| 0 <= m < t1.len() && t1[m] == j;
                assert(m != k);
                assert(t0[m] == j);
            }
        }
    }
    lemma_count_present_fill(before_slots, i, all[i]);
    let before = if mid.contains_key(block_id) {
        mid[block_id]
    } else {
        new_block_state(d as u8, p as u8)
    };
    if k == 0 {
        assert(order.take(0) =~= Seq::<int>::empty());
        assert(before.2 =~= before_slots);
    }
    assert(before == (d, p, before_slots));
    assert((i as u8) as int == i);
    assert(block_insert(before, i as u8, all[i]) == (d, p, slots));
}

/// Zero loss up to the parity count: the shards the sender emitted for a
/// block, delivered to a receiver holding no block of that id, in any order
/// and with any `parity_shards` of them lost, make the receiver return the
/// block's payloads, in order, on the shard that completes `data_shards` of
/// them, and nothing before; the block is then no longer pending.
pub proof fn lemma_fec_recovers_block(
    config: FecConfig,
    block_id: u16,
    payloads: Seq<Seq<u8>>,
    out: Seq<(u8, Seq<u8>)>,
    blocks: Map<u16, (nat, nat, Seq<Option<Seq<u8>>>)>,
    order: Seq<int>,
)
    requires
        config.valid(),
        emitted_block(config, block_id, payloads, out),
        payloads.len() <= config.data_shards,
        forall|i: int| 0 <= i < payloads.len() ==> carried_payload(#[trigger] payloads[i]),
        !blocks.contains_key(block_id),
        order.len() == config.data_shards,
        order.no_duplicates(),
        forall|j: int| 0 <= j < order.len() ==> 0 <= #[trigger] order[j] < config.data_shards + config.parity_shards,
    ensures
        ({
            let (st, results) = receive_all(blocks, order.map_values(|i: int| out[i].1));
            &&& st == blocks
            &&& results.len() == config.data_shards
            &&& forall|j: int| 0 <= j < config.data_shards - 1 ==> (#[trigger] results[j]) is None
            &&& results[config.data_shards - 1] == Some(payloads)
        }),
{
    let d = config.data_shards as nat;
    let p = config.parity_shards as nat;
    let data = block_data_shards(d, payloads);
    let all = data + rs_parity(d, p, data);
    let k1 = (d - 1) as nat;
    lemma_receive_prefix(config, block_id, payloads, out, blocks, order, k1);
    let (mid, results) = receive_all(blocks, order.take(k1 as int).map_values(|i: int| out[i].1));
    lemma_receive_emitted_shard(config, block_id, payloads, out, mid, order, k1);
    let packets = order.map_values(|i: int| out[i].1);
    assert(order.take(d as int) =~= order);
    assert(packets.drop_last() =~= order.take(k1 as int).map_values(|i: int| out[i].1));
    let slots = arrived_slots(all, order);
    // The completed block is reconstructible and agrees with the codeword.
    lemma_block_shard_len_bounds(payloads);
    let len = block_shard_len(payloads);
    assert(all_len(all, len)) by {
        assert forall|j: int| 0 <= j < all.len() implies (#[trigger] all[j]).len() == len by {
            if j < d {
                if j < payloads.len() {
                    assert(2 + payloads[j].len() <= len);
                }
            } else {
                assert(all[j] == rs_parity(d, p, data)[j - d]);
            }
        }
    }
    assert(present_uniform(slots));
    assert(rs_reconstructible(d, p, slots));
    assert(agrees_with(slots, rs_codeword(d, p, data)));
    assert(rs_reconstructed(d, p, slots) == rs_codeword(d, p, data));
    assert(rs_codeword(d, p, data).map_values(|s: Seq<u8>| Some(s)).take(d as int) =~= data.map_values(
        |s: Seq<u8>| Some(s),
    ));
    lemma_extract_block_data(d, payloads);
    assert(mid.remove(block_id) =~= blocks);
}

/// Too much loss yields nothing: while fewer than `data_shards` distinct
/// shards of an emitted block have reached a receiver that held no block of
/// that id, every call returns `None` and the block stays pending with
/// exactly the shards that arrived.
pub proof fn lemma_fec_too_few_shards(
    config: FecConfig,
    block_id: u16,
    payloads: Seq<Seq<u8>>,
    out: Seq<(u8, Seq<u8>)>,
    blocks: Map<u16, (nat, nat, Seq<Option<Seq<u8>>>)>,
    order: Seq<int>,
)
    requires
        config.valid(),
        emitted_block(config, block_id, payloads, out),
        payloads.len() <= config.data_shards,
        !blocks.contains_key(block_id),
        0 < order.len() < config.data_shards,
        order.no_duplicates(),
        forall|j: int| 0 <= j < order.len() ==> 0 <= #[trigger] order[j] < config.data_shards + config.parity_shards,
    ensures
        ({
            let d = config.data_shards as nat;
            let p = config.parity_shards as nat;
            let data = block_data_shards(d, payloads);
            let (st, results) = receive_all(blocks, order.map_values(|i: int| out[i].1));
            &&& forall|j: int| 0 <= j < results.len() ==> (#[trigger] results[j]) is None
            &&& st == blocks.insert(block_id, (d, p, arrived_slots(data + rs_parity(d, p, data), order)))
        }),
{
    lemma_receive_prefix(config, block_id, payloads, out, blocks, order, order.len());
    assert(order.take(order.len() as int) =~= order);
}


// --- Laws of a run of sender calls ---

/// One step of a run of calls on a sender: `Some(payload)` is a call of
/// `submit(payload)`, `None` a call of `flush_partial`; `after` and `out`
/// are the sender and the result after it.
pub open spec fn sender_step(
    before: FecSender,
    call: Option<Seq<u8>>,
    after: FecSender,
    out: Option<Seq<(u8, Seq<u8>)>>,
) -> bool {
    match call {
        Some(payload) => submitted(before, payload, after, out),
        None => flushed(before, after, out),
    }
}

/// `states[i + 1]` and `outs[i]` come from the call `calls[i]` on `states[i]`.
pub open spec fn sender_run(
    states: Seq<FecSender>,
    calls: Seq<Option<Seq<u8>>>,
    outs: Seq<Option<Seq<(u8, Seq<u8>)>>>,
) -> bool {
    &&& states.len() == calls.len() + 1
    &&& outs.len() == calls.len()
    &&& forall|i: int| 0 <= i < calls.len() ==> #[trigger] sender_step(states[i], calls[i], states[i + 1], outs[i])
}

/// Number of calls that emitted a block.
pub open spec fn emissions(outs: Seq<Option<Seq<(u8, Seq<u8>)>>>) -> nat
    decreases outs.len(),
{
    if outs.len() == 0 {
        0
    } else {
        emissions(outs.drop_last()) + if outs.last() is Some {
            1nat
        } else {
            0nat
        }
    }
}

/// Number of `submit` calls since the last call that emitted a block (or
/// since the start).
pub open spec fn submits_since_emission(calls: Seq<Option<Seq<u8>>>, outs: Seq<Option<Seq<(u8, Seq<u8>)>>>) -> nat
    decreases calls.len(),
{
    if calls.len() == 0 || outs.len() == 0 {
        0
    } else if outs.last() is Some {
        0
    } else {
        submits_since_emission(calls.drop_last(), outs.drop_last()) + if calls.last() is Some {
            1nat
        } else {
            0nat
        }
    }
}

proof fn lemma_sender_run_prefix(
    states: Seq<FecSender>,
    calls: Seq<Option<Seq<u8>>>,
    outs: Seq<Option<Seq<(u8, Seq<u8>)>>>,
    i: int,
)
    requires
        sender_run(states, calls, outs),
        states[0].buffered().len() == 0,
        0 <= i <= calls.len(),
    ensures
        states[i].spec_config() == states[0].spec_config(),
        states[i].spec_block_id() == (states[0].spec_block_id() + emissions(outs.take(i))) % 65536,
        states[i].buffered().len() == submits_since_emission(calls.take(i), outs.take(i)),
    decreases i,
{
    if i > 0 {
        lemma_sender_run_prefix(states, calls, outs, i - 1);
        let j = i - 1;
        assert(sender_step(states[j], calls[j], states[j + 1], outs[j]));
        assert(j + 1 == i);
        assert(outs.take(i).drop_last() =~= outs.take(i - 1));
        assert(calls.take(i).drop_last() =~= calls.take(i - 1));
        let base = states[0].spec_block_id() + emissions(outs.take(i - 1));
        assert(((base % 65536) + 1) % 65536 == (base + 1) % 65536) by (nonlinear_arith)
            requires
                base >= 0,
        ;
    }
}

/// Over any run of `submit` and `flush_partial` calls on a sender that
/// starts with nothing buffered: the sender keeps its block shape; its block
/// id advances by one (wrapping at 2^16) per emitted block, so the k-th
/// emitted block carries the starting id plus k in every shard header; and
/// the payloads it holds are those of the `submit` calls since the last call
/// that emitted a block, fewer than `data_shards` of them.
pub proof fn lemma_sender_run(
    states: Seq<FecSender>,
    calls: Seq<Option<Seq<u8>>>,
    outs: Seq<Option<Seq<(u8, Seq<u8>)>>>,
)
    requires
        sender_run(states, calls, outs),
        states[0].wf(),
        states[0].buffered().len() == 0,
    ensures
        forall|i: int|
            0 <= i <= calls.len() ==> {
                &&& (#[trigger] states[i]).spec_config() == states[0].spec_config()
                &&& states[i].spec_block_id() == (states[0].spec_block_id() + emissions(outs.take(i))) % 65536
                &&& states[i].buffered().len() == submits_since_emission(calls.take(i), outs.take(i))
                &&& states[i].buffered().len() < states[0].spec_config().data_shards
            },
        forall|i: int|
            0 <= i < calls.len() && (#[trigger] outs[i]) is Some ==> exists|payloads: Seq<Seq<u8>>|
                #[trigger] emitted_block(
                    states[0].spec_config(),
                    ((states[0].spec_block_id() + emissions(outs.take(i))) % 65536) as u16,
                    payloads,
                    outs[i]->0,
                ),
{
    assert forall|i: int| 0 <= i <= calls.len() implies {
        &&& (#[trigger] states[i]).spec_config() == states[0].spec_config()
        &&& states[i].spec_block_id() == (states[0].spec_block_id() + emissions(outs.take(i))) % 65536
        &&& states[i].buffered().len() == submits_since_emission(calls.take(i), outs.take(i))
        &&& states[i].buffered().len() < states[0].spec_config().data_shards
    } by {
        lemma_sender_run_prefix(states, calls, outs, i);
        lemma_sender_run_bounded(states, calls, outs, i);
    }
    assert forall|i: int| 0 <= i < calls.len() && (#[trigger] outs[i]) is Some implies exists|payloads: Seq<Seq<u8>>|
        #[trigger] emitted_block(
            states[0].spec_config(),
            ((states[0].spec_block_id() + emissions(outs.take(i))) % 65536) as u16,
            payloads,
            outs[i]->0,
        ) by {
        lemma_sender_run_prefix(states, calls, outs, i);
        assert(sender_step(states[i], calls[i], states[i + 1], outs[i]));
        let id = ((states[0].spec_block_id() + emissions(outs.take(i))) % 65536) as u16;
        assert(id == states[i].spec_block_id());
        match calls[i] {
            Some(payload) => {
                assert(emitted_block(states[0].spec_config(), id, states[i].buffered().push(payload), outs[i]->0));
            },
            None => {
                assert(emitted_block(states[0].spec_config(), id, states[i].buffered(), outs[i]->0));
            },
        }
    }
}

/// A sender that starts sound stays below a full block over a run.
proof fn lemma_sender_run_bounded(
    states: Seq<FecSender>,
    calls: Seq<Option<Seq<u8>>>,
    outs: Seq<Option<Seq<(u8, Seq<u8>)>>>,
    i: int,
)
    requires
        sender_run(states, calls, outs),
        states[0].wf(),
        0 <= i <= calls.len(),
    ensures
        states[i].buffered().len() < states[0].spec_config().data_shards,
    decreases i,
{
    if i == 0 {
        assert(states[0].buffered().len() == states[0].buffer@.len());
    } else {
        lemma_sender_run_bounded(states, calls, outs, i - 1);
        lemma_sender_run_prefix_config(states, calls, outs, i - 1);
        let j = i - 1;
        assert(sender_step(states[j], calls[j], states[j + 1], outs[j]));
        assert(j + 1 == i);
    }
}

proof fn lemma_sender_run_prefix_config(
    states: Seq<FecSender>,
    calls: Seq<Option<Seq<u8>>>,
    outs: Seq<Option<Seq<(u8, Seq<u8>)>>>,
    i: int,
)
    requires
        sender_run(states, calls, outs),
        0 <= i <= calls.len(),
    ensures
        states[i].spec_config() == states[0].spec_config(),
    decreases i,
{
    if i > 0 {
        lemma_sender_run_prefix_config(states, calls, outs, i - 1);
        let j = i - 1;
        assert(sender_step(states[j], calls[j], states[j + 1], outs[j]));
        assert(j + 1 == i);
    }
}

} // verus!
