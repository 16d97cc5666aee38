//! Reed-Solomon erasure coding over GF(2^8), as used by the FEC codec.
//!
//! The arithmetic is done by the `reed-solomon-erasure` crate; this module
//! states what the library relies on of it and wraps it in `FecEncoder`.
use vstd::prelude::*;

verus! {

/// The deep view of a byte vector is its view.
pub broadcast proof fn lemma_bytes_deep_view(v: Vec<u8>)
    ensures
        #[trigger] v.deep_view() == v@,
{
    assert(v.deep_view() =~= v@);
}

/// Pushing a shard onto a shard list pushes its bytes onto the deep view.
pub proof fn lemma_deep_view_push(before: Vec<Vec<u8>>, after: Vec<Vec<u8>>, x: Vec<u8>)
    requires
        after@ == before@.push(x),
    ensures
        after.deep_view() == before.deep_view().push(x@),
{
    assert(after.deep_view() =~= before.deep_view().push(x@)) by {
        assert forall|j: int| 0 <= j < after@.len() implies after.deep_view()[j] == before.deep_view().push(x@)[j] by {
            if j < before@.len() {
                assert(after@[j] == before@[j]);
            } else {
                assert(after@[j] == x);
            }
        }
    }
}

/// Pushing an emitted shard onto an output list pushes its deep view.
pub proof fn lemma_deep_view_push_pair(before: Vec<(u8, Vec<u8>)>, after: Vec<(u8, Vec<u8>)>, x: (u8, Vec<u8>))
    requires
        after@ == before@.push(x),
    ensures
        after.deep_view() == before.deep_view().push((x.0, x.1@)),
{
    assert(after.deep_view() =~= before.deep_view().push((x.0, x.1@))) by {
        assert forall|j: int| 0 <= j < after@.len() implies after.deep_view()[j] == before.deep_view().push((x.0, x.1@))[j] by {
            if j < before@.len() {
                assert(after@[j] == before@[j]);
            } else {
                assert(after@[j] == x);
            }
        }
    }
}

/// Shape of an FEC block: `data_shards` payload shards protected by
/// `parity_shards` recovery shards.
#[derive(Clone, Copy, Debug)]
pub struct FecConfig {
    pub data_shards: usize,
    pub parity_shards: usize,
}

impl FecConfig {
    /// A shape the GF(2^8) codec accepts: at least one shard of each kind
    /// and at most 256 shards in all.
    pub open spec fn valid(self) -> bool {
        rs_params_ok(self.data_shards as nat, self.parity_shards as nat)
    }

    /// Whether the codec accepts this shape.
    pub fn is_valid(&self) -> (b: bool)
        ensures
            b == self.valid(),
    {
        self.data_shards > 0 && self.parity_shards > 0 && self.data_shards <= 256 && self.parity_shards <= 256
            - self.data_shards
    }

    pub fn total_shards(&self) -> (total: usize)
        requires
            self.data_shards + self.parity_shards <= usize::MAX,
        ensures
            total == self.data_shards + self.parity_shards,
    {
        self.data_shards + self.parity_shards
    }
}

/// The shapes that `ReedSolomon::<galois_8::Field>::new` accepts.
pub open spec fn rs_params_ok(data_shards: nat, parity_shards: nat) -> bool {
    &&& 0 < data_shards
    &&& 0 < parity_shards
    &&& data_shards + parity_shards <= 256
}

/// Every shard of `shards` has `len` bytes.
pub open spec fn all_len(shards: Seq<Seq<u8>>, len: nat) -> bool {
    forall|i: int| 0 <= i < shards.len() ==> (#[trigger] shards[i]).len() == len
}

/// The parity shards that the codec of shape (`data_shards`, `parity_shards`)
/// computes from the data shards `data`.
pub uninterp spec fn rs_parity(data_shards: nat, parity_shards: nat, data: Seq<Seq<u8>>) -> Seq<Seq<u8>>;

/// The full shard set that the codec derives from the data shards `data`:
/// the data shards followed by their parity shards.
pub open spec fn rs_codeword(data_shards: nat, parity_shards: nat, data: Seq<Seq<u8>>) -> Seq<Seq<u8>> {
    data + rs_parity(data_shards, parity_shards, data)
}

/// The shards that `reconstruct` produces from a partial shard set
/// (missing shards are `None`) when it succeeds.
pub uninterp spec fn rs_reconstructed(
    data_shards: nat,
    parity_shards: nat,
    shards: Seq<Option<Seq<u8>>>,
) -> Seq<Seq<u8>>;

/// Number of shards present in a partial shard set.
pub open spec fn count_present(shards: Seq<Option<Seq<u8>>>) -> nat
    decreases shards.len(),
{
    if shards.len() == 0 {
        0
    } else {
        count_present(shards.drop_last()) + if shards.last() is Some {
            1nat
        } else {
            0nat
        }
    }
}

/// All present shards are non-empty and of one common length.
pub open spec fn present_uniform(shards: Seq<Option<Seq<u8>>>) -> bool {
    &&& forall|i: int| 0 <= i < shards.len() && (#[trigger] shards[i]) is Some ==> shards[i]->0.len() > 0
    &&& forall|i: int, j: int|
        0 <= i < shards.len() && 0 <= j < shards.len() && (#[trigger] shards[i]) is Some
            && (#[trigger] shards[j]) is Some ==> shards[i]->0.len() == shards[j]->0.len()
}

/// Exactly the partial shard sets on which `reconstruct` succeeds.
pub open spec fn rs_reconstructible(data_shards: nat, parity_shards: nat, shards: Seq<Option<Seq<u8>>>) -> bool {
    &&& rs_params_ok(data_shards, parity_shards)
    &&& shards.len() == data_shards + parity_shards
    &&& present_uniform(shards)
    &&& count_present(shards) >= data_shards
}

/// The present shards of `shards` agree with the full shard set `full`.
pub open spec fn agrees_with(shards: Seq<Option<Seq<u8>>>, full: Seq<Seq<u8>>) -> bool {
    &&& shards.len() == full.len()
    &&& forall|i: int| 0 <= i < shards.len() && (#[trigger] shards[i]) is Some ==> shards[i]->0 == full[i]
}

/// Data shards of one common, non-zero length (the only data the codec
/// encodes).
pub open spec fn uniform_shards(data: Seq<Seq<u8>>) -> bool {
    &&& data.len() > 0
    &&& data[0].len() > 0
    &&& forall|i: int| 0 <= i < data.len() ==> (#[trigger] data[i]).len() == data[0].len()
}

/// The erasure-code property of the codec of shape (`data_shards`,
/// `parity_shards`): a partial shard set that it can reconstruct and whose
/// present shards agree with the shard set derived from some data shards is
/// reconstructed to exactly that shard set. `rs_encode` states this of the
/// shape of every call that succeeds, and `rs_reconstruct` states it of
/// every call it makes.
pub open spec fn rs_recovers(data_shards: nat, parity_shards: nat) -> bool {
    forall|shards: Seq<Option<Seq<u8>>>, data: Seq<Seq<u8>>|
        rs_reconstructible(data_shards, parity_shards, shards) && data.len() == data_shards && uniform_shards(data)
            && agrees_with(shards, #[trigger] rs_codeword(data_shards, parity_shards, data))
            ==> #[trigger] rs_reconstructed(data_shards, parity_shards, shards) == rs_codeword(
            data_shards,
            parity_shards,
            data,
        )
}

/// Error of the GF(2^8) codec.
#[verifier::external_type_specification]
#[verifier::external_body]
pub struct ExReedSolomonError(reed_solomon_erasure::Error);

/// Builds the codec with `reed_solomon_erasure::galois_8::ReedSolomon::new`
/// for the given shape and runs its `encode` on `shards`.
///
/// Both counts are at most 256, so that `new` can add them without
/// overflow. Claimed of the crate: `new` succeeds exactly on the shapes of
/// `rs_params_ok`; `encode` then succeeds exactly when there are
/// `data + parity` shards, all of one non-zero length, and on success leaves
/// the data shards as they were and overwrites each parity shard, in place,
/// with the parity the codec computes from the data shards. On failure
/// nothing is written. The codec is an erasure code: any `data` of its
/// `data + parity` shards, all of the shard set derived from some data
/// shards of one length, are reconstructed to that shard set
/// (`rs_recovers`).
#[verifier::external_body]
fn rs_encode(data_shards: usize, parity_shards: usize, shards: &mut Vec<Vec<u8>>) -> (r: Result<
    (),
    reed_solomon_erasure::Error,
>)
    requires
        data_shards <= 256,
        parity_shards <= 256,
    ensures
        r is Ok <==> {
            &&& rs_params_ok(data_shards as nat, parity_shards as nat)
            &&& old(shards)@.len() == data_shards + parity_shards
            &&& old(shards)@[0]@.len() > 0
            &&& all_len(old(shards).deep_view(), old(shards)@[0]@.len())
        },
        r is Err ==> final(shards).deep_view() == old(shards).deep_view(),
        final(shards)@.len() == old(shards)@.len(),
        r is Ok ==> final(shards).deep_view() == old(shards).deep_view().take(data_shards as int)
            + rs_parity(
            data_shards as nat,
            parity_shards as nat,
            old(shards).deep_view().take(data_shards as int),
        ),
        r is Ok ==> all_len(final(shards).deep_view(), old(shards)@[0]@.len()),
        r is Ok ==> rs_recovers(data_shards as nat, parity_shards as nat),
{
    match reed_solomon_erasure::galois_8::ReedSolomon::new(data_shards, parity_shards) {
        Ok(codec) => codec.encode(shards),
        Err(e) => Err(e),
    }
}

/// Builds the codec with `reed_solomon_erasure::galois_8::ReedSolomon::new`
/// for the given shape and runs its `reconstruct` on `shards`.
///
/// Both counts are at most 256, so that `new` can add them without
/// overflow. Claimed of the crate: the call succeeds exactly on the sets of
/// `rs_reconstructible` (valid shape, one slot per shard, present shards
/// non-empty and of one length, at least `data` of them present); on failure
/// nothing is written; on success every slot holds a shard, the present ones
/// unchanged and all of the common length. As an erasure code, when the
/// present shards agree with the shard set that the codec derives from some
/// data shards of that length, the reconstruction is that shard set.
#[verifier::external_body]
fn rs_reconstruct(data_shards: usize, parity_shards: usize, shards: &mut Vec<Option<Vec<u8>>>) -> (r:
    Result<(), reed_solomon_erasure::Error>)
    requires
        data_shards <= 256,
        parity_shards <= 256,
    ensures
        r is Ok <==> rs_reconstructible(data_shards as nat, parity_shards as nat, old(shards).deep_view()),
        r is Err ==> final(shards).deep_view() == old(shards).deep_view(),
        final(shards)@.len() == old(shards)@.len(),
        r is Ok ==> {
            let rec = rs_reconstructed(data_shards as nat, parity_shards as nat, old(shards).deep_view());
            &&& final(shards).deep_view() == rec.map_values(|s: Seq<u8>| Some(s))
            &&& agrees_with(old(shards).deep_view(), rec)
            &&& forall|i: int, j: int|
                0 <= i < rec.len() && 0 <= j < old(shards)@.len() && old(shards).deep_view()[j] is Some
                    ==> (#[trigger] rec[i]).len() == (#[trigger] old(shards).deep_view()[j])->0.len()
        },
        r is Ok ==> forall|data: Seq<Seq<u8>>|
            data.len() == data_shards && uniform_shards(data) && agrees_with(
                old(shards).deep_view(),
                #[trigger] rs_codeword(data_shards as nat, parity_shards as nat, data),
            ) ==> rs_reconstructed(data_shards as nat, parity_shards as nat, old(shards).deep_view())
                == rs_codeword(data_shards as nat, parity_shards as nat, data),
{
    match reed_solomon_erasure::galois_8::ReedSolomon::new(data_shards, parity_shards) {
        Ok(codec) => codec.reconstruct(shards),
        Err(e) => Err(e),
    }
}

/// The codec failed: invalid shape, malformed shard set, or too few shards.
#[derive(Debug)]
pub struct FecCodecError;

/// Reed-Solomon encoder/decoder for one block shape.
pub struct FecEncoder {
    pub config: FecConfig,
}

impl FecEncoder {
    pub fn new(config: FecConfig) -> (enc: Self)
        ensures
            enc.config == config,
    {
        FecEncoder { config }
    }

    /// Appends to the data shards in `shards` their parity shards. The data
    /// shards must be `data_shards` in number and all of one non-zero length;
    /// on any other input `shards` is left unchanged and the call fails.
    pub fn encode(&self, shards: &mut Vec<Vec<u8>>) -> (r: Result<(), FecCodecError>)
        ensures
            r is Ok <==> {
                &&& self.config.valid()
                &&& old(shards)@.len() == self.config.data_shards
                &&& old(shards)@[0]@.len() > 0
                &&& all_len(old(shards).deep_view(), old(shards)@[0]@.len())
            },
            r is Err ==> final(shards).deep_view() == old(shards).deep_view(),
            r is Ok ==> final(shards)@.len() == self.config.data_shards + self.config.parity_shards,
            r is Ok ==> final(shards).deep_view() == old(shards).deep_view() + rs_parity(
                self.config.data_shards as nat,
                self.config.parity_shards as nat,
                old(shards).deep_view(),
            ),
            r is Ok ==> all_len(final(shards).deep_view(), old(shards)@[0]@.len()),
            r is Ok ==> rs_recovers(self.config.data_shards as nat, self.config.parity_shards as nat),
    {
        let d = self.config.data_shards;
        let p = self.config.parity_shards;
        if d == 0 || p == 0 || d > 256 || p > 256 - d {
            return Err(FecCodecError);
        }
        if shards.len() != d {
            return Err(FecCodecError);
        }
        let len = shards[0].len();
        if len == 0 {
            return Err(FecCodecError);
        }
        let mut i: usize = 0;
        while i < d
            invariant
                d == shards@.len(),
                0 <= i <= d,
                len == shards@[0]@.len(),
                forall|j: int| 0 <= j < i ==> (#[trigger] shards@[j])@.len() == len,
            decreases d - i,
        {
            if shards[i].len() != len {
                assert(!all_len(shards.deep_view(), len as nat)) by {
                    assert(shards.deep_view()[i as int].len() != len);
                }
                return Err(FecCodecError);
            }
            i = i + 1;
        }
        assert(all_len(shards.deep_view(), len as nat));
        let ghost data = shards.deep_view();
        let mut k: usize = 0;
        while k < p
            invariant
                shards@.len() == d + k,
                0 <= k <= p,
                d + p <= 256,
                shards.deep_view().take(d as int) == data,
                data.len() == d,
                all_len(shards.deep_view(), len as nat),
                shards@.len() > 0,
                shards@[0]@.len() == len,
            decreases p - k,
        {
            let z: Vec<u8> = vec![0u8; len];
            let ghost prev = shards.deep_view();
            shards.push(z);
            assert(shards.deep_view().take(d as int) =~= data);
            assert(all_len(shards.deep_view(), len as nat)) by {
                assert forall|j: int| 0 <= j < shards.deep_view().len() implies (
                #[trigger] shards.deep_view()[j]).len() == len by {
                    if j == shards@.len() - 1 {
                        assert(shards.deep_view()[j] == z@);
                    } else {
                        assert(shards.deep_view()[j] == prev[j]);
                    }
                }
            }
            k = k + 1;
        }
        match rs_encode(d, p, shards) {
            Ok(()) => Ok(()),
            Err(_) => Err(FecCodecError),
        }
    }

    /// Fills in the missing shards of `shards` (see `rs_reconstruct`).
    pub fn reconstruct(&self, shards: &mut Vec<Option<Vec<u8>>>) -> (r: Result<(), FecCodecError>)
        ensures
            r is Ok <==> rs_reconstructible(
                self.config.data_shards as nat,
                self.config.parity_shards as nat,
                old(shards).deep_view(),
            ),
            r is Err ==> final(shards).deep_view() == old(shards).deep_view(),
            final(shards)@.len() == old(shards)@.len(),
            r is Ok ==> final(shards).deep_view() == rs_reconstructed(
                self.config.data_shards as nat,
                self.config.parity_shards as nat,
                old(shards).deep_view(),
            ).map_values(|s: Seq<u8>| Some(s)),
            r is Ok ==> agrees_with(
                old(shards).deep_view(),
                rs_reconstructed(self.config.data_shards as nat, self.config.parity_shards as nat, old(shards).deep_view()),
            ),
            r is Ok ==> {
                let rec = rs_reconstructed(
                    self.config.data_shards as nat,
                    self.config.parity_shards as nat,
                    old(shards).deep_view(),
                );
                forall|i: int, j: int|
                    0 <= i < rec.len() && 0 <= j < old(shards)@.len() && old(shards).deep_view()[j] is Some
                        ==> (#[trigger] rec[i]).len() == (#[trigger] old(shards).deep_view()[j])->0.len()
            },
            r is Ok ==> forall|data: Seq<Seq<u8>>|
                data.len() == self.config.data_shards && uniform_shards(data) && agrees_with(
                    old(shards).deep_view(),
                    #[trigger] rs_codeword(
                        self.config.data_shards as nat,
                        self.config.parity_shards as nat,
                        data,
                    ),
                ) ==> rs_reconstructed(
                    self.config.data_shards as nat,
                    self.config.parity_shards as nat,
                    old(shards).deep_view(),
                ) == rs_codeword(self.config.data_shards as nat, self.config.parity_shards as nat, data),
    {
        if self.config.data_shards > 256 || self.config.parity_shards > 256 {
            return Err(FecCodecError);
        }
        match rs_reconstruct(self.config.data_shards, self.config.parity_shards, shards) {
            Ok(()) => Ok(()),
            Err(_) => Err(FecCodecError),
        }
    }
}

} // verus!
