//! The file format of an index.
//!
//! Magic bytes, a version, the entry point, the metric, the parameters, the
//! state of the level generator and the storage. The metric, the parameters
//! and the storage stand there as length-prefixed bytes that the caller encodes
//! and decodes.

use vstd::prelude::*;

use crate::bytes::{
    parse_u32, parse_u64, put_u32, put_u64, read_u32, read_u64, u32_bytes, u64_bytes,
};
use crate::error::FormatError;
use crate::framing::{
    apply_decoder, decoded, decoder_ok, entry_point_bytes, lemma_after_entry_point,
    lemma_after_long_blob, lemma_after_magic, lemma_after_short_blob, lemma_after_u32,
    lemma_after_u64, lemma_whole, long_blob_bytes, parse_decoded, parse_entry_point,
    parse_long_blob, parse_magic, parse_short_blob, put_entry_point, put_long_blob, put_short_blob, read_decoded,
    read_entry_point, read_long_blob, read_magic, short_blob_bytes,
};
use crate::index::HNSWIndex;
use crate::storage::HNSWStorage;
use crate::types::{HNSWParams, Metric};

verus! {

/// The bytes `HNSWIDX\0` as a number.
pub const INDEX_MAGIC: u64 = 0x0058_4449_5753_4e48;

/// The version that is written, and the only one that is read.
pub const FORMAT_VERSION: u32 = 5;

/// The bytes of an index file. What the caller encoded is given as bytes.
pub open spec fn index_file(
    entry_point: Option<u32>,
    metric: Seq<u8>,
    params: Seq<u8>,
    rng_state: u64,
    storage: Seq<u8>,
) -> Seq<u8> {
    u64_bytes(INDEX_MAGIC) + (u32_bytes(FORMAT_VERSION) + (entry_point_bytes(entry_point) + (
    short_blob_bytes(metric) + (short_blob_bytes(params) + (u64_bytes(rng_state)
        + long_blob_bytes(storage))))))
}

/// What the bytes of an index file stand for. Bytes after the storage are not
/// looked at.
#[verifier::opaque]
pub open spec fn index_of_file<
    A: Fn(&[u8]) -> Option<Metric>,
    B: Fn(&[u8]) -> Option<HNSWParams>,
    C: Fn(&[u8]) -> Option<HNSWStorage>,
>(s: Seq<u8>, metric: A, params: B, storage: C) -> core::result::Result<
    HNSWIndex<HNSWStorage>,
    FormatError,
> {
    match parse_magic(s, 0, INDEX_MAGIC) {
        Err(e) => Err(e),
        Ok((_, p1)) => match parse_u32(s, p1) {
            Err(e) => Err(e),
            Ok((version, p2)) => if version != FORMAT_VERSION {
                Err(FormatError::UnsupportedVersion { found: version })
            } else {
                match parse_entry_point(s, p2) {
                    Err(e) => Err(e),
                    Ok((entry_point, p3)) => match parse_decoded(s, p3, u32::MAX, metric) {
                        Err(e) => Err(e),
                        Ok((distance_fn, p4)) => match parse_decoded(s, p4, u32::MAX, params) {
                            Err(e) => Err(e),
                            Ok((params, p5)) => match parse_u64(s, p5) {
                                Err(e) => Err(e),
                                Ok((rng_state, p6)) => match parse_long_blob(s, p6, u64::MAX) {
                                    Err(e) => Err(e),
                                    Ok((bytes, _)) => match decoded(storage, bytes) {
                                        None => Err(FormatError::Undecodable),
                                        Some(storage) => Ok(
                                            HNSWIndex {
                                                storage,
                                                entry_point,
                                                params,
                                                distance_fn,
                                                rng_state,
                                            },
                                        ),
                                    },
                                },
                            },
                        },
                    },
                }
            },
        },
    }
}

impl HNSWIndex<HNSWStorage> {
    /// The bytes to be saved for an index, given the encoded metric,
    /// parameters and storage.
    pub fn encode(&self, metric: &[u8], params: &[u8], storage: &[u8]) -> (out: Vec<u8>)
        requires
            metric@.len() <= u32::MAX,
            params@.len() <= u32::MAX,
        ensures
            out@ == index_file(self.entry_point, metric@, params@, self.rng_state, storage@),
    {
        let mut out: Vec<u8> = Vec::new();
        put_u64(&mut out, INDEX_MAGIC);
        put_u32(&mut out, FORMAT_VERSION);
        put_entry_point(&mut out, self.entry_point);
        put_short_blob(&mut out, metric);
        put_short_blob(&mut out, params);
        put_u64(&mut out, self.rng_state);
        put_long_blob(&mut out, storage);
        assert(out@ =~= index_file(
            self.entry_point,
            metric@,
            params@,
            self.rng_state,
            storage@,
        ));
        out
    }

    /// The index that saved bytes stand for. The bytes alone do not make it
    /// well-formed: see [`HNSWIndex::is_sound`].
    pub fn decode<
        A: Fn(&[u8]) -> Option<Metric>,
        B: Fn(&[u8]) -> Option<HNSWParams>,
        C: Fn(&[u8]) -> Option<HNSWStorage>,
    >(data: &[u8], metric: &A, params: &B, storage: &C) -> (r: core::result::Result<
        Self,
        FormatError,
    >)
        requires
            decoder_ok(*metric),
            decoder_ok(*params),
            decoder_ok(*storage),
        ensures
            r == index_of_file(data@, *metric, *params, *storage),
    {
        proof {
            reveal(index_of_file);
        }
        let mut pos: usize = 0;
        match read_magic(data, &mut pos, INDEX_MAGIC) {
            Err(e) => return Err(e),
            Ok(_) => {},
        }
        let version: u32 = match read_u32(data, &mut pos) {
            Err(e) => return Err(e),
            Ok(version) => version,
        };
        if version != FORMAT_VERSION {
            return Err(FormatError::UnsupportedVersion { found: version });
        }
        let entry_point: Option<u32> = match read_entry_point(data, &mut pos) {
            Err(e) => return Err(e),
            Ok(entry_point) => entry_point,
        };
        let distance_fn: Metric = match read_decoded(data, &mut pos, u32::MAX, metric) {
            Err(e) => return Err(e),
            Ok(distance_fn) => distance_fn,
        };
        let params: HNSWParams = match read_decoded(data, &mut pos, u32::MAX, params) {
            Err(e) => return Err(e),
            Ok(params) => params,
        };
        let rng_state: u64 = match read_u64(data, &mut pos) {
            Err(e) => return Err(e),
            Ok(rng_state) => rng_state,
        };
        let bytes: Vec<u8> = match read_long_blob(data, &mut pos, u64::MAX) {
            Err(e) => return Err(e),
            Ok(bytes) => bytes,
        };
        match apply_decoder(storage, bytes.as_slice()) {
            None => Err(FormatError::Undecodable),
            Some(storage) => Ok(
                HNSWIndex { storage, entry_point, params, distance_fn, rng_state },
            ),
        }
    }
}

/// Reading back what was saved gives the index that was saved, provided that
/// the decoders undo what the encoders did.
pub proof fn law_index_file_roundtrip<
    A: Fn(&[u8]) -> Option<Metric>,
    B: Fn(&[u8]) -> Option<HNSWParams>,
    C: Fn(&[u8]) -> Option<HNSWStorage>,
>(
    index: HNSWIndex<HNSWStorage>,
    metric: Seq<u8>,
    params: Seq<u8>,
    storage: Seq<u8>,
    read_metric: A,
    read_params: B,
    read_storage: C,
)
    requires
        metric.len() <= u32::MAX,
        params.len() <= u32::MAX,
        storage.len() <= u64::MAX,
        decoded(read_metric, metric) == Some(index.distance_fn),
        decoded(read_params, params) == Some(index.params),
        decoded(read_storage, storage) == Some(index.storage),
    ensures
        index_of_file(
            index_file(index.entry_point, metric, params, index.rng_state, storage),
            read_metric,
            read_params,
            read_storage,
        ) == Ok::<HNSWIndex<HNSWStorage>, FormatError>(index),
{
    let s = index_file(index.entry_point, metric, params, index.rng_state, storage);
    lemma_index_parts(index.entry_point, metric, params, index.rng_state, storage);
    reveal(index_of_file);
}

/// Where the parts of an index file stand.
proof fn lemma_index_parts(
    entry: Option<u32>,
    metric: Seq<u8>,
    params: Seq<u8>,
    rng: u64,
    storage: Seq<u8>,
)
    requires
        metric.len() <= u32::MAX,
        params.len() <= u32::MAX,
        storage.len() <= u64::MAX,
    ensures
        ({
            let s = index_file(entry, metric, params, rng, storage);
            let p3 = (12 + entry_point_bytes(entry).len()) as nat;
            let p4 = p3 + 4 + metric.len();
            let p5 = p4 + 4 + params.len();
            &&& parse_magic(s, 0, INDEX_MAGIC) == Ok::<((), nat), FormatError>(((), 8))
            &&& parse_u32(s, 8) == Ok::<(u32, nat), FormatError>((FORMAT_VERSION, 12))
            &&& parse_entry_point(s, 12) == Ok::<(Option<u32>, nat), FormatError>((entry, p3))
            &&& parse_short_blob(s, p3, u32::MAX) == Ok::<(Seq<u8>, nat), FormatError>(
                (metric, p4),
            )
            &&& parse_short_blob(s, p4, u32::MAX) == Ok::<(Seq<u8>, nat), FormatError>(
                (params, p5),
            )
            &&& parse_u64(s, p5) == Ok::<(u64, nat), FormatError>((rng, p5 + 8))
            &&& parse_long_blob(s, p5 + 8, u64::MAX) == Ok::<(Seq<u8>, nat), FormatError>(
                (storage, p5 + 16 + storage.len()),
            )
        }),
{
    let s = index_file(entry, metric, params, rng, storage);
    let t6 = long_blob_bytes(storage);
    let t5 = u64_bytes(rng) + t6;
    let t4 = short_blob_bytes(params) + t5;
    let t3 = short_blob_bytes(metric) + t4;
    let t2 = entry_point_bytes(entry) + t3;
    let t1 = u32_bytes(FORMAT_VERSION) + t2;
    let p3 = (12 + entry_point_bytes(entry).len()) as nat;
    let p4 = p3 + 4 + metric.len();
    let p5 = p4 + 4 + params.len();
    lemma_whole(s);
    lemma_after_magic(s, 0, INDEX_MAGIC, t1);
    lemma_after_u32(s, 8, FORMAT_VERSION, t2);
    lemma_after_entry_point(s, 12, entry, t3);
    lemma_after_short_blob(s, p3, metric, u32::MAX, t4);
    lemma_after_short_blob(s, p4, params, u32::MAX, t5);
    lemma_after_u64(s, p5, rng, t6);
    assert(t6 =~= t6 + Seq::<u8>::empty());
    lemma_after_long_blob(s, p5 + 8, storage, u64::MAX, Seq::empty());
}

} // verus!
