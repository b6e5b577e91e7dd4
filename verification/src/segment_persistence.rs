//! The file format of a frozen segment.
//!
//! A header, the nodes, the auxiliary state and the region of upper
//! neighbours. The nodes start at a multiple of a cache line, so that they can
//! be mapped into memory. Files of the first version end after the nodes;
//! those of the second hold auxiliary state and upper neighbours in one blob.

use vstd::prelude::*;

use crate::bytes::{
    law_read_back, parse_bytes, parse_u32, parse_u64, put_bytes, put_u32, put_u64, read_bytes, read_u32,
    read_u64, u32_bytes, u64_bytes, Parsed,
};
use crate::error::FormatError;
use crate::framing::{
    decoded, decoder_ok, entry_point_bytes, follows, lemma_after_bytes, lemma_after_entry_point,
    lemma_after_long_blob, lemma_after_magic, lemma_after_short_blob, lemma_after_u32,
    lemma_after_u64, lemma_after_words, lemma_whole, long_blob_bytes, parse_decoded,
    parse_entry_point, parse_long_blob, parse_magic, parse_short_blob, put_entry_point,
    put_long_blob, put_short_blob, read_decoded, read_entry_point, read_long_blob, read_magic,
    read_sized, short_blob_bytes,
};
use crate::graph::{links_below, GraphStore};
use crate::index::HNSWIndex;
use crate::node_storage::quantization::Coder;
use crate::node_storage::serialization::{
    aux_bytes, check_layout, got, got_all, layout_fault, mode_bytes, parse_aux, parse_mode,
    parse_upper, parse_words, read_words, AuxImage, NodeImage, MAX_AUX_ELEMENTS,
};
use crate::node_storage::upper_neighbors::{
    lemma_words_len, lists_within, parse_region, put_words, words_bytes,
};
use crate::node_storage::NodeStorage;
use crate::segment::FrozenSegment;
use crate::types::{HNSWParams, Metric};

verus! {

/// The bytes `OMSEG\0\0\0` as a number.
pub const SEGMENT_MAGIC: u64 = 0x0000_0047_4553_4d4f;

/// The version that is written.
pub const SEGMENT_FORMAT_VERSION: u32 = 3;

/// The nodes start at a multiple of this.
pub const DATA_ALIGNMENT: usize = 64;

/// Most bytes of an encoded metric, or of encoded parameters.
pub const MAX_SERIALIZED_LEN: u32 = 4096;

/// Most bytes of the auxiliary state, or of the region of upper neighbours.
pub const MAX_AUX_DATA_SIZE: u64 = 0x4000_0000;

/// Most bytes of the nodes.
pub const MAX_SEGMENT_DATA_SIZE: u64 = 0x1_0000_0000;

/// What stands before the nodes.
#[derive(Debug, Clone, Copy)]
pub struct SegmentHeader {
    pub version: u32,
    pub id: u64,
    pub entry_point: Option<u32>,
    pub distance_fn: Metric,
    pub params: HNSWParams,
    pub len: usize,
    pub node_size: usize,
    pub neighbors_offset: usize,
    pub vector_offset: usize,
    pub metadata_offset: usize,
    pub dimensions: usize,
    pub max_neighbors: usize,
    /// Where the nodes start.
    pub data_offset: usize,
}

/// Bytes from `n` to the next multiple of the alignment.
pub open spec fn padding(n: nat) -> nat {
    ((64 - n % 64) % 64) as nat
}

/// What stands before the storage header: version, segment, entry point,
/// metric and parameters.
pub open spec fn parse_front<
    A: Fn(&[u8]) -> Option<Metric>,
    B: Fn(&[u8]) -> Option<HNSWParams>,
>(s: Seq<u8>, metric: A, params: B) -> Parsed<(u32, u64, Option<u32>, Metric, HNSWParams)> {
    match parse_magic(s, 0, SEGMENT_MAGIC) {
        Err(e) => Err(e),
        Ok((_, p1)) => match parse_u32(s, p1) {
            Err(e) => Err(e),
            Ok((version, p2)) => if version != 1 && version != 2 && version
                != SEGMENT_FORMAT_VERSION {
                Err(FormatError::UnsupportedVersion { found: version })
            } else {
                match parse_u64(s, p2) {
                    Err(e) => Err(e),
                    Ok((id, p3)) => match parse_entry_point(s, p3) {
                        Err(e) => Err(e),
                        Ok((entry_point, p4)) => match parse_decoded(
                            s,
                            p4,
                            MAX_SERIALIZED_LEN,
                            metric,
                        ) {
                            Err(e) => Err(e),
                            Ok((distance_fn, p5)) => match parse_decoded(
                                s,
                                p5,
                                MAX_SERIALIZED_LEN,
                                params,
                            ) {
                                Err(e) => Err(e),
                                Ok((params, p6)) => Ok(
                                    ((version, id, entry_point, distance_fn, params), p6),
                                ),
                            },
                        },
                    },
                }
            },
        },
    }
}

/// The bytes up to the alignment, in versions that have them.
pub open spec fn parse_padding(s: Seq<u8>, pos: nat, version: u32) -> Parsed<()> {
    if version >= 2 {
        match parse_bytes(s, pos, padding(pos)) {
            Err(e) => Err(e),
            Ok((_, next)) => Ok(((), next)),
        }
    } else {
        Ok(((), pos))
    }
}

/// The header that stands at the start of a file.
#[verifier::opaque]
pub open spec fn header_of_file<
    A: Fn(&[u8]) -> Option<Metric>,
    B: Fn(&[u8]) -> Option<HNSWParams>,
>(s: Seq<u8>, metric: A, params: B) -> core::result::Result<SegmentHeader, FormatError> {
    match parse_front(s, metric, params) {
        Err(e) => Err(e),
        Ok((front, p1)) => match parse_words(s, p1, 7) {
            Err(e) => Err(e),
            Ok((words, p2)) => match parse_padding(s, p2, front.0) {
                Err(e) => Err(e),
                Ok((_, p3)) => Ok(
                    SegmentHeader {
                        version: front.0,
                        id: front.1,
                        entry_point: front.2,
                        distance_fn: front.3,
                        params: front.4,
                        len: words[0] as usize,
                        node_size: words[1] as usize,
                        neighbors_offset: words[2] as usize,
                        vector_offset: words[3] as usize,
                        metadata_offset: words[4] as usize,
                        dimensions: words[5] as usize,
                        max_neighbors: words[6] as usize,
                        data_offset: p3 as usize,
                    },
                ),
            },
        },
    }
}

/// The bytes of the nodes.
pub open spec fn parse_segment_data(s: Seq<u8>, pos: nat, len: nat, node_size: nat) -> Parsed<
    Seq<u8>,
> {
    if len * node_size > usize::MAX {
        Err(FormatError::SizeOverflow { count: len as u64, size: node_size as u64 })
    } else if len * node_size > MAX_SEGMENT_DATA_SIZE {
        Err(
            FormatError::CapExceeded {
                length: (len * node_size) as u64,
                cap: MAX_SEGMENT_DATA_SIZE,
            },
        )
    } else {
        parse_bytes(s, pos, len * node_size)
    }
}

/// What stands behind the nodes.
pub struct Extras {
    pub sq8: bool,
    pub trained: bool,
    pub aux: AuxImage,
    pub upper: Map<u32, Seq<Seq<u32>>>,
}

/// Nothing stands behind the nodes.
pub open spec fn no_extras() -> Extras {
    Extras {
        sq8: false,
        trained: false,
        aux: AuxImage {
            params: None,
            norms: Seq::empty(),
            sums: Seq::empty(),
            originals: Seq::empty(),
        },
        upper: Map::empty(),
    }
}

/// A blob of the second version.
#[verifier::opaque]
pub open spec fn extras_of_blob(s: Seq<u8>) -> core::result::Result<Extras, FormatError> {
    if s.len() == 0 {
        Ok(no_extras())
    } else {
        match parse_mode(s, 0) {
            Err(e) => Err(e),
            Ok((mode, p1)) => match parse_aux(s, p1) {
                Err(e) => Err(e),
                Ok((aux, p2)) => match parse_upper(s, p2) {
                    Err(e) => Err(e),
                    Ok((upper, p3)) => Ok(Extras { sq8: mode.0, trained: mode.1, aux, upper }),
                },
            },
        }
    }
}

/// The auxiliary state of the third version.
#[verifier::opaque]
pub open spec fn aux_of_blob(s: Seq<u8>) -> core::result::Result<Extras, FormatError> {
    if s.len() == 0 {
        Ok(no_extras())
    } else {
        match parse_mode(s, 0) {
            Err(e) => Err(e),
            Ok((mode, p1)) => match parse_aux(s, p1) {
                Err(e) => Err(e),
                Ok((aux, p2)) => Ok(
                    Extras { sq8: mode.0, trained: mode.1, aux, upper: Map::empty() },
                ),
            },
        }
    }
}

/// The upper neighbours of the third version.
#[verifier::opaque]
pub open spec fn upper_of_blob(s: Seq<u8>, len: nat, max: nat) -> core::result::Result<
    Map<u32, Seq<Seq<u32>>>,
    FormatError,
> {
    if s.len() == 0 {
        Ok(Map::empty())
    } else {
        parse_region(s, len, max)
    }
}

/// What stands behind the nodes, by the version.
#[verifier::opaque]
pub open spec fn parse_extras(s: Seq<u8>, pos: nat, version: u32, len: nat, max: nat) -> core::result::Result<
    Extras,
    FormatError,
> {
    if version == 2 {
        match parse_long_blob(s, pos, MAX_AUX_DATA_SIZE) {
            Err(e) => Err(e),
            Ok((blob, _)) => extras_of_blob(blob),
        }
    } else if version == 3 {
        match parse_long_blob(s, pos, MAX_AUX_DATA_SIZE) {
            Err(e) => Err(e),
            Ok((blob, next)) => match aux_of_blob(blob) {
                Err(e) => Err(e),
                Ok(extras) => match parse_long_blob(s, next, MAX_AUX_DATA_SIZE) {
                    Err(e) => Err(e),
                    Ok((region, _)) => match upper_of_blob(region, len, max) {
                        Err(e) => Err(e),
                        Ok(upper) => Ok(Extras { upper, ..extras }),
                    },
                },
            },
        }
    } else {
        Ok(no_extras())
    }
}

/// The storage that a file describes.
#[verifier::opaque]
pub open spec fn image_of_file(s: Seq<u8>, header: SegmentHeader) -> core::result::Result<
    NodeImage,
    FormatError,
> {
    match parse_segment_data(
        s,
        header.data_offset as nat,
        header.len as nat,
        header.node_size as nat,
    ) {
        Err(e) => Err(e),
        Ok((raw, next)) => match layout_fault(
            raw.len(),
            header.len as nat,
            header.node_size,
            header.neighbors_offset,
            header.vector_offset,
        ) {
            Some(e) => Err(e),
            None => match parse_extras(
                s,
                next,
                header.version,
                header.len as nat,
                (header.max_neighbors / 2) as nat,
            ) {
                Err(e) => Err(e),
                Ok(extras) => Ok(
                    NodeImage {
                        sizes: seq![
                            header.len,
                            header.node_size,
                            header.neighbors_offset,
                            header.vector_offset,
                            header.metadata_offset,
                            header.dimensions,
                            header.max_neighbors,
                        ],
                        sq8: extras.sq8,
                        trained: extras.trained,
                        raw,
                        aux: extras.aux,
                        upper: extras.upper,
                    },
                ),
            },
        },
    }
}

// ---------------------------------------------------------------------------
// Reading
// ---------------------------------------------------------------------------

fn bytes_to_alignment(n: usize) -> (r: usize)
    ensures
        r == padding(n as nat),
{
    (DATA_ALIGNMENT - n % DATA_ALIGNMENT) % DATA_ALIGNMENT
}

fn read_front<A: Fn(&[u8]) -> Option<Metric>, B: Fn(&[u8]) -> Option<HNSWParams>>(
    data: &[u8],
    pos: &mut usize,
    metric: &A,
    params: &B,
) -> (r: core::result::Result<(u32, u64, Option<u32>, Metric, HNSWParams), FormatError>)
    requires
        *old(pos) == 0,
        decoder_ok(*metric),
        decoder_ok(*params),
    ensures
        *final(pos) <= data@.len(),
        got(parse_front(data@, *metric, *params), *final(pos), r),
{
    match read_magic(data, pos, SEGMENT_MAGIC) {
        Err(e) => return Err(e),
        Ok(_) => {},
    }
    let version: u32 = match read_u32(data, pos) {
        Err(e) => return Err(e),
        Ok(version) => version,
    };
    if version != 1 && version != 2 && version != SEGMENT_FORMAT_VERSION {
        return Err(FormatError::UnsupportedVersion { found: version });
    }
    let id: u64 = match read_u64(data, pos) {
        Err(e) => return Err(e),
        Ok(id) => id,
    };
    let entry_point: Option<u32> = match read_entry_point(data, pos) {
        Err(e) => return Err(e),
        Ok(entry_point) => entry_point,
    };
    let distance_fn: Metric = match read_decoded(data, pos, MAX_SERIALIZED_LEN, metric) {
        Err(e) => return Err(e),
        Ok(distance_fn) => distance_fn,
    };
    let params: HNSWParams = match read_decoded(data, pos, MAX_SERIALIZED_LEN, params) {
        Err(e) => return Err(e),
        Ok(params) => params,
    };
    Ok((version, id, entry_point, distance_fn, params))
}

fn skip_padding(data: &[u8], pos: &mut usize, version: u32) -> (r: core::result::Result<
    (),
    FormatError,
>)
    requires
        *old(pos) <= data@.len(),
    ensures
        *final(pos) <= data@.len(),
        got(parse_padding(data@, *old(pos) as nat, version), *final(pos), r),
{
    if version >= 2 {
        let n: usize = bytes_to_alignment(*pos);
        match read_bytes(data, pos, n) {
            Err(e) => Err(e),
            Ok(_) => Ok(()),
        }
    } else {
        Ok(())
    }
}

/// Reads the header of a segment file.
pub fn parse_header<A: Fn(&[u8]) -> Option<Metric>, B: Fn(&[u8]) -> Option<HNSWParams>>(
    data: &[u8],
    metric: &A,
    params: &B,
) -> (r: core::result::Result<SegmentHeader, FormatError>)
    requires
        decoder_ok(*metric),
        decoder_ok(*params),
    ensures
        r == header_of_file(data@, *metric, *params),
        r matches Ok(header) ==> {
            &&& header.data_offset <= data@.len()
            &&& header.len <= u32::MAX
            &&& header.node_size <= u32::MAX
            &&& header.version >= 2 ==> header.data_offset % DATA_ALIGNMENT == 0
        },
{
    proof {
        reveal(header_of_file);
    }
    let mut pos: usize = 0;
    let (version, id, entry_point, distance_fn, params) = match read_front(
        data,
        &mut pos,
        metric,
        params,
    ) {
        Err(e) => return Err(e),
        Ok(front) => front,
    };
    let words: Vec<u32> = match read_words(data, &mut pos, 7) {
        Err(e) => return Err(e),
        Ok(words) => words,
    };
    match skip_padding(data, &mut pos, version) {
        Err(e) => return Err(e),
        Ok(_) => {},
    }
    Ok(
        SegmentHeader {
            version,
            id,
            entry_point,
            distance_fn,
            params,
            len: words[0] as usize,
            node_size: words[1] as usize,
            neighbors_offset: words[2] as usize,
            vector_offset: words[3] as usize,
            metadata_offset: words[4] as usize,
            dimensions: words[5] as usize,
            max_neighbors: words[6] as usize,
            data_offset: pos,
        },
    )
}

/// Reads a blob of the auxiliary state or of the upper neighbours.
pub fn read_blob(data: &[u8], pos: &mut usize) -> (r: core::result::Result<Vec<u8>, FormatError>)
    requires
        *old(pos) <= data@.len(),
    ensures
        *final(pos) <= data@.len(),
        got_all(parse_long_blob(data@, *old(pos) as nat, MAX_AUX_DATA_SIZE), *final(pos), r),
{
    read_long_blob(data, pos, MAX_AUX_DATA_SIZE)
}

fn read_segment_data(data: &[u8], pos: &mut usize, len: usize, node_size: usize) -> (r:
    core::result::Result<Vec<u8>, FormatError>)
    requires
        *old(pos) <= data@.len(),
        len <= u32::MAX,
        node_size <= u32::MAX,
    ensures
        *final(pos) <= data@.len(),
        got_all(
            parse_segment_data(data@, *old(pos) as nat, len as nat, node_size as nat),
            *final(pos),
            r,
        ),
{
    proof {
        assert(0 <= len * node_size <= 0xffff_ffff * 0xffff_ffff) by (nonlinear_arith)
            requires
                0 <= len <= 0xffff_ffff,
                0 <= node_size <= 0xffff_ffff,
        ;
    }
    let size: u64 = len as u64 * node_size as u64;
    if size > usize::MAX as u64 {
        return Err(FormatError::SizeOverflow { count: len as u64, size: node_size as u64 });
    }
    if size > MAX_SEGMENT_DATA_SIZE {
        return Err(FormatError::CapExceeded { length: size, cap: MAX_SEGMENT_DATA_SIZE });
    }
    read_sized(data, pos, size)
}

impl NodeStorage {
    /// Mode, auxiliary state and upper neighbours are these.
    pub open spec fn has_extras(&self, extras: Extras) -> bool {
        &&& self.sq8 == extras.sq8
        &&& self.sq8_trained == extras.trained
        &&& self.has_aux(extras.aux)
        &&& self.upper_neighbors.stores(extras.upper)
    }
}

fn read_auxiliary_v2(data: &[u8], pos: &mut usize, storage: &mut NodeStorage) -> (r:
    core::result::Result<(), FormatError>)
    requires
        *old(pos) <= data@.len(),
        old(storage).has_extras(no_extras()),
    ensures
        final(storage).same_nodes_as(old(storage)),
        match parse_extras(
            data@,
            *old(pos) as nat,
            2,
            old(storage).len as nat,
            old(storage).max_neighbors_upper as nat,
        ) {
            Err(e) => r == Err::<(), FormatError>(e),
            Ok(extras) => r == Ok::<(), FormatError>(()) && final(storage).has_extras(extras),
        },
{
    proof {
        reveal(parse_extras);
        reveal(extras_of_blob);
    }
    match read_blob(data, pos) {
        Err(e) => Err(e),
        Ok(blob) => {
            if blob.len() == 0 {
                Ok(())
            } else {
                storage.deserialize_auxiliary(blob.as_slice())
            }
        },
    }
}

fn read_auxiliary_v3(data: &[u8], pos: &mut usize, storage: &mut NodeStorage) -> (r:
    core::result::Result<(), FormatError>)
    requires
        *old(pos) <= data@.len(),
        old(storage).has_extras(no_extras()),
        old(storage).len <= u32::MAX,
    ensures
        final(storage).same_nodes_as(old(storage)),
        match parse_extras(
            data@,
            *old(pos) as nat,
            3,
            old(storage).len as nat,
            old(storage).max_neighbors_upper as nat,
        ) {
            Err(e) => r == Err::<(), FormatError>(e),
            Ok(extras) => r == Ok::<(), FormatError>(()) && final(storage).has_extras(extras),
        },
{
    proof {
        reveal(parse_extras);
        reveal(aux_of_blob);
        reveal(upper_of_blob);
    }
    let blob: Vec<u8> = match read_blob(data, pos) {
        Err(e) => return Err(e),
        Ok(blob) => blob,
    };
    if blob.len() != 0 {
        match storage.deserialize_segment_auxiliary(blob.as_slice()) {
            Err(e) => return Err(e),
            Ok(_) => {},
        }
    }
    let region: Vec<u8> = match read_blob(data, pos) {
        Err(e) => return Err(e),
        Ok(region) => region,
    };
    assert(storage.header_sizes()[0] == old(storage).header_sizes()[0]);
    if region.len() == 0 {
        Ok(())
    } else {
        storage.deserialize_upper_neighbors_region(region.as_slice())
    }
}

impl FrozenSegment {
    /// The segment that a file describes. The bytes alone do not make it
    /// well-formed: see [`HNSWIndex::is_sound`].
    pub fn decode<A: Fn(&[u8]) -> Option<Metric>, B: Fn(&[u8]) -> Option<HNSWParams>>(
        data: &[u8],
        metric: &A,
        params: &B,
    ) -> (r: core::result::Result<Self, FormatError>)
        requires
            decoder_ok(*metric),
            decoder_ok(*params),
        ensures
            match header_of_file(data@, *metric, *params) {
                Err(e) => r == Err::<Self, FormatError>(e),
                Ok(header) => match image_of_file(data@, header) {
                    Err(e) => r == Err::<Self, FormatError>(e),
                    Ok(image) => r matches Ok(segment) && segment.restores(header, image),
                },
            },
    {
        let header: SegmentHeader = match parse_header(data, metric, params) {
            Err(e) => return Err(e),
            Ok(header) => header,
        };
        match decode_nodes(data, &header) {
            Err(e) => Err(e),
            Ok(storage) => Ok(
                Self::from_parts(
                    header.id,
                    header.entry_point,
                    header.params,
                    header.distance_fn,
                    storage,
                ),
            ),
        }
    }

    /// The segment is what a file describes.
    pub open spec fn restores(&self, header: SegmentHeader, image: NodeImage) -> bool {
        &&& self.id == header.id
        &&& self.index.entry_point == header.entry_point
        &&& self.index.params == header.params
        &&& self.index.distance_fn == header.distance_fn
        &&& self.index.rng_state == header.params.seed
        &&& self.index.storage.restores(image)
    }
}

fn decode_nodes(data: &[u8], header: &SegmentHeader) -> (r: core::result::Result<
    NodeStorage,
    FormatError,
>)
    requires
        header.data_offset <= data@.len(),
        header.len <= u32::MAX,
        header.node_size <= u32::MAX,
    ensures
        match image_of_file(data@, *header) {
            Err(e) => r == Err::<NodeStorage, FormatError>(e),
            Ok(image) => r matches Ok(storage) && storage.restores(image),
        },
{
    proof {
        reveal(image_of_file);
    }
    let mut pos: usize = header.data_offset;
    let raw: Vec<u8> = match read_segment_data(data, &mut pos, header.len, header.node_size) {
        Err(e) => return Err(e),
        Ok(raw) => raw,
    };
    match check_layout(
        raw.len(),
        header.len,
        header.node_size,
        header.neighbors_offset,
        header.vector_offset,
    ) {
        Some(e) => return Err(e),
        None => {},
    }
    let mut storage: NodeStorage = NodeStorage::from_bytes(
        raw,
        header.len,
        header.node_size,
        header.neighbors_offset,
        header.vector_offset,
        header.metadata_offset,
        header.dimensions,
        header.max_neighbors,
    );
    let ghost fresh = storage;
    proof {
        assert(fresh.header_sizes()[0] == header.len);
        assert(fresh.header_sizes()[1] == header.node_size);
        assert(fresh.header_sizes()[6] == header.max_neighbors);
        assert(fresh.norms@ =~= Seq::<u32>::empty());
        assert(fresh.sq8_sums@ =~= Seq::<i32>::empty());
        assert(fresh.training_buffer@ =~= Seq::<u32>::empty());
        assert(fresh.upper_neighbors.map@.dom() =~= Map::<u32, Seq<Seq<u32>>>::empty().dom());
        assert(fresh.has_extras(no_extras()));
    }
    if header.version == 2 {
        match read_auxiliary_v2(data, &mut pos, &mut storage) {
            Err(e) => return Err(e),
            Ok(_) => {},
        }
    } else if header.version == 3 {
        match read_auxiliary_v3(data, &mut pos, &mut storage) {
            Err(e) => return Err(e),
            Ok(_) => {},
        }
    } else {
        proof {
            reveal(parse_extras);
        }
    }
    proof {
        assert(storage.same_nodes_as(&fresh));
        assert(storage.header_sizes()[1] == fresh.header_sizes()[1]);
        assert(storage.header_sizes()[6] == fresh.header_sizes()[6]);
    }
    Ok(storage)
}

// ---------------------------------------------------------------------------
// Writing
// ---------------------------------------------------------------------------

/// Sizes as numbers of four bytes.
pub open spec fn as_words(sizes: Seq<usize>) -> Seq<u32> {
    sizes.map_values(|x: usize| x as u32)
}

pub open spec fn zeros(n: nat) -> Seq<u8> {
    Seq::new(n, |i: int| 0u8)
}

/// The header without the padding.
pub open spec fn head_bytes(
    id: u64,
    entry_point: Option<u32>,
    metric: Seq<u8>,
    params: Seq<u8>,
    words: Seq<u32>,
) -> Seq<u8> {
    u64_bytes(SEGMENT_MAGIC) + (u32_bytes(SEGMENT_FORMAT_VERSION) + (u64_bytes(id) + (
    entry_point_bytes(entry_point) + (short_blob_bytes(metric) + (short_blob_bytes(params)
        + words_bytes(words))))))
}

/// What stands behind the nodes in the version that is written.
pub open spec fn tail_bytes(storage: &NodeStorage) -> Seq<u8> {
    long_blob_bytes(
        mode_bytes(storage.sq8, storage.sq8_trained) + aux_bytes(storage.aux_image()),
    ) + long_blob_bytes(storage.upper_neighbors.region(storage.len as nat))
}

/// The sizes of a storage fit into the header.
pub open spec fn sizes_fit(storage: &NodeStorage) -> bool {
    &&& storage.len <= u32::MAX
    &&& storage.node_size <= u32::MAX
    &&& storage.dimensions <= u32::MAX
    &&& storage.max_neighbors <= u32::MAX
}

impl FrozenSegment {
    /// The bytes of the segment file, given the encoded metric and parameters.
    pub open spec fn file_bytes(&self, metric: Seq<u8>, params: Seq<u8>) -> Seq<u8> {
        let storage = &self.index.storage;
        let head = head_bytes(
            self.id,
            self.index.entry_point,
            metric,
            params,
            as_words(storage.header_sizes()),
        );
        head + (zeros(padding(head.len())) + (storage.node_bytes() + tail_bytes(storage)))
    }

    fn encode_head(&self, metric: &[u8], params: &[u8]) -> (out: Vec<u8>)
        requires
            metric@.len() <= u32::MAX,
            params@.len() <= u32::MAX,
        ensures
            out@ == head_bytes(
                self.id,
                self.index.entry_point,
                metric@,
                params@,
                as_words(self.index.storage.header_sizes()),
            ),
    {
        let storage: &NodeStorage = &self.index.storage;
        let mut words: Vec<u32> = Vec::new();
        words.push(storage.len as u32);
        words.push(storage.node_size as u32);
        words.push(storage.neighbors_offset as u32);
        words.push(storage.vector_offset as u32);
        words.push(storage.metadata_offset as u32);
        words.push(storage.dimensions as u32);
        words.push(storage.max_neighbors as u32);
        assert(words@ =~= as_words(storage.header_sizes()));
        let mut out: Vec<u8> = Vec::new();
        put_u64(&mut out, SEGMENT_MAGIC);
        put_u32(&mut out, SEGMENT_FORMAT_VERSION);
        put_u64(&mut out, self.id);
        put_entry_point(&mut out, self.index.entry_point);
        put_short_blob(&mut out, metric);
        put_short_blob(&mut out, params);
        put_words(&mut out, words.as_slice());
        assert(out@ =~= head_bytes(
            self.id,
            self.index.entry_point,
            metric@,
            params@,
            as_words(self.index.storage.header_sizes()),
        ));
        out
    }

    /// The bytes to be saved for a segment, given the encoded metric and
    /// parameters.
    pub fn encode(&self, metric: &[u8], params: &[u8]) -> (out: Vec<u8>)
        requires
            self.index.storage.wf(),
            sizes_fit(&self.index.storage),
            self.index.storage.upper_neighbors.countable(),
            self.index.storage.upper_neighbors.payload(self.index.storage.len as nat).len()
                <= u64::MAX,
            metric@.len() <= u32::MAX,
            params@.len() <= u32::MAX,
        ensures
            out@ == self.file_bytes(metric@, params@),
    {
        let storage: &NodeStorage = &self.index.storage;
        let mut out: Vec<u8> = self.encode_head(metric, params);
        let ghost head = out@;
        let n: usize = bytes_to_alignment(out.len());
        let mut i: usize = 0;
        while i < n
            invariant
                i <= n,
                out@ == head + zeros(i as nat),
            decreases n - i,
        {
            out.push(0);
            assert(out@ =~= head + zeros((i + 1) as nat));
            i += 1;
        }
        proof {
            storage.lemma_used();
        }
        put_bytes(&mut out, storage.as_bytes());
        let aux: Vec<u8> = storage.serialize_segment_auxiliary();
        put_long_blob(&mut out, aux.as_slice());
        let region: Vec<u8> = storage.serialize_upper_neighbors_region();
        put_long_blob(&mut out, region.as_slice());
        assert(out@ =~= self.file_bytes(metric@, params@));
        out
    }
}

// ---------------------------------------------------------------------------
// A segment is read back
// ---------------------------------------------------------------------------

impl FrozenSegment {
    /// The header that is written for a segment.
    pub open spec fn header(&self, metric: Seq<u8>, params: Seq<u8>) -> SegmentHeader {
        let storage = &self.index.storage;
        let head = head_bytes(
            self.id,
            self.index.entry_point,
            metric,
            params,
            as_words(storage.header_sizes()),
        );
        SegmentHeader {
            version: SEGMENT_FORMAT_VERSION,
            id: self.id,
            entry_point: self.index.entry_point,
            distance_fn: self.index.distance_fn,
            params: self.index.params,
            len: storage.len,
            node_size: storage.node_size,
            neighbors_offset: storage.neighbors_offset,
            vector_offset: storage.vector_offset,
            metadata_offset: storage.metadata_offset,
            dimensions: storage.dimensions,
            max_neighbors: storage.max_neighbors,
            data_offset: (head.len() + padding(head.len())) as usize,
        }
    }

    /// What is written for a segment stays within the caps of the reader.
    pub open spec fn within_caps(&self, metric: Seq<u8>, params: Seq<u8>) -> bool {
        let storage = &self.index.storage;
        &&& metric.len() <= MAX_SERIALIZED_LEN
        &&& params.len() <= MAX_SERIALIZED_LEN
        &&& storage.len * storage.node_size <= MAX_SEGMENT_DATA_SIZE
        &&& storage.norms@.len() <= MAX_AUX_ELEMENTS
        &&& storage.sq8_sums@.len() <= MAX_AUX_ELEMENTS
        &&& storage.training_buffer@.len() <= MAX_AUX_ELEMENTS
        &&& 2 + aux_bytes(storage.aux_image()).len() <= MAX_AUX_DATA_SIZE
        &&& storage.upper_neighbors.region(storage.len as nat).len() <= MAX_AUX_DATA_SIZE
    }

    /// Reading back what was saved gives the parts that were saved, provided
    /// that the decoders undo what the encoders did: the header, and the image
    /// of the storage. With [`NodeStorage::law_restored_nodes`], a segment
    /// restored from them has the same nodes.
    pub proof fn law_segment_file_roundtrip<
        A: Fn(&[u8]) -> Option<Metric>,
        B: Fn(&[u8]) -> Option<HNSWParams>,
    >(&self, metric: Seq<u8>, params: Seq<u8>, read_metric: A, read_params: B)
        requires
            self.index.storage.wf(),
            sizes_fit(&self.index.storage),
            self.index.storage.upper_neighbors.countable(),
            self.index.storage.upper_tidy(),
            forall|id: u32|
                id < self.index.storage.len ==> lists_within(
                    #[trigger] self.index.storage.upper_neighbors.levels(id),
                    (self.index.storage.max_neighbors / 2) as nat,
                ),
            self.within_caps(metric, params),
            decoded(read_metric, metric) == Some(self.index.distance_fn),
            decoded(read_params, params) == Some(self.index.params),
        ensures
            header_of_file(self.file_bytes(metric, params), read_metric, read_params) == Ok::<
                SegmentHeader,
                FormatError,
            >(self.header(metric, params)),
            image_of_file(self.file_bytes(metric, params), self.header(metric, params)) == Ok::<
                NodeImage,
                FormatError,
            >(self.index.storage.image()),
    {
        let s = self.file_bytes(metric, params);
        let storage = &self.index.storage;
        let words = as_words(storage.header_sizes());
        let entry = self.index.entry_point;
        let head = head_bytes(self.id, entry, metric, params, words);
        let pad = zeros(padding(head.len()));
        let body = storage.node_bytes() + tail_bytes(storage);
        let offset = head.len() + pad.len();
        lemma_header_back(
            self.id,
            entry,
            metric,
            params,
            words,
            body,
            self.index.distance_fn,
            self.index.params,
            read_metric,
            read_params,
        );
        assert(words[0] == storage.len as u32 && words[1] == storage.node_size as u32
            && words[2] == storage.neighbors_offset as u32 && words[3]
            == storage.vector_offset as u32 && words[4] == storage.metadata_offset as u32
            && words[5] == storage.dimensions as u32 && words[6] == storage.max_neighbors as u32);
        self.lemma_body_back(s, offset, metric, params);
    }

    /// A segment restored from what was written for a well-formed one, with the
    /// values of its codes found again, is well-formed, and has the same nodes:
    /// vectors, neighbours on all levels, slots and levels; in the same mode.
    pub proof fn law_restored_segment<C: Coder>(
        &self,
        read: &Self,
        other: &Self,
        metric: Seq<u8>,
        params: Seq<u8>,
        coder: C,
    )
        requires
            self.wf(),
            self.index.storage.upper_tidy(),
            self.index.storage.len <= u32::MAX,
            self.index.storage.sq8 && self.index.storage.sq8_trained ==> {
                let p = self.index.storage.sq8_params->0;
                &&& p.dimensions == self.index.storage.dimensions
                &&& self.index.storage.code_values@ == coder.meaning(p)
            },
            read.restores(self.header(metric, params), self.index.storage.image()),
            other.has_values(read, coder),
        ensures
            other.index.storage.sq8 == self.index.storage.sq8,
            other.index.storage.sq8_trained == self.index.storage.sq8_trained,
            other.wf(),
            other.id == self.id,
            other.index.entry_point == self.index.entry_point,
            other.index.params == self.index.params,
            other.index.distance_fn == self.index.distance_fn,
            other.index.storage.len == self.index.storage.len,
            other.slots() == self.slots(),
            forall|id: u32, level: u8|
                id < self.index.storage.len ==> #[trigger] other.index.storage.links(id, level)
                    == self.index.storage.links(id, level),
            forall|id: u32|
                id < self.index.storage.len ==> #[trigger] other.index.storage.vec(id)
                    == self.index.storage.vec(id),
            forall|id: u32|
                id < self.index.storage.len ==> #[trigger] other.index.storage.node_level(id)
                    == self.index.storage.node_level(id),
    {
        let a = self.index.storage;
        let b = other.index.storage;
        let c = read.index.storage;
        a.law_restored_nodes(&c);
        c.lemma_same_data(&b);
        assert forall|id: u32, level: u8| id < a.len implies #[trigger] b.links(id, level)
            == a.links(id, level) by {
            assert(c.links(id, level) == a.links(id, level));
            if level == 0 {
                assert(c.links0(id) == b.links0(id));
            }
        }
        assert forall|id: u32| id < a.len implies #[trigger] b.node_level(id)
            == a.node_level(id) by {
            assert(c.node_level(id) == a.node_level(id));
        }
        assert forall|id: u32| id < a.len implies #[trigger] b.slot_of(id) == a.slot_of(id) by {
            assert(c.slot_of(id) == a.slot_of(id));
        }
        assert forall|id: u32| id < a.len implies #[trigger] b.vec(id) == a.vec(id) by {
            if a.sq8 {
                assert(c.codes(id) == a.codes(id));
                assert(c.codes(id) == b.codes(id));
            } else {
                assert(c.vec(id) == a.vec(id));
                assert(c.words(id) == b.words(id));
            }
        }
        assert(b.vectors_ok()) by {
            if a.sq8 && a.sq8_trained {
                assert(a.params_bits() == c.params_bits());
            }
        }
        assert(b.header_sizes()[6] == a.header_sizes()[6]);
        assert(b.header_sizes()[5] == a.header_sizes()[5]);
        assert(other.slots() =~= self.slots());
        assert(a.link_cap(0) == self.index.params.links(0));
        assert(a.link_cap(1) == self.index.params.links(1));
        assert forall|level: u8| #[trigger] b.link_cap(level)
            == other.index.params.links(level) by {
            assert(a.link_cap(level) == self.index.params.links(level));
        }
        assert forall|level: u8| #[trigger] links_below(b, level, b.node_count()) by {
            assert(links_below(a, level, a.node_count()));
            assert forall|id: u32, j: int|
                id < b.node_count() && 0 <= j < b.links_at(id, level).len() implies (
            #[trigger] b.links_at(id, level)[j]) < b.node_count() by {
                assert(b.links(id, level) == a.links(id, level));
                assert(a.links_at(id, level)[j] < a.node_count());
            }
        }
        assert forall|id: u32| id < b.node_count() implies #[trigger] b.level_at(id)
            <= other.index.params.max_level by {
            assert(b.node_level(id) == a.node_level(id));
            assert(a.level_at(id) <= self.index.params.max_level);
        }
        assert forall|id: u32, level: u8|
            id < b.node_count() implies #[trigger] b.links_at(id, level).len()
            <= other.index.params.links(level) by {
            assert(b.links(id, level) == a.links(id, level));
            assert(a.links_at(id, level).len() <= self.index.params.links(level));
        }
    }

    proof fn lemma_body_back(&self, s: Seq<u8>, offset: nat, metric: Seq<u8>, params: Seq<u8>)
        requires
            follows(
                s,
                offset,
                self.index.storage.node_bytes() + tail_bytes(&self.index.storage),
            ),
            offset == self.header(metric, params).data_offset,
            self.index.storage.wf(),
            sizes_fit(&self.index.storage),
            self.index.storage.upper_neighbors.countable(),
            self.index.storage.upper_tidy(),
            forall|id: u32|
                id < self.index.storage.len ==> lists_within(
                    #[trigger] self.index.storage.upper_neighbors.levels(id),
                    (self.index.storage.max_neighbors / 2) as nat,
                ),
            self.within_caps(metric, params),
        ensures
            image_of_file(s, self.header(metric, params)) == Ok::<NodeImage, FormatError>(
                self.index.storage.image(),
            ),
    {
        let storage = &self.index.storage;
        let raw = storage.node_bytes();
        let tail = tail_bytes(storage);
        let mode = mode_bytes(storage.sq8, storage.sq8_trained);
        let aux = mode + aux_bytes(storage.aux_image());
        let region = storage.upper_neighbors.region(storage.len as nat);
        let next = offset + raw.len();
        assert(storage.data@.len() == storage.data.len());
        assert(0 <= storage.len * storage.node_size <= storage.capacity * storage.node_size)
            by (nonlinear_arith)
            requires
                storage.len <= storage.capacity,
        ;
        lemma_after_bytes(s, offset, raw, tail);
        lemma_after_long_blob(s, next, aux, MAX_AUX_DATA_SIZE, long_blob_bytes(region));
        let p2 = next + 8 + aux.len();
        assert(long_blob_bytes(region) =~= long_blob_bytes(region) + Seq::<u8>::empty());
        lemma_after_long_blob(s, p2, region, MAX_AUX_DATA_SIZE, Seq::empty());
        storage.lemma_segment_aux_back();
        let upper = storage.upper_neighbors.stored_below(storage.len as nat);
        assert(aux_of_blob(aux) == Ok::<Extras, FormatError>(
            Extras {
                sq8: storage.sq8,
                trained: storage.sq8_trained,
                aux: storage.aux_image(),
                upper: Map::empty(),
            },
        )) by {
            reveal(aux_of_blob);
        }
        assert(upper_of_blob(region, storage.len as nat, (storage.max_neighbors / 2) as nat)
            == Ok::<Map<u32, Seq<Seq<u32>>>, FormatError>(upper)) by {
            reveal(upper_of_blob);
            if storage.upper_neighbors.map@.dom() == Set::<u32>::empty() {
                assert(upper.dom() =~= Set::<u32>::empty());
                assert(upper =~= Map::<u32, Seq<Seq<u32>>>::empty());
            } else {
                storage.upper_neighbors.law_region_roundtrip(
                    storage.len as nat,
                    (storage.max_neighbors / 2) as nat,
                );
            }
        }
        assert(parse_extras(
            s,
            next,
            SEGMENT_FORMAT_VERSION,
            storage.len as nat,
            (storage.max_neighbors / 2) as nat,
        ) == Ok::<Extras, FormatError>(
            Extras {
                sq8: storage.sq8,
                trained: storage.sq8_trained,
                aux: storage.aux_image(),
                upper,
            },
        )) by {
            reveal(parse_extras);
        }
        reveal(image_of_file);
        assert(seq![
            storage.len,
            storage.node_size,
            storage.neighbors_offset,
            storage.vector_offset,
            storage.metadata_offset,
            storage.dimensions,
            storage.max_neighbors,
        ] =~= storage.header_sizes());
    }
}

proof fn lemma_header_back<A: Fn(&[u8]) -> Option<Metric>, B: Fn(&[u8]) -> Option<HNSWParams>>(
    id: u64,
    entry: Option<u32>,
    metric: Seq<u8>,
    params: Seq<u8>,
    words: Seq<u32>,
    body: Seq<u8>,
    distance_fn: Metric,
    plain_params: HNSWParams,
    read_metric: A,
    read_params: B,
)
    requires
        metric.len() <= MAX_SERIALIZED_LEN,
        params.len() <= MAX_SERIALIZED_LEN,
        words.len() == 7,
        decoded(read_metric, metric) == Some(distance_fn),
        decoded(read_params, params) == Some(plain_params),
    ensures
        ({
            let head = head_bytes(id, entry, metric, params, words);
            let s = head + (zeros(padding(head.len())) + body);
            let offset = head.len() + padding(head.len());
            &&& offset <= 0xffff
            &&& follows(s, offset, body)
            &&& header_of_file(s, read_metric, read_params) == Ok::<SegmentHeader, FormatError>(
                SegmentHeader {
                    version: SEGMENT_FORMAT_VERSION,
                    id,
                    entry_point: entry,
                    distance_fn,
                    params: plain_params,
                    len: words[0] as usize,
                    node_size: words[1] as usize,
                    neighbors_offset: words[2] as usize,
                    vector_offset: words[3] as usize,
                    metadata_offset: words[4] as usize,
                    dimensions: words[5] as usize,
                    max_neighbors: words[6] as usize,
                    data_offset: offset as usize,
                },
            )
        }),
{
    let head = head_bytes(id, entry, metric, params, words);
    let pad = zeros(padding(head.len()));
    let s = head + (pad + body);
    lemma_head_back(id, entry, metric, params, words, pad + body);
    lemma_after_bytes(s, head.len(), pad, body);
    assert(parse_padding(s, head.len(), SEGMENT_FORMAT_VERSION) == Ok::<((), nat), FormatError>(
        ((), head.len() + pad.len()),
    ));
    reveal(header_of_file);
}

proof fn lemma_head_back(
    id: u64,
    entry: Option<u32>,
    metric: Seq<u8>,
    params: Seq<u8>,
    words: Seq<u32>,
    rest: Seq<u8>,
)
    requires
        metric.len() <= MAX_SERIALIZED_LEN,
        params.len() <= MAX_SERIALIZED_LEN,
        words.len() == 7,
    ensures
        ({
            let head = head_bytes(id, entry, metric, params, words);
            let s = head + rest;
            let p4 = (20 + entry_point_bytes(entry).len()) as nat;
            let p5 = p4 + 4 + metric.len();
            let p6 = p5 + 4 + params.len();
            &&& parse_magic(s, 0, SEGMENT_MAGIC) == Ok::<((), nat), FormatError>(((), 8))
            &&& parse_u32(s, 8) == Ok::<(u32, nat), FormatError>((SEGMENT_FORMAT_VERSION, 12))
            &&& parse_u64(s, 12) == Ok::<(u64, nat), FormatError>((id, 20))
            &&& parse_entry_point(s, 20) == Ok::<(Option<u32>, nat), FormatError>((entry, p4))
            &&& parse_short_blob(s, p4, MAX_SERIALIZED_LEN) == Ok::<
                (Seq<u8>, nat),
                FormatError,
            >((metric, p5))
            &&& parse_short_blob(s, p5, MAX_SERIALIZED_LEN) == Ok::<
                (Seq<u8>, nat),
                FormatError,
            >((params, p6))
            &&& parse_words(s, p6, 7) == Ok::<(Seq<u32>, nat), FormatError>((words, head.len()))
            &&& follows(s, head.len(), rest)
            &&& head.len() <= 20 + 5 + 8 + 2 * MAX_SERIALIZED_LEN + 28
        }),
{
    let head = head_bytes(id, entry, metric, params, words);
    let s = head + rest;
    let t7 = words_bytes(words) + rest;
    let t6 = short_blob_bytes(params) + t7;
    let t5 = short_blob_bytes(metric) + t6;
    let t4 = entry_point_bytes(entry) + t5;
    let t3 = u64_bytes(id) + t4;
    let t2 = u32_bytes(SEGMENT_FORMAT_VERSION) + t3;
    let t1 = u64_bytes(SEGMENT_MAGIC) + t2;
    let p4 = (20 + entry_point_bytes(entry).len()) as nat;
    let p5 = p4 + 4 + metric.len();
    let p6 = p5 + 4 + params.len();
    assert(s == t1) by {
        let h6 = short_blob_bytes(params) + words_bytes(words);
        let h5 = short_blob_bytes(metric) + h6;
        let h4 = entry_point_bytes(entry) + h5;
        let h3 = u64_bytes(id) + h4;
        let h2 = u32_bytes(SEGMENT_FORMAT_VERSION) + h3;
        lemma_regroup(short_blob_bytes(params), words_bytes(words), rest);
        lemma_regroup(short_blob_bytes(metric), h6, rest);
        lemma_regroup(entry_point_bytes(entry), h5, rest);
        lemma_regroup(u64_bytes(id), h4, rest);
        lemma_regroup(u32_bytes(SEGMENT_FORMAT_VERSION), h3, rest);
        lemma_regroup(u64_bytes(SEGMENT_MAGIC), h2, rest);
    }
    lemma_whole(s);
    lemma_after_magic(s, 0, SEGMENT_MAGIC, t2);
    lemma_after_u32(s, 8, SEGMENT_FORMAT_VERSION, t3);
    lemma_after_u64(s, 12, id, t4);
    lemma_after_entry_point(s, 20, entry, t5);
    lemma_after_short_blob(s, p4, metric, MAX_SERIALIZED_LEN, t6);
    lemma_after_short_blob(s, p5, params, MAX_SERIALIZED_LEN, t7);
    lemma_after_words(s, p6, words, rest);
    lemma_head_len(id, entry, metric, params, words);
}

proof fn lemma_regroup(a: Seq<u8>, b: Seq<u8>, c: Seq<u8>)
    ensures
        (a + b) + c == a + (b + c),
{
    assert((a + b) + c =~= a + (b + c));
}

proof fn lemma_head_len(
    id: u64,
    entry: Option<u32>,
    metric: Seq<u8>,
    params: Seq<u8>,
    words: Seq<u32>,
)
    ensures
        head_bytes(id, entry, metric, params, words).len() == 20 + entry_point_bytes(entry).len()
            + 4 + metric.len() + 4 + params.len() + 4 * words.len(),
{
    let none = Seq::<u8>::empty();
    law_read_back(none, 0, 0, 0, SEGMENT_FORMAT_VERSION, SEGMENT_MAGIC, 0);
    law_read_back(none, 0, 0, 0, metric.len() as u32, id, 0);
    law_read_back(none, 0, 0, 0, params.len() as u32, id, 0);
    lemma_words_len(words);
}

} // verus!
