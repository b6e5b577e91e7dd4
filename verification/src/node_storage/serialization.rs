//! Node storage as bytes, and back.
//!
//! A complete image holds a header of seven sizes, the mode, the nodes of level
//! 0, and the auxiliary state: parameters of the quantization, norms, sums of
//! codes, two blocks that older versions used, the second of which ends with the
//! vectors that wait for training, and the upper neighbours.

use vstd::prelude::*;

use super::upper_neighbors::{put_words, words_at, words_bytes, UpperNeighborsStorage};
use super::{NodeStorage, ScalarParams};
use crate::bytes::{
    law_read_back, parse_bytes, parse_u16, parse_u32, parse_u64, parse_u8, put_bytes, put_u16,
    put_u32, put_u64, read_bytes, read_u16, read_u32, read_u64, read_u8, shortage, signed,
    too_short, twos, u16_bytes, u32_at, u32_bytes, u64_bytes, Parsed,
};
use crate::error::FormatError;

verus! {

/// Most elements in a list of the auxiliary state.
pub const MAX_AUX_ELEMENTS: u64 = 1_000_000_000;

/// Most nodes in an image.
pub const MAX_NODES: u64 = 100_000_000;

/// Least bytes of an image.
pub const MIN_IMAGE_SIZE: usize = 58;

/// Sizes in the header of an image.
pub const HEADER_SIZES: usize = 7;

// ---------------------------------------------------------------------------
// Parts that are read
// ---------------------------------------------------------------------------

/// `count` numbers of four bytes, read one by one.
pub open spec fn parse_words(s: Seq<u8>, pos: nat, count: nat) -> Parsed<Seq<u32>> {
    if pos + 4 * count <= s.len() {
        Ok((words_at(s, pos, count), pos + 4 * count))
    } else {
        Err(too_short(s, pos + 4 * ((s.len() - pos) as nat / 4), 4))
    }
}

/// `count` numbers of eight bytes, read one by one and dropped.
pub open spec fn parse_skip_u64s(s: Seq<u8>, pos: nat, count: nat) -> Parsed<()> {
    if pos + 8 * count <= s.len() {
        Ok(((), pos + 8 * count))
    } else {
        Err(too_short(s, pos + 8 * ((s.len() - pos) as nat / 8), 8))
    }
}

/// A count of elements, within the safety cap.
pub open spec fn parse_count(s: Seq<u8>, pos: nat) -> Parsed<u64> {
    match parse_u64(s, pos) {
        Err(e) => Err(e),
        Ok((n, next)) => if n > MAX_AUX_ELEMENTS {
            Err(FormatError::CapExceeded { length: n, cap: MAX_AUX_ELEMENTS })
        } else {
            Ok((n, next))
        },
    }
}

/// A count, and as many numbers of four bytes.
pub open spec fn parse_counted_words(s: Seq<u8>, pos: nat) -> Parsed<Seq<u32>> {
    match parse_count(s, pos) {
        Err(e) => Err(e),
        Ok((n, next)) => parse_words(s, next, n as nat),
    }
}

/// A count, and as many numbers of eight bytes, which are dropped.
pub open spec fn parse_counted_skip(s: Seq<u8>, pos: nat) -> Parsed<()> {
    match parse_count(s, pos) {
        Err(e) => Err(e),
        Ok((n, next)) => parse_skip_u64s(s, next, n as nat),
    }
}

/// A length, and as many bytes.
pub open spec fn parse_blob(s: Seq<u8>, pos: nat) -> Parsed<Seq<u8>> {
    match parse_u64(s, pos) {
        Err(e) => Err(e),
        Ok((n, next)) => parse_bytes(s, next, n as nat),
    }
}

/// A flag, and where it is set the bits of scale and offset.
pub open spec fn parse_params(s: Seq<u8>, pos: nat) -> Parsed<Option<(u32, u32)>> {
    match parse_u8(s, pos) {
        Err(e) => Err(e),
        Ok((flag, p1)) => if flag == 0 {
            Ok((None, p1))
        } else {
            match parse_u32(s, p1) {
                Err(e) => Err(e),
                Ok((scale, p2)) => match parse_u32(s, p2) {
                    Err(e) => Err(e),
                    Ok((offset, p3)) => Ok((Some((scale, offset)), p3)),
                },
            }
        },
    }
}

/// A flag, and where it is set a blob.
pub open spec fn parse_optional_blob(s: Seq<u8>, pos: nat) -> Parsed<()> {
    match parse_u8(s, pos) {
        Err(e) => Err(e),
        Ok((flag, p1)) => if flag == 0 {
            Ok(((), p1))
        } else {
            match parse_blob(s, p1) {
                Err(e) => Err(e),
                Ok((blob, p2)) => Ok(((), p2)),
            }
        },
    }
}

/// The block that product quantization left behind.
pub open spec fn parse_product_block(s: Seq<u8>, pos: nat) -> Parsed<()> {
    match parse_u8(s, pos) {
        Err(e) => Err(e),
        Ok((trained, p1)) => match parse_optional_blob(s, p1) {
            Err(e) => Err(e),
            Ok((none, p2)) => match parse_blob(s, p2) {
                Err(e) => Err(e),
                Ok((blob, p3)) => Ok(((), p3)),
            },
        },
    }
}

/// The block that binary quantization left behind, whose last list holds the
/// vectors that wait for training. The oldest images end before it, later ones
/// before this list.
pub open spec fn parse_binary_block(s: Seq<u8>, pos: nat) -> Parsed<Seq<u32>> {
    if pos + 2 > s.len() {
        Ok((Seq::empty(), pos))
    } else {
        match parse_u8(s, pos) {
            Err(e) => Err(e),
            Ok((trained, p1)) => match parse_optional_blob(s, p1) {
                Err(e) => Err(e),
                Ok((none, p2)) => match parse_counted_skip(s, p2) {
                    Err(e) => Err(e),
                    Ok((codes, p3)) => match parse_counted_words(s, p3) {
                        Err(e) => Err(e),
                        Ok((metadata, p4)) => if p4 + 8 > s.len() {
                            Ok((Seq::empty(), p4))
                        } else {
                            parse_counted_words(s, p4)
                        },
                    },
                },
            },
        }
    }
}

/// The auxiliary state without the upper neighbours.
pub struct AuxImage {
    pub params: Option<(u32, u32)>,
    pub norms: Seq<u32>,
    pub sums: Seq<i32>,
    /// Vectors that wait for the quantization to be trained.
    pub originals: Seq<u32>,
}

/// Signed numbers by their two's complements.
pub open spec fn all_signed(words: Seq<u32>) -> Seq<i32> {
    words.map_values(|w: u32| signed(w))
}

/// The two's complements of signed numbers.
pub open spec fn all_twos(sums: Seq<i32>) -> Seq<u32> {
    sums.map_values(|x: i32| twos(x))
}

#[verifier::opaque]
pub open spec fn parse_aux(s: Seq<u8>, pos: nat) -> Parsed<AuxImage> {
    match parse_params(s, pos) {
        Err(e) => Err(e),
        Ok((params, p1)) => match parse_counted_words(s, p1) {
            Err(e) => Err(e),
            Ok((norms, p2)) => match parse_counted_words(s, p2) {
                Err(e) => Err(e),
                Ok((words, p3)) => match parse_product_block(s, p3) {
                    Err(e) => Err(e),
                    Ok((none, p4)) => match parse_binary_block(s, p4) {
                        Err(e) => Err(e),
                        Ok((originals, p5)) => Ok(
                            (
                                (AuxImage { params, norms, sums: all_signed(words), originals }),
                                p5,
                            ),
                        ),
                    },
                },
            },
        },
    }
}

/// A list with a count of two bytes.
pub open spec fn parse_short_list(s: Seq<u8>, pos: nat) -> Parsed<Seq<u32>> {
    match parse_u16(s, pos) {
        Err(e) => Err(e),
        Ok((n, next)) => parse_words(s, next, n as nat),
    }
}

/// `count` lists one behind the other.
pub open spec fn parse_short_lists(s: Seq<u8>, pos: nat, count: nat) -> Parsed<Seq<Seq<u32>>>
    decreases count,
{
    if count == 0 {
        Ok((Seq::empty(), pos))
    } else {
        match parse_short_lists(s, pos, (count - 1) as nat) {
            Err(e) => Err(e),
            Ok((lists, next)) => match parse_short_list(s, next) {
                Err(e) => Err(e),
                Ok((list, end)) => Ok((lists.push(list), end)),
            },
        }
    }
}

/// A node and its lists.
pub open spec fn parse_upper_node(s: Seq<u8>, pos: nat) -> Parsed<(u32, Seq<Seq<u32>>)> {
    match parse_u32(s, pos) {
        Err(e) => Err(e),
        Ok((id, p1)) => match parse_u8(s, p1) {
            Err(e) => Err(e),
            Ok((n, p2)) => match parse_short_lists(s, p2, n as nat) {
                Err(e) => Err(e),
                Ok((lists, p3)) => Ok(((id, lists), p3)),
            },
        },
    }
}

/// `count` nodes and their lists; of two that are the same the last one counts.
pub open spec fn parse_upper_nodes(s: Seq<u8>, pos: nat, count: nat) -> Parsed<
    Map<u32, Seq<Seq<u32>>>,
>
    decreases count,
{
    if count == 0 {
        Ok((Map::empty(), pos))
    } else {
        match parse_upper_nodes(s, pos, (count - 1) as nat) {
            Err(e) => Err(e),
            Ok((nodes, next)) => match parse_upper_node(s, next) {
                Err(e) => Err(e),
                Ok((node, end)) => Ok((nodes.insert(node.0, node.1), end)),
            },
        }
    }
}

/// All upper neighbours.
#[verifier::opaque]
pub open spec fn parse_upper(s: Seq<u8>, pos: nat) -> Parsed<Map<u32, Seq<Seq<u32>>>> {
    match parse_u64(s, pos) {
        Err(e) => Err(e),
        Ok((n, next)) => parse_upper_nodes(s, next, n as nat),
    }
}

/// Whether the mode is SQ8, and whether the quantization is trained.
#[verifier::opaque]
pub open spec fn parse_mode(s: Seq<u8>, pos: nat) -> Parsed<(bool, bool)> {
    match parse_u8(s, pos) {
        Err(e) => Err(e),
        Ok((mode, next)) => if mode == 2 {
            Err(FormatError::ProductQuantization)
        } else if mode > 3 {
            Err(FormatError::InvalidMode { found: mode })
        } else {
            match parse_u8(s, next) {
                Err(e) => Err(e),
                Ok((trained, end)) => Ok(((mode == 1, trained != 0), end)),
            }
        },
    }
}

/// A size, which the machine must be able to address.
pub open spec fn parse_size(s: Seq<u8>, pos: nat) -> Parsed<usize> {
    match parse_u64(s, pos) {
        Err(e) => Err(e),
        Ok((n, next)) => if n > usize::MAX {
            Err(FormatError::CapExceeded { length: n, cap: usize::MAX as u64 })
        } else {
            Ok((n as usize, next))
        },
    }
}

/// `count` sizes.
pub open spec fn parse_sizes(s: Seq<u8>, pos: nat, count: nat) -> Parsed<Seq<usize>>
    decreases count,
{
    if count == 0 {
        Ok((Seq::empty(), pos))
    } else {
        match parse_sizes(s, pos, (count - 1) as nat) {
            Err(e) => Err(e),
            Ok((sizes, next)) => match parse_size(s, next) {
                Err(e) => Err(e),
                Ok((size, end)) => Ok((sizes.push(size), end)),
            },
        }
    }
}

/// Why nodes with these sizes cannot be in `have` bytes.
pub open spec fn size_fault(have: nat, len: nat, node_size: nat) -> Option<FormatError> {
    if len * node_size > usize::MAX {
        Some(FormatError::SizeOverflow { count: len as u64, size: node_size as u64 })
    } else if len * node_size > have {
        Some(FormatError::ExceedsData { declared: (len * node_size) as u64, have: have as u64 })
    } else {
        None
    }
}

/// Why nodes with this layout cannot be in `have` bytes.
pub open spec fn layout_fault(
    have: nat,
    len: nat,
    node_size: usize,
    neighbors_offset: usize,
    vector_offset: usize,
) -> Option<FormatError> {
    if size_fault(have, len, node_size as nat) is Some {
        size_fault(have, len, node_size as nat)
    } else if node_size != 0 && neighbors_offset >= node_size {
        Some(FormatError::InvalidLayout { offset: neighbors_offset, node_size })
    } else if node_size != 0 && vector_offset >= node_size {
        Some(FormatError::InvalidLayout { offset: vector_offset, node_size })
    } else {
        None
    }
}

/// What an image says.
pub struct NodeImage {
    /// Number of nodes, size of a node, offsets of neighbours, vector and
    /// metadata, dimensions, most neighbours.
    pub sizes: Seq<usize>,
    pub sq8: bool,
    pub trained: bool,
    pub raw: Seq<u8>,
    pub aux: AuxImage,
    pub upper: Map<u32, Seq<Seq<u32>>>,
}

/// The header of an image: sizes that the bytes can have.
#[verifier::opaque]
pub open spec fn parse_header(s: Seq<u8>) -> Parsed<Seq<usize>> {
    if s.len() < MIN_IMAGE_SIZE {
        Err(FormatError::HeaderTooShort)
    } else {
        match parse_sizes(s, 0, HEADER_SIZES as nat) {
            Err(e) => Err(e),
            Ok((sizes, next)) => if sizes[0] > MAX_NODES {
                Err(FormatError::CapExceeded { length: sizes[0] as u64, cap: MAX_NODES })
            } else if size_fault(s.len(), sizes[0] as nat, sizes[1] as nat) is Some {
                Err(size_fault(s.len(), sizes[0] as nat, sizes[1] as nat)->0)
            } else {
                Ok((sizes, next))
            },
        }
    }
}

/// The bytes of the nodes.
#[verifier::opaque]
pub open spec fn parse_raw(s: Seq<u8>, pos: nat) -> Parsed<Seq<u8>> {
    match parse_u64(s, pos) {
        Err(e) => Err(e),
        Ok((n, next)) => if n > s.len() {
            Err(FormatError::ExceedsData { declared: n, have: s.len() as u64 })
        } else {
            parse_bytes(s, next, n as nat)
        },
    }
}

pub open spec fn parse_image(s: Seq<u8>) -> core::result::Result<NodeImage, FormatError> {
    match parse_header(s) {
        Err(e) => Err(e),
        Ok((sizes, p1)) => match parse_mode(s, p1) {
            Err(e) => Err(e),
            Ok((mode, p2)) => match parse_raw(s, p2) {
                Err(e) => Err(e),
                Ok((raw, p3)) => match layout_fault(
                    raw.len(),
                    sizes[0] as nat,
                    sizes[1],
                    sizes[2],
                    sizes[3],
                ) {
                    Some(e) => Err(e),
                    None => match parse_aux(s, p3) {
                        Err(e) => Err(e),
                        Ok((aux, p4)) => match parse_upper(s, p4) {
                            Err(e) => Err(e),
                            Ok((upper, p5)) => Ok(
                                NodeImage { sizes, sq8: mode.0, trained: mode.1, raw, aux, upper },
                            ),
                        },
                    },
                },
            },
        },
    }
}

// ---------------------------------------------------------------------------
// Reading
// ---------------------------------------------------------------------------

/// A read gave what was parsed.
pub open spec fn got<T>(
    parsed: Parsed<T>,
    after: usize,
    r: core::result::Result<T, FormatError>,
) -> bool {
    match parsed {
        Ok((value, next)) => r == Ok::<T, FormatError>(value) && after == next,
        Err(e) => r == Err::<T, FormatError>(e),
    }
}

/// A read gave the elements that were parsed.
pub open spec fn got_all<T>(
    parsed: Parsed<Seq<T>>,
    after: usize,
    r: core::result::Result<Vec<T>, FormatError>,
) -> bool {
    match parsed {
        Ok((value, next)) => (r matches Ok(v) && v@ == value) && after == next,
        Err(e) => r == Err::<Vec<T>, FormatError>(e),
    }
}

pub(crate) fn read_words(data: &[u8], pos: &mut usize, count: u64) -> (r: core::result::Result<
    Vec<u32>,
    FormatError,
>)
    requires
        *old(pos) <= data@.len(),
    ensures
        *final(pos) <= data@.len(),
        got_all(parse_words(data@, *old(pos) as nat, count as nat), *final(pos), r),
{
    let start: usize = *pos;
    let available: usize = (data.len() - start) / 4;
    if count > available as u64 {
        return Err(shortage(data, start + 4 * available, 4));
    }
    let n: usize = count as usize;
    let mut out: Vec<u32> = Vec::new();
    let mut i: usize = 0;
    let total: usize = data.len();
    while i < n
        invariant
            i <= n,
            start + 4 * n <= total,
            total == data@.len(),
            out@ == words_at(data@, start as nat, i as nat),
        decreases n - i,
    {
        out.push(u32_at(data, start + 4 * i));
        assert(out@ =~= words_at(data@, start as nat, (i + 1) as nat));
        i += 1;
    }
    *pos = start + 4 * n;
    Ok(out)
}

fn skip_u64s(data: &[u8], pos: &mut usize, count: u64) -> (r: core::result::Result<
    (),
    FormatError,
>)
    requires
        *old(pos) <= data@.len(),
    ensures
        *final(pos) <= data@.len(),
        got(parse_skip_u64s(data@, *old(pos) as nat, count as nat), *final(pos), r),
{
    let start: usize = *pos;
    let available: usize = (data.len() - start) / 8;
    if count > available as u64 {
        return Err(shortage(data, start + 8 * available, 8));
    }
    *pos = start + 8 * count as usize;
    Ok(())
}

fn read_count(data: &[u8], pos: &mut usize) -> (r: core::result::Result<u64, FormatError>)
    requires
        *old(pos) <= data@.len(),
    ensures
        *final(pos) <= data@.len(),
        got(parse_count(data@, *old(pos) as nat), *final(pos), r),
{
    match read_u64(data, pos) {
        Err(e) => Err(e),
        Ok(n) => if n > MAX_AUX_ELEMENTS {
            Err(FormatError::CapExceeded { length: n, cap: MAX_AUX_ELEMENTS })
        } else {
            Ok(n)
        },
    }
}

fn read_counted_words(data: &[u8], pos: &mut usize) -> (r: core::result::Result<
    Vec<u32>,
    FormatError,
>)
    requires
        *old(pos) <= data@.len(),
    ensures
        *final(pos) <= data@.len(),
        got_all(parse_counted_words(data@, *old(pos) as nat), *final(pos), r),
{
    match read_count(data, pos) {
        Err(e) => Err(e),
        Ok(n) => read_words(data, pos, n),
    }
}

fn skip_counted(data: &[u8], pos: &mut usize) -> (r: core::result::Result<(), FormatError>)
    requires
        *old(pos) <= data@.len(),
    ensures
        *final(pos) <= data@.len(),
        got(parse_counted_skip(data@, *old(pos) as nat), *final(pos), r),
{
    match read_count(data, pos) {
        Err(e) => Err(e),
        Ok(n) => skip_u64s(data, pos, n),
    }
}

/// Reads a length and as many bytes.
fn read_blob<'a>(data: &'a [u8], pos: &mut usize) -> (r: core::result::Result<
    &'a [u8],
    FormatError,
>)
    requires
        *old(pos) <= data@.len(),
    ensures
        *final(pos) <= data@.len(),
        match parse_blob(data@, *old(pos) as nat) {
            Ok((value, next)) => (r matches Ok(b) && b@ == value) && *final(pos) == next,
            Err(e) => r == Err::<&'a [u8], FormatError>(e),
        },
{
    match read_u64(data, pos) {
        Err(e) => Err(e),
        Ok(n) => if n > (data.len() - *pos) as u64 {
            Err(shortage(data, *pos, n as usize))
        } else {
            read_bytes(data, pos, n as usize)
        },
    }
}

fn read_params(data: &[u8], pos: &mut usize) -> (r: core::result::Result<
    Option<(u32, u32)>,
    FormatError,
>)
    requires
        *old(pos) <= data@.len(),
    ensures
        *final(pos) <= data@.len(),
        got(parse_params(data@, *old(pos) as nat), *final(pos), r),
{
    match read_u8(data, pos) {
        Err(e) => Err(e),
        Ok(flag) => if flag == 0 {
            Ok(None)
        } else {
            match read_u32(data, pos) {
                Err(e) => Err(e),
                Ok(scale) => match read_u32(data, pos) {
                    Err(e) => Err(e),
                    Ok(offset) => Ok(Some((scale, offset))),
                },
            }
        },
    }
}

fn skip_optional_blob(data: &[u8], pos: &mut usize) -> (r: core::result::Result<(), FormatError>)
    requires
        *old(pos) <= data@.len(),
    ensures
        *final(pos) <= data@.len(),
        got(parse_optional_blob(data@, *old(pos) as nat), *final(pos), r),
{
    match read_u8(data, pos) {
        Err(e) => Err(e),
        Ok(flag) => if flag == 0 {
            Ok(())
        } else {
            match read_blob(data, pos) {
                Err(e) => Err(e),
                Ok(_) => Ok(()),
            }
        },
    }
}

fn skip_product_block(data: &[u8], pos: &mut usize) -> (r: core::result::Result<(), FormatError>)
    requires
        *old(pos) <= data@.len(),
    ensures
        *final(pos) <= data@.len(),
        got(parse_product_block(data@, *old(pos) as nat), *final(pos), r),
{
    match read_u8(data, pos) {
        Err(e) => Err(e),
        Ok(_) => match skip_optional_blob(data, pos) {
            Err(e) => Err(e),
            Ok(_) => match read_blob(data, pos) {
                Err(e) => Err(e),
                Ok(_) => Ok(()),
            },
        },
    }
}

fn read_binary_block(data: &[u8], pos: &mut usize) -> (r: core::result::Result<
    Vec<u32>,
    FormatError,
>)
    requires
        *old(pos) <= data@.len(),
    ensures
        *final(pos) <= data@.len(),
        got_all(parse_binary_block(data@, *old(pos) as nat), *final(pos), r),
{
    let none: Vec<u32> = Vec::new();
    assert(none@ =~= Seq::<u32>::empty());
    if data.len() - *pos < 2 {
        return Ok(none);
    }
    match read_u8(data, pos) {
        Err(e) => Err(e),
        Ok(_) => match skip_optional_blob(data, pos) {
            Err(e) => Err(e),
            Ok(_) => match skip_counted(data, pos) {
                Err(e) => Err(e),
                Ok(_) => match read_counted_words(data, pos) {
                    Err(e) => Err(e),
                    Ok(_) => if data.len() - *pos < 8 {
                        Ok(none)
                    } else {
                        read_counted_words(data, pos)
                    },
                },
            },
        },
    }
}

/// The numbers with these two's complements.
fn to_signed(words: &Vec<u32>) -> (r: Vec<i32>)
    ensures
        r@ == all_signed(words@),
{
    let mut r: Vec<i32> = Vec::new();
    let mut i: usize = 0;
    while i < words.len()
        invariant
            i <= words@.len(),
            r@ == all_signed(words@.take(i as int)),
        decreases words.len() - i,
    {
        let w: u32 = words[i];
        if w < 0x8000_0000 {
            r.push(w as i32);
        } else {
            r.push((w as i64 - 0x1_0000_0000) as i32);
        }
        assert(r@ =~= all_signed(words@.take(i + 1)));
        i += 1;
    }
    assert(words@.take(i as int) =~= words@);
    r
}

fn read_short_lists(data: &[u8], pos: &mut usize, count: u8) -> (r: core::result::Result<
    Vec<Vec<u32>>,
    FormatError,
>)
    requires
        *old(pos) <= data@.len(),
    ensures
        *final(pos) <= data@.len(),
        match parse_short_lists(data@, *old(pos) as nat, count as nat) {
            Ok((value, next)) => (r matches Ok(v) && super::upper_neighbors::lists(v@) == value)
                && *final(pos) == next,
            Err(e) => r == Err::<Vec<Vec<u32>>, FormatError>(e),
        },
{
    let ghost start = *pos as nat;
    let mut out: Vec<Vec<u32>> = Vec::new();
    let mut i: u8 = 0;
    assert(super::upper_neighbors::lists(out@) =~= Seq::<Seq<u32>>::empty());
    while i < count
        invariant
            i <= count,
            *pos <= data@.len(),
            parse_short_lists(data@, start, i as nat) == Ok::<(Seq<Seq<u32>>, nat), FormatError>(
                (super::upper_neighbors::lists(out@), *pos as nat),
            ),
            start == *old(pos),
        decreases count - i,
    {
        let ghost step = parse_short_list(data@, *pos as nat);
        let list = match read_u16(data, pos) {
            Err(e) => Err(e),
            Ok(n) => read_words(data, pos, n as u64),
        };
        match list {
            Err(e) => {
                proof {
                    lemma_short_lists_error(data@, start, (i + 1) as nat, count as nat);
                }
                return Err(e);
            },
            Ok(list) => {
                let ghost before = super::upper_neighbors::lists(out@);
                out.push(list);
                assert(super::upper_neighbors::lists(out@) =~= before.push(list@));
            },
        }
        i += 1;
    }
    Ok(out)
}

proof fn lemma_short_lists_error(s: Seq<u8>, pos: nat, k: nat, count: nat)
    requires
        k <= count,
        parse_short_lists(s, pos, k) is Err,
    ensures
        parse_short_lists(s, pos, count) == parse_short_lists(s, pos, k),
    decreases count - k,
{
    if k < count {
        lemma_short_lists_error(s, pos, k, (count - 1) as nat);
    }
}

proof fn lemma_upper_nodes_error(s: Seq<u8>, pos: nat, k: nat, count: nat)
    requires
        k <= count,
        parse_upper_nodes(s, pos, k) is Err,
    ensures
        parse_upper_nodes(s, pos, count) == parse_upper_nodes(s, pos, k),
    decreases count - k,
{
    if k < count {
        lemma_upper_nodes_error(s, pos, k, (count - 1) as nat);
    }
}

fn read_upper(data: &[u8], pos: &mut usize) -> (r: core::result::Result<
    UpperNeighborsStorage,
    FormatError,
>)
    requires
        *old(pos) <= data@.len(),
    ensures
        *final(pos) <= data@.len(),
        match parse_upper(data@, *old(pos) as nat) {
            Ok((nodes, next)) => (r matches Ok(upper) && upper.stores(nodes))
                && *final(pos) == next,
            Err(e) => r == Err::<UpperNeighborsStorage, FormatError>(e),
        },
{
    proof {
        reveal(parse_upper);
    }
    let count: u64 = match read_u64(data, pos) {
        Err(e) => {
            return Err(e);
        },
        Ok(n) => n,
    };
    let ghost start = *pos as nat;
    let ghost mut nodes: Map<u32, Seq<Seq<u32>>> = Map::empty();
    let mut upper = UpperNeighborsStorage::new();
    let mut i: u64 = 0;
    while i < count
        invariant
            i <= count,
            *pos <= data@.len(),
            parse_upper_nodes(data@, start, i as nat) == Ok::<
                (Map<u32, Seq<Seq<u32>>>, nat),
                FormatError,
            >((nodes, *pos as nat)),
            upper.stores(nodes),
            parse_upper(data@, *old(pos) as nat) == parse_upper_nodes(data@, start, count as nat),
        decreases count - i,
    {
        let ghost step = parse_upper_node(data@, *pos as nat);
        let node = match read_u32(data, pos) {
            Err(e) => Err(e),
            Ok(id) => match read_u8(data, pos) {
                Err(e) => Err(e),
                Ok(n) => match read_short_lists(data, pos, n) {
                    Err(e) => Err(e),
                    Ok(lists) => Ok((id, lists)),
                },
            },
        };
        match node {
            Err(e) => {
                proof {
                    lemma_upper_nodes_error(data@, start, (i + 1) as nat, count as nat);
                }
                return Err(e);
            },
            Ok((id, lists)) => {
                let ghost before = upper;
                upper.put(id, lists);
                proof {
                    let read = super::upper_neighbors::lists(lists@);
                    assert(step->Ok_0.0 == (id, read));
                    nodes = nodes.insert(id, read);
                    assert(upper.map@.dom() =~= nodes.dom());
                }
            },
        }
        i += 1;
    }
    Ok(upper)
}

fn read_mode(data: &[u8], pos: &mut usize) -> (r: core::result::Result<(bool, bool), FormatError>)
    requires
        *old(pos) <= data@.len(),
    ensures
        *final(pos) <= data@.len(),
        got(parse_mode(data@, *old(pos) as nat), *final(pos), r),
{
    proof {
        reveal(parse_mode);
    }
    match read_u8(data, pos) {
        Err(e) => Err(e),
        Ok(mode) => if mode == 2 {
            Err(FormatError::ProductQuantization)
        } else if mode > 3 {
            Err(FormatError::InvalidMode { found: mode })
        } else {
            match read_u8(data, pos) {
                Err(e) => Err(e),
                Ok(trained) => Ok((mode == 1, trained != 0)),
            }
        },
    }
}

fn read_sizes(data: &[u8], pos: &mut usize, count: usize) -> (r: core::result::Result<
    Vec<usize>,
    FormatError,
>)
    requires
        *old(pos) <= data@.len(),
    ensures
        *final(pos) <= data@.len(),
        got_all(parse_sizes(data@, *old(pos) as nat, count as nat), *final(pos), r),
{
    let ghost start = *pos as nat;
    let mut out: Vec<usize> = Vec::new();
    let mut i: usize = 0;
    while i < count
        invariant
            i <= count,
            *pos <= data@.len(),
            start == *old(pos),
            parse_sizes(data@, start, i as nat) == Ok::<(Seq<usize>, nat), FormatError>(
                (out@, *pos as nat),
            ),
        decreases count - i,
    {
        let size = match read_u64(data, pos) {
            Err(e) => Err(e),
            Ok(n) => if n > usize::MAX as u64 {
                Err(FormatError::CapExceeded { length: n, cap: usize::MAX as u64 })
            } else {
                Ok(n as usize)
            },
        };
        match size {
            Err(e) => {
                proof {
                    lemma_sizes_error(data@, start, (i + 1) as nat, count as nat);
                }
                return Err(e);
            },
            Ok(n) => {
                out.push(n);
            },
        }
        i += 1;
    }
    Ok(out)
}

proof fn lemma_sizes_error(s: Seq<u8>, pos: nat, k: nat, count: nat)
    requires
        k <= count,
        parse_sizes(s, pos, k) is Err,
    ensures
        parse_sizes(s, pos, count) == parse_sizes(s, pos, k),
    decreases count - k,
{
    if k < count {
        lemma_sizes_error(s, pos, k, (count - 1) as nat);
    }
}

// ---------------------------------------------------------------------------
// Parts that are written
// ---------------------------------------------------------------------------

/// A flag, and where there are parameters their bits.
pub open spec fn params_bytes(params: Option<(u32, u32)>) -> Seq<u8> {
    match params {
        None => seq![0u8],
        Some((scale, offset)) => seq![1u8] + (u32_bytes(scale) + u32_bytes(offset)),
    }
}

/// A count, and as many numbers of four bytes.
pub open spec fn counted_words(words: Seq<u32>) -> Seq<u8> {
    u64_bytes(words.len() as u64) + words_bytes(words)
}

/// An empty block of product quantization.
pub open spec fn product_block() -> Seq<u8> {
    seq![0u8] + (seq![0u8] + u64_bytes(0))
}

/// A block of binary quantization that is empty but for its last list.
pub open spec fn binary_block(originals: Seq<u32>) -> Seq<u8> {
    seq![0u8] + (seq![0u8] + (u64_bytes(0) + (u64_bytes(0) + counted_words(originals))))
}

pub open spec fn aux_bytes(aux: AuxImage) -> Seq<u8> {
    params_bytes(aux.params) + (counted_words(aux.norms) + (counted_words(all_twos(aux.sums)) + (
    product_block() + binary_block(aux.originals))))
}

/// A list with a count of two bytes.
pub open spec fn short_list_bytes(list: Seq<u32>) -> Seq<u8> {
    u16_bytes(list.len() as u16) + words_bytes(list)
}

/// Lists one behind the other.
pub open spec fn short_lists_bytes(lists: Seq<Seq<u32>>) -> Seq<u8>
    decreases lists.len(),
{
    if lists.len() == 0 {
        Seq::empty()
    } else {
        short_lists_bytes(lists.drop_last()) + short_list_bytes(lists.last())
    }
}

/// A node and its lists; nothing if it has none.
pub open spec fn upper_node_bytes(id: u32, lists: Seq<Seq<u32>>) -> Seq<u8> {
    if lists.len() == 0 {
        Seq::empty()
    } else {
        u32_bytes(id) + (seq![lists.len() as u8] + short_lists_bytes(lists))
    }
}

/// Whether the mode is SQ8, and whether the quantization is trained.
pub open spec fn mode_bytes(sq8: bool, trained: bool) -> Seq<u8> {
    seq![if sq8 { 1u8 } else { 0u8 }] + seq![if trained { 1u8 } else { 0u8 }]
}

/// Sizes of eight bytes each.
pub open spec fn sizes_bytes(sizes: Seq<usize>) -> Seq<u8>
    decreases sizes.len(),
{
    if sizes.len() == 0 {
        Seq::empty()
    } else {
        sizes_bytes(sizes.drop_last()) + u64_bytes(sizes.last() as u64)
    }
}

impl NodeStorage {
    /// The bytes of all nodes.
    pub open spec fn node_bytes(&self) -> Seq<u8> {
        self.data@.take(self.len * self.node_size)
    }

    pub open spec fn params_bits(&self) -> Option<(u32, u32)> {
        match self.sq8_params {
            Some(p) => Some((p.scale, p.offset)),
            None => None,
        }
    }

    pub open spec fn aux_image(&self) -> AuxImage {
        AuxImage {
            params: self.params_bits(),
            norms: self.norms@,
            sums: self.sq8_sums@,
            originals: self.training_buffer@,
        }
    }

    pub open spec fn header_sizes(&self) -> Seq<usize> {
        seq![
            self.len,
            self.node_size,
            self.neighbors_offset,
            self.vector_offset,
            self.metadata_offset,
            self.dimensions,
            self.max_neighbors,
        ]
    }

    /// The upper neighbours of the first `n` nodes.
    pub open spec fn upper_nodes_bytes(&self, n: nat) -> Seq<u8>
        decreases n,
    {
        if n == 0 {
            Seq::empty()
        } else {
            self.upper_nodes_bytes((n - 1) as nat) + upper_node_bytes(
                (n - 1) as u32,
                self.upper_neighbors.levels((n - 1) as u32),
            )
        }
    }

    pub open spec fn upper_bytes(&self) -> Seq<u8> {
        u64_bytes(self.upper_neighbors.map@.dom().len() as u64) + self.upper_nodes_bytes(
            self.len as nat,
        )
    }

    /// The complete image.
    pub open spec fn image_bytes(&self) -> Seq<u8> {
        sizes_bytes(self.header_sizes()) + (mode_bytes(self.sq8, self.sq8_trained) + ((u64_bytes(
            self.node_bytes().len() as u64,
        ) + self.node_bytes()) + (aux_bytes(self.aux_image()) + self.upper_bytes())))
    }

    /// The lists are no longer, and no more, than their counts can say.
    pub open spec fn upper_fits(&self) -> bool {
        forall|id: u32|
            {
                &&& (#[trigger] self.upper_neighbors.levels(id)).len() <= u8::MAX
                &&& forall|l: int|
                    0 <= l < self.upper_neighbors.levels(id).len() ==> (
                    #[trigger] self.upper_neighbors.levels(id)[l]).len() <= u16::MAX
            }
    }

    /// The nodes in use lie within the data.
    pub proof fn lemma_used(&self)
        requires
            self.wf(),
        ensures
            0 <= self.len * self.node_size <= self.data@.len(),
    {
        assert(0 <= self.len * self.node_size <= self.capacity * self.node_size)
            by (nonlinear_arith)
            requires
                self.len <= self.capacity,
        ;
    }

    /// The bytes of all nodes.
    pub fn as_bytes(&self) -> (bytes: &[u8])
        requires
            self.len * self.node_size <= self.data@.len(),
        ensures
            bytes@ == self.node_bytes(),
            bytes@.len() == self.len * self.node_size,
    {
        proof {
            assert(0 <= self.len * self.node_size) by (nonlinear_arith);
            assert(self.data@.len() == self.data.len());
        }
        let used: usize = self.len * self.node_size;
        vstd::slice::slice_subrange(self.data.as_slice(), 0, used)
    }

    /// A storage at full precision over bytes that hold its nodes.
    ///
    /// It is well-formed where the parts of a node follow each other and fit
    /// into it.
    pub fn from_bytes(
        data: Vec<u8>,
        len: usize,
        node_size: usize,
        neighbors_offset: usize,
        vector_offset: usize,
        metadata_offset: usize,
        dimensions: usize,
        max_neighbors: usize,
    ) -> (r: Self)
        requires
            layout_fault(
                data@.len(),
                len as nat,
                node_size,
                neighbors_offset,
                vector_offset,
            ) is None,
        ensures
            r.data@ == data@,
            r.capacity == (if node_size > 0 {
                data@.len() as int / node_size as int
            } else {
                0
            }),
            r.header_sizes() == seq![
                len,
                node_size,
                neighbors_offset,
                vector_offset,
                metadata_offset,
                dimensions,
                max_neighbors,
            ],
            r.max_neighbors_upper == max_neighbors / 2,
            r.max_level == 8,
            r.upper_neighbors.map@ == super::upper_neighbors::no_lists(),
            !r.sq8,
            r.sq8_params is None,
            r.norms@.len() == 0,
            r.sq8_sums@.len() == 0,
            r.training_buffer@.len() == 0,
            !r.sq8_trained,
            r.code_values@.len() == 0,
    {
        let capacity: usize = if node_size > 0 { data.len() / node_size } else { 0 };
        NodeStorage {
            data,
            capacity,
            len,
            node_size,
            neighbors_offset,
            vector_offset,
            metadata_offset,
            dimensions,
            max_neighbors,
            max_neighbors_upper: max_neighbors / 2,
            max_level: 8,
            upper_neighbors: UpperNeighborsStorage::new(),
            sq8: false,
            sq8_params: None,
            norms: Vec::new(),
            sq8_sums: Vec::new(),
            training_buffer: Vec::new(),
            sq8_trained: false,
            code_values: Vec::new(),
        }
    }

    /// Whether the storage is well-formed.
    pub fn is_well_formed(&self) -> (r: bool)
        ensures
            r == self.wf(),
    {
        let have: usize = self.data.len();
        if self.neighbors_offset < 2 || self.vector_offset < self.neighbors_offset
            || self.metadata_offset < self.vector_offset || self.node_size < self.metadata_offset {
            return false;
        }
        if self.max_neighbors > (self.vector_offset - self.neighbors_offset) / 4 {
            return false;
        }
        let room: usize = self.metadata_offset - self.vector_offset;
        if self.sq8 {
            if self.dimensions > room {
                return false;
            }
        } else if self.dimensions > room / 4 {
            return false;
        }
        if self.node_size - self.metadata_offset < 5 || self.max_neighbors > u16::MAX as usize {
            return false;
        }
        if self.len > self.capacity || self.len as u64 > 0x1_0000_0000 {
            return false;
        }
        let fits: usize = have / self.node_size;
        proof {
            let c = self.capacity as int;
            let n = self.node_size as int;
            let h = have as int;
            let f = fits as int;
            assert((c <= f) == (c * n <= h)) by (nonlinear_arith)
                requires
                    f == h / n,
                    n > 0,
                    h >= 0,
                    c >= 0,
            ;
        }
        self.capacity <= fits
    }

    /// Appends the auxiliary state without the upper neighbours.
    fn serialize_aux_body_without_upper(&self, out: &mut Vec<u8>)
        ensures
            final(out)@ == old(out)@ + aux_bytes(self.aux_image()),
    {
        let ghost start = out@;
        self.put_params(out);
        put_counted_words(out, self.norms.as_slice());
        let words: Vec<u32> = to_twos(&self.sq8_sums);
        put_counted_words(out, words.as_slice());
        put_blocks(out, self.training_buffer.as_slice());
        assert(out@ =~= start + aux_bytes(self.aux_image()));
    }

    fn put_params(&self, out: &mut Vec<u8>)
        ensures
            final(out)@ == old(out)@ + params_bytes(self.params_bits()),
    {
        match &self.sq8_params {
            Some(params) => {
                out.push(1);
                put_u32(out, params.scale);
                put_u32(out, params.offset);
            },
            None => {
                out.push(0);
            },
        }
        assert(out@ =~= old(out)@ + params_bytes(self.params_bits()));
    }

    /// Appends the upper neighbours.
    fn serialize_legacy_upper_neighbors(&self, out: &mut Vec<u8>)
        requires
            self.upper_fits(),
            self.len <= u32::MAX,
        ensures
            final(out)@ == old(out)@ + self.upper_bytes(),
    {
        let ghost start = out@;
        let count: usize = self.upper_neighbors.nodes_with_upper();
        put_u64(out, count as u64);
        let ghost head = out@;
        let mut i: usize = 0;
        assert(out@ =~= head + self.upper_nodes_bytes(0));
        while i < self.len
            invariant
                i <= self.len <= u32::MAX,
                self.upper_fits(),
                out@ == head + self.upper_nodes_bytes(i as nat),
            decreases self.len - i,
        {
            let id: u32 = i as u32;
            let ghost before = out@;
            let ghost lists = self.upper_neighbors.levels(id);
            let count: usize = self.upper_neighbors.upper_level_count(id);
            if count > 0 {
                put_u32(out, id);
                out.push(count as u8);
                let ghost named = out@;
                let mut level: usize = 0;
                assert(lists.take(0) =~= Seq::<Seq<u32>>::empty());
                assert(out@ =~= named + short_lists_bytes(lists.take(0)));
                while level < count
                    invariant
                        level <= count <= u8::MAX,
                        lists == self.upper_neighbors.levels(id),
                        count == lists.len(),
                        self.upper_fits(),
                        out@ == named + short_lists_bytes(lists.take(level as int)),
                    decreases count - level,
                {
                    let list: Vec<u32> = self.upper_neighbors.neighbors_at_level(
                        id,
                        (level + 1) as u8,
                    );
                    assert(list@ == lists[level as int]);
                    assert(self.upper_neighbors.levels(id)[level as int].len() <= u16::MAX);
                    put_u16(out, list.len() as u16);
                    put_words(out, list.as_slice());
                    proof {
                        let longer = lists.take(level + 1);
                        assert(longer.drop_last() =~= lists.take(level as int));
                        assert(longer.last() == list@);
                        assert(out@ =~= named + short_lists_bytes(longer));
                    }
                    level += 1;
                }
                assert(lists.take(level as int) =~= lists);
            }
            assert(out@ =~= before + upper_node_bytes(id, lists));
            assert(out@ =~= head + self.upper_nodes_bytes((i + 1) as nat));
            i += 1;
        }
        assert(out@ =~= start + self.upper_bytes());
    }

    /// The auxiliary state, with the upper neighbours.
    pub fn serialize_auxiliary(&self) -> (out: Vec<u8>)
        requires
            self.upper_fits(),
            self.len <= u32::MAX,
        ensures
            out@ == mode_bytes(self.sq8, self.sq8_trained) + (aux_bytes(self.aux_image())
                + self.upper_bytes()),
    {
        let mut out: Vec<u8> = self.serialize_segment_auxiliary();
        self.serialize_legacy_upper_neighbors(&mut out);
        assert(out@ =~= mode_bytes(self.sq8, self.sq8_trained) + (aux_bytes(self.aux_image())
            + self.upper_bytes()));
        out
    }

    /// The auxiliary state, without the upper neighbours.
    pub fn serialize_segment_auxiliary(&self) -> (out: Vec<u8>)
        ensures
            out@ == mode_bytes(self.sq8, self.sq8_trained) + aux_bytes(self.aux_image()),
    {
        let mut out: Vec<u8> = Vec::new();
        out.push(if self.sq8 { 1 } else { 0 });
        out.push(if self.sq8_trained { 1 } else { 0 });
        assert(out@ =~= mode_bytes(self.sq8, self.sq8_trained));
        self.serialize_aux_body_without_upper(&mut out);
        out
    }

    /// The region of upper neighbours.
    pub fn serialize_upper_neighbors_region(&self) -> (out: Vec<u8>)
        requires
            self.upper_neighbors.countable(),
            self.len <= u32::MAX,
            self.upper_neighbors.payload(self.len as nat).len() <= u64::MAX,
        ensures
            out@ == self.upper_neighbors.region(self.len as nat),
    {
        self.upper_neighbors.serialize_region(self.len)
    }

    /// The complete image.
    pub fn serialize_full(&self) -> (out: Vec<u8>)
        requires
            self.wf(),
            self.upper_fits(),
            self.len <= u32::MAX,
        ensures
            out@ == self.image_bytes(),
    {
        let sizes: Vec<usize> = vec![
            self.len,
            self.node_size,
            self.neighbors_offset,
            self.vector_offset,
            self.metadata_offset,
            self.dimensions,
            self.max_neighbors,
        ];
        assert(sizes@ =~= self.header_sizes());
        let mut out: Vec<u8> = Vec::new();
        put_sizes(&mut out, &sizes);
        assert(out@ =~= sizes_bytes(self.header_sizes()));
        let ghost head = out@;
        out.push(if self.sq8 { 1 } else { 0 });
        out.push(if self.sq8_trained { 1 } else { 0 });
        assert(out@ =~= head + mode_bytes(self.sq8, self.sq8_trained));
        proof {
            self.lemma_used();
        }
        let raw: &[u8] = self.as_bytes();
        let ghost mid = out@;
        put_u64(&mut out, raw.len() as u64);
        put_bytes(&mut out, raw);
        assert(out@ =~= mid + (u64_bytes(self.node_bytes().len() as u64) + self.node_bytes()));
        self.serialize_aux_body_without_upper(&mut out);
        self.serialize_legacy_upper_neighbors(&mut out);
        assert(out@ =~= self.image_bytes());
        out
    }

    /// Bytes of the complete image.
    pub fn serialized_len_full(&self) -> (n: usize)
        requires
            self.wf(),
            self.upper_fits(),
            self.len <= u32::MAX,
            self.image_bytes().len() <= usize::MAX,
        ensures
            n == self.image_bytes().len(),
    {
        let mut aux: Vec<u8> = Vec::new();
        self.serialize_aux_body_without_upper(&mut aux);
        self.serialize_legacy_upper_neighbors(&mut aux);
        proof {
            self.lemma_used();
        }
        let raw: usize = self.as_bytes().len();
        proof {
            lemma_sizes_len(self.header_sizes());
            law_read_back(Seq::empty(), 0, 0, 0, 0, raw as u64, 0);
        }
        HEADER_SIZES * 8 + 2 + 8 + raw + aux.len()
    }

    /// All but mode, auxiliary state and upper neighbours is the same.
    pub open spec fn same_nodes_as(&self, other: &Self) -> bool {
        &&& self.data == other.data
        &&& self.capacity == other.capacity
        &&& self.header_sizes() == other.header_sizes()
        &&& self.max_neighbors_upper == other.max_neighbors_upper
        &&& self.max_level == other.max_level
        &&& self.code_values == other.code_values
    }

    /// The auxiliary state is the same.
    pub open spec fn same_aux_as(&self, other: &Self) -> bool {
        &&& self.sq8_params == other.sq8_params
        &&& self.norms == other.norms
        &&& self.sq8_sums == other.sq8_sums
        &&& self.training_buffer == other.training_buffer
    }

    /// The auxiliary state is that of an image. Vectors wait for training only
    /// in SQ8 mode, and until it is done.
    pub open spec fn has_aux(&self, aux: AuxImage) -> bool {
        &&& self.sq8_params == (match aux.params {
            Some((scale, offset)) => Some(
                ScalarParams { scale, offset, dimensions: self.dimensions },
            ),
            None => None,
        })
        &&& self.norms@ == aux.norms
        &&& self.sq8_sums@ == aux.sums
        &&& self.training_buffer@ == (if self.sq8 && !self.sq8_trained {
            aux.originals
        } else {
            Seq::empty()
        })
    }

    /// Reads the auxiliary state without the upper neighbours.
    fn deserialize_aux_body_without_upper(
        &mut self,
        data: &[u8],
        pos: &mut usize,
    ) -> (r: core::result::Result<(), FormatError>)
        requires
            *old(pos) <= data@.len(),
        ensures
            *final(pos) <= data@.len(),
            final(self).same_nodes_as(old(self)),
            final(self).sq8 == old(self).sq8,
            final(self).sq8_trained == old(self).sq8_trained,
            final(self).upper_neighbors == old(self).upper_neighbors,
            match parse_aux(data@, *old(pos) as nat) {
                Ok((aux, next)) => r == Ok::<(), FormatError>(()) && *final(pos) == next && final(self).has_aux(aux),
                Err(e) => r == Err::<(), FormatError>(e) && final(self).same_aux_as(old(self)),
            },
    {
        proof {
            reveal(parse_aux);
        }
        let bits: Option<(u32, u32)> = match read_params(data, pos) {
            Err(e) => {
                return Err(e);
            },
            Ok(p) => p,
        };
        let norms: Vec<u32> = match read_counted_words(data, pos) {
            Err(e) => {
                return Err(e);
            },
            Ok(v) => v,
        };
        let words: Vec<u32> = match read_counted_words(data, pos) {
            Err(e) => {
                return Err(e);
            },
            Ok(v) => v,
        };
        match skip_product_block(data, pos) {
            Err(e) => {
                return Err(e);
            },
            Ok(_) => {},
        }
        let originals: Vec<u32> = match read_binary_block(data, pos) {
            Err(e) => {
                return Err(e);
            },
            Ok(v) => v,
        };
        let dimensions: usize = self.dimensions;
        self.sq8_params = match bits {
            Some((scale, offset)) => Some(ScalarParams { scale, offset, dimensions }),
            None => None,
        };
        self.norms = norms;
        self.sq8_sums = to_signed(&words);
        self.training_buffer = if self.sq8 && !self.sq8_trained { originals } else { Vec::new() };
        assert(!self.sq8 || self.sq8_trained ==> self.training_buffer@ =~= Seq::<u32>::empty());
        Ok(())
    }

    /// Reads the upper neighbours.
    fn deserialize_legacy_upper_neighbors(
        &mut self,
        data: &[u8],
        pos: &mut usize,
    ) -> (r: core::result::Result<(), FormatError>)
        requires
            *old(pos) <= data@.len(),
        ensures
            *final(pos) <= data@.len(),
            final(self).same_nodes_as(old(self)),
            final(self).same_aux_as(old(self)),
            final(self).sq8 == old(self).sq8,
            final(self).sq8_trained == old(self).sq8_trained,
            match parse_upper(data@, *old(pos) as nat) {
                Ok((nodes, next)) => r == Ok::<(), FormatError>(()) && *final(pos) == next
                    && final(self).upper_neighbors.stores(nodes),
                Err(e) => r == Err::<(), FormatError>(e) && final(self).upper_neighbors == old(self).upper_neighbors,
            },
    {
        match read_upper(data, pos) {
            Err(e) => Err(e),
            Ok(upper) => {
                self.upper_neighbors = upper;
                Ok(())
            },
        }
    }

    /// Restores the auxiliary state, without the upper neighbours.
    ///
    /// The mode is set as soon as it is read, all else only once everything is.
    pub fn deserialize_segment_auxiliary(&mut self, data: &[u8]) -> (r: core::result::Result<
        (),
        FormatError,
    >)
        ensures
            final(self).same_nodes_as(old(self)),
            final(self).upper_neighbors == old(self).upper_neighbors,
            match parse_mode(data@, 0) {
                Err(e) => r == Err::<(), FormatError>(e) && *final(self) == *old(self),
                Ok((mode, next)) => {
                    &&& final(self).sq8 == mode.0
                    &&& final(self).sq8_trained == mode.1
                    &&& match parse_aux(data@, next) {
                        Err(e) => r == Err::<(), FormatError>(e) && final(self).same_aux_as(
                            old(self),
                        ),
                        Ok((aux, end)) => r == Ok::<(), FormatError>(()) && final(self).has_aux(
                            aux,
                        ),
                    }
                },
            },
    {
        let mut pos: usize = 0;
        match read_mode(data, &mut pos) {
            Err(e) => Err(e),
            Ok((sq8, trained)) => {
                self.sq8 = sq8;
                self.sq8_trained = trained;
                self.deserialize_aux_body_without_upper(data, &mut pos)
            },
        }
    }

    /// Restores the auxiliary state, with the upper neighbours.
    ///
    /// The mode is set as soon as it is read, and each other part once all of
    /// it is.
    pub fn deserialize_auxiliary(&mut self, data: &[u8]) -> (r: core::result::Result<
        (),
        FormatError,
    >)
        ensures
            final(self).same_nodes_as(old(self)),
            match parse_mode(data@, 0) {
                Err(e) => r == Err::<(), FormatError>(e) && *final(self) == *old(self),
                Ok((mode, p1)) => {
                    &&& final(self).sq8 == mode.0
                    &&& final(self).sq8_trained == mode.1
                    &&& match parse_aux(data@, p1) {
                        Err(e) => {
                            &&& r == Err::<(), FormatError>(e)
                            &&& final(self).same_aux_as(old(self))
                            &&& final(self).upper_neighbors == old(self).upper_neighbors
                        },
                        Ok((aux, p2)) => {
                            &&& final(self).has_aux(aux)
                            &&& match parse_upper(data@, p2) {
                                Err(e) => r == Err::<(), FormatError>(e) && final(self).upper_neighbors == old(self).upper_neighbors,
                                Ok((nodes, p3)) => r == Ok::<(), FormatError>(()) && final(self).upper_neighbors.stores(nodes),
                            }
                        },
                    }
                },
            },
    {
        let mut pos: usize = 0;
        match read_mode(data, &mut pos) {
            Err(e) => Err(e),
            Ok((sq8, trained)) => {
                self.sq8 = sq8;
                self.sq8_trained = trained;
                match self.deserialize_aux_body_without_upper(data, &mut pos) {
                    Err(e) => Err(e),
                    Ok(_) => self.deserialize_legacy_upper_neighbors(data, &mut pos),
                }
            },
        }
    }

    /// Restores the upper neighbours from their region.
    pub fn deserialize_upper_neighbors_region(&mut self, data: &[u8]) -> (r: core::result::Result<
        (),
        FormatError,
    >)
        requires
            old(self).len <= u32::MAX,
        ensures
            final(self).same_nodes_as(old(self)),
            final(self).same_aux_as(old(self)),
            final(self).sq8 == old(self).sq8,
            final(self).sq8_trained == old(self).sq8_trained,
            match super::upper_neighbors::parse_region(
                data@,
                old(self).len as nat,
                old(self).max_neighbors_upper as nat,
            ) {
                Ok(nodes) => r == Ok::<(), FormatError>(()) && final(self).upper_neighbors.stores(
                    nodes,
                ),
                Err(e) => r == Err::<(), FormatError>(e) && *final(self) == *old(self),
            },
    {
        match UpperNeighborsStorage::deserialize_region_owned(
            data,
            self.len,
            self.max_neighbors_upper,
        ) {
            Err(e) => Err(e),
            Ok(upper) => {
                self.upper_neighbors = upper;
                Ok(())
            },
        }
    }

    /// The storage is what an image says.
    pub open spec fn restores(&self, image: NodeImage) -> bool {
        &&& self.header_sizes() == image.sizes
        &&& self.data@ == image.raw
        &&& self.capacity == (if self.node_size > 0 {
            image.raw.len() as int / self.node_size as int
        } else {
            0
        })
        &&& self.max_neighbors_upper == self.max_neighbors / 2
        &&& self.max_level == 8
        &&& self.sq8 == image.sq8
        &&& self.sq8_trained == image.trained
        &&& self.has_aux(image.aux)
        &&& self.code_values@.len() == 0
        &&& self.upper_neighbors.stores(image.upper)
    }

    /// Restores a storage from its image.
    pub fn deserialize_full(data: &[u8]) -> (r: core::result::Result<Self, FormatError>)
        ensures
            match parse_image(data@) {
                Ok(image) => r matches Ok(st) && st.restores(image),
                Err(e) => r == Err::<Self, FormatError>(e),
            },
    {
        let mut pos: usize = 0;
        let sizes: Vec<usize> = match read_header(data, &mut pos) {
            Err(e) => {
                return Err(e);
            },
            Ok(v) => v,
        };
        let (sq8, trained) = match read_mode(data, &mut pos) {
            Err(e) => {
                return Err(e);
            },
            Ok(mode) => mode,
        };
        let raw: Vec<u8> = match read_raw(data, &mut pos) {
            Err(e) => {
                return Err(e);
            },
            Ok(v) => v,
        };
        match check_layout(raw.len(), sizes[0], sizes[1], sizes[2], sizes[3]) {
            Some(e) => {
                return Err(e);
            },
            None => {},
        }
        let mut storage = Self::from_bytes(
            raw,
            sizes[0],
            sizes[1],
            sizes[2],
            sizes[3],
            sizes[4],
            sizes[5],
            sizes[6],
        );
        assert(storage.header_sizes() =~= sizes@);
        storage.sq8 = sq8;
        storage.sq8_trained = trained;
        match storage.deserialize_aux_body_without_upper(data, &mut pos) {
            Err(e) => {
                return Err(e);
            },
            Ok(_) => {},
        }
        match storage.deserialize_legacy_upper_neighbors(data, &mut pos) {
            Err(e) => {
                return Err(e);
            },
            Ok(_) => {},
        }
        Ok(storage)
    }
}

fn put_sizes(out: &mut Vec<u8>, sizes: &Vec<usize>)
    ensures
        final(out)@ == old(out)@ + sizes_bytes(sizes@),
{
    let mut i: usize = 0;
    assert(sizes@.take(0) =~= Seq::<usize>::empty());
    assert(out@ =~= old(out)@ + sizes_bytes(sizes@.take(0)));
    while i < sizes.len()
        invariant
            i <= sizes@.len(),
            out@ == old(out)@ + sizes_bytes(sizes@.take(i as int)),
        decreases sizes.len() - i,
    {
        put_u64(out, sizes[i] as u64);
        proof {
            let longer = sizes@.take(i + 1);
            assert(longer.drop_last() =~= sizes@.take(i as int));
            assert(out@ =~= old(out)@ + sizes_bytes(longer));
        }
        i += 1;
    }
    assert(sizes@.take(i as int) =~= sizes@);
}

fn put_counted_words(out: &mut Vec<u8>, words: &[u32])
    ensures
        final(out)@ == old(out)@ + counted_words(words@),
{
    put_u64(out, words.len() as u64);
    put_words(out, words);
    assert(out@ =~= old(out)@ + counted_words(words@));
}

/// Appends the blocks that older versions used, empty but for the vectors that
/// wait for training.
fn put_blocks(out: &mut Vec<u8>, originals: &[u32])
    ensures
        final(out)@ == old(out)@ + (product_block() + binary_block(originals@)),
{
    let ghost start = out@;
    out.push(0);
    out.push(0);
    put_u64(out, 0);
    assert(out@ =~= start + product_block());
    let ghost mid = out@;
    out.push(0);
    out.push(0);
    put_u64(out, 0);
    put_u64(out, 0);
    put_counted_words(out, originals);
    assert(out@ =~= mid + binary_block(originals@));
    assert(out@ =~= start + (product_block() + binary_block(originals@)));
}

fn read_header(data: &[u8], pos: &mut usize) -> (r: core::result::Result<Vec<usize>, FormatError>)
    requires
        *old(pos) == 0,
    ensures
        *final(pos) <= data@.len(),
        got_all(parse_header(data@), *final(pos), r),
        r is Ok ==> r->Ok_0@.len() == HEADER_SIZES,
{
    proof {
        reveal(parse_header);
    }
    if data.len() < MIN_IMAGE_SIZE {
        return Err(FormatError::HeaderTooShort);
    }
    let sizes: Vec<usize> = match read_sizes(data, pos, HEADER_SIZES) {
        Err(e) => {
            return Err(e);
        },
        Ok(v) => v,
    };
    proof {
        lemma_sizes_count(data@, 0, HEADER_SIZES as nat);
    }
    if sizes[0] as u64 > MAX_NODES {
        return Err(FormatError::CapExceeded { length: sizes[0] as u64, cap: MAX_NODES });
    }
    match check_size(data.len(), sizes[0], sizes[1]) {
        Some(e) => Err(e),
        None => Ok(sizes),
    }
}

fn read_raw(data: &[u8], pos: &mut usize) -> (r: core::result::Result<Vec<u8>, FormatError>)
    requires
        *old(pos) <= data@.len(),
    ensures
        *final(pos) <= data@.len(),
        got_all(parse_raw(data@, *old(pos) as nat), *final(pos), r),
{
    proof {
        reveal(parse_raw);
    }
    let n: u64 = match read_u64(data, pos) {
        Err(e) => {
            return Err(e);
        },
        Ok(n) => n,
    };
    if n > data.len() as u64 {
        return Err(FormatError::ExceedsData { declared: n, have: data.len() as u64 });
    }
    match read_bytes(data, pos, n as usize) {
        Err(e) => Err(e),
        Ok(bytes) => {
            let mut copy: Vec<u8> = Vec::new();
            put_bytes(&mut copy, bytes);
            assert(copy@ =~= bytes@);
            Ok(copy)
        },
    }
}

/// The two's complements of numbers.
fn to_twos(sums: &Vec<i32>) -> (r: Vec<u32>)
    ensures
        r@ == all_twos(sums@),
{
    let mut r: Vec<u32> = Vec::new();
    let mut i: usize = 0;
    while i < sums.len()
        invariant
            i <= sums@.len(),
            r@ == all_twos(sums@.take(i as int)),
        decreases sums.len() - i,
    {
        let x: i32 = sums[i];
        if x >= 0 {
            r.push(x as u32);
        } else {
            r.push((x as i64 + 0x1_0000_0000) as u32);
        }
        assert(r@ =~= all_twos(sums@.take(i + 1)));
        i += 1;
    }
    assert(sums@.take(i as int) =~= sums@);
    r
}

fn check_size(have: usize, len: usize, node_size: usize) -> (r: Option<FormatError>)
    ensures
        r == size_fault(have as nat, len as nat, node_size as nat),
{
    match len.checked_mul(node_size) {
        None => Some(FormatError::SizeOverflow { count: len as u64, size: node_size as u64 }),
        Some(total) => if total > have {
            Some(FormatError::ExceedsData { declared: total as u64, have: have as u64 })
        } else {
            None
        },
    }
}

pub(crate) fn check_layout(
    have: usize,
    len: usize,
    node_size: usize,
    neighbors_offset: usize,
    vector_offset: usize,
) -> (r: Option<FormatError>)
    ensures
        r == layout_fault(have as nat, len as nat, node_size, neighbors_offset, vector_offset),
{
    match check_size(have, len, node_size) {
        Some(e) => Some(e),
        None => if node_size != 0 && neighbors_offset >= node_size {
            Some(FormatError::InvalidLayout { offset: neighbors_offset, node_size })
        } else if node_size != 0 && vector_offset >= node_size {
            Some(FormatError::InvalidLayout { offset: vector_offset, node_size })
        } else {
            None
        },
    }
}

proof fn lemma_sizes_count(s: Seq<u8>, pos: nat, count: nat)
    ensures
        parse_sizes(s, pos, count) is Ok ==> parse_sizes(s, pos, count)->Ok_0.0.len() == count,
    decreases count,
{
    if count > 0 {
        lemma_sizes_count(s, pos, (count - 1) as nat);
    }
}

proof fn lemma_sizes_len(sizes: Seq<usize>)
    ensures
        sizes_bytes(sizes).len() == 8 * sizes.len(),
    decreases sizes.len(),
{
    if sizes.len() > 0 {
        lemma_sizes_len(sizes.drop_last());
        law_read_back(Seq::empty(), 0, 0, 0, 0, sizes.last() as u64, 0);
    }
}

} // verus!
