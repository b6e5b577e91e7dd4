//! Parts that the file formats have in common.

use vstd::prelude::*;

use crate::bytes::{
    law_read_back, law_read_back_bytes, lemma_stands_split,
    parse_bytes, parse_u32, parse_u64, parse_u8, put_bytes, put_u32, put_u64, read_bytes,
    read_u32, read_u64, read_u8, shortage, stands_at, u32_bytes, u64_bytes, Parsed,
};
use crate::error::FormatError;
use crate::node_storage::serialization::{got, got_all, parse_words};
use crate::node_storage::upper_neighbors::{lemma_words_back, words_bytes};

verus! {

/// Bytes that stand at the start of a file, given as a number of eight bytes.
pub open spec fn parse_magic(s: Seq<u8>, pos: nat, magic: u64) -> Parsed<()> {
    match parse_u64(s, pos) {
        Err(e) => Err(e),
        Ok((found, next)) => if found == magic {
            Ok(((), next))
        } else {
            Err(FormatError::InvalidMagic { found })
        },
    }
}

/// A flag, and where it is one a node.
pub open spec fn parse_entry_point(s: Seq<u8>, pos: nat) -> Parsed<Option<u32>> {
    match parse_u8(s, pos) {
        Err(e) => Err(e),
        Ok((flag, next)) => if flag == 1 {
            match parse_u32(s, next) {
                Err(e) => Err(e),
                Ok((id, end)) => Ok((Some(id), end)),
            }
        } else {
            Ok((None, next))
        },
    }
}

/// A length of four bytes, not above a cap, and as many bytes.
pub open spec fn parse_short_blob(s: Seq<u8>, pos: nat, cap: u32) -> Parsed<Seq<u8>> {
    match parse_u32(s, pos) {
        Err(e) => Err(e),
        Ok((n, next)) => if n > cap {
            Err(FormatError::CapExceeded { length: n as u64, cap: cap as u64 })
        } else {
            parse_bytes(s, next, n as nat)
        },
    }
}

/// A length of eight bytes, not above a cap, and as many bytes.
pub open spec fn parse_long_blob(s: Seq<u8>, pos: nat, cap: u64) -> Parsed<Seq<u8>> {
    match parse_u64(s, pos) {
        Err(e) => Err(e),
        Ok((n, next)) => if n > cap {
            Err(FormatError::CapExceeded { length: n, cap })
        } else {
            parse_bytes(s, next, n as nat)
        },
    }
}

pub fn read_magic(data: &[u8], pos: &mut usize, magic: u64) -> (r: core::result::Result<
    (),
    FormatError,
>)
    requires
        *old(pos) <= data@.len(),
    ensures
        *final(pos) <= data@.len(),
        got(parse_magic(data@, *old(pos) as nat, magic), *final(pos), r),
{
    match read_u64(data, pos) {
        Err(e) => Err(e),
        Ok(found) => if found == magic {
            Ok(())
        } else {
            Err(FormatError::InvalidMagic { found })
        },
    }
}

pub fn read_entry_point(data: &[u8], pos: &mut usize) -> (r: core::result::Result<
    Option<u32>,
    FormatError,
>)
    requires
        *old(pos) <= data@.len(),
    ensures
        *final(pos) <= data@.len(),
        got(parse_entry_point(data@, *old(pos) as nat), *final(pos), r),
{
    match read_u8(data, pos) {
        Err(e) => Err(e),
        Ok(flag) => if flag == 1 {
            match read_u32(data, pos) {
                Err(e) => Err(e),
                Ok(id) => Ok(Some(id)),
            }
        } else {
            Ok(None)
        },
    }
}

fn copy_bytes(bytes: &[u8]) -> (copy: Vec<u8>)
    ensures
        copy@ == bytes@,
{
    let mut copy: Vec<u8> = Vec::new();
    put_bytes(&mut copy, bytes);
    assert(copy@ =~= bytes@);
    copy
}

/// Reads `n` bytes, where `n` may be more than the machine can address.
pub(crate) fn read_sized(data: &[u8], pos: &mut usize, n: u64) -> (r: core::result::Result<
    Vec<u8>,
    FormatError,
>)
    requires
        *old(pos) <= data@.len(),
    ensures
        *final(pos) <= data@.len(),
        got_all(parse_bytes(data@, *old(pos) as nat, n as nat), *final(pos), r),
{
    if n > (data.len() - *pos) as u64 {
        return Err(shortage(data, *pos, n as usize));
    }
    match read_bytes(data, pos, n as usize) {
        Err(e) => Err(e),
        Ok(bytes) => Ok(copy_bytes(bytes)),
    }
}

pub fn read_short_blob(data: &[u8], pos: &mut usize, cap: u32) -> (r: core::result::Result<
    Vec<u8>,
    FormatError,
>)
    requires
        *old(pos) <= data@.len(),
    ensures
        *final(pos) <= data@.len(),
        got_all(parse_short_blob(data@, *old(pos) as nat, cap), *final(pos), r),
{
    match read_u32(data, pos) {
        Err(e) => Err(e),
        Ok(n) => if n > cap {
            Err(FormatError::CapExceeded { length: n as u64, cap: cap as u64 })
        } else {
            read_sized(data, pos, n as u64)
        },
    }
}

pub fn read_long_blob(data: &[u8], pos: &mut usize, cap: u64) -> (r: core::result::Result<
    Vec<u8>,
    FormatError,
>)
    requires
        *old(pos) <= data@.len(),
    ensures
        *final(pos) <= data@.len(),
        got_all(parse_long_blob(data@, *old(pos) as nat, cap), *final(pos), r),
{
    match read_u64(data, pos) {
        Err(e) => Err(e),
        Ok(n) => if n > cap {
            Err(FormatError::CapExceeded { length: n, cap })
        } else {
            read_sized(data, pos, n)
        },
    }
}

// ---------------------------------------------------------------------------
// Writing
// ---------------------------------------------------------------------------

pub open spec fn entry_point_bytes(entry: Option<u32>) -> Seq<u8> {
    match entry {
        Some(id) => seq![1u8] + u32_bytes(id),
        None => seq![0u8],
    }
}

pub open spec fn short_blob_bytes(bytes: Seq<u8>) -> Seq<u8> {
    u32_bytes(bytes.len() as u32) + bytes
}

pub open spec fn long_blob_bytes(bytes: Seq<u8>) -> Seq<u8> {
    u64_bytes(bytes.len() as u64) + bytes
}

pub fn put_entry_point(out: &mut Vec<u8>, entry: Option<u32>)
    ensures
        final(out)@ == old(out)@ + entry_point_bytes(entry),
{
    match entry {
        Some(id) => {
            out.push(1);
            put_u32(out, id);
        },
        None => {
            out.push(0);
        },
    }
    assert(out@ =~= old(out)@ + entry_point_bytes(entry));
}

pub fn put_short_blob(out: &mut Vec<u8>, bytes: &[u8])
    requires
        bytes@.len() <= u32::MAX,
    ensures
        final(out)@ == old(out)@ + short_blob_bytes(bytes@),
{
    put_u32(out, bytes.len() as u32);
    put_bytes(out, bytes);
    assert(out@ =~= old(out)@ + short_blob_bytes(bytes@));
}

pub fn put_long_blob(out: &mut Vec<u8>, bytes: &[u8])
    ensures
        final(out)@ == old(out)@ + long_blob_bytes(bytes@),
{
    put_u64(out, bytes.len() as u64);
    put_bytes(out, bytes);
    assert(out@ =~= old(out)@ + long_blob_bytes(bytes@));
}

// ---------------------------------------------------------------------------
// A read gives back what was written
// ---------------------------------------------------------------------------

pub proof fn law_entry_point_back(s: Seq<u8>, pos: nat, entry: Option<u32>)
    requires
        stands_at(s, pos, entry_point_bytes(entry)),
    ensures
        parse_entry_point(s, pos) == Ok::<(Option<u32>, nat), FormatError>(
            (entry, pos + entry_point_bytes(entry).len()),
        ),
        entry_point_bytes(entry).len() == (if entry is Some {
            5int
        } else {
            1
        }),
{
    match entry {
        None => {
            law_read_back(s, pos, 0, 0, 0, 0, 0);
        },
        Some(id) => {
            law_read_back(s, pos, 1, 0, 0, 0, 0);
            law_read_back(s, pos + 1, 0, 0, id, 0, 0);
            lemma_stands_split(s, pos, seq![1u8], u32_bytes(id));
        },
    }
}

pub proof fn law_short_blob_back(s: Seq<u8>, pos: nat, bytes: Seq<u8>, cap: u32)
    requires
        stands_at(s, pos, short_blob_bytes(bytes)),
        bytes.len() <= cap,
    ensures
        parse_short_blob(s, pos, cap) == Ok::<(Seq<u8>, nat), FormatError>(
            (bytes, pos + short_blob_bytes(bytes).len()),
        ),
        short_blob_bytes(bytes).len() == 4 + bytes.len(),
{
    law_read_back(s, pos, 0, 0, bytes.len() as u32, 0, 0);
    lemma_stands_split(s, pos, u32_bytes(bytes.len() as u32), bytes);
    law_read_back_bytes(s, pos + 4, bytes);
}

pub proof fn law_long_blob_back(s: Seq<u8>, pos: nat, bytes: Seq<u8>, cap: u64)
    requires
        stands_at(s, pos, long_blob_bytes(bytes)),
        bytes.len() <= cap,
    ensures
        parse_long_blob(s, pos, cap) == Ok::<(Seq<u8>, nat), FormatError>(
            (bytes, pos + long_blob_bytes(bytes).len()),
        ),
        long_blob_bytes(bytes).len() == 8 + bytes.len(),
{
    law_read_back(s, pos, 0, 0, 0, bytes.len() as u64, 0);
    lemma_stands_split(s, pos, u64_bytes(bytes.len() as u64), bytes);
    law_read_back_bytes(s, pos + 8, bytes);
}

/// `part` stands at `pos` in `s`.
#[verifier::opaque]
pub open spec fn follows(s: Seq<u8>, pos: nat, part: Seq<u8>) -> bool {
    stands_at(s, pos, part)
}

/// A sequence stands at its own start.
pub proof fn lemma_whole(s: Seq<u8>)
    ensures
        follows(s, 0, s),
{
    reveal(follows);
    assert(s.subrange(0, s.len() as int) =~= s);
}

/// Magic bytes, and what stands behind them.
pub proof fn lemma_after_magic(s: Seq<u8>, pos: nat, magic: u64, rest: Seq<u8>)
    requires
        follows(s, pos, u64_bytes(magic) + rest),
    ensures
        parse_magic(s, pos, magic) == Ok::<((), nat), FormatError>(((), pos + 8)),
        follows(s, pos + 8, rest),
{
    reveal(follows);
    lemma_stands_split(s, pos, u64_bytes(magic), rest);
    law_read_back(s, pos, 0, 0, 0, magic, 0);
}

/// A number of four bytes, and what stands behind it.
pub proof fn lemma_after_u32(s: Seq<u8>, pos: nat, x: u32, rest: Seq<u8>)
    requires
        follows(s, pos, u32_bytes(x) + rest),
    ensures
        parse_u32(s, pos) == Ok::<(u32, nat), FormatError>((x, pos + 4)),
        follows(s, pos + 4, rest),
{
    reveal(follows);
    lemma_stands_split(s, pos, u32_bytes(x), rest);
    law_read_back(s, pos, 0, 0, x, 0, 0);
}

/// A number of eight bytes, and what stands behind it.
pub proof fn lemma_after_u64(s: Seq<u8>, pos: nat, x: u64, rest: Seq<u8>)
    requires
        follows(s, pos, u64_bytes(x) + rest),
    ensures
        parse_u64(s, pos) == Ok::<(u64, nat), FormatError>((x, pos + 8)),
        follows(s, pos + 8, rest),
{
    reveal(follows);
    lemma_stands_split(s, pos, u64_bytes(x), rest);
    law_read_back(s, pos, 0, 0, 0, x, 0);
}

/// Bytes, and what stands behind them.
pub proof fn lemma_after_bytes(s: Seq<u8>, pos: nat, bytes: Seq<u8>, rest: Seq<u8>)
    requires
        follows(s, pos, bytes + rest),
    ensures
        parse_bytes(s, pos, bytes.len()) == Ok::<(Seq<u8>, nat), FormatError>(
            (bytes, pos + bytes.len()),
        ),
        follows(s, pos + bytes.len(), rest),
{
    reveal(follows);
    lemma_stands_split(s, pos, bytes, rest);
    law_read_back_bytes(s, pos, bytes);
}

/// Numbers of four bytes, and what stands behind them.
pub proof fn lemma_after_words(s: Seq<u8>, pos: nat, words: Seq<u32>, rest: Seq<u8>)
    requires
        follows(s, pos, words_bytes(words) + rest),
    ensures
        parse_words(s, pos, words.len()) == Ok::<(Seq<u32>, nat), FormatError>(
            (words, pos + 4 * words.len()),
        ),
        follows(s, pos + 4 * words.len(), rest),
{
    reveal(follows);
    lemma_stands_split(s, pos, words_bytes(words), rest);
    lemma_words_back(s, pos, words);
}

/// An entry point, and what stands behind it.
pub proof fn lemma_after_entry_point(s: Seq<u8>, pos: nat, entry: Option<u32>, rest: Seq<u8>)
    requires
        follows(s, pos, entry_point_bytes(entry) + rest),
    ensures
        parse_entry_point(s, pos) == Ok::<(Option<u32>, nat), FormatError>(
            (entry, pos + entry_point_bytes(entry).len()),
        ),
        follows(s, pos + entry_point_bytes(entry).len(), rest),
        entry_point_bytes(entry).len() <= 5,
{
    reveal(follows);
    lemma_stands_split(s, pos, entry_point_bytes(entry), rest);
    law_entry_point_back(s, pos, entry);
}

/// A short blob, and what stands behind it.
pub proof fn lemma_after_short_blob(s: Seq<u8>, pos: nat, bytes: Seq<u8>, cap: u32, rest: Seq<u8>)
    requires
        follows(s, pos, short_blob_bytes(bytes) + rest),
        bytes.len() <= cap,
    ensures
        parse_short_blob(s, pos, cap) == Ok::<(Seq<u8>, nat), FormatError>(
            (bytes, pos + 4 + bytes.len()),
        ),
        follows(s, pos + 4 + bytes.len(), rest),
{
    reveal(follows);
    lemma_stands_split(s, pos, short_blob_bytes(bytes), rest);
    law_short_blob_back(s, pos, bytes, cap);
}

/// A long blob, and what stands behind it.
pub proof fn lemma_after_long_blob(s: Seq<u8>, pos: nat, bytes: Seq<u8>, cap: u64, rest: Seq<u8>)
    requires
        follows(s, pos, long_blob_bytes(bytes) + rest),
        bytes.len() <= cap,
    ensures
        parse_long_blob(s, pos, cap) == Ok::<(Seq<u8>, nat), FormatError>(
            (bytes, pos + 8 + bytes.len()),
        ),
        follows(s, pos + 8 + bytes.len(), rest),
{
    reveal(follows);
    lemma_stands_split(s, pos, long_blob_bytes(bytes), rest);
    law_long_blob_back(s, pos, bytes, cap);
}

// ---------------------------------------------------------------------------
// Values that others decode
// ---------------------------------------------------------------------------

/// A decoder accepts any bytes and depends on them alone.
pub open spec fn decoder_ok<T, D: Fn(&[u8]) -> Option<T>>(decode: D) -> bool {
    &&& forall|b: &[u8]| #[trigger] call_requires(decode, (b,))
    &&& forall|a: &[u8], b: &[u8], x: Option<T>, y: Option<T>|
        #[trigger] call_ensures(decode, (a,), x) && #[trigger] call_ensures(decode, (b,), y)
            && a@ == b@ ==> x == y
}

pub open spec fn decoder_returns<T, D: Fn(&[u8]) -> Option<T>>(
    decode: D,
    bytes: Seq<u8>,
    x: Option<T>,
) -> bool {
    exists|b: &[u8]| b@ == bytes && #[trigger] call_ensures(decode, (b,), x)
}

/// The value that some bytes are decoded to.
pub open spec fn decoded<T, D: Fn(&[u8]) -> Option<T>>(decode: D, bytes: Seq<u8>) -> Option<T> {
    choose|x: Option<T>| decoder_returns(decode, bytes, x)
}

pub fn apply_decoder<T, D: Fn(&[u8]) -> Option<T>>(decode: &D, bytes: &[u8]) -> (x: Option<T>)
    requires
        decoder_ok(*decode),
    ensures
        x == decoded(*decode, bytes@),
{
    let x: Option<T> = decode(bytes);
    proof {
        assert(call_ensures(*decode, (bytes,), x));
        assert(decoder_returns(*decode, bytes@, x));
    }
    x
}

/// A short blob that is decoded.
pub open spec fn parse_decoded<T, D: Fn(&[u8]) -> Option<T>>(
    s: Seq<u8>,
    pos: nat,
    cap: u32,
    decode: D,
) -> Parsed<T> {
    match parse_short_blob(s, pos, cap) {
        Err(e) => Err(e),
        Ok((bytes, next)) => match decoded(decode, bytes) {
            None => Err(FormatError::Undecodable),
            Some(x) => Ok((x, next)),
        },
    }
}

pub fn read_decoded<T, D: Fn(&[u8]) -> Option<T>>(
    data: &[u8],
    pos: &mut usize,
    cap: u32,
    decode: &D,
) -> (r: core::result::Result<T, FormatError>)
    requires
        *old(pos) <= data@.len(),
        decoder_ok(*decode),
    ensures
        *final(pos) <= data@.len(),
        got(parse_decoded(data@, *old(pos) as nat, cap, *decode), *final(pos), r),
{
    match read_short_blob(data, pos, cap) {
        Err(e) => Err(e),
        Ok(bytes) => match apply_decoder(decode, bytes.as_slice()) {
            None => Err(FormatError::Undecodable),
            Some(x) => Ok(x),
        },
    }
}

} // verus!
