//! Little-endian numbers in byte sequences.

use vstd::prelude::*;

use crate::error::FormatError;

verus! {

/// The number that some bytes stand for, the lowest byte first.
pub open spec fn le(s: Seq<u8>) -> nat
    decreases s.len(),
{
    if s.len() == 0 {
        0
    } else {
        s[0] as nat + 256 * le(s.drop_first())
    }
}

/// The `n` lowest bytes of a number, the lowest byte first.
pub open spec fn le_bytes(x: nat, n: nat) -> Seq<u8>
    decreases n,
{
    if n == 0 {
        Seq::empty()
    } else {
        seq![(x % 256) as u8] + le_bytes(x / 256, (n - 1) as nat)
    }
}

/// How many numbers `n` bytes can stand for.
pub open spec fn pow256(n: nat) -> nat
    decreases n,
{
    if n == 0 {
        1
    } else {
        256 * pow256((n - 1) as nat)
    }
}

pub proof fn lemma_pow256()
    ensures
        pow256(1) == 0x100,
        pow256(2) == 0x1_0000,
        pow256(4) == 0x1_0000_0000,
        pow256(8) == 0x1_0000_0000_0000_0000,
{
    reveal_with_fuel(pow256, 9);
}

pub proof fn lemma_le_bytes_len(x: nat, n: nat)
    ensures
        le_bytes(x, n).len() == n,
    decreases n,
{
    if n > 0 {
        lemma_le_bytes_len(x / 256, (n - 1) as nat);
    }
}

/// The bytes of a number stand for that number again.
pub proof fn law_le_of_le_bytes(x: nat, n: nat)
    requires
        x < pow256(n),
    ensures
        le(le_bytes(x, n)) == x,
        le_bytes(x, n).len() == n,
    decreases n,
{
    if n > 0 {
        let m = (n - 1) as nat;
        assert(x / 256 < pow256(m));
        law_le_of_le_bytes(x / 256, m);
        let s = le_bytes(x, n);
        assert(s.drop_first() =~= le_bytes(x / 256, m));
        assert(s[0] as nat == x % 256);
    }
}

/// The number that some bytes stand for has these bytes again.
pub proof fn law_le_bytes_of_le(s: Seq<u8>)
    ensures
        le_bytes(le(s), s.len()) == s,
        le(s) < pow256(s.len()),
    decreases s.len(),
{
    if s.len() > 0 {
        let t = s.drop_first();
        law_le_bytes_of_le(t);
        assert(le(s) % 256 == s[0] as nat);
        assert(le(s) / 256 == le(t));
        assert(le_bytes(le(s), s.len()) =~= s);
    } else {
        assert(le_bytes(le(s), 0) =~= s);
    }
}

/// Appends the `n` lowest bytes of a number.
fn put_le(out: &mut Vec<u8>, x: u64, n: usize)
    requires
        n <= 8,
    ensures
        final(out)@ == old(out)@ + le_bytes(x as nat, n as nat),
{
    let mut rest: u64 = x;
    let mut i: usize = 0;
    assert(out@ + le_bytes(x as nat, n as nat) =~= old(out)@ + le_bytes(x as nat, n as nat));
    while i < n
        invariant
            i <= n,
            out@ + le_bytes(rest as nat, (n - i) as nat) == old(out)@ + le_bytes(
                x as nat,
                n as nat,
            ),
        decreases n - i,
    {
        let ghost before = out@;
        out.push((rest % 256) as u8);
        assert(out@ + le_bytes(rest as nat / 256, (n - i - 1) as nat) =~= before + le_bytes(
            rest as nat,
            (n - i) as nat,
        ));
        rest = rest / 256;
        i += 1;
    }
    assert(out@ =~= out@ + le_bytes(rest as nat, 0));
}

/// Reads the number in the `n` bytes at `pos`.
fn get_le(data: &[u8], pos: usize, n: usize) -> (x: u64)
    requires
        n <= 8,
        pos + n <= data@.len(),
    ensures
        x == le(data@.subrange(pos as int, pos + n)),
        x < pow256(n as nat),
{
    let ghost s = data@.subrange(pos as int, pos + n);
    let mut x: u64 = 0;
    let mut i: usize = n;
    let total: usize = data.len();
    proof {
        assert(s.subrange(n as int, n as int) =~= Seq::<u8>::empty());
        law_le_bytes_of_le(s);
        lemma_pow256();
    }
    while i > 0
        invariant
            i <= n <= 8,
            pos + n <= total,
            total == data@.len(),
            s == data@.subrange(pos as int, pos + n),
            x == le(s.subrange(i as int, n as int)),
        decreases i,
    {
        let ghost tail = s.subrange(i as int, n as int);
        let ghost longer = s.subrange(i - 1, n as int);
        proof {
            assert(longer.drop_first() =~= tail);
            law_le_bytes_of_le(longer);
            lemma_pow256_monotone((n - i + 1) as nat, 8);
            lemma_pow256();
        }
        i = i - 1;
        let byte: u8 = data[pos + i];
        assert(byte == longer[0]);
        x = byte as u64 + 256 * x;
    }
    assert(s.subrange(0, n as int) =~= s);
    x
}

pub proof fn lemma_pow256_monotone(a: nat, b: nat)
    requires
        a <= b,
    ensures
        pow256(a) <= pow256(b),
        pow256(a) >= 1,
    decreases b,
{
    if a < b {
        lemma_pow256_monotone(a, (b - 1) as nat);
    } else if a > 0 {
        lemma_pow256_monotone((a - 1) as nat, (a - 1) as nat);
    }
}

// ---------------------------------------------------------------------------
// Writing
// ---------------------------------------------------------------------------

pub open spec fn u16_bytes(x: u16) -> Seq<u8> {
    le_bytes(x as nat, 2)
}

pub open spec fn u32_bytes(x: u32) -> Seq<u8> {
    le_bytes(x as nat, 4)
}

pub open spec fn u64_bytes(x: u64) -> Seq<u8> {
    le_bytes(x as nat, 8)
}

/// Two's complement of a signed number.
pub open spec fn twos(x: i32) -> u32 {
    if x >= 0 { x as u32 } else { (x + 0x1_0000_0000) as u32 }
}

/// The signed number with this two's complement.
pub open spec fn signed(x: u32) -> i32 {
    if x < 0x8000_0000 { x as i32 } else { (x - 0x1_0000_0000) as i32 }
}

pub open spec fn i32_bytes(x: i32) -> Seq<u8> {
    u32_bytes(twos(x))
}

pub fn put_u16(out: &mut Vec<u8>, x: u16)
    ensures
        final(out)@ == old(out)@ + u16_bytes(x),
{
    put_le(out, x as u64, 2);
}

pub fn put_u32(out: &mut Vec<u8>, x: u32)
    ensures
        final(out)@ == old(out)@ + u32_bytes(x),
{
    put_le(out, x as u64, 4);
}

pub fn put_u64(out: &mut Vec<u8>, x: u64)
    ensures
        final(out)@ == old(out)@ + u64_bytes(x),
{
    put_le(out, x, 8);
}

pub fn put_i32(out: &mut Vec<u8>, x: i32)
    ensures
        final(out)@ == old(out)@ + i32_bytes(x),
{
    let raw: u32 = if x >= 0 { x as u32 } else { (x as i64 + 0x1_0000_0000) as u32 };
    put_u32(out, raw);
}

/// Appends bytes.
pub fn put_bytes(out: &mut Vec<u8>, bytes: &[u8])
    ensures
        final(out)@ == old(out)@ + bytes@,
{
    out.extend_from_slice(bytes);
    assert(out@ =~= old(out)@ + bytes@);
}

// ---------------------------------------------------------------------------
// Reading
// ---------------------------------------------------------------------------

/// What reading from a position gives: a value and the position behind it, or
/// an error.
pub type Parsed<T> = core::result::Result<(T, nat), FormatError>;

/// There are not `n` bytes at a position.
pub open spec fn too_short(s: Seq<u8>, pos: nat, n: nat) -> FormatError {
    FormatError::TooShort {
        need: n as usize,
        position: pos as usize,
        available: s.len() as usize,
    }
}

pub open spec fn parse_bytes(s: Seq<u8>, pos: nat, n: nat) -> Parsed<Seq<u8>> {
    if pos + n <= s.len() {
        Ok((s.subrange(pos as int, (pos + n) as int), pos + n))
    } else {
        Err(too_short(s, pos, n))
    }
}

pub open spec fn parse_u8(s: Seq<u8>, pos: nat) -> Parsed<u8> {
    if pos + 1 <= s.len() {
        Ok((s[pos as int], pos + 1))
    } else {
        Err(too_short(s, pos, 1))
    }
}

pub open spec fn parse_u16(s: Seq<u8>, pos: nat) -> Parsed<u16> {
    if pos + 2 <= s.len() {
        Ok((le(s.subrange(pos as int, (pos + 2) as int)) as u16, pos + 2))
    } else {
        Err(too_short(s, pos, 2))
    }
}

pub open spec fn parse_u32(s: Seq<u8>, pos: nat) -> Parsed<u32> {
    if pos + 4 <= s.len() {
        Ok((le(s.subrange(pos as int, (pos + 4) as int)) as u32, pos + 4))
    } else {
        Err(too_short(s, pos, 4))
    }
}

pub open spec fn parse_u64(s: Seq<u8>, pos: nat) -> Parsed<u64> {
    if pos + 8 <= s.len() {
        Ok((le(s.subrange(pos as int, (pos + 8) as int)) as u64, pos + 8))
    } else {
        Err(too_short(s, pos, 8))
    }
}

pub open spec fn parse_i32(s: Seq<u8>, pos: nat) -> Parsed<i32> {
    if pos + 4 <= s.len() {
        Ok((signed(le(s.subrange(pos as int, (pos + 4) as int)) as u32), pos + 4))
    } else {
        Err(too_short(s, pos, 4))
    }
}

/// An executed read did what was parsed: on an error the position stays.
pub open spec fn read_as<T>(
    parsed: Parsed<T>,
    before: usize,
    after: usize,
    r: core::result::Result<T, FormatError>,
) -> bool {
    match parsed {
        Ok((value, next)) => r == Ok::<T, FormatError>(value) && after == next,
        Err(e) => r == Err::<T, FormatError>(e) && after == before,
    }
}

/// The error that there are not `n` bytes at a position.
pub fn shortage(data: &[u8], pos: usize, n: usize) -> (e: FormatError)
    ensures
        e == too_short(data@, pos as nat, n as nat),
{
    FormatError::TooShort { need: n, position: pos, available: data.len() }
}

/// Reads `n` bytes.
pub fn read_bytes<'a>(data: &'a [u8], pos: &mut usize, n: usize) -> (r: core::result::Result<
    &'a [u8],
    FormatError,
>)
    ensures
        *old(pos) <= data@.len() ==> *final(pos) <= data@.len(),
        match parse_bytes(data@, *old(pos) as nat, n as nat) {
            Ok((value, next)) => (r matches Ok(s) && s@ == value) && *final(pos) == next,
            Err(e) => r == Err::<&'a [u8], FormatError>(e) && *final(pos) == *old(pos),
        },
{
    if *pos > data.len() || n > data.len() - *pos {
        return Err(shortage(data, *pos, n));
    }
    let start: usize = *pos;
    *pos = start + n;
    Ok(vstd::slice::slice_subrange(data, start, start + n))
}

pub fn read_u64(data: &[u8], pos: &mut usize) -> (r: core::result::Result<u64, FormatError>)
    ensures
        *old(pos) <= data@.len() ==> *final(pos) <= data@.len(),
        read_as(parse_u64(data@, *old(pos) as nat), *old(pos), *final(pos), r),
{
    if *pos > data.len() || 8 > data.len() - *pos {
        return Err(shortage(data, *pos, 8));
    }
    proof {
        lemma_pow256();
    }
    let start: usize = *pos;
    *pos = start + 8;
    Ok(get_le(data, start, 8))
}

pub fn read_u32(data: &[u8], pos: &mut usize) -> (r: core::result::Result<u32, FormatError>)
    ensures
        *old(pos) <= data@.len() ==> *final(pos) <= data@.len(),
        read_as(parse_u32(data@, *old(pos) as nat), *old(pos), *final(pos), r),
{
    if *pos > data.len() || 4 > data.len() - *pos {
        return Err(shortage(data, *pos, 4));
    }
    proof {
        lemma_pow256();
    }
    let start: usize = *pos;
    *pos = start + 4;
    Ok(get_le(data, start, 4) as u32)
}

pub fn read_u16(data: &[u8], pos: &mut usize) -> (r: core::result::Result<u16, FormatError>)
    ensures
        *old(pos) <= data@.len() ==> *final(pos) <= data@.len(),
        read_as(parse_u16(data@, *old(pos) as nat), *old(pos), *final(pos), r),
{
    if *pos > data.len() || 2 > data.len() - *pos {
        return Err(shortage(data, *pos, 2));
    }
    proof {
        lemma_pow256();
    }
    let start: usize = *pos;
    *pos = start + 2;
    Ok(get_le(data, start, 2) as u16)
}

pub fn read_i32(data: &[u8], pos: &mut usize) -> (r: core::result::Result<i32, FormatError>)
    ensures
        *old(pos) <= data@.len() ==> *final(pos) <= data@.len(),
        read_as(parse_i32(data@, *old(pos) as nat), *old(pos), *final(pos), r),
{
    match read_u32(data, pos) {
        Ok(raw) => {
            if raw < 0x8000_0000 {
                Ok(raw as i32)
            } else {
                Ok((raw as i64 - 0x1_0000_0000) as i32)
            }
        },
        Err(e) => Err(e),
    }
}

pub fn read_u8(data: &[u8], pos: &mut usize) -> (r: core::result::Result<u8, FormatError>)
    ensures
        *old(pos) <= data@.len() ==> *final(pos) <= data@.len(),
        read_as(parse_u8(data@, *old(pos) as nat), *old(pos), *final(pos), r),
{
    if *pos > data.len() || 1 > data.len() - *pos {
        return Err(shortage(data, *pos, 1));
    }
    let start: usize = *pos;
    *pos = start + 1;
    Ok(data[start])
}

// ---------------------------------------------------------------------------
// A read gives back what was written
// ---------------------------------------------------------------------------

/// `part` stands at `pos` in `s`.
pub open spec fn stands_at(s: Seq<u8>, pos: nat, part: Seq<u8>) -> bool {
    pos + part.len() <= s.len() && s.subrange(pos as int, (pos + part.len()) as int) == part
}

/// Two parts in a row stand one behind the other.
pub proof fn lemma_stands_split(s: Seq<u8>, pos: nat, a: Seq<u8>, b: Seq<u8>)
    requires
        stands_at(s, pos, a + b),
    ensures
        stands_at(s, pos, a),
        stands_at(s, pos + a.len(), b),
{
    let whole = s.subrange(pos as int, (pos + (a + b).len()) as int);
    assert(s.subrange(pos as int, (pos + a.len()) as int) =~= a) by {
        assert forall|i: int| 0 <= i < a.len() implies s[pos + i] == a[i] by {
            assert(whole[i] == (a + b)[i]);
        }
    }
    assert(s.subrange((pos + a.len()) as int, (pos + a.len() + b.len()) as int) =~= b) by {
        assert forall|i: int| 0 <= i < b.len() implies s[pos + a.len() + i] == b[i] by {
            assert(whole[a.len() + i] == (a + b)[a.len() + i]);
        }
    }
}

/// A number that was written is read back, whatever its width.
pub proof fn law_read_back(s: Seq<u8>, pos: nat, a: u8, b: u16, c: u32, d: u64, e: i32)
    ensures
        stands_at(s, pos, seq![a]) ==> parse_u8(s, pos) == Ok::<(u8, nat), FormatError>(
            (a, pos + 1),
        ),
        stands_at(s, pos, u16_bytes(b)) ==> parse_u16(s, pos) == Ok::<(u16, nat), FormatError>(
            (b, pos + 2),
        ),
        stands_at(s, pos, u32_bytes(c)) ==> parse_u32(s, pos) == Ok::<(u32, nat), FormatError>(
            (c, pos + 4),
        ),
        stands_at(s, pos, u64_bytes(d)) ==> parse_u64(s, pos) == Ok::<(u64, nat), FormatError>(
            (d, pos + 8),
        ),
        stands_at(s, pos, i32_bytes(e)) ==> parse_i32(s, pos) == Ok::<(i32, nat), FormatError>(
            (e, pos + 4),
        ),
        u16_bytes(b).len() == 2,
        u32_bytes(c).len() == 4,
        u64_bytes(d).len() == 8,
        i32_bytes(e).len() == 4,
{
    lemma_pow256();
    law_le_of_le_bytes(b as nat, 2);
    law_le_of_le_bytes(c as nat, 4);
    law_le_of_le_bytes(d as nat, 8);
    law_le_of_le_bytes(twos(e) as nat, 4);
    assert(signed(twos(e)) == e);
    if stands_at(s, pos, seq![a]) {
        assert(s.subrange(pos as int, (pos + 1) as int)[0] == a);
    }
}

/// Bytes that were written are read back.
pub proof fn law_read_back_bytes(s: Seq<u8>, pos: nat, part: Seq<u8>)
    requires
        stands_at(s, pos, part),
    ensures
        parse_bytes(s, pos, part.len()) == Ok::<(Seq<u8>, nat), FormatError>(
            (part, pos + part.len()),
        ),
{
}

// ---------------------------------------------------------------------------
// Numbers in place
// ---------------------------------------------------------------------------

/// `s` with `part` written over it at `pos`.
pub open spec fn patched(s: Seq<u8>, pos: int, part: Seq<u8>) -> Seq<u8> {
    Seq::new(
        s.len(),
        |i: int|
            if pos <= i < pos + part.len() {
                part[i - pos]
            } else {
                s[i]
            },
    )
}

/// Writes bytes over those at `pos`.
pub fn overwrite(data: &mut Vec<u8>, pos: usize, part: &[u8])
    requires
        pos + part@.len() <= old(data)@.len(),
    ensures
        final(data)@ == patched(old(data)@, pos as int, part@),
{
    let n: usize = part.len();
    let total: usize = data.len();
    let mut i: usize = 0;
    while i < n
        invariant
            i <= n,
            n == part@.len(),
            total == data@.len(),
            pos + n <= total,
            data@.len() == old(data)@.len(),
            forall|j: int|
                0 <= j < data@.len() ==> #[trigger] data@[j] == (if pos <= j < pos + i {
                    part@[j - pos]
                } else {
                    old(data)@[j]
                }),
        decreases n - i,
    {
        data.set(pos + i, part[i]);
        i += 1;
    }
    assert(data@ =~= patched(old(data)@, pos as int, part@));
}

pub fn u16_at(data: &[u8], pos: usize) -> (x: u16)
    requires
        pos + 2 <= data@.len(),
    ensures
        x == le(data@.subrange(pos as int, pos + 2)) as u16,
        x == le(data@.subrange(pos as int, pos + 2)),
{
    proof {
        lemma_pow256();
    }
    get_le(data, pos, 2) as u16
}

pub fn u32_at(data: &[u8], pos: usize) -> (x: u32)
    requires
        pos + 4 <= data@.len(),
    ensures
        x == le(data@.subrange(pos as int, pos + 4)) as u32,
{
    proof {
        lemma_pow256();
    }
    get_le(data, pos, 4) as u32
}

} // verus!
