//! Quantization of vectors to a few bits per component.
//!
//! Each vector is scaled by the factor that loses least. Before that, a rotation
//! can spread its information over all components: signs are flipped by a fixed
//! pattern, and a Hadamard transform follows. What takes floating-point
//! arithmetic is up to the caller.

use vstd::prelude::*;

use crate::batch_builder::GREATEST;
use crate::distance::{float_lt, less, measure, metric_ok, metric_value, SIGN_BIT};
use crate::index::sequential::{xorshift, xorshift_after};
use crate::storage::slice_to_vec;

verus! {

/// Bits per component.
#[derive(Debug, Clone, Copy, PartialEq, Eq, Structural)]
pub enum QuantizationBits {
    Bits2,
    Bits3,
    Bits4,
    Bits5,
    Bits7,
    Bits8,
}

impl QuantizationBits {
    pub open spec fn width(self) -> u8 {
        match self {
            QuantizationBits::Bits2 => 2,
            QuantizationBits::Bits3 => 3,
            QuantizationBits::Bits4 => 4,
            QuantizationBits::Bits5 => 5,
            QuantizationBits::Bits7 => 7,
            QuantizationBits::Bits8 => 8,
        }
    }

    /// The number of bits.
    pub fn to_u8(self) -> (r: u8)
        ensures
            r == self.width(),
    {
        match self {
            QuantizationBits::Bits2 => 2,
            QuantizationBits::Bits3 => 3,
            QuantizationBits::Bits4 => 4,
            QuantizationBits::Bits5 => 5,
            QuantizationBits::Bits7 => 7,
            QuantizationBits::Bits8 => 8,
        }
    }

    /// How many values the bits can tell apart.
    pub fn levels(self) -> (r: usize)
        ensures
            r == vstd::arithmetic::power2::pow2(self.width() as nat),
    {
        proof {
            vstd::arithmetic::power2::lemma2_to64();
        }
        match self {
            QuantizationBits::Bits2 => 4,
            QuantizationBits::Bits3 => 8,
            QuantizationBits::Bits4 => 16,
            QuantizationBits::Bits5 => 32,
            QuantizationBits::Bits7 => 128,
            QuantizationBits::Bits8 => 256,
        }
    }

    /// How many values a byte can hold.
    pub fn values_per_byte(self) -> (r: usize)
        ensures
            r == 8int / (self.width() as int),
    {
        8 / self.to_u8() as usize
    }

    /// The bits in words.
    pub fn label(self) -> (r: String)
        ensures
            r@ == match self {
                QuantizationBits::Bits2 => "2-bit"@,
                QuantizationBits::Bits3 => "3-bit"@,
                QuantizationBits::Bits4 => "4-bit"@,
                QuantizationBits::Bits5 => "5-bit"@,
                QuantizationBits::Bits7 => "7-bit"@,
                QuantizationBits::Bits8 => "8-bit"@,
            },
    {
        match self {
            QuantizationBits::Bits2 => "2-bit".to_string(),
            QuantizationBits::Bits3 => "3-bit".to_string(),
            QuantizationBits::Bits4 => "4-bit".to_string(),
            QuantizationBits::Bits5 => "5-bit".to_string(),
            QuantizationBits::Bits7 => "7-bit".to_string(),
            QuantizationBits::Bits8 => "8-bit".to_string(),
        }
    }
}

/// Bits of some factors.
pub const HALF: u32 = 0x3f00_0000;

pub const SIX_TENTHS: u32 = 0x3f19_999a;

pub const SEVEN_TENTHS: u32 = 0x3f33_3333;

pub const UNIT: u32 = 0x3f80_0000;

pub const FOURTEEN_TENTHS: u32 = 0x3fb3_3333;

pub const THREE_HALVES: u32 = 0x3fc0_0000;

pub const SIXTEEN_TENTHS: u32 = 0x3fcc_cccd;

pub const TWO: u32 = 0x4000_0000;

/// How to quantize.
#[derive(Debug, Clone, Copy, PartialEq, Eq)]
pub struct ExtendedRaBitQParams {
    pub bits_per_dim: QuantizationBits,
    /// How many factors are tried.
    pub num_rescale_factors: usize,
    /// Bits of the least and the greatest factor that is tried.
    pub rescale_range: (u32, u32),
    /// Whether vectors are rotated first.
    pub use_fht: bool,
}

pub open spec fn default_rabitq() -> ExtendedRaBitQParams {
    ExtendedRaBitQParams {
        bits_per_dim: QuantizationBits::Bits4,
        num_rescale_factors: 12,
        rescale_range: (HALF, TWO),
        use_fht: false,
    }
}

impl Default for ExtendedRaBitQParams {
    fn default() -> (r: Self)
        ensures
            r == default_rabitq(),
    {
        ExtendedRaBitQParams {
            bits_per_dim: QuantizationBits::Bits4,
            num_rescale_factors: 12,
            rescale_range: (HALF, TWO),
            use_fht: false,
        }
    }
}

impl ExtendedRaBitQParams {
    pub fn bits2() -> (r: Self)
        ensures
            r == (ExtendedRaBitQParams {
                bits_per_dim: QuantizationBits::Bits2,
                ..default_rabitq()
            }),
    {
        let mut r = ExtendedRaBitQParams::default();
        r.bits_per_dim = QuantizationBits::Bits2;
        r
    }

    pub fn bits4() -> (r: Self)
        ensures
            r == default_rabitq(),
    {
        ExtendedRaBitQParams::default()
    }

    /// More factors in a narrower range.
    pub fn bits8() -> (r: Self)
        ensures
            r == (ExtendedRaBitQParams {
                bits_per_dim: QuantizationBits::Bits8,
                num_rescale_factors: 16,
                rescale_range: (SEVEN_TENTHS, THREE_HALVES),
                use_fht: false,
            }),
    {
        ExtendedRaBitQParams {
            bits_per_dim: QuantizationBits::Bits8,
            num_rescale_factors: 16,
            rescale_range: (SEVEN_TENTHS, THREE_HALVES),
            use_fht: false,
        }
    }

    /// With a rotation.
    pub fn with_fht(bits: QuantizationBits) -> (r: Self)
        ensures
            r == (ExtendedRaBitQParams { bits_per_dim: bits, use_fht: true, ..default_rabitq() }),
    {
        let mut r = ExtendedRaBitQParams::default();
        r.bits_per_dim = bits;
        r.use_fht = true;
        r
    }

    pub fn bits4_fht() -> (r: Self)
        ensures
            r == (ExtendedRaBitQParams { use_fht: true, ..default_rabitq() }),
    {
        ExtendedRaBitQParams::with_fht(QuantizationBits::Bits4)
    }

    pub fn bits3() -> (r: Self)
        ensures
            r == (ExtendedRaBitQParams {
                bits_per_dim: QuantizationBits::Bits3,
                ..default_rabitq()
            }),
    {
        let mut r = ExtendedRaBitQParams::default();
        r.bits_per_dim = QuantizationBits::Bits3;
        r
    }

    pub fn bits5() -> (r: Self)
        ensures
            r == (ExtendedRaBitQParams {
                bits_per_dim: QuantizationBits::Bits5,
                num_rescale_factors: 14,
                rescale_range: (SIX_TENTHS, SIXTEEN_TENTHS),
                use_fht: false,
            }),
    {
        ExtendedRaBitQParams {
            bits_per_dim: QuantizationBits::Bits5,
            num_rescale_factors: 14,
            rescale_range: (SIX_TENTHS, SIXTEEN_TENTHS),
            use_fht: false,
        }
    }

    pub fn bits7() -> (r: Self)
        ensures
            r == (ExtendedRaBitQParams {
                bits_per_dim: QuantizationBits::Bits7,
                num_rescale_factors: 16,
                rescale_range: (SEVEN_TENTHS, FOURTEEN_TENTHS),
                use_fht: false,
            }),
    {
        ExtendedRaBitQParams {
            bits_per_dim: QuantizationBits::Bits7,
            num_rescale_factors: 16,
            rescale_range: (SEVEN_TENTHS, FOURTEEN_TENTHS),
            use_fht: false,
        }
    }
}

/// A vector after quantization.
#[derive(Debug, Clone)]
pub struct QuantizedVector {
    /// Values, several to a byte.
    pub data: Vec<u8>,
    /// Bits of the factor by which the vector was scaled.
    pub scale: u32,
    /// Bits per component.
    pub bits: u8,
    pub dimensions: usize,
    /// Whether the vector was rotated.
    pub fht_applied: bool,
}

impl QuantizedVector {
    pub fn new(data: Vec<u8>, scale: u32, bits: u8, dimensions: usize) -> (r: Self)
        ensures
            r == (QuantizedVector { data, scale, bits, dimensions, fht_applied: false }),
    {
        QuantizedVector { data, scale, bits, dimensions, fht_applied: false }
    }

    pub fn new_with_fht(
        data: Vec<u8>,
        scale: u32,
        bits: u8,
        dimensions: usize,
        fht_applied: bool,
    ) -> (r: Self)
        ensures
            r == (QuantizedVector { data, scale, bits, dimensions, fht_applied }),
    {
        QuantizedVector { data, scale, bits, dimensions, fht_applied }
    }

    /// Bytes of the vector before quantization, and of data, factor and number
    /// of bits afterwards.
    pub fn byte_sizes(&self) -> (r: (usize, usize))
        requires
            self.dimensions * 4 <= usize::MAX,
            self.data@.len() + 5 <= usize::MAX,
        ensures
            r == ((self.dimensions * 4) as usize, (self.data@.len() + 5) as usize),
    {
        (self.dimensions * 4, self.data.len() + 5)
    }
}

// ---------------------------------------------------------------------------
// Functions from the caller
// ---------------------------------------------------------------------------

/// A function accepts any two values, and depends on them alone.
pub open spec fn pure_pair<A, B, R, F: Fn(A, B) -> R>(f: F) -> bool {
    &&& forall|a: A, b: B| #[trigger] call_requires(f, (a, b))
    &&& forall|a: A, b: B, r: R, s: R| #[trigger]
        call_ensures(f, (a, b), r) && #[trigger] call_ensures(f, (a, b), s) ==> r == s
}

/// What such a function returns.
pub open spec fn pair_value<A, B, R, F: Fn(A, B) -> R>(f: F, a: A, b: B) -> R {
    choose|r: R| call_ensures(f, (a, b), r)
}

fn apply_pair<A, B, R, F: Fn(A, B) -> R>(f: &F, a: A, b: B) -> (r: R)
    requires
        pure_pair(*f),
    ensures
        r == pair_value(*f, a, b),
{
    f(a, b)
}

// ---------------------------------------------------------------------------
// Packing
// ---------------------------------------------------------------------------

/// How many values a byte holds when packed: those of two and of four bits
/// share bytes, all others have a byte of their own.
pub open spec fn packed_per_byte(bits: u8) -> int {
    if bits == 2 {
        4
    } else if bits == 4 {
        2
    } else {
        1
    }
}

/// The value at a place, or zero behind the end.
pub open spec fn value_or_zero(values: Seq<u8>, i: int) -> int {
    if 0 <= i < values.len() {
        values[i] as int
    } else {
        0
    }
}

/// A byte of packed values. Of two bits, the first value stands lowest; of
/// four, it stands highest.
pub open spec fn packed_byte(values: Seq<u8>, bits: u8, k: int) -> u8 {
    if bits == 2 {
        (value_or_zero(values, 4 * k) % 4 + value_or_zero(values, 4 * k + 1) % 4 * 4
            + value_or_zero(values, 4 * k + 2) % 4 * 16 + value_or_zero(values, 4 * k + 3) % 4
            * 64) as u8
    } else if bits == 4 {
        (value_or_zero(values, 2 * k) % 16 * 16 + value_or_zero(values, 2 * k + 1) % 16) as u8
    } else {
        values[k]
    }
}

/// Values packed into bytes.
pub open spec fn packed(values: Seq<u8>, bits: u8) -> Seq<u8> {
    let per = packed_per_byte(bits);
    Seq::new(
        ((values.len() + per - 1) / per) as nat,
        |k: int| packed_byte(values, bits, k),
    )
}

/// A value in packed bytes.
pub open spec fn unpacked_value(data: Seq<u8>, bits: u8, i: int) -> u8 {
    if bits == 2 {
        let byte = data[i / 4] as int;
        (if i % 4 == 0 {
            byte % 4
        } else if i % 4 == 1 {
            byte / 4 % 4
        } else if i % 4 == 2 {
            byte / 16 % 4
        } else {
            byte / 64
        }) as u8
    } else if bits == 4 {
        let byte = data[i / 2] as int;
        (if i % 2 == 0 {
            byte / 16
        } else {
            byte % 16
        }) as u8
    } else {
        data[i]
    }
}

/// The values in packed bytes, `dimensions` at most.
pub open spec fn unpacked(data: Seq<u8>, bits: u8, dimensions: nat) -> Seq<u8> {
    let held = data.len() * packed_per_byte(bits);
    Seq::new(
        if dimensions <= held {
            dimensions
        } else {
            held as nat
        },
        |i: int| unpacked_value(data, bits, i),
    )
}

proof fn lemma_four_parts(a: int, b: int, c: int, d: int)
    requires
        0 <= a < 4,
        0 <= b < 4,
        0 <= c < 4,
        0 <= d < 4,
    ensures
        ({
            let byte = a + b * 4 + c * 16 + d * 64;
            &&& 0 <= byte < 256
            &&& byte % 4 == a
            &&& byte / 4 % 4 == b
            &&& byte / 16 % 4 == c
            &&& byte / 64 == d
        }),
{
    let byte = a + b * 4 + c * 16 + d * 64;
    assert(byte / 4 == b + c * 4 + d * 16);
    assert(byte / 16 == c + d * 4);
}

/// Values that fit the bits come back from their packed bytes.
pub proof fn law_pack_unpack(values: Seq<u8>, bits: u8)
    requires
        bits == 2 ==> forall|i: int| 0 <= i < values.len() ==> #[trigger] values[i] < 4,
        bits == 4 ==> forall|i: int| 0 <= i < values.len() ==> #[trigger] values[i] < 16,
    ensures
        unpacked(packed(values, bits), bits, values.len()) == values,
{
    lemma_unpacked_length(values, bits);
    let data = packed(values, bits);
    let back = unpacked(data, bits, values.len());
    assert forall|i: int| 0 <= i < values.len() implies #[trigger] back[i] == values[i] by {
        if bits == 2 {
            let k = i / 4;
            assert(data[k] == packed_byte(values, bits, k));
            let a = value_or_zero(values, 4 * k) % 4;
            let b = value_or_zero(values, 4 * k + 1) % 4;
            let c = value_or_zero(values, 4 * k + 2) % 4;
            let d = value_or_zero(values, 4 * k + 3) % 4;
            lemma_four_parts(a, b, c, d);
            let byte = a + b * 4 + c * 16 + d * 64;
            assert(data[k] == byte);
            assert(i == 4 * k + i % 4);
            assert(value_or_zero(values, i) == values[i] && values[i] < 4);
            assert(back[i] == unpacked_value(data, bits, i));
        } else if bits == 4 {
            let k = i / 2;
            assert(data[k] == packed_byte(values, bits, k));
            assert(i == 2 * k + i % 2);
            assert(value_or_zero(values, i) == values[i] && values[i] < 16);
        }
    }
    assert(back =~= values);
}

/// As many values come back from packed bytes as were packed.
pub proof fn lemma_unpacked_length(values: Seq<u8>, bits: u8)
    ensures
        unpacked(packed(values, bits), bits, values.len()).len() == values.len(),
{
    let n = values.len();
    let held = packed(values, bits).len() * packed_per_byte(bits);
    if bits == 2 {
        assert(held == (n + 3) / 4 * 4);
    } else if bits == 4 {
        assert(held == (n + 1) / 2 * 2);
    } else {
        assert(packed_per_byte(bits) == 1);
        assert((n + 1 - 1) / 1 == n);
        assert(packed(values, bits).len() == n);
        assert(held == n) by (nonlinear_arith)
            requires
                held == n * 1,
        ;
    }
}

fn value_at(values: &[u8], i: usize) -> (v: u8)
    ensures
        v == value_or_zero(values@, i as int),
{
    if i < values.len() { values[i] } else { 0 }
}

// ---------------------------------------------------------------------------
// Rotation
// ---------------------------------------------------------------------------

/// A number is a power of two.
pub open spec fn power_of_two(n: nat) -> bool
    decreases n,
{
    n == 1 || (n > 1 && n % 2 == 0 && power_of_two(n / 2))
}

/// The least power of two that is at least `n` and at least `p`, for a power
/// of two `p`.
pub open spec fn power_from(p: nat, n: nat) -> nat
    decreases (if p < n { n - p } else { 0 }),
{
    if p >= n || p == 0 {
        p
    } else {
        power_from(2 * p, n)
    }
}

/// A vector with zeros behind it, up to a length that is a power of two.
pub open spec fn padded(data: Seq<u32>) -> Seq<u32> {
    let n = power_from(1, data.len());
    Seq::new(
        n,
        |i: int|
            if i < data.len() {
                data[i]
            } else {
                0
            },
    )
}

/// The bits of a value with its sign flipped.
pub open spec fn negated(bits: u32) -> u32 {
    if bits >= SIGN_BIT {
        (bits - SIGN_BIT) as u32
    } else {
        (bits + SIGN_BIT) as u32
    }
}

/// Values with their signs flipped where the generator gives an even number.
pub open spec fn with_signs(data: Seq<u32>, seed: u64) -> Seq<u32> {
    Seq::new(
        data.len(),
        |i: int|
            if xorshift_after(seed, (i + 1) as nat) % 2 == 0 {
                negated(data[i])
            } else {
                data[i]
            },
    )
}

/// Flipping the signs of a pattern twice changes nothing.
pub proof fn law_signs_twice(data: Seq<u32>, seed: u64)
    ensures
        with_signs(with_signs(data, seed), seed) == data,
{
    assert(with_signs(with_signs(data, seed), seed) =~= data);
}

/// One stage of the transform: values `h` apart are combined in pairs.
pub open spec fn butterflies<P: Fn(u32, u32) -> (u32, u32)>(pair: P, data: Seq<u32>, h: int) -> Seq<
    u32,
> {
    Seq::new(
        data.len(),
        |i: int|
            if i / h % 2 == 0 {
                pair_value(pair, data[i], data[i + h]).0
            } else {
                pair_value(pair, data[i - h], data[i]).1
            },
    )
}

/// The stages from `h` on.
pub open spec fn stages_from<P: Fn(u32, u32) -> (u32, u32)>(
    pair: P,
    data: Seq<u32>,
    h: nat,
) -> Seq<u32>
    decreases (if h < data.len() { data.len() - h } else { 0 }),
{
    if h == 0 || h >= data.len() {
        data
    } else {
        stages_from(pair, butterflies(pair, data, h as int), 2 * h)
    }
}

/// The transform of values whose number is a power of two; others stay. In
/// the end each value is divided by the root of their number.
pub open spec fn transformed<P: Fn(u32, u32) -> (u32, u32), N: Fn(u32, usize) -> u32>(
    pair: P,
    norm: N,
    data: Seq<u32>,
) -> Seq<u32> {
    if power_of_two(data.len()) {
        stages_from(pair, data, 1).map_values(
            |v: u32| pair_value(norm, v, data.len() as usize),
        )
    } else {
        data
    }
}

/// A vector after its rotation.
pub open spec fn rotated<P: Fn(u32, u32) -> (u32, u32), N: Fn(u32, usize) -> u32>(
    pair: P,
    norm: N,
    data: Seq<u32>,
) -> Seq<u32> {
    if data.len() == 0 {
        Seq::empty()
    } else {
        transformed(pair, norm, with_signs(padded(data), data.len() as u64)).take(
            data.len() as int,
        )
    }
}

/// A vector after the reverse of its rotation.
pub open spec fn rotated_back<P: Fn(u32, u32) -> (u32, u32), N: Fn(u32, usize) -> u32>(
    pair: P,
    norm: N,
    data: Seq<u32>,
) -> Seq<u32> {
    if data.len() == 0 {
        Seq::empty()
    } else {
        with_signs(transformed(pair, norm, padded(data)), data.len() as u64).take(
            data.len() as int,
        )
    }
}

proof fn lemma_power_from(p: nat, n: nat)
    requires
        power_of_two(p),
    ensures
        power_from(p, n) >= n,
        power_from(p, n) >= p,
        power_of_two(power_from(p, n)),
        p >= n ==> power_from(p, n) == p,
        p < n ==> power_from(p, n) < 2 * n,
    decreases (if p < n { n - p } else { 0 }),
{
    if p < n {
        assert(2 * p / 2 == p && 2 * p % 2 == 0);
        lemma_power_from(2 * p, n);
    }
}

proof fn lemma_stages_length<P: Fn(u32, u32) -> (u32, u32)>(pair: P, data: Seq<u32>, h: nat)
    ensures
        stages_from(pair, data, h).len() == data.len(),
    decreases (if h < data.len() { data.len() - h } else { 0 }),
{
    if 0 < h < data.len() {
        lemma_stages_length(pair, butterflies(pair, data, h as int), 2 * h);
    }
}

/// A transform keeps the number of values.
pub proof fn law_transform_keeps_length<
    P: Fn(u32, u32) -> (u32, u32),
    N: Fn(u32, usize) -> u32,
>(pair: P, norm: N, data: Seq<u32>)
    ensures
        transformed(pair, norm, data).len() == data.len(),
        rotated(pair, norm, data).len() == data.len(),
        rotated_back(pair, norm, data).len() == data.len(),
{
    lemma_stages_length(pair, data, 1);
    lemma_power_from(1, data.len());
    lemma_stages_length(pair, padded(data), 1);
    lemma_stages_length(pair, with_signs(padded(data), data.len() as u64), 1);
}

fn is_power_of_two(n: usize) -> (r: bool)
    ensures
        r == power_of_two(n as nat),
{
    if n == 0 {
        return false;
    }
    let mut m: usize = n;
    while m % 2 == 0
        invariant
            m >= 1,
            power_of_two(m as nat) == power_of_two(n as nat),
        decreases m,
    {
        m = m / 2;
    }
    m == 1
}

/// The length up to which a vector is padded.
fn padded_length(n: usize) -> (p: usize)
    requires
        power_from(1, n as nat) <= usize::MAX,
    ensures
        p == power_from(1, n as nat),
{
    let mut p: usize = 1;
    while p < n
        invariant
            p >= 1,
            power_of_two(p as nat),
            power_from(p as nat, n as nat) == power_from(1, n as nat),
            power_from(1, n as nat) <= usize::MAX,
        decreases (if p < n { n - p } else { 0 }),
    {
        proof {
            assert(2 * p / 2 == p && 2 * p % 2 == 0);
            lemma_power_from((2 * p) as nat, n as nat);
        }
        p = p * 2;
    }
    p
}

fn pad(data: &[u32]) -> (r: Vec<u32>)
    requires
        power_from(1, data@.len()) <= usize::MAX,
    ensures
        r@ == padded(data@),
        r@.len() >= data@.len(),
        power_of_two(r@.len()),
{
    proof {
        lemma_power_from(1, data@.len());
    }
    let n: usize = padded_length(data.len());
    let mut r: Vec<u32> = slice_to_vec(data);
    while r.len() < n
        invariant
            data@.len() <= r@.len() <= n,
            n == power_from(1, data@.len()),
            forall|i: int| 0 <= i < r@.len() ==> #[trigger] r@[i] == padded(data@)[i],
        decreases n - r.len(),
    {
        r.push(0);
    }
    assert(r@ =~= padded(data@));
    r
}

/// Flips signs by a pattern that depends on a seed.
pub fn apply_random_signs(data: &mut Vec<u32>, seed: u64)
    ensures
        final(data)@ == with_signs(old(data)@, seed),
{
    let ghost before = data@;
    let mut state: u64 = seed;
    let mut i: usize = 0;
    while i < data.len()
        invariant
            i <= data@.len(),
            data@.len() == before.len(),
            state == xorshift_after(seed, i as nat),
            forall|j: int| 0 <= j < i ==> #[trigger] data@[j] == with_signs(before, seed)[j],
            forall|j: int| i <= j < data@.len() ==> #[trigger] data@[j] == before[j],
        decreases data.len() - i,
    {
        let first: u64 = state ^ (state << 13);
        let second: u64 = first ^ (first >> 7);
        let next: u64 = second ^ (second << 17);
        assert(next == xorshift(state));
        state = next;
        if state % 2 == 0 {
            let v: u32 = data[i];
            let flipped: u32 = if v >= SIGN_BIT { v - SIGN_BIT } else { v + SIGN_BIT };
            data.set(i, flipped);
        }
        i += 1;
    }
    assert(data@ =~= with_signs(before, seed));
}

/// One stage of the transform.
fn combine_pairs<P: Fn(u32, u32) -> (u32, u32)>(pair: &P, data: &mut Vec<u32>, h: usize)
    requires
        pure_pair(*pair),
        h > 0,
        old(data)@.len() as int % (2 * h) == 0,
        old(data)@.len() <= usize::MAX,
    ensures
        final(data)@ == butterflies(*pair, old(data)@, h as int),
{
    let ghost before = data@;
    let ghost goal = butterflies(*pair, before, h as int);
    let n: usize = data.len();
    let mut start: usize = 0;
    while start < n
        invariant
            start <= n == data@.len(),
            n == before.len(),
            h > 0,
            pure_pair(*pair),
            start as int % (2 * h) == 0,
            n as int % (2 * h) == 0,
            goal == butterflies(*pair, before, h as int),
            forall|j: int| 0 <= j < start ==> #[trigger] data@[j] == goal[j],
            forall|j: int| start <= j < n ==> #[trigger] data@[j] == before[j],
        decreases n - start,
    {
        proof {
            lemma_block(start as int, n as int, h as int);
        }
        let mut j: usize = 0;
        while j < h
            invariant
                j <= h,
                h > 0,
                n == data@.len(),
                n == before.len(),
                start + 2 * h <= n,
                start as int % (2 * h) == 0,
                pure_pair(*pair),
                goal == butterflies(*pair, before, h as int),
                forall|k: int| 0 <= k < start ==> #[trigger] data@[k] == goal[k],
                forall|k: int| start <= k < start + j ==> #[trigger] data@[k] == goal[k],
                forall|k: int| start + h <= k < start + h + j ==> #[trigger] data@[k] == goal[k],
                forall|k: int| start + j <= k < start + h ==> #[trigger] data@[k] == before[k],
                forall|k: int| start + h + j <= k < n ==> #[trigger] data@[k] == before[k],
            decreases h - j,
        {
            proof {
                lemma_halves(start as int, j as int, h as int);
            }
            let low: usize = start + j;
            let high: usize = start + j + h;
            let (sum, difference) = apply_pair(pair, data[low], data[high]);
            data.set(low, sum);
            data.set(high, difference);
            j += 1;
        }
        proof {
            vstd::arithmetic::div_mod::lemma_mod_add_multiples_vanish(start as int, 2 * h as int);
        }
        start = start + 2 * h;
    }
    assert(data@ =~= goal);
}

proof fn lemma_block(start: int, n: int, h: int)
    requires
        h > 0,
        0 <= start < n,
        start % (2 * h) == 0,
        n % (2 * h) == 0,
    ensures
        start + 2 * h <= n,
{
    let a = start / (2 * h);
    let b = n / (2 * h);
    vstd::arithmetic::div_mod::lemma_fundamental_div_mod(start, 2 * h);
    vstd::arithmetic::div_mod::lemma_fundamental_div_mod(n, 2 * h);
    assert(a < b) by (nonlinear_arith)
        requires
            start == 2 * h * a,
            n == 2 * h * b,
            start < n,
            h > 0,
    ;
    assert(2 * h * (a + 1) <= 2 * h * b) by (nonlinear_arith)
        requires
            a < b,
            h > 0,
    ;
    assert(2 * h * (a + 1) == 2 * h * a + 2 * h) by (nonlinear_arith);
}

proof fn lemma_halves(start: int, j: int, h: int)
    requires
        h > 0,
        0 <= start,
        start % (2 * h) == 0,
        0 <= j < h,
    ensures
        (start + j) / h % 2 == 0,
        (start + j + h) / h % 2 == 1,
{
    let a = start / (2 * h);
    vstd::arithmetic::div_mod::lemma_fundamental_div_mod(start, 2 * h);
    assert(start + j == (2 * a) * h + j) by (nonlinear_arith)
        requires
            start == 2 * h * a,
    ;
    assert(start + j + h == (2 * a + 1) * h + j) by (nonlinear_arith)
        requires
            start == 2 * h * a,
    ;
    vstd::arithmetic::div_mod::lemma_fundamental_div_mod_converse(start + j, h, 2 * a, j);
    vstd::arithmetic::div_mod::lemma_fundamental_div_mod_converse(start + j + h, h, 2 * a + 1, j);
}

/// A power of two is a multiple of twice every smaller one.
proof fn lemma_powers_divide(h: nat, n: nat)
    requires
        power_of_two(h),
        power_of_two(n),
        h < n,
    ensures
        n % (2 * h) == 0,
    decreases n,
{
    assert(n > 1);
    let half = n / 2;
    if h == 1 {
    } else {
        lemma_powers_divide(h / 2, half);
        let q = half / (2 * (h / 2));
        vstd::arithmetic::div_mod::lemma_fundamental_div_mod(half as int, h as int);
        assert(2 * (h / 2) == h);
        assert(n == 2 * half);
        assert(n == q * (2 * h)) by (nonlinear_arith)
            requires
                n == 2 * half,
                half == h * q,
        ;
        vstd::arithmetic::div_mod::lemma_mod_multiples_basic(q as int, (2 * h) as int);
    }
}

/// The Hadamard transform of values whose number is a power of two; others
/// stay. `pair` gives the sum and the difference of two values, and `norm`
/// divides a value by the root of a number.
pub fn fast_hadamard_transform_inplace<
    P: Fn(u32, u32) -> (u32, u32),
    N: Fn(u32, usize) -> u32,
>(data: &mut Vec<u32>, pair: &P, norm: &N)
    requires
        pure_pair(*pair),
        pure_pair(*norm),
    ensures
        final(data)@ == transformed(*pair, *norm, old(data)@),
        final(data)@.len() == old(data)@.len(),
{
    let n: usize = data.len();
    proof {
        law_transform_keeps_length(*pair, *norm, data@);
    }
    if n == 0 || !is_power_of_two(n) {
        return;
    }
    let ghost stages = stages_from(*pair, data@, 1);
    let mut h: usize = 1;
    while h < n
        invariant
            n == data@.len(),
            power_of_two(n as nat),
            power_of_two(h as nat),
            1 <= h <= n,
            pure_pair(*pair),
            stages_from(*pair, data@, h as nat) == stages,
        decreases n - h,
    {
        proof {
            lemma_powers_divide(h as nat, n as nat);
            lemma_block(0, n as int, h as int);
            assert(2 * h / 2 == h && 2 * h % 2 == 0);
        }
        combine_pairs(pair, data, h);
        h = h * 2;
    }
    assert(data@ == stages);
    let mut i: usize = 0;
    while i < n
        invariant
            i <= n == data@.len(),
            n == stages.len(),
            pure_pair(*norm),
            forall|j: int| 0 <= j < i ==> #[trigger] data@[j] == pair_value(*norm, stages[j], n),
            forall|j: int| i <= j < n ==> #[trigger] data@[j] == stages[j],
        decreases n - i,
    {
        let v: u32 = apply_pair(norm, data[i], n);
        data.set(i, v);
        i += 1;
    }
    assert(data@ =~= transformed(*pair, *norm, old(data)@));
}

/// The Hadamard transform of a vector, padded for it with zeros, and cut back
/// to its length.
pub fn fast_hadamard_transform<P: Fn(u32, u32) -> (u32, u32), N: Fn(u32, usize) -> u32>(
    data: &[u32],
    pair: &P,
    norm: &N,
) -> (r: Vec<u32>)
    requires
        pure_pair(*pair),
        pure_pair(*norm),
        power_from(1, data@.len()) <= usize::MAX,
    ensures
        r@ == if data@.len() == 0 {
            Seq::<u32>::empty()
        } else {
            transformed(*pair, *norm, padded(data@)).take(data@.len() as int)
        },
        r@.len() == data@.len(),
{
    if data.len() == 0 {
        return Vec::new();
    }
    let mut r: Vec<u32> = pad(data);
    fast_hadamard_transform_inplace(&mut r, pair, norm);
    r.truncate(data.len());
    r
}

// ---------------------------------------------------------------------------
// The quantizer
// ---------------------------------------------------------------------------

/// Bytes of a vector on a grid. `grid` gives the place of a component under a
/// factor.
pub open spec fn on_grid<G: Fn(u32, u32) -> u8>(
    grid: G,
    bits: u8,
    vector: Seq<u32>,
    scale: u32,
) -> Seq<u8> {
    packed(vector.map_values(|v: u32| pair_value(grid, v, scale)), bits)
}

/// Components from packed bytes. `value` gives the component for a place on
/// the grid under a factor.
pub open spec fn reconstructed<V: Fn(u8, u32) -> u32>(
    value: V,
    bits: u8,
    data: Seq<u8>,
    scale: u32,
    dimensions: nat,
) -> Seq<u32> {
    unpacked(data, bits, dimensions).map_values(|q: u8| pair_value(value, q, scale))
}

/// What is lost of a vector under a factor.
pub open spec fn loss<G: Fn(u32, u32) -> u8, V: Fn(u8, u32) -> u32, E: Fn(&[u32], &[u32]) -> u32>(
    grid: G,
    value: V,
    error: E,
    bits: u8,
    vector: Seq<u32>,
    scale: u32,
) -> u32 {
    metric_value(
        error,
        vector,
        reconstructed(value, bits, on_grid(grid, bits, vector, scale), scale, vector.len()),
    )
}

/// The first of the factors that lose least, with the loss and the bytes. The
/// factor is one, without bytes, where all lose too much to tell.
pub open spec fn best_scale<
    G: Fn(u32, u32) -> u8,
    V: Fn(u8, u32) -> u32,
    E: Fn(&[u32], &[u32]) -> u32,
>(grid: G, value: V, error: E, bits: u8, vector: Seq<u32>, scales: Seq<u32>) -> (
    u32,
    Seq<u8>,
    u32,
)
    decreases scales.len(),
{
    if scales.len() == 0 {
        (GREATEST, Seq::empty(), UNIT)
    } else {
        let best = best_scale(grid, value, error, bits, vector, scales.drop_last());
        let scale = scales.last();
        let lost = loss(grid, value, error, bits, vector, scale);
        if float_lt(lost, best.0) {
            (lost, on_grid(grid, bits, vector, scale), scale)
        } else {
            best
        }
    }
}

/// No factor loses less than the one that is chosen.
pub proof fn law_best_scale<
    G: Fn(u32, u32) -> u8,
    V: Fn(u8, u32) -> u32,
    E: Fn(&[u32], &[u32]) -> u32,
>(grid: G, value: V, error: E, bits: u8, vector: Seq<u32>, scales: Seq<u32>)
    ensures
        forall|i: int|
            0 <= i < scales.len() ==> !float_lt(
                loss(grid, value, error, bits, vector, #[trigger] scales[i]),
                best_scale(grid, value, error, bits, vector, scales).0,
            ),
    decreases scales.len(),
{
    if scales.len() > 0 {
        let front = scales.drop_last();
        law_best_scale(grid, value, error, bits, vector, front);
        assert forall|i: int| 0 <= i < scales.len() implies !float_lt(
            loss(grid, value, error, bits, vector, #[trigger] scales[i]),
            best_scale(grid, value, error, bits, vector, scales).0,
        ) by {
            if i < front.len() {
                assert(front[i] == scales[i]);
            }
        }
    }
}

/// A vector was quantized: rotated first where that is wanted, and then put on
/// the grid under the first of the factors that lose least.
pub open spec fn quantized_as<
    G: Fn(u32, u32) -> u8,
    V: Fn(u8, u32) -> u32,
    E: Fn(&[u32], &[u32]) -> u32,
    P: Fn(u32, u32) -> (u32, u32),
    N: Fn(u32, usize) -> u32,
>(
    params: ExtendedRaBitQParams,
    grid: G,
    value: V,
    error: E,
    pair: P,
    norm: N,
    vector: Seq<u32>,
    scales: Seq<u32>,
    r: QuantizedVector,
) -> bool {
    let working = if params.use_fht { rotated(pair, norm, vector) } else { vector };
    let best = best_scale(grid, value, error, params.bits_per_dim.width(), working, scales);
    &&& r.data@ == best.1
    &&& r.scale == best.2
    &&& r.bits == params.bits_per_dim.width()
    &&& r.dimensions == vector.len()
    &&& r.fht_applied == params.use_fht
}

/// A quantized vector was restored: taken from the grid, and then rotated back
/// where it had been rotated.
pub open spec fn restored_as<
    V: Fn(u8, u32) -> u32,
    P: Fn(u32, u32) -> (u32, u32),
    N: Fn(u32, usize) -> u32,
>(
    params: ExtendedRaBitQParams,
    value: V,
    pair: P,
    norm: N,
    qv: QuantizedVector,
    r: Seq<u32>,
) -> bool {
    let plain = reconstructed(
        value,
        params.bits_per_dim.width(),
        qv.data@,
        qv.scale,
        qv.dimensions as nat,
    );
    r == if qv.fht_applied { rotated_back(pair, norm, plain) } else { plain }
}

/// A quantizer.
#[derive(Debug)]
pub struct ExtendedRaBitQ {
    params: ExtendedRaBitQParams,
}

impl ExtendedRaBitQ {
    pub closed spec fn view(&self) -> ExtendedRaBitQParams {
        self.params
    }

    pub fn new(params: ExtendedRaBitQParams) -> (r: Self)
        ensures
            r@ == params,
    {
        ExtendedRaBitQ { params }
    }

    /// A quantizer to four bits.
    pub fn default_4bit() -> (r: Self)
        ensures
            r@ == default_rabitq(),
    {
        ExtendedRaBitQ::new(ExtendedRaBitQParams::bits4())
    }

    pub fn params(&self) -> (r: &ExtendedRaBitQParams)
        ensures
            *r == self@,
    {
        &self.params
    }

    /// Packs values into bytes.
    pub fn pack_quantized(&self, values: &[u8], bits: u8) -> (r: Vec<u8>)
        ensures
            r@ == packed(values@, bits),
    {
        let n: usize = values.len();
        let mut r: Vec<u8> = Vec::new();
        if bits == 2 {
            let mut i: usize = 0;
            while i < n
                invariant
                    n == values@.len(),
                    bits == 2,
                    i == 4 * r@.len() || (i == n && r@.len() == (n + 3) / 4),
                    r@.len() <= (n + 3) / 4,
                    i >= n ==> r@.len() == (n + 3) / 4,
                    forall|k: int| 0 <= k < r@.len() ==> #[trigger] r@[k] == packed_byte(
                        values@,
                        bits,
                        k,
                    ),
                decreases n - i,
            {
                let a: u8 = value_at(values, i) % 4;
                let b: u8 = if i + 1 < n { value_at(values, i + 1) % 4 } else { 0 };
                let c: u8 = if n - i > 2 { value_at(values, i + 2) % 4 } else { 0 };
                let d: u8 = if n - i > 3 { value_at(values, i + 3) % 4 } else { 0 };
                r.push(a + b * 4 + c * 16 + d * 64);
                i = if n - i > 4 { i + 4 } else { n };
            }
        } else if bits == 4 {
            let mut i: usize = 0;
            while i < n
                invariant
                    n == values@.len(),
                    bits == 4,
                    i == 2 * r@.len() || (i == n && r@.len() == (n + 1) / 2),
                    r@.len() <= (n + 1) / 2,
                    i >= n ==> r@.len() == (n + 1) / 2,
                    forall|k: int| 0 <= k < r@.len() ==> #[trigger] r@[k] == packed_byte(
                        values@,
                        bits,
                        k,
                    ),
                decreases n - i,
            {
                let a: u8 = value_at(values, i) % 16;
                let b: u8 = if i + 1 < n { value_at(values, i + 1) % 16 } else { 0 };
                r.push(a * 16 + b);
                i = if n - i > 2 { i + 2 } else { n };
            }
        } else {
            let mut i: usize = 0;
            while i < n
                invariant
                    n == values@.len(),
                    i <= n,
                    r@.len() == i,
                    forall|k: int| 0 <= k < i ==> #[trigger] r@[k] == values@[k],
                decreases n - i,
            {
                r.push(values[i]);
                i += 1;
            }
        }
        assert(r@ =~= packed(values@, bits));
        r
    }

    /// The values in packed bytes, `dimensions` at most.
    pub fn unpack_quantized(&self, packed: &[u8], bits: u8, dimensions: usize) -> (r: Vec<u8>)
        ensures
            r@ == unpacked(packed@, bits, dimensions as nat),
    {
        let mut r: Vec<u8> = Vec::new();
        let per: usize = if bits == 2 {
            4
        } else if bits == 4 {
            2
        } else {
            1
        };
        let mut i: usize = 0;
        let mut k: usize = 0;
        while i < dimensions && k < packed.len()
            invariant
                i == r@.len(),
                i <= dimensions,
                per == packed_per_byte(bits),
                k <= packed@.len(),
                i == k * per || i == dimensions,
                i <= packed@.len() * per,
                forall|j: int| 0 <= j < i ==> #[trigger] r@[j] == unpacked_value(packed@, bits, j),
            decreases packed.len() - k,
        {
            let byte: u8 = packed[k];
            if bits == 2 {
                r.push(byte % 4);
                if r.len() < dimensions {
                    r.push(byte / 4 % 4);
                }
                if r.len() < dimensions {
                    r.push(byte / 16 % 4);
                }
                if r.len() < dimensions {
                    r.push(byte / 64);
                }
            } else if bits == 4 {
                r.push(byte / 16);
                if r.len() < dimensions {
                    r.push(byte % 16);
                }
            } else {
                r.push(byte);
            }
            i = r.len();
            k += 1;
        }
        assert(r@ =~= unpacked(packed@, bits, dimensions as nat));
        r
    }

    /// Puts a vector on the grid under a factor, and packs it.
    fn quantize_with_scale<G: Fn(u32, u32) -> u8>(
        &self,
        vector: &Vec<u32>,
        scale: u32,
        grid: &G,
    ) -> (r: Vec<u8>)
        requires
            pure_pair(*grid),
        ensures
            r@ == on_grid(*grid, self@.bits_per_dim.width(), vector@, scale),
    {
        let mut values: Vec<u8> = Vec::new();
        let mut i: usize = 0;
        while i < vector.len()
            invariant
                i <= vector@.len(),
                values@.len() == i,
                pure_pair(*grid),
                forall|j: int| 0 <= j < i ==> #[trigger] values@[j] == pair_value(
                    *grid,
                    vector@[j],
                    scale,
                ),
            decreases vector.len() - i,
        {
            values.push(apply_pair(grid, vector[i], scale));
            i += 1;
        }
        assert(values@ =~= vector@.map_values(|v: u32| pair_value(*grid, v, scale)));
        self.pack_quantized(values.as_slice(), self.params.bits_per_dim.to_u8())
    }

    /// The components that packed bytes stand for under a factor.
    pub fn reconstruct<V: Fn(u8, u32) -> u32>(
        &self,
        quantized: &[u8],
        scale: u32,
        dimensions: usize,
        value: &V,
    ) -> (r: Vec<u32>)
        requires
            pure_pair(*value),
        ensures
            r@ == reconstructed(
                *value,
                self@.bits_per_dim.width(),
                quantized@,
                scale,
                dimensions as nat,
            ),
    {
        let values: Vec<u8> = self.unpack_quantized(
            quantized,
            self.params.bits_per_dim.to_u8(),
            dimensions,
        );
        let mut r: Vec<u32> = Vec::new();
        let mut i: usize = 0;
        while i < values.len()
            invariant
                i <= values@.len(),
                r@.len() == i,
                pure_pair(*value),
                forall|j: int| 0 <= j < i ==> #[trigger] r@[j] == pair_value(
                    *value,
                    values@[j],
                    scale,
                ),
            decreases values.len() - i,
        {
            r.push(apply_pair(value, values[i], scale));
            i += 1;
        }
        assert(r@ =~= values@.map_values(|q: u8| pair_value(*value, q, scale)));
        r
    }

    /// What packed bytes lose of a vector.
    pub fn compute_error<V: Fn(u8, u32) -> u32, E: Fn(&[u32], &[u32]) -> u32>(
        &self,
        original: &Vec<u32>,
        quantized: &[u8],
        scale: u32,
        value: &V,
        error: &E,
    ) -> (r: u32)
        requires
            pure_pair(*value),
            metric_ok(*error),
            unpacked(quantized@, self@.bits_per_dim.width(), original@.len()).len()
                == original@.len(),
        ensures
            r == metric_value(
                *error,
                original@,
                reconstructed(
                    *value,
                    self@.bits_per_dim.width(),
                    quantized@,
                    scale,
                    original@.len(),
                ),
            ),
    {
        let back: Vec<u32> = self.reconstruct(quantized, scale, original.len(), value);
        measure(error, original.as_slice(), back.as_slice())
    }

    /// Rotates a vector.
    fn apply_fht_to_vector<P: Fn(u32, u32) -> (u32, u32), N: Fn(u32, usize) -> u32>(
        &self,
        vector: &[u32],
        pair: &P,
        norm: &N,
    ) -> (r: Vec<u32>)
        requires
            pure_pair(*pair),
            pure_pair(*norm),
            power_from(1, vector@.len()) <= usize::MAX,
        ensures
            r@ == rotated(*pair, *norm, vector@),
            r@.len() == vector@.len(),
    {
        proof {
            law_transform_keeps_length(*pair, *norm, vector@);
        }
        let n: usize = vector.len();
        if n == 0 {
            return Vec::new();
        }
        let mut data: Vec<u32> = pad(vector);
        apply_random_signs(&mut data, n as u64);
        fast_hadamard_transform_inplace(&mut data, pair, norm);
        data.truncate(n);
        data
    }

    /// Reverses the rotation of a vector.
    fn apply_inverse_fht_to_vector<P: Fn(u32, u32) -> (u32, u32), N: Fn(u32, usize) -> u32>(
        &self,
        vector: &[u32],
        pair: &P,
        norm: &N,
    ) -> (r: Vec<u32>)
        requires
            pure_pair(*pair),
            pure_pair(*norm),
            power_from(1, vector@.len()) <= usize::MAX,
        ensures
            r@ == rotated_back(*pair, *norm, vector@),
            r@.len() == vector@.len(),
    {
        proof {
            law_transform_keeps_length(*pair, *norm, vector@);
        }
        let n: usize = vector.len();
        if n == 0 {
            return Vec::new();
        }
        let mut data: Vec<u32> = pad(vector);
        fast_hadamard_transform_inplace(&mut data, pair, norm);
        apply_random_signs(&mut data, n as u64);
        data.truncate(n);
        data
    }

    /// Quantizes a vector: rotates it where that is wanted, and takes the first
    /// of the factors that lose least.
    pub fn quantize<
        G: Fn(u32, u32) -> u8,
        V: Fn(u8, u32) -> u32,
        E: Fn(&[u32], &[u32]) -> u32,
        P: Fn(u32, u32) -> (u32, u32),
        N: Fn(u32, usize) -> u32,
    >(
        &self,
        vector: &[u32],
        scales: &Vec<u32>,
        grid: &G,
        value: &V,
        error: &E,
        pair: &P,
        norm: &N,
    ) -> (r: QuantizedVector)
        requires
            pure_pair(*grid),
            pure_pair(*value),
            metric_ok(*error),
            self@.use_fht ==> pure_pair(*pair) && pure_pair(*norm) && power_from(1, vector@.len())
                <= usize::MAX,
        ensures
            ({
                let working = if self@.use_fht {
                    rotated(*pair, *norm, vector@)
                } else {
                    vector@
                };
                let best = best_scale(
                    *grid,
                    *value,
                    *error,
                    self@.bits_per_dim.width(),
                    working,
                    scales@,
                );
                r.data@ == best.1 && r.scale == best.2
            }),
            r.bits == self@.bits_per_dim.width(),
            r.dimensions == vector@.len(),
            r.fht_applied == self@.use_fht,
            quantized_as(
                self@,
                *grid,
                *value,
                *error,
                *pair,
                *norm,
                vector@,
                scales@,
                r,
            ),
    {
        let working: Vec<u32> = if self.params.use_fht {
            self.apply_fht_to_vector(vector, pair, norm)
        } else {
            slice_to_vec(vector)
        };
        let ghost bits = self@.bits_per_dim.width();
        let mut least: u32 = GREATEST;
        let mut data: Vec<u8> = Vec::new();
        let mut factor: u32 = UNIT;
        let mut i: usize = 0;
        assert(scales@.take(0) =~= Seq::<u32>::empty());
        while i < scales.len()
            invariant
                i <= scales@.len(),
                pure_pair(*grid),
                pure_pair(*value),
                metric_ok(*error),
                bits == self@.bits_per_dim.width(),
                (least, data@, factor) == best_scale(
                    *grid,
                    *value,
                    *error,
                    bits,
                    working@,
                    scales@.take(i as int),
                ),
            decreases scales.len() - i,
        {
            let scale: u32 = scales[i];
            let bytes: Vec<u8> = self.quantize_with_scale(&working, scale, grid);
            proof {
                lemma_unpacked_length(
                    working@.map_values(|v: u32| pair_value(*grid, v, scale)),
                    bits,
                );
                assert(scales@.take(i + 1).drop_last() =~= scales@.take(i as int));
            }
            let lost: u32 = self.compute_error(&working, bytes.as_slice(), scale, value, error);
            if less(lost, least) {
                least = lost;
                data = bytes;
                factor = scale;
            }
            i += 1;
        }
        assert(scales@.take(i as int) =~= scales@);
        QuantizedVector::new_with_fht(
            data,
            factor,
            self.params.bits_per_dim.to_u8(),
            vector.len(),
            self.params.use_fht,
        )
    }

    /// The components of a quantized vector, with its rotation reversed.
    pub fn reconstruct_full<
        V: Fn(u8, u32) -> u32,
        P: Fn(u32, u32) -> (u32, u32),
        N: Fn(u32, usize) -> u32,
    >(&self, qv: &QuantizedVector, value: &V, pair: &P, norm: &N) -> (r: Vec<u32>)
        requires
            pure_pair(*value),
            qv.fht_applied ==> pure_pair(*pair) && pure_pair(*norm) && power_from(
                1,
                qv.dimensions as nat,
            ) <= usize::MAX,
        ensures
            ({
                let plain = reconstructed(
                    *value,
                    self@.bits_per_dim.width(),
                    qv.data@,
                    qv.scale,
                    qv.dimensions as nat,
                );
                r@ == if qv.fht_applied {
                    rotated_back(*pair, *norm, plain)
                } else {
                    plain
                }
            }),
            restored_as(self@, *value, *pair, *norm, *qv, r@),
    {
        let plain: Vec<u32> = self.reconstruct(
            qv.data.as_slice(),
            qv.scale,
            qv.dimensions,
            value,
        );
        if qv.fht_applied {
            proof {
                lemma_power_monotone(1, plain@.len(), qv.dimensions as nat);
            }
            self.apply_inverse_fht_to_vector(plain.as_slice(), pair, norm)
        } else {
            plain
        }
    }
}

proof fn lemma_power_monotone(p: nat, small: nat, large: nat)
    requires
        small <= large,
        p > 0,
    ensures
        power_from(p, small) <= power_from(p, large),
    decreases (if p < large { large - p } else { 0 }),
{
    if p < small {
        lemma_power_monotone(2 * p, small, large);
    } else if p < large {
        lemma_power_at_least(p, large);
    }
}

proof fn lemma_power_at_least(p: nat, n: nat)
    requires
        p > 0,
    ensures
        power_from(p, n) >= p,
    decreases (if p < n { n - p } else { 0 }),
{
    if p < n {
        lemma_power_at_least(2 * p, n);
    }
}

} // verus!
