//! What rotation and quantization mean, said of numbers.

use vstd::arithmetic::div_mod::{
    lemma_fundamental_div_mod, lemma_fundamental_div_mod_converse, lemma_mod_multiples_basic,
};
use vstd::prelude::*;

use crate::batch_builder::GREATEST;
use crate::distance::{float_lt, is_nan, metric_value};
use crate::extended_rabitq::{
    best_scale, butterflies, law_pack_unpack, law_signs_twice, law_transform_keeps_length, loss,
    negated, on_grid, packed, padded, pair_value, power_from, power_of_two, quantized_as,
    reconstructed, restored_as, rotated, rotated_back, stages_from, transformed, unpacked,
    with_signs, ExtendedRaBitQParams, QuantizedVector, UNIT,
};
use crate::index::sequential_laws::{law_generator, state_follows};

verus! {

/// `pair` gives the sum and the difference of two values, as far as `val` tells
/// what values they are.
pub open spec fn adds_and_subtracts<P: Fn(u32, u32) -> (u32, u32)>(
    pair: P,
    val: spec_fn(u32) -> int,
) -> bool {
    forall|a: u32, b: u32|
        {
            &&& val((#[trigger] pair_value(pair, a, b)).0) == val(a) + val(b)
            &&& val(pair_value(pair, a, b).1) == val(a) - val(b)
        }
}

/// The sign at row `i` and column `j` of the Hadamard matrix: negative if the
/// two numbers have an odd number of binary digits in common.
pub open spec fn hadamard_sign(i: nat, j: nat) -> int
    decreases i,
{
    if i == 0 || j == 0 {
        1
    } else if i % 2 == 1 && j % 2 == 1 {
        -hadamard_sign(i / 2, j / 2)
    } else {
        hadamard_sign(i / 2, j / 2)
    }
}

/// The first `m` columns of row `i` of the Hadamard matrix applied to values
/// from `base` on.
pub open spec fn signed_sum(
    val: spec_fn(u32) -> int,
    data: Seq<u32>,
    base: int,
    i: nat,
    m: nat,
) -> int
    decreases m,
{
    if m == 0 {
        0
    } else {
        signed_sum(val, data, base, i, (m - 1) as nat) + hadamard_sign(i, (m - 1) as nat) * val(
            data[base + m - 1],
        )
    }
}

proof fn lemma_sign_shift(i: nat, j: nat, h: nat)
    requires
        power_of_two(h),
        i < h,
        j < h,
    ensures
        hadamard_sign(i + h, j) == hadamard_sign(i, j),
        hadamard_sign(i, j + h) == hadamard_sign(i, j),
        hadamard_sign(i + h, j + h) == -hadamard_sign(i, j),
    decreases h,
{
    reveal_with_fuel(hadamard_sign, 2);
    if h > 1 {
        let g = h / 2;
        assert(h == 2 * g);
        lemma_sign_shift(i / 2, j / 2, g);
        assert((i + h) / 2 == i / 2 + g && (i + h) % 2 == i % 2);
        assert((j + h) / 2 == j / 2 + g && (j + h) % 2 == j % 2);
    }
}

proof fn lemma_sum_low(val: spec_fn(u32) -> int, data: Seq<u32>, base: int, i: nat, h: nat, m: nat)
    requires
        power_of_two(h),
        i < h,
        m <= h,
    ensures
        signed_sum(val, data, base, i, h + m) == signed_sum(val, data, base, i, h) + signed_sum(
            val,
            data,
            base + h,
            i,
            m,
        ),
    decreases m,
{
    if m > 0 {
        lemma_sum_low(val, data, base, i, h, (m - 1) as nat);
        lemma_sign_shift(i, (m - 1) as nat, h);
        assert((h + m - 1) as nat == (m - 1) as nat + h);
    }
}

proof fn lemma_sum_same(val: spec_fn(u32) -> int, data: Seq<u32>, base: int, i: nat, h: nat, m: nat)
    requires
        power_of_two(h),
        i < h,
        m <= h,
    ensures
        signed_sum(val, data, base, i + h, m) == signed_sum(val, data, base, i, m),
    decreases m,
{
    if m > 0 {
        lemma_sum_same(val, data, base, i, h, (m - 1) as nat);
        lemma_sign_shift(i, (m - 1) as nat, h);
    }
}

proof fn lemma_sum_high(val: spec_fn(u32) -> int, data: Seq<u32>, base: int, i: nat, h: nat, m: nat)
    requires
        power_of_two(h),
        i < h,
        m <= h,
    ensures
        signed_sum(val, data, base, i + h, h + m) == signed_sum(val, data, base, i, h) - signed_sum(
            val,
            data,
            base + h,
            i,
            m,
        ),
    decreases m,
{
    if m == 0 {
        lemma_sum_same(val, data, base, i, h, h);
    } else {
        lemma_sum_high(val, data, base, i, h, (m - 1) as nat);
        lemma_sign_shift(i, (m - 1) as nat, h);
        let a = hadamard_sign(i, (m - 1) as nat);
        let x = val(data[base + h + m - 1]);
        assert((h + m - 1) as nat == (m - 1) as nat + h);
        assert((-a) * x == -(a * x)) by (nonlinear_arith);
    }
}

/// Each block of `h` values is transformed.
spec fn half_way(val: spec_fn(u32) -> int, now: Seq<u32>, data: Seq<u32>, h: int) -> bool {
    &&& now.len() == data.len()
    &&& forall|i: int|
        0 <= i < data.len() ==> val(#[trigger] now[i]) == signed_sum(
            val,
            data,
            i / h * h,
            (i % h) as nat,
            h as nat,
        )
}

proof fn lemma_stage<P: Fn(u32, u32) -> (u32, u32)>(
    pair: P,
    val: spec_fn(u32) -> int,
    now: Seq<u32>,
    data: Seq<u32>,
    h: nat,
)
    requires
        adds_and_subtracts(pair, val),
        half_way(val, now, data, h as int),
        power_of_two(h),
        data.len() as int % (2 * h as int) == 0,
    ensures
        half_way(val, butterflies(pair, now, h as int), data, 2 * h as int),
{
    let n = data.len() as int;
    let k = h as int;
    let next = butterflies(pair, now, k);
    assert forall|i: int| 0 <= i < n implies val(#[trigger] next[i]) == signed_sum(
        val,
        data,
        i / (2 * k) * (2 * k),
        (i % (2 * k)) as nat,
        (2 * k) as nat,
    ) by {
        let q = i / k;
        let r = i % k;
        lemma_fundamental_div_mod(i, k);
        assert(0 <= r < k);
        assert(q >= 0) by (nonlinear_arith)
            requires
                i == k * q + r,
                i >= 0,
                r < k,
                k > 0,
        ;
        let t = q / 2;
        if q % 2 == 0 {
            assert(q == 2 * t);
            assert(i == t * (2 * k) + r) by (nonlinear_arith)
                requires
                    i == k * q + r,
                    q == 2 * t,
            ;
            lemma_fundamental_div_mod_converse(i, 2 * k, t, r);
            lemma_fundamental_div_mod(n, 2 * k);
            let s = n / (2 * k);
            assert(t < s) by (nonlinear_arith)
                requires
                    t * (2 * k) + r == i,
                    i < n,
                    n == 2 * k * s,
                    r >= 0,
                    k > 0,
            ;
            assert(i + k < n) by (nonlinear_arith)
                requires
                    t < s,
                    n == 2 * k * s,
                    i == t * (2 * k) + r,
                    r < k,
                    k > 0,
            ;
            assert(i + k == (q + 1) * k + r) by (nonlinear_arith)
                requires
                    i == k * q + r,
            ;
            lemma_fundamental_div_mod_converse(i + k, k, q + 1, r);
            assert((q + 1) * k == q * k + k && t * (2 * k) == q * k) by (nonlinear_arith)
                requires
                    q == 2 * t,
            ;
            lemma_sum_low(val, data, q * k, r as nat, h, h);
            assert(next[i] == pair_value(pair, now[i], now[i + k]).0);
            assert(val(now[i]) == signed_sum(val, data, q * k, r as nat, h));
            assert(val(now[i + k]) == signed_sum(val, data, q * k + k, r as nat, h));
        } else {
            assert(q == 2 * t + 1);
            assert(i == t * (2 * k) + (r + k)) by (nonlinear_arith)
                requires
                    i == k * q + r,
                    q == 2 * t + 1,
            ;
            lemma_fundamental_div_mod_converse(i, 2 * k, t, r + k);
            assert(i - k == (q - 1) * k + r) by (nonlinear_arith)
                requires
                    i == k * q + r,
            ;
            assert((q - 1) * k >= 0) by (nonlinear_arith)
                requires
                    q >= 1,
                    k > 0,
            ;
            lemma_fundamental_div_mod_converse(i - k, k, q - 1, r);
            assert((q - 1) * k + k == q * k && t * (2 * k) == (q - 1) * k) by (nonlinear_arith)
                requires
                    q == 2 * t + 1,
            ;
            lemma_sum_high(val, data, (q - 1) * k, r as nat, h, h);
            assert(next[i] == pair_value(pair, now[i - k], now[i]).1);
            assert(val(now[i - k]) == signed_sum(val, data, (q - 1) * k, r as nat, h));
            assert(val(now[i]) == signed_sum(val, data, (q - 1) * k + k, r as nat, h));
        }
    }
}

proof fn lemma_powers_divide(h: nat, n: nat)
    requires
        power_of_two(h),
        power_of_two(n),
        h < n,
    ensures
        n as int % (2 * h as int) == 0,
        2 * h <= n,
    decreases n,
{
    let half = n / 2;
    assert(n == 2 * half);
    if h > 1 {
        lemma_powers_divide(h / 2, half);
        assert(2 * (h / 2) == h);
        let q = half as int / h as int;
        lemma_fundamental_div_mod(half as int, h as int);
        assert(n == q * (2 * h as int)) by (nonlinear_arith)
            requires
                n == 2 * half,
                half == h * q,
        ;
        lemma_mod_multiples_basic(q, 2 * h as int);
    }
}

proof fn lemma_stages<P: Fn(u32, u32) -> (u32, u32)>(
    pair: P,
    val: spec_fn(u32) -> int,
    now: Seq<u32>,
    data: Seq<u32>,
    h: nat,
)
    requires
        adds_and_subtracts(pair, val),
        half_way(val, now, data, h as int),
        power_of_two(h),
        power_of_two(data.len()),
        h <= data.len(),
    ensures
        half_way(val, stages_from(pair, now, h), data, data.len() as int),
    decreases data.len() - h,
{
    if h < data.len() {
        lemma_powers_divide(h, data.len());
        lemma_stage(pair, val, now, data, h);
        assert(2 * h / 2 == h && 2 * h % 2 == 0);
        lemma_stages(pair, val, butterflies(pair, now, h as int), data, 2 * h);
    }
}

/// The transform is the Hadamard transform: before they are divided by the root
/// of their number, the values are the products of the rows of the Hadamard
/// matrix with the values that were given.
pub proof fn law_transform_is_hadamard<
    P: Fn(u32, u32) -> (u32, u32),
    N: Fn(u32, usize) -> u32,
>(pair: P, norm: N, val: spec_fn(u32) -> int, data: Seq<u32>) -> (sums: Seq<u32>)
    requires
        adds_and_subtracts(pair, val),
        power_of_two(data.len()),
    ensures
        sums.len() == data.len(),
        transformed(pair, norm, data).len() == data.len(),
        forall|i: int|
            0 <= i < data.len() ==> {
                &&& val(#[trigger] sums[i]) == signed_sum(val, data, 0, i as nat, data.len())
                &&& transformed(pair, norm, data)[i] == pair_value(
                    norm,
                    sums[i],
                    data.len() as usize,
                )
            },
{
    let n = data.len() as int;
    let sums = stages_from(pair, data, 1);
    assert forall|i: int| 0 <= i < n implies val(#[trigger] data[i]) == signed_sum(
        val,
        data,
        i / 1 * 1,
        (i % 1) as nat,
        1,
    ) by {
        reveal_with_fuel(signed_sum, 2);
        reveal_with_fuel(hadamard_sign, 1);
        assert(i / 1 * 1 == i && i % 1 == 0);
        assert(signed_sum(val, data, i, 0, 1) == 0 + hadamard_sign(0, 0) * val(data[i + 1 - 1]));
    }
    lemma_stages(pair, val, data, data, 1);
    law_transform_keeps_length(pair, norm, data);
    assert forall|i: int| 0 <= i < n implies {
        &&& val(#[trigger] sums[i]) == signed_sum(val, data, 0, i as nat, data.len())
        &&& transformed(pair, norm, data)[i] == pair_value(norm, sums[i], data.len() as usize)
    } by {
        assert(i / n * n == 0 && i % n == i) by {
            lemma_fundamental_div_mod_converse(i, n, 0, i);
            assert(0 * n == 0);
        }
    }
    sums
}

/// `val` tells what values bits stand for: zero bits for zero, and bits with
/// the sign flipped for the opposite.
pub open spec fn signed_values(val: spec_fn(u32) -> int) -> bool {
    &&& val(0) == 0
    &&& forall|b: u32| val(#[trigger] negated(b)) == -val(b)
}

/// The first `m` columns of row `i` of the Hadamard matrix applied to values,
/// some with their signs flipped, and zeros behind them.
pub open spec fn flipped_sum(
    val: spec_fn(u32) -> int,
    flips: Seq<bool>,
    data: Seq<u32>,
    i: nat,
    m: nat,
) -> int
    decreases m,
{
    if m == 0 {
        0
    } else {
        let j = m - 1;
        let x = if j >= data.len() {
            0
        } else if flips[j] {
            -val(data[j])
        } else {
            val(data[j])
        };
        flipped_sum(val, flips, data, i, j as nat) + hadamard_sign(i, j as nat) * x
    }
}

proof fn lemma_flipped_sum(
    val: spec_fn(u32) -> int,
    flips: Seq<bool>,
    data: Seq<u32>,
    given: Seq<u32>,
    i: nat,
    m: nat,
)
    requires
        forall|j: int|
            0 <= j < m ==> val(#[trigger] given[j]) == (if j >= data.len() {
                0
            } else if flips[j] {
                -val(data[j])
            } else {
                val(data[j])
            }),
    ensures
        signed_sum(val, given, 0, i, m) == flipped_sum(val, flips, data, i, m),
    decreases m,
{
    if m > 0 {
        lemma_flipped_sum(val, flips, data, given, i, (m - 1) as nat);
        assert(given[0 + m - 1] == given[m - 1]);
    }
}

/// A component of a rotated vector is a row of the Hadamard matrix times the
/// vector with some signs flipped, divided by the root of the number of rows.
pub open spec fn rotates_at<P: Fn(u32, u32) -> (u32, u32), N: Fn(u32, usize) -> u32>(
    pair: P,
    norm: N,
    val: spec_fn(u32) -> int,
    rows: nat,
    flips: Seq<bool>,
    v: Seq<u32>,
    i: int,
) -> bool {
    exists|u: u32|
        {
            &&& rotated(pair, norm, v)[i] == #[trigger] pair_value(norm, u, rows as usize)
            &&& val(u) == flipped_sum(val, flips, v, i as nat, rows)
        }
}

/// A component of a vector that was rotated back is a row of the Hadamard
/// matrix times the vector, divided by the root of the number of rows, with its
/// sign flipped for some components.
pub open spec fn rotates_back_at<P: Fn(u32, u32) -> (u32, u32), N: Fn(u32, usize) -> u32>(
    pair: P,
    norm: N,
    val: spec_fn(u32) -> int,
    rows: nat,
    flips: Seq<bool>,
    v: Seq<u32>,
    i: int,
) -> bool {
    exists|u: u32|
        {
            let w = #[trigger] pair_value(norm, u, rows as usize);
            &&& rotated_back(pair, norm, v)[i] == (if flips[i] { negated(w) } else { w })
            &&& val(u) == flipped_sum(val, Seq::new(rows, |j: int| false), v, i as nat, rows)
        }
}

/// A rotation flips the signs of some components, fixed for the length of the
/// vector, and then multiplies with the Hadamard matrix; the reverse multiplies
/// with the same matrix and then flips the same signs.
pub proof fn law_rotation<P: Fn(u32, u32) -> (u32, u32), N: Fn(u32, usize) -> u32>(
    pair: P,
    norm: N,
    val: spec_fn(u32) -> int,
    n: nat,
) -> (r: (nat, Seq<bool>))
    requires
        adds_and_subtracts(pair, val),
        signed_values(val),
        n > 0,
    ensures
        power_of_two(r.0),
        n <= r.0,
        r.0 == n || r.0 < 2 * n,
        r.1.len() == r.0,
        forall|v: Seq<u32>, i: int|
            v.len() == n && 0 <= i < n ==> #[trigger] rotates_at(pair, norm, val, r.0, r.1, v, i),
        forall|v: Seq<u32>, i: int|
            v.len() == n && 0 <= i < n ==> #[trigger] rotates_back_at(
                pair,
                norm,
                val,
                r.0,
                r.1,
                v,
                i,
            ),
        forall|v: Seq<u32>|
            v.len() == n ==> (#[trigger] rotated(pair, norm, v)).len() == n,
        forall|v: Seq<u32>|
            v.len() == n ==> (#[trigger] rotated_back(pair, norm, v)).len() == n,
{
    let p = power_from(1, n);
    lemma_power(1, n);
    let flips = Seq::new(p, |i: int| with_signs(Seq::new(p, |j: int| 0u32), n as u64)[i] != 0);
    let still = Seq::new(p, |j: int| false);
    assert forall|v: Seq<u32>, i: int| v.len() == n && 0 <= i < n implies #[trigger] rotates_at(
        pair,
        norm,
        val,
        p,
        flips,
        v,
        i,
    ) by {
        let given = with_signs(padded(v), n as u64);
        let sums = law_transform_is_hadamard(pair, norm, val, given);
        assert forall|j: int| 0 <= j < p implies val(#[trigger] given[j]) == (if j >= v.len() {
            0
        } else if flips[j] {
            -val(v[j])
        } else {
            val(v[j])
        }) by {
            lemma_flip(padded(v), n as u64, j, p);
        }
        lemma_flipped_sum(val, flips, v, given, i as nat, p);
        let u = sums[i];
        assert(transformed(pair, norm, given)[i] == pair_value(norm, u, p as usize));
        assert(rotated(pair, norm, v)[i] == pair_value(norm, u, p as usize));
    }
    assert forall|v: Seq<u32>, i: int|
        v.len() == n && 0 <= i < n implies #[trigger] rotates_back_at(
        pair,
        norm,
        val,
        p,
        flips,
        v,
        i,
    ) by {
        let given = padded(v);
        let sums = law_transform_is_hadamard(pair, norm, val, given);
        lemma_flipped_sum(val, still, v, given, i as nat, p);
        let u = sums[i];
        let w = pair_value(norm, u, p as usize);
        let there = transformed(pair, norm, given);
        assert(there[i] == w);
        lemma_flip(there, n as u64, i, p);
        assert(rotated_back(pair, norm, v)[i] == with_signs(there, n as u64)[i]);
        assert(flips[i] == (with_signs(Seq::new(p, |k: int| 0u32), n as u64)[i] != 0));
    }
    assert forall|v: Seq<u32>| v.len() == n implies (#[trigger] rotated(pair, norm, v)).len()
        == n by {
        law_transform_keeps_length(pair, norm, v);
    }
    assert forall|v: Seq<u32>| v.len() == n implies (#[trigger] rotated_back(
        pair,
        norm,
        v,
    )).len() == n by {
        law_transform_keeps_length(pair, norm, v);
    }
    (p, flips)
}

proof fn lemma_flip(data: Seq<u32>, seed: u64, j: int, p: nat)
    requires
        data.len() == p,
        0 <= j < p,
    ensures
        with_signs(data, seed)[j] == (if with_signs(Seq::new(p, |k: int| 0u32), seed)[j] != 0 {
            negated(data[j])
        } else {
            data[j]
        }),
{
}

proof fn lemma_power(p: nat, n: nat)
    requires
        power_of_two(p),
    ensures
        power_from(p, n) >= n,
        power_of_two(power_from(p, n)),
        p >= n ==> power_from(p, n) == p,
        p < n ==> power_from(p, n) < 2 * n,
    decreases (if p < n { n - p } else { 0 }),
{
    if p < n {
        assert(2 * p / 2 == p && 2 * p % 2 == 0);
        lemma_power(2 * p, n);
    }
}

proof fn lemma_power_of(p: nat, n: nat)
    requires
        power_of_two(p),
        power_of_two(n),
        p <= n,
    ensures
        power_from(p, n) == n,
    decreases n - p,
{
    if p < n {
        lemma_powers_divide(p, n);
        assert(2 * p / 2 == p && 2 * p % 2 == 0);
        lemma_power_of(2 * p, n);
    }
}

/// Rotating back undoes rotating, for a vector whose length is a power of two
/// and where the transform undoes itself.
pub proof fn law_rotation_is_undone<P: Fn(u32, u32) -> (u32, u32), N: Fn(u32, usize) -> u32>(
    pair: P,
    norm: N,
    v: Seq<u32>,
)
    requires
        power_of_two(v.len()),
        forall|x: Seq<u32>|
            x.len() == v.len() ==> #[trigger] transformed(
                pair,
                norm,
                transformed(pair, norm, x),
            ) == x,
    ensures
        rotated_back(pair, norm, rotated(pair, norm, v)) == v,
        rotated(pair, norm, rotated_back(pair, norm, v)) == v,
{
    let n = v.len();
    let seed = n as u64;
    lemma_power_of(1, n);
    assert(padded(v) =~= v);
    let signed = with_signs(v, seed);
    law_transform_keeps_length(pair, norm, signed);
    let there = transformed(pair, norm, signed);
    assert(there.take(n as int) =~= there);
    assert(rotated(pair, norm, v) == there);
    assert(padded(there) =~= there);
    assert(transformed(pair, norm, there) == signed);
    law_signs_twice(v, seed);
    assert(rotated_back(pair, norm, there) =~= v);
    law_transform_keeps_length(pair, norm, v);
    let back = with_signs(transformed(pair, norm, v), seed);
    assert(back.take(n as int) =~= back);
    assert(rotated_back(pair, norm, v) == back);
    assert(padded(back) =~= back);
    law_signs_twice(transformed(pair, norm, v), seed);
    assert(transformed(pair, norm, transformed(pair, norm, v)) == v);
    assert(rotated(pair, norm, back) =~= v);
}

/// The grid has as many places as the bits of a component tell apart.
pub open spec fn grid_fits<G: Fn(u32, u32) -> u8>(grid: G, bits: u8) -> bool {
    forall|v: u32, s: u32|
        {
            &&& bits == 2 ==> (#[trigger] pair_value(grid, v, s)) < 4
            &&& bits == 4 ==> pair_value(grid, v, s) < 16
        }
}

/// What becomes of a vector on the grid under a factor: each component is the
/// one that stands for its place.
pub open spec fn through_grid<G: Fn(u32, u32) -> u8, V: Fn(u8, u32) -> u32>(
    grid: G,
    value: V,
    v: Seq<u32>,
    scale: u32,
) -> Seq<u32> {
    Seq::new(v.len(), |i: int| pair_value(value, pair_value(grid, v[i], scale), scale))
}

/// What is made of a vector on the grid gives each component back as the one
/// that stands for its place.
pub proof fn law_grid_back<G: Fn(u32, u32) -> u8, V: Fn(u8, u32) -> u32>(
    grid: G,
    value: V,
    bits: u8,
    v: Seq<u32>,
    scale: u32,
)
    requires
        grid_fits(grid, bits),
    ensures
        reconstructed(value, bits, on_grid(grid, bits, v, scale), scale, v.len()) == through_grid(
            grid,
            value,
            v,
            scale,
        ),
{
    let places = v.map_values(|x: u32| pair_value(grid, x, scale));
    law_pack_unpack(places, bits);
    assert(reconstructed(value, bits, on_grid(grid, bits, v, scale), scale, v.len())
        =~= through_grid(grid, value, v, scale));
}

/// The factor that is chosen is one of those to be tried under which the vector
/// loses least on the grid, the first of them, and the bytes are those under
/// this factor; where no loss is below the greatest number, the factor is one
/// and there are no bytes.
pub proof fn law_least_loss<
    G: Fn(u32, u32) -> u8,
    V: Fn(u8, u32) -> u32,
    E: Fn(&[u32], &[u32]) -> u32,
>(grid: G, value: V, error: E, bits: u8, v: Seq<u32>, scales: Seq<u32>) -> (c: int)
    requires
        grid_fits(grid, bits),
    ensures
        0 <= c <= scales.len(),
        c == scales.len() ==> {
            &&& best_scale(grid, value, error, bits, v, scales).0 == GREATEST
            &&& best_scale(grid, value, error, bits, v, scales).2 == UNIT
            &&& best_scale(grid, value, error, bits, v, scales).1.len() == 0
            &&& forall|i: int|
                0 <= i < scales.len() ==> !float_lt(
                    metric_value(error, v, through_grid(grid, value, v, #[trigger] scales[i])),
                    GREATEST,
                )
        },
        c < scales.len() ==> {
            let lost = metric_value(error, v, through_grid(grid, value, v, scales[c]));
            let best = best_scale(grid, value, error, bits, v, scales);
            &&& best.2 == scales[c]
            &&& best.0 == lost
            &&& unpacked(best.1, bits, v.len()).len() == v.len()
            &&& forall|i: int|
                0 <= i < v.len() ==> #[trigger] unpacked(best.1, bits, v.len())[i] == pair_value(
                    grid,
                    v[i],
                    scales[c],
                )
            &&& reconstructed(value, bits, best.1, best.2, v.len()) == through_grid(
                grid,
                value,
                v,
                scales[c],
            )
            &&& float_lt(lost, GREATEST)
            &&& forall|i: int|
                0 <= i < scales.len() ==> !float_lt(
                    metric_value(error, v, through_grid(grid, value, v, #[trigger] scales[i])),
                    lost,
                )
            &&& forall|i: int|
                0 <= i < c ==> {
                    let other = metric_value(
                        error,
                        v,
                        through_grid(grid, value, v, #[trigger] scales[i]),
                    );
                    is_nan(other) || float_lt(lost, other)
                }
        },
    decreases scales.len(),
{
    if scales.len() == 0 {
        0
    } else {
        let front = scales.drop_last();
        let n = front.len() as int;
        let c = law_least_loss(grid, value, error, bits, v, front);
        let s = scales.last();
        law_grid_back(grid, value, bits, v, s);
        let lost = metric_value(error, v, through_grid(grid, value, v, s));
        assert(lost == loss(grid, value, error, bits, v, s));
        assert forall|i: int| 0 <= i < n implies front[i] == #[trigger] scales[i] by {}
        let before = best_scale(grid, value, error, bits, v, front);
        if float_lt(lost, before.0) {
            let places = v.map_values(|x: u32| pair_value(grid, x, s));
            law_pack_unpack(places, bits);
            assert(!is_nan(before.0));
            assert forall|i: int| 0 <= i < n implies ({
                let other = metric_value(
                    error,
                    v,
                    through_grid(grid, value, v, #[trigger] scales[i]),
                );
                is_nan(other) || float_lt(lost, other)
            }) by {
                assert(front[i] == scales[i]);
            }
            n
        } else {
            assert forall|i: int| 0 <= i < scales.len() implies !float_lt(
                metric_value(error, v, through_grid(grid, value, v, #[trigger] scales[i])),
                before.0,
            ) by {
                if i < n {
                    assert(front[i] == scales[i]);
                }
            }
            if c == n {
                n + 1
            } else {
                assert(front[c] == scales[c]);
                c
            }
        }
    }
}

/// What is restored of a vector that was quantized: what becomes on the grid of
/// the vector, or of its rotation where that is wanted, rotated back then; and
/// this under a factor that loses least, unless all lose too much to tell.
pub proof fn law_restored<
    G: Fn(u32, u32) -> u8,
    V: Fn(u8, u32) -> u32,
    E: Fn(&[u32], &[u32]) -> u32,
    P: Fn(u32, u32) -> (u32, u32),
    N: Fn(u32, usize) -> u32,
>(
    params: ExtendedRaBitQParams,
    grid: G,
    value: V,
    error: E,
    pair: P,
    norm: N,
    vector: Seq<u32>,
    scales: Seq<u32>,
    qv: QuantizedVector,
    back: Seq<u32>,
) -> (c: int)
    requires
        grid_fits(grid, params.bits_per_dim.width()),
        quantized_as(params, grid, value, error, pair, norm, vector, scales, qv),
        restored_as(params, value, pair, norm, qv, back),
    ensures
        qv.dimensions == vector.len(),
        qv.fht_applied == params.use_fht,
        0 <= c <= scales.len(),
        ({
            let working = if params.use_fht { rotated(pair, norm, vector) } else { vector };
            &&& c == scales.len() ==> qv.data@.len() == 0 && forall|i: int|
                0 <= i < scales.len() ==> !float_lt(
                    metric_value(
                        error,
                        working,
                        through_grid(grid, value, working, #[trigger] scales[i]),
                    ),
                    GREATEST,
                )
            &&& c < scales.len() ==> {
                let kept = through_grid(grid, value, working, scales[c]);
                &&& qv.scale == scales[c]
                &&& back == if params.use_fht { rotated_back(pair, norm, kept) } else { kept }
                &&& forall|i: int|
                    0 <= i < scales.len() ==> !float_lt(
                        metric_value(
                            error,
                            working,
                            through_grid(grid, value, working, #[trigger] scales[i]),
                        ),
                        metric_value(error, working, kept),
                    )
            }
        }),
{
    let working = if params.use_fht { rotated(pair, norm, vector) } else { vector };
    law_transform_keeps_length(pair, norm, vector);
    assert(working.len() == vector.len());
    law_least_loss(grid, value, error, params.bits_per_dim.width(), working, scales)
}

/// A vector that lies on the grid under the factor that is taken, once it is
/// rotated, comes back as it was, where the rotation can be undone.
pub proof fn law_grid_points_come_back<
    G: Fn(u32, u32) -> u8,
    V: Fn(u8, u32) -> u32,
    E: Fn(&[u32], &[u32]) -> u32,
    P: Fn(u32, u32) -> (u32, u32),
    N: Fn(u32, usize) -> u32,
>(
    params: ExtendedRaBitQParams,
    grid: G,
    value: V,
    error: E,
    pair: P,
    norm: N,
    vector: Seq<u32>,
    scales: Seq<u32>,
    qv: QuantizedVector,
    back: Seq<u32>,
)
    requires
        grid_fits(grid, params.bits_per_dim.width()),
        quantized_as(params, grid, value, error, pair, norm, vector, scales, qv),
        restored_as(params, value, pair, norm, qv, back),
        qv.data@.len() > 0,
        !params.use_fht ==> through_grid(grid, value, vector, qv.scale) == vector,
        params.use_fht ==> {
            &&& through_grid(grid, value, rotated(pair, norm, vector), qv.scale) == rotated(
                pair,
                norm,
                vector,
            )
            &&& power_of_two(vector.len())
            &&& forall|x: Seq<u32>|
                x.len() == vector.len() ==> #[trigger] transformed(
                    pair,
                    norm,
                    transformed(pair, norm, x),
                ) == x
        },
    ensures
        back == vector,
{
    let c = law_restored(params, grid, value, error, pair, norm, vector, scales, qv, back);
    if params.use_fht {
        law_rotation_is_undone(pair, norm, vector);
    }
}

/// Signs are flipped by a generator that starts from the seed: that of a value
/// exactly where the state for it, one step on for each value, is even.
pub proof fn law_signs(data: Seq<u32>, seed: u64) -> (states: Seq<u64>)
    ensures
        states.len() == data.len() + 1,
        states[0] == seed,
        forall|i: int| 0 < i < states.len() ==> state_follows(states[i - 1], #[trigger] states[i]),
        with_signs(data, seed).len() == data.len(),
        forall|i: int|
            0 <= i < data.len() ==> #[trigger] with_signs(data, seed)[i] == (if states[i + 1] % 2
                == 0 {
                negated(data[i])
            } else {
                data[i]
            }),
{
    law_generator(seed, data.len())
}

} // verus!
