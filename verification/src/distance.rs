//! The order of `f32` values, read off their bit patterns, and the metric that
//! callers hand in.

use vstd::prelude::*;

verus! {

/// Bit pattern of positive infinity. A magnitude above it is not a number.
pub const INFINITY_BITS: u32 = 0x7f80_0000;

/// The sign bit of an `f32`.
pub const SIGN_BIT: u32 = 0x8000_0000;

/// The bits of an `f32` without its sign.
pub open spec fn magnitude(bits: u32) -> int {
    if bits >= SIGN_BIT { bits - SIGN_BIT } else { bits as int }
}

pub open spec fn is_nan(bits: u32) -> bool {
    magnitude(bits) > INFINITY_BITS
}

/// Neither infinite nor NaN.
pub open spec fn is_finite(bits: u32) -> bool {
    magnitude(bits) < INFINITY_BITS
}

/// Every component of a vector is finite.
pub open spec fn all_finite(v: Seq<u32>) -> bool {
    forall|i: int| 0 <= i < v.len() ==> is_finite(#[trigger] v[i])
}

/// Where a value stands in the total order of floats: negative values below
/// the two zeros, which share a place, and every NaN above infinity.
pub open spec fn rank(bits: u32) -> int {
    if is_nan(bits) {
        INFINITY_BITS + 1
    } else if bits >= SIGN_BIT {
        -magnitude(bits)
    } else {
        magnitude(bits)
    }
}

/// The comparison `<` of floats: false as soon as either side is NaN.
pub open spec fn float_lt(a: u32, b: u32) -> bool {
    !is_nan(a) && !is_nan(b) && rank(a) < rank(b)
}

/// The place of a value in the total order of floats.
pub fn float_rank(bits: u32) -> (r: i64)
    ensures
        r == rank(bits),
{
    let magnitude: u32 = if bits >= SIGN_BIT { bits - SIGN_BIT } else { bits };
    if magnitude > INFINITY_BITS {
        INFINITY_BITS as i64 + 1
    } else if bits >= SIGN_BIT {
        -(magnitude as i64)
    } else {
        magnitude as i64
    }
}

/// Whether a value is neither infinite nor NaN.
pub fn finite(bits: u32) -> (r: bool)
    ensures
        r == is_finite(bits),
{
    let magnitude: u32 = if bits >= SIGN_BIT { bits - SIGN_BIT } else { bits };
    magnitude < INFINITY_BITS
}

/// Whether every component of a vector is finite.
pub fn finite_vector(v: &[u32]) -> (r: bool)
    ensures
        r == all_finite(v@),
{
    let mut i: usize = 0;
    while i < v.len()
        invariant
            i <= v.len(),
            forall|j: int| 0 <= j < i ==> is_finite(#[trigger] v@[j]),
        decreases v.len() - i,
    {
        if !finite(v[i]) {
            return false;
        }
        i += 1;
    }
    true
}

/// The comparison `<` of floats, on bit patterns.
pub fn less(a: u32, b: u32) -> (r: bool)
    ensures
        r == float_lt(a, b),
{
    let rank_a: i64 = float_rank(a);
    let rank_b: i64 = float_rank(b);
    rank_b <= INFINITY_BITS as i64 && rank_a < rank_b
}

/// A metric accepts any two vectors of one length.
pub open spec fn metric_total<M: Fn(&[u32], &[u32]) -> u32>(metric: M) -> bool {
    forall|a: &[u32], b: &[u32]|
        a@.len() == b@.len() ==> #[trigger] call_requires(metric, (a, b))
}

/// A metric depends on the components of its arguments alone.
pub open spec fn metric_functional<M: Fn(&[u32], &[u32]) -> u32>(metric: M) -> bool {
    forall|a: &[u32], b: &[u32], c: &[u32], d: &[u32], r: u32, s: u32|
        #[trigger] call_ensures(metric, (a, b), r) && #[trigger] call_ensures(metric, (c, d), s)
            && a@ == c@ && b@ == d@ ==> r == s
}

/// What is asked of a metric.
pub open spec fn metric_ok<M: Fn(&[u32], &[u32]) -> u32>(metric: M) -> bool {
    metric_total(metric) && metric_functional(metric)
}

/// The metric may return `r` on vectors with these components.
pub open spec fn metric_returns<M: Fn(&[u32], &[u32]) -> u32>(
    metric: M,
    a: Seq<u32>,
    b: Seq<u32>,
    r: u32,
) -> bool {
    exists|x: &[u32], y: &[u32]|
        x@ == a && y@ == b && #[trigger] call_ensures(metric, (x, y), r)
}

/// The distance that a metric gives to two vectors.
pub open spec fn metric_value<M: Fn(&[u32], &[u32]) -> u32>(
    metric: M,
    a: Seq<u32>,
    b: Seq<u32>,
) -> u32 {
    choose|r: u32| metric_returns(metric, a, b, r)
}

/// Applies a metric.
pub fn measure<M: Fn(&[u32], &[u32]) -> u32>(metric: &M, a: &[u32], b: &[u32]) -> (r: u32)
    requires
        metric_ok(*metric),
        a@.len() == b@.len(),
    ensures
        r == metric_value(*metric, a@, b@),
{
    let r: u32 = metric(a, b);
    proof {
        assert(call_ensures(*metric, (a, b), r));
        assert(metric_returns(*metric, a@, b@, r));
    }
    r
}

/// The order of floats is total: of two values one is no greater than the
/// other, and two values that are each no greater than the other are the same
/// number or both NaN.
pub proof fn law_rank_is_total(a: u32, b: u32)
    ensures
        rank(a) <= rank(b) || rank(b) <= rank(a),
        rank(a) == rank(b) <==> a == b || (is_nan(a) && is_nan(b)) || (magnitude(a) == 0
            && magnitude(b) == 0),
        float_lt(a, b) ==> rank(a) < rank(b),
        rank(a) < rank(b) && !is_nan(b) ==> float_lt(a, b),
{
}

} // verus!
