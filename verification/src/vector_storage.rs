//! Vectors apart from the graph, at full precision or quantized.
//!
//! Quantized vectors are collected until there are enough to train the
//! quantization on. Sums and products of components are up to the caller.

use vstd::prelude::*;

use crate::node_storage::quantization::{
    apply_quantizer, combined, quantized, quantizer_ok, restored, QuantizedVector,
};
use crate::node_storage::ScalarParams;
use crate::reorder::views;
use crate::storage::{lemma_row_bounds, lemma_rows_apart, slice_to_vec};

verus! {

/// Vectors that are collected before the quantization is trained.
pub const TRAINING_SAMPLE: usize = 256;

/// Why a vector storage refuses a request.
#[derive(Debug, Clone, Copy, PartialEq, Eq, Structural)]
pub enum VectorStorageError {
    /// A vector of another length.
    DimensionMismatch { expected: usize, actual: usize },
    /// The quantization could not be trained on the collected vectors.
    TrainingFailed,
    /// There is no quantization at full precision.
    FullPrecision,
    /// There is nothing to train on.
    EmptySample,
}

/// One of several rows of equal length that stand one behind the other.
pub open spec fn row_of<T>(s: Seq<T>, i: int, dim: int) -> Seq<T> {
    s.subrange(i * dim, i * dim + dim)
}

/// Vectors at full precision, with their squared norms.
#[derive(Debug, Clone)]
pub struct FullVectors {
    pub vectors: Vec<u32>,
    pub norms: Vec<u32>,
    pub count: usize,
    pub dimensions: usize,
}

/// Quantized vectors.
#[derive(Debug, Clone)]
pub struct ScalarVectors {
    pub params: ScalarParams,
    pub quantized: Vec<u8>,
    pub norms: Vec<u32>,
    pub sums: Vec<i32>,
    /// Vectors that wait for the quantization to be trained.
    pub training_buffer: Vec<u32>,
    pub count: usize,
    pub dimensions: usize,
    pub trained: bool,
}

/// Vectors of an index.
#[derive(Debug, Clone)]
pub enum VectorStorage {
    FullPrecision(FullVectors),
    ScalarQuantized(ScalarVectors),
}

/// A trainer accepts any sample, and depends on its vectors alone.
pub open spec fn sampler_ok<T: Fn(&Vec<Vec<u32>>) -> Option<ScalarParams>>(train: T) -> bool {
    &&& forall|v: &Vec<Vec<u32>>| #[trigger] call_requires(train, (v,))
    &&& forall|
        v: &Vec<Vec<u32>>,
        w: &Vec<Vec<u32>>,
        p: Option<ScalarParams>,
        q: Option<ScalarParams>,
    |
        #[trigger] call_ensures(train, (v,), p) && #[trigger] call_ensures(train, (w,), q) && views(
            v@,
        ) == views(w@) ==> p == q
}

pub open spec fn sampler_returns<T: Fn(&Vec<Vec<u32>>) -> Option<ScalarParams>>(
    train: T,
    sample: Seq<Seq<u32>>,
    p: Option<ScalarParams>,
) -> bool {
    exists|v: &Vec<Vec<u32>>| views(v@) == sample && #[trigger] call_ensures(train, (v,), p)
}

/// The parameters that training on a sample gives.
pub open spec fn trained_on<T: Fn(&Vec<Vec<u32>>) -> Option<ScalarParams>>(
    train: T,
    sample: Seq<Seq<u32>>,
) -> Option<ScalarParams> {
    choose|p: Option<ScalarParams>| sampler_returns(train, sample, p)
}

fn apply_sampler<T: Fn(&Vec<Vec<u32>>) -> Option<ScalarParams>>(
    train: &T,
    sample: &Vec<Vec<u32>>,
) -> (p: Option<ScalarParams>)
    requires
        sampler_ok(*train),
    ensures
        p == trained_on(*train, views(sample@)),
{
    let p: Option<ScalarParams> = train(sample);
    proof {
        assert(call_ensures(*train, (sample,), p));
        assert(sampler_returns(*train, views(sample@), p));
    }
    p
}

impl FullVectors {
    pub open spec fn wf(&self) -> bool {
        &&& self.vectors@.len() == self.count * self.dimensions
        &&& self.norms@.len() == self.count
    }

    pub open spec fn row(&self, i: int) -> Seq<u32> {
        row_of(self.vectors@, i, self.dimensions as int)
    }

    fn slice(&self, i: usize) -> (v: &[u32])
        requires
            self.wf(),
            i < self.count,
        ensures
            v@ == self.row(i as int),
    {
        proof {
            lemma_row_bounds(i as int, self.count as int, self.dimensions as int);
            assert(self.vectors@.len() == self.vectors.len());
        }
        let start: usize = i * self.dimensions;
        vstd::slice::slice_subrange(self.vectors.as_slice(), start, start + self.dimensions)
    }
}

impl ScalarVectors {
    /// Before training all vectors are collected, after it they are all
    /// quantized.
    pub open spec fn wf(&self) -> bool {
        &&& self.dimensions > 0
        &&& !self.trained ==> {
            &&& self.training_buffer@.len() == self.count * self.dimensions
            &&& self.quantized@.len() == 0
            &&& self.norms@.len() == 0
            &&& self.sums@.len() == 0
        }
        &&& self.trained ==> {
            &&& self.quantized@.len() == self.count * self.dimensions
            &&& self.norms@.len() == self.count
            &&& self.sums@.len() == self.count
        }
    }

    pub open spec fn codes(&self, i: int) -> Seq<u8> {
        row_of(self.quantized@, i, self.dimensions as int)
    }

    /// A vector that was collected.
    pub open spec fn collected(&self, i: int) -> Seq<u32> {
        row_of(self.training_buffer@, i, self.dimensions as int)
    }

    fn code_slice(&self, i: usize) -> (c: &[u8])
        requires
            self.wf(),
            self.trained,
            i < self.count,
        ensures
            c@ == self.codes(i as int),
            c@.len() == self.dimensions,
    {
        proof {
            lemma_row_bounds(i as int, self.count as int, self.dimensions as int);
            assert(self.quantized@.len() == self.quantized.len());
        }
        let start: usize = i * self.dimensions;
        vstd::slice::slice_subrange(self.quantized.as_slice(), start, start + self.dimensions)
    }

    fn buffer_slice(&self, i: usize) -> (v: &[u32])
        requires
            self.wf(),
            !self.trained,
            i < self.count,
        ensures
            v@ == self.collected(i as int),
            v@.len() == self.dimensions,
    {
        proof {
            lemma_row_bounds(i as int, self.count as int, self.dimensions as int);
            assert(self.training_buffer@.len() == self.training_buffer.len());
        }
        let start: usize = i * self.dimensions;
        vstd::slice::slice_subrange(self.training_buffer.as_slice(), start, start + self.dimensions)
    }

    /// The first vectors that were collected.
    pub open spec fn sample(&self, n: nat) -> Seq<Seq<u32>> {
        Seq::new(n, |i: int| self.collected(i))
    }

    /// The vectors of another storage, all of them collected, are held
    /// quantized.
    pub open spec fn quantizes<Q: Fn(ScalarParams, &[u32]) -> QuantizedVector>(
        &self,
        before: &Self,
        quantize: Q,
    ) -> bool {
        forall|i: int|
            0 <= i < before.count ==> (#[trigger] self.codes(i), self.norms@[i], self.sums@[i])
                == quantized(quantize, self.params, before.collected(i))
    }

    /// Quantizes a vector with the parameters and puts it behind the others.
    fn append_quantized<Q: Fn(ScalarParams, &[u32]) -> QuantizedVector>(
        quantized_codes: &mut Vec<u8>,
        norms: &mut Vec<u32>,
        sums: &mut Vec<i32>,
        params: ScalarParams,
        vector: &[u32],
        quantize: &Q,
    )
        requires
            quantizer_ok(*quantize, vector@.len()),
        ensures
            ({
                let q = quantized(*quantize, params, vector@);
                &&& q.0.len() == vector@.len()
                &&& final(quantized_codes)@ == old(quantized_codes)@ + q.0
                &&& final(norms)@ == old(norms)@.push(q.1)
                &&& final(sums)@ == old(sums)@.push(q.2)
            }),
    {
        let q: QuantizedVector = apply_quantizer(quantize, params, vector);
        norms.push(q.norm_sq);
        sums.push(q.sum);
        quantized_codes.extend_from_slice(q.data.as_slice());
        assert(quantized_codes@ =~= old(quantized_codes)@ + q.data@);
    }

    /// Quantizes all vectors that were collected, with the parameters.
    fn quantize_buffer<Q: Fn(ScalarParams, &[u32]) -> QuantizedVector>(&mut self, quantize: &Q)
        requires
            old(self).wf(),
            !old(self).trained,
            quantizer_ok(*quantize, old(self).dimensions as nat),
        ensures
            final(self).wf(),
            final(self).trained,
            final(self).params == old(self).params,
            final(self).count == old(self).count,
            final(self).dimensions == old(self).dimensions,
            final(self).training_buffer@.len() == 0,
            final(self).quantizes(old(self), *quantize),
    {
        let n: usize = self.count;
        let dim: usize = self.dimensions;
        let mut codes: Vec<u8> = Vec::new();
        let mut norms: Vec<u32> = Vec::new();
        let mut sums: Vec<i32> = Vec::new();
        let mut i: usize = 0;
        assert(0 * dim == 0) by (nonlinear_arith);
        while i < n
            invariant
                i <= n,
                n == self.count,
                dim == self.dimensions,
                *self == *old(self),
                self.wf(),
                !self.trained,
                quantizer_ok(*quantize, dim as nat),
                codes@.len() == i * dim,
                norms@.len() == i,
                sums@.len() == i,
                forall|k: int|
                    0 <= k < i ==> (
                        #[trigger] row_of(codes@, k, dim as int),
                        norms@[k],
                        sums@[k],
                    ) == quantized(*quantize, self.params, self.collected(k)),
            decreases n - i,
        {
            let ghost codes0 = codes@;
            let ghost norms0 = norms@;
            let ghost sums0 = sums@;
            Self::append_quantized(
                &mut codes,
                &mut norms,
                &mut sums,
                self.params,
                self.buffer_slice(i),
                quantize,
            );
            proof {
                let d = dim as int;
                assert((i + 1) * d == i * d + d) by (nonlinear_arith);
                assert(0 <= i * d) by (nonlinear_arith)
                    requires
                        i >= 0,
                        d >= 0,
                ;
                assert forall|k: int| 0 <= k < i + 1 implies (
                    #[trigger] row_of(codes@, k, d),
                    norms@[k],
                    sums@[k],
                ) == quantized(*quantize, self.params, self.collected(k)) by {
                    if k < i {
                        lemma_row_bounds(k, i as int, d);
                        assert(row_of(codes@, k, d) =~= row_of(codes0, k, d));
                    } else {
                        assert(row_of(codes@, k, d) =~= quantized(
                            *quantize,
                            self.params,
                            self.collected(k),
                        ).0);
                    }
                }
            }
            i += 1;
        }
        self.quantized = codes;
        self.norms = norms;
        self.sums = sums;
        self.training_buffer = Vec::new();
        self.trained = true;
        proof {
            assert forall|k: int| 0 <= k < n implies (
                #[trigger] self.codes(k),
                self.norms@[k],
                self.sums@[k],
            ) == quantized(*quantize, self.params, old(self).collected(k)) by {
                let _ = row_of(codes@, k, dim as int);
            }
        }
    }

    /// A vector was added.
    pub open spec fn inserted<
        T: Fn(&Vec<Vec<u32>>) -> Option<ScalarParams>,
        Q: Fn(ScalarParams, &[u32]) -> QuantizedVector,
    >(&self, before: &Self, vector: Seq<u32>, train: T, quantize: Q, ok: bool) -> bool {
        &&& self.wf()
        &&& self.count == before.count + 1
        &&& self.dimensions == before.dimensions
        &&& if before.trained {
            let q = quantized(quantize, before.params, vector);
            &&& ok
            &&& self.trained
            &&& self.params == before.params
            &&& self.training_buffer == before.training_buffer
            &&& self.quantized@ == before.quantized@ + q.0
            &&& self.norms@ == before.norms@.push(q.1)
            &&& self.sums@ == before.sums@.push(q.2)
        } else {
            let buffer = before.training_buffer@ + vector;
            let sample = Seq::new(
                TRAINING_SAMPLE as nat,
                |i: int| row_of(buffer, i, before.dimensions as int),
            );
            if self.count < TRAINING_SAMPLE {
                &&& ok
                &&& !self.trained
                &&& self.params == before.params
                &&& self.training_buffer@ == buffer
            } else {
                match trained_on(train, sample) {
                    None => {
                        &&& !ok
                        &&& !self.trained
                        &&& self.params == before.params
                        &&& self.training_buffer@ == buffer
                    },
                    Some(params) => {
                        &&& ok
                        &&& self.trained
                        &&& self.params == params
                        &&& self.training_buffer@.len() == 0
                        &&& forall|i: int|
                            0 <= i < self.count ==> (
                                #[trigger] self.codes(i),
                                self.norms@[i],
                                self.sums@[i],
                            ) == quantized(
                                quantize,
                                params,
                                row_of(buffer, i, before.dimensions as int),
                            )
                    },
                }
            }
        }
    }

    fn first_collected(&self, n: usize) -> (sample: Vec<Vec<u32>>)
        requires
            self.wf(),
            !self.trained,
            n <= self.count,
        ensures
            views(sample@) == self.sample(n as nat),
    {
        let mut sample: Vec<Vec<u32>> = Vec::new();
        let mut i: usize = 0;
        while i < n
            invariant
                i <= n <= self.count,
                self.wf(),
                !self.trained,
                sample@.len() == i,
                forall|k: int| 0 <= k < i ==> (#[trigger] sample@[k])@ == self.collected(k),
            decreases n - i,
        {
            sample.push(slice_to_vec(self.buffer_slice(i)));
            i += 1;
        }
        assert(views(sample@) =~= self.sample(n as nat));
        sample
    }

    /// Adds a vector of the right length.
    fn insert<
        T: Fn(&Vec<Vec<u32>>) -> Option<ScalarParams>,
        Q: Fn(ScalarParams, &[u32]) -> QuantizedVector,
    >(&mut self, vector: &[u32], train: &T, quantize: &Q) -> (ok: bool)
        requires
            old(self).wf(),
            vector@.len() == old(self).dimensions,
            old(self).count < usize::MAX,
            sampler_ok(*train),
            quantizer_ok(*quantize, old(self).dimensions as nat),
        ensures
            final(self).inserted(old(self), vector@, *train, *quantize, ok),
    {
        let dim: usize = self.dimensions;
        proof {
            let c = self.count as int;
            let d = dim as int;
            assert((c + 1) * d == c * d + d) by (nonlinear_arith);
        }
        if self.trained {
            Self::append_quantized(
                &mut self.quantized,
                &mut self.norms,
                &mut self.sums,
                self.params,
                vector,
                quantize,
            );
            self.count = self.count + 1;
            return true;
        }
        self.training_buffer.extend_from_slice(vector);
        self.count = self.count + 1;
        let ghost buffer = old(self).training_buffer@ + vector@;
        assert(self.training_buffer@ =~= buffer);
        if self.count < TRAINING_SAMPLE {
            return true;
        }
        let sample: Vec<Vec<u32>> = self.first_collected(TRAINING_SAMPLE);
        proof {
            assert(views(sample@) =~= Seq::new(
                TRAINING_SAMPLE as nat,
                |i: int| row_of(buffer, i, dim as int),
            ));
        }
        match apply_sampler(train, &sample) {
            None => false,
            Some(params) => {
                self.params = params;
                let ghost ready = *self;
                self.quantize_buffer(quantize);
                proof {
                    assert forall|i: int| 0 <= i < self.count implies (
                        #[trigger] self.codes(i),
                        self.norms@[i],
                        self.sums@[i],
                    ) == quantized(*quantize, params, row_of(buffer, i, dim as int)) by {
                        assert(ready.collected(i) == row_of(buffer, i, dim as int));
                    }
                }
                true
            },
        }
    }
}

// ---------------------------------------------------------------------------
// Rows in a new order
// ---------------------------------------------------------------------------

/// The first rows go to different places among `n`.
pub open spec fn spread(map: Seq<u32>, n: nat) -> bool {
    &&& forall|i: int| 0 <= i < map.len() && i < n ==> #[trigger] map[i] < n
    &&& forall|i: int, j: int|
        0 <= i < map.len() && 0 <= j < map.len() && i < n && j < n && i != j
            ==> #[trigger] map[i] != #[trigger] map[j]
}

/// A row comes from one of the first `k` rows.
pub open spec fn has_source(map: Seq<u32>, k: int, i: int) -> bool {
    exists|old_id: int| 0 <= old_id < k && old_id < map.len() && #[trigger] map[old_id] == i
}

/// The first `k` of `n` rows went to their places, and all others are zero.
pub open spec fn rows_moved<T>(
    before: Seq<T>,
    after: Seq<T>,
    zero: T,
    map: Seq<u32>,
    k: int,
    n: int,
    dim: int,
) -> bool {
    &&& after.len() == before.len()
    &&& forall|old_id: int|
        0 <= old_id < k && old_id < map.len() ==> row_of(after, #[trigger] map[old_id] as int, dim)
            == row_of(before, old_id, dim)
    &&& forall|i: int|
        0 <= i < n && !has_source(map, k, i) ==> #[trigger] row_of(after, i, dim) == Seq::new(
            dim as nat,
            |j: int| zero,
        )
}

fn move_rows<T: Copy>(data: &Vec<T>, zero: T, map: &[u32], n: usize, dim: usize) -> (r: Vec<T>)
    requires
        data@.len() == n * dim,
        spread(map@, n as nat),
    ensures
        rows_moved(data@, r@, zero, map@, n as int, n as int, dim as int),
{
    let total: usize = data.len();
    let ghost d = dim as int;
    let mut r: Vec<T> = Vec::new();
    while r.len() < total
        invariant
            r@.len() <= total,
            forall|k: int| 0 <= k < r@.len() ==> #[trigger] r@[k] == zero,
        decreases total - r.len(),
    {
        r.push(zero);
    }
    let m: usize = if map.len() < n { map.len() } else { n };
    let mut i: usize = 0;
    proof {
        assert forall|k: int| 0 <= k < n implies #[trigger] row_of(r@, k, d) == Seq::new(
            dim as nat,
            |j: int| zero,
        ) by {
            lemma_row_bounds(k, n as int, d);
            assert(row_of(r@, k, d) =~= Seq::new(dim as nat, |j: int| zero));
        }
    }
    while i < m
        invariant
            i <= m,
            m == (if map@.len() < n {
                map@.len() as int
            } else {
                n as int
            }),
            d == dim,
            total == data@.len(),
            data@.len() == n * dim,
            spread(map@, n as nat),
            rows_moved(data@, r@, zero, map@, i as int, n as int, d),
        decreases m - i,
    {
        assert(map@[i as int] < n);
        let to: usize = map[i] as usize;
        let ghost before = r@;
        proof {
            lemma_row_bounds(i as int, n as int, d);
            lemma_row_bounds(to as int, n as int, d);
        }
        let old_start: usize = i * dim;
        let new_start: usize = to * dim;
        let mut j: usize = 0;
        while j < dim
            invariant
                j <= dim,
                old_start == i * dim,
                new_start == to * dim,
                old_start + dim <= total,
                new_start + dim <= total,
                total == data@.len(),
                r@.len() == total,
                forall|k: int|
                    new_start <= k < new_start + j ==> #[trigger] r@[k] == data@[old_start + (k
                        - new_start)],
                forall|k: int|
                    0 <= k < total && !(new_start <= k < new_start + dim) ==> #[trigger] r@[k]
                        == before[k],
            decreases dim - j,
        {
            r.set(new_start + j, data[old_start + j]);
            j += 1;
        }
        proof {
            assert(row_of(r@, to as int, d) =~= row_of(data@, i as int, d));
            assert forall|k: int| 0 <= k < n && k != to implies #[trigger] row_of(r@, k, d)
                == row_of(before, k, d) by {
                lemma_row_bounds(k, n as int, d);
                if k < to {
                    lemma_rows_apart(k, to as int, d);
                } else {
                    lemma_rows_apart(to as int, k, d);
                }
                assert(row_of(r@, k, d) =~= row_of(before, k, d));
            }
            assert forall|old_id: int| 0 <= old_id < i + 1 && old_id < map@.len() implies row_of(
                r@,
                #[trigger] map@[old_id] as int,
                d,
            ) == row_of(data@, old_id, d) by {
                if old_id < i {
                    assert(map@[old_id] != map@[i as int]);
                    assert(map@[old_id] < n);
                }
            }
            assert forall|k: int| 0 <= k < n && !has_source(
                map@,
                i + 1,
                k,
            ) implies #[trigger] row_of(r@, k, d) == Seq::new(dim as nat, |j: int| zero) by {
                assert(k != to) by {
                    if k == to {
                        assert(map@[i as int] == k);
                    }
                }
                assert(!has_source(map@, i as int, k)) by {
                    if has_source(map@, i as int, k) {
                        let o = choose|o: int|
                            0 <= o < i && o < map@.len() && #[trigger] map@[o] == k;
                        assert(map@[o] == k);
                    }
                }
            }
        }
        i += 1;
    }
    proof {
        assert forall|k: int| 0 <= k < n && !has_source(
            map@,
            n as int,
            k,
        ) implies #[trigger] row_of(r@, k, d) == Seq::new(dim as nat, |j: int| zero) by {
            assert(!has_source(map@, m as int, k)) by {
                if has_source(map@, m as int, k) {
                    let o = choose|o: int| 0 <= o < m && o < map@.len() && #[trigger] map@[o] == k;
                    assert(map@[o] == k);
                }
            }
        }
    }
    r
}

// ---------------------------------------------------------------------------
// The storage
// ---------------------------------------------------------------------------

/// A distance may come out of a vector and its norm.
pub open spec fn full_measured<F: Fn(&[u32], u32) -> u32>(
    full: F,
    vector: Seq<u32>,
    norm: u32,
    d: u32,
) -> bool {
    exists|v: &[u32]| v@ == vector && #[trigger] call_ensures(full, (v, norm), d)
}

/// The terms of the distance to a quantized vector.
pub struct Terms<'a> {
    pub params: ScalarParams,
    pub codes: &'a [u8],
    pub sum: i32,
    pub norm: u32,
}

impl VectorStorage {
    pub open spec fn wf(&self) -> bool {
        match self {
            VectorStorage::FullPrecision(s) => s.wf(),
            VectorStorage::ScalarQuantized(s) => s.wf(),
        }
    }

    pub open spec fn count(&self) -> usize {
        match self {
            VectorStorage::FullPrecision(s) => s.count,
            VectorStorage::ScalarQuantized(s) => s.count,
        }
    }

    pub open spec fn dim(&self) -> usize {
        match self {
            VectorStorage::FullPrecision(s) => s.dimensions,
            VectorStorage::ScalarQuantized(s) => s.dimensions,
        }
    }

    pub fn new_full_precision(dimensions: usize) -> (r: Self)
        ensures
            r.wf(),
            r.count() == 0,
            r.dim() == dimensions,
            r is FullPrecision,
    {
        assert(0 * dimensions == 0) by (nonlinear_arith);
        VectorStorage::FullPrecision(
            FullVectors { vectors: Vec::new(), norms: Vec::new(), count: 0, dimensions },
        )
    }

    /// An empty storage for quantized vectors. Until training the parameters
    /// are those given.
    pub fn new_sq8_quantized(dimensions: usize, params: ScalarParams) -> (r: Self)
        requires
            dimensions > 0,
        ensures
            r.wf(),
            r matches VectorStorage::ScalarQuantized(s) && s.params == params && s.count == 0
                && s.dimensions == dimensions && !s.trained && s.training_buffer@.len() == 0,
    {
        assert(0 * dimensions == 0) by (nonlinear_arith);
        VectorStorage::ScalarQuantized(
            ScalarVectors {
                params,
                quantized: Vec::new(),
                norms: Vec::new(),
                sums: Vec::new(),
                training_buffer: Vec::new(),
                count: 0,
                dimensions,
                trained: false,
            },
        )
    }

    /// Whether distances compare a query at full precision with codes.
    pub fn is_asymmetric(&self) -> (r: bool)
        ensures
            r == (self is ScalarQuantized),
    {
        matches!(self, VectorStorage::ScalarQuantized(_))
    }

    pub fn is_sq8(&self) -> (r: bool)
        ensures
            r == (self is ScalarQuantized),
    {
        matches!(self, VectorStorage::ScalarQuantized(_))
    }

    pub fn len(&self) -> (n: usize)
        ensures
            n == self.count(),
    {
        match self {
            VectorStorage::FullPrecision(s) => s.count,
            VectorStorage::ScalarQuantized(s) => s.count,
        }
    }

    pub fn is_empty(&self) -> (r: bool)
        ensures
            r == (self.count() == 0),
    {
        self.len() == 0
    }

    pub fn dimensions(&self) -> (n: usize)
        ensures
            n == self.dim(),
    {
        match self {
            VectorStorage::FullPrecision(s) => s.dimensions,
            VectorStorage::ScalarQuantized(s) => s.dimensions,
        }
    }

    /// Adds a vector. In a quantized storage a vector with which the training
    /// fails stays collected.
    pub fn insert<
        N: Fn(&[u32]) -> u32,
        T: Fn(&Vec<Vec<u32>>) -> Option<ScalarParams>,
        Q: Fn(ScalarParams, &[u32]) -> QuantizedVector,
    >(&mut self, vector: Vec<u32>, norm: &N, train: &T, quantize: &Q) -> (r: core::result::Result<
        u32,
        VectorStorageError,
    >)
        requires
            old(self).wf(),
            old(self).count() <= u32::MAX,
            old(self).count() < usize::MAX,
            forall|v: &[u32]| #[trigger] call_requires(*norm, (v,)),
            sampler_ok(*train),
            quantizer_ok(*quantize, old(self).dim() as nat),
        ensures
            final(self).wf(),
            vector@.len() != old(self).dim() ==> {
                &&& r == Err::<u32, VectorStorageError>(
                    VectorStorageError::DimensionMismatch {
                        expected: old(self).dim(),
                        actual: vector@.len() as usize,
                    },
                )
                &&& *final(self) == *old(self)
            },
            vector@.len() == old(self).dim() ==> match *old(self) {
                VectorStorage::FullPrecision(before) => {
                    &&& r == Ok::<u32, VectorStorageError>(before.count as u32)
                    &&& *final(self) matches VectorStorage::FullPrecision(after) && {
                        &&& after.count == before.count + 1
                        &&& after.dimensions == before.dimensions
                        &&& after.vectors@ == before.vectors@ + vector@
                        &&& exists|v: &[u32], x: u32|
                            v@ == vector@ && #[trigger] call_ensures(*norm, (v,), x) && after.norms@
                                == before.norms@.push(x)
                    }
                },
                VectorStorage::ScalarQuantized(before) => {
                    &&& *final(self) matches VectorStorage::ScalarQuantized(after)
                        && after.inserted(&before, vector@, *train, *quantize, r is Ok)
                    &&& r matches Ok(id) ==> id == before.count as u32
                    &&& r matches Err(e) ==> e == VectorStorageError::TrainingFailed
                },
            },
    {
        let dim: usize = self.dimensions();
        if vector.len() != dim {
            return Err(
                VectorStorageError::DimensionMismatch { expected: dim, actual: vector.len() },
            );
        }
        match self {
            VectorStorage::FullPrecision(s) => {
                let id: u32 = s.count as u32;
                let x: u32 = norm(vector.as_slice());
                s.norms.push(x);
                s.vectors.extend_from_slice(vector.as_slice());
                proof {
                    let c = s.count as int;
                    let d = dim as int;
                    assert((c + 1) * d == c * d + d) by (nonlinear_arith);
                }
                s.count = s.count + 1;
                Ok(id)
            },
            VectorStorage::ScalarQuantized(s) => {
                let id: u32 = s.count as u32;
                if s.insert(vector.as_slice(), train, quantize) {
                    Ok(id)
                } else {
                    Err(VectorStorageError::TrainingFailed)
                }
            },
        }
    }

    /// A vector at full precision: none once it is only held quantized.
    pub fn get(&self, id: u32) -> (r: Option<&[u32]>)
        requires
            self.wf(),
        ensures
            match self {
                VectorStorage::FullPrecision(s) => if id < s.count {
                    r matches Some(v) && v@ == s.row(id as int)
                } else {
                    r is None
                },
                VectorStorage::ScalarQuantized(s) => if !s.trained && id < s.count {
                    r matches Some(v) && v@ == s.collected(id as int)
                } else {
                    r is None
                },
            },
    {
        match self {
            VectorStorage::FullPrecision(s) => if (id as usize) < s.count {
                Some(s.slice(id as usize))
            } else {
                None
            },
            VectorStorage::ScalarQuantized(s) => if !s.trained && (id as usize) < s.count {
                Some(s.buffer_slice(id as usize))
            } else {
                None
            },
        }
    }

    /// A vector, restored from its codes where it is held quantized.
    pub fn get_dequantized<D: Fn(ScalarParams, &[u8]) -> Vec<u32>>(&self, id: u32, dequantize: &D) -> (r:
        Option<Vec<u32>>)
        requires
            self.wf(),
            forall|p: ScalarParams, c: &[u8]|
                c@.len() == self.dim() ==> #[trigger] call_requires(*dequantize, (p, c)),
        ensures
            r is Some == (id < self.count()),
            r matches Some(v) ==> match self {
                VectorStorage::FullPrecision(s) => v@ == s.row(id as int),
                VectorStorage::ScalarQuantized(s) => if s.trained {
                    restored(*dequantize, s.params, s.codes(id as int), v)
                } else {
                    v@ == s.collected(id as int)
                },
            },
    {
        let i: usize = id as usize;
        match self {
            VectorStorage::FullPrecision(s) => if i < s.count {
                Some(slice_to_vec(s.slice(i)))
            } else {
                None
            },
            VectorStorage::ScalarQuantized(s) => if i >= s.count {
                None
            } else if s.trained {
                let codes: &[u8] = s.code_slice(i);
                let v: Vec<u32> = dequantize(s.params, codes);
                proof {
                    assert(call_ensures(*dequantize, (s.params, codes), v));
                    assert(restored(*dequantize, s.params, s.codes(i as int), v));
                }
                Some(v)
            } else {
                Some(slice_to_vec(s.buffer_slice(i)))
            },
        }
    }

    /// The parameters of the quantization, once it is trained.
    pub fn get_sq8_params(&self) -> (r: Option<ScalarParams>)
        ensures
            r == (match self {
                VectorStorage::ScalarQuantized(s) => if s.trained {
                    Some(s.params)
                } else {
                    None
                },
                VectorStorage::FullPrecision(s) => None,
            }),
    {
        match self {
            VectorStorage::ScalarQuantized(s) => if s.trained {
                Some(s.params)
            } else {
                None
            },
            VectorStorage::FullPrecision(_) => None,
        }
    }

    /// The terms of the distance to a vector that is held quantized.
    pub open spec fn terms_of(&self, id: u32) -> Option<(ScalarParams, Seq<u8>, i32, u32)> {
        match self {
            VectorStorage::ScalarQuantized(s) => if s.trained && id < s.count {
                Some((s.params, s.codes(id as int), s.sums@[id as int], s.norms@[id as int]))
            } else {
                None
            },
            VectorStorage::FullPrecision(s) => None,
        }
    }

    /// A distance may come out of the terms.
    pub open spec fn measured<C: Fn(ScalarParams, &[u8], u32, i32) -> u32>(
        &self,
        combine: C,
        id: u32,
        d: u32,
    ) -> bool {
        match self.terms_of(id) {
            Some((params, codes, sum, norm)) => combined(combine, params, codes, norm, sum, d),
            None => false,
        }
    }

    /// The terms of the distance to a vector that is held quantized, from which
    /// the caller finds the distance to a query.
    pub fn sq8_terms(&self, id: u32) -> (r: Option<Terms>)
        requires
            self.wf(),
        ensures
            match (r, self.terms_of(id)) {
                (Some(t), Some(x)) => (t.params, t.codes@, t.sum, t.norm) == x,
                (None, None) => true,
                _ => false,
            },
    {
        let i: usize = id as usize;
        match self {
            VectorStorage::ScalarQuantized(s) => if s.trained && i < s.count {
                Some(
                    Terms {
                        params: s.params,
                        codes: s.code_slice(i),
                        sum: s.sums[i],
                        norm: s.norms[i],
                    },
                )
            } else {
                None
            },
            VectorStorage::FullPrecision(_) => None,
        }
    }

    /// The distance of a query to a vector that is held quantized, as `combine`
    /// finds it from the terms.
    pub fn distance_asymmetric_l2<C: Fn(ScalarParams, &[u8], u32, i32) -> u32>(
        &self,
        id: u32,
        combine: &C,
    ) -> (r: Option<u32>)
        requires
            self.wf(),
            forall|p: ScalarParams, c: &[u8], norm: u32, sum: i32|
                c@.len() == self.dim() ==> #[trigger] call_requires(*combine, (p, c, norm, sum)),
        ensures
            r is Some == self.terms_of(id) is Some,
            r matches Some(d) ==> self.measured(*combine, id, d),
    {
        match self.sq8_terms(id) {
            None => None,
            Some(t) => {
                assert(t.codes@.len() == self.dim()) by {
                    if let VectorStorage::ScalarQuantized(s) = self {
                        lemma_row_bounds(id as int, s.count as int, s.dimensions as int);
                    }
                }
                let d: u32 = combine(t.params, t.codes, t.norm, t.sum);
                assert(call_ensures(*combine, (t.params, t.codes, t.norm, t.sum), d));
                Some(d)
            },
        }
    }

    /// The squared norm of a vector at full precision.
    pub fn get_norm(&self, id: u32) -> (r: Option<u32>)
        requires
            self.wf(),
        ensures
            r == (match self {
                VectorStorage::FullPrecision(s) => if id < s.count {
                    Some(s.norms@[id as int])
                } else {
                    None
                },
                VectorStorage::ScalarQuantized(s) => None,
            }),
    {
        match self {
            VectorStorage::FullPrecision(s) => if (id as usize) < s.count {
                Some(s.norms[id as usize])
            } else {
                None
            },
            VectorStorage::ScalarQuantized(_) => None,
        }
    }

    /// Whether distances are found from norms and products. Not so for quantized
    /// vectors, where too much precision would be lost.
    pub fn supports_l2_decomposition(&self) -> (r: bool)
        ensures
            r == (self is FullPrecision),
    {
        matches!(self, VectorStorage::FullPrecision(_))
    }

    /// The distance of a query to a vector: as `full` finds it from the vector
    /// and its norm, or as `combine` finds it from the terms of a quantized one.
    pub fn distance_l2_decomposed<
        F: Fn(&[u32], u32) -> u32,
        C: Fn(ScalarParams, &[u8], u32, i32) -> u32,
    >(&self, id: u32, full: &F, combine: &C) -> (r: Option<u32>)
        requires
            self.wf(),
            forall|v: &[u32], norm: u32|
                v@.len() == self.dim() ==> #[trigger] call_requires(*full, (v, norm)),
            forall|p: ScalarParams, c: &[u8], norm: u32, sum: i32|
                c@.len() == self.dim() ==> #[trigger] call_requires(*combine, (p, c, norm, sum)),
        ensures
            match self {
                VectorStorage::FullPrecision(s) => {
                    &&& r is Some == (id < s.count)
                    &&& r matches Some(d) ==> full_measured(
                        *full,
                        s.row(id as int),
                        s.norms@[id as int],
                        d,
                    )
                },
                VectorStorage::ScalarQuantized(s) => {
                    &&& r is Some == self.terms_of(id) is Some
                    &&& r matches Some(d) ==> self.measured(*combine, id, d)
                },
            },
    {
        match self {
            VectorStorage::FullPrecision(s) => if (id as usize) < s.count {
                let v: &[u32] = s.slice(id as usize);
                proof {
                    lemma_row_bounds(id as int, s.count as int, s.dimensions as int);
                }
                let norm: u32 = s.norms[id as usize];
                let d: u32 = full(v, norm);
                assert(call_ensures(*full, (v, norm), d));
                assert(full_measured(*full, s.row(id as int), s.norms@[id as int], d));
                Some(d)
            } else {
                None
            },
            VectorStorage::ScalarQuantized(_) => self.distance_asymmetric_l2(id, combine),
        }
    }

    /// Trains the quantization on a sample, and quantizes the vectors that were
    /// collected.
    pub fn train_quantization<
        T: Fn(&Vec<Vec<u32>>) -> Option<ScalarParams>,
        Q: Fn(ScalarParams, &[u32]) -> QuantizedVector,
    >(&mut self, sample_vectors: &Vec<Vec<u32>>, train: &T, quantize: &Q) -> (r:
        core::result::Result<(), VectorStorageError>)
        requires
            old(self).wf(),
            sampler_ok(*train),
            quantizer_ok(*quantize, old(self).dim() as nat),
        ensures
            final(self).wf(),
            match *old(self) {
                VectorStorage::FullPrecision(s) => r == Err::<(), VectorStorageError>(
                    VectorStorageError::FullPrecision,
                ) && *final(self) == *old(self),
                VectorStorage::ScalarQuantized(before) => if sample_vectors@.len() == 0 {
                    r == Err::<(), VectorStorageError>(VectorStorageError::EmptySample)
                        && *final(self) == *old(self)
                } else {
                    match trained_on(*train, views(sample_vectors@)) {
                        None => r == Err::<(), VectorStorageError>(
                            VectorStorageError::TrainingFailed,
                        ) && *final(self) == *old(self),
                        Some(params) => {
                            &&& r == Ok::<(), VectorStorageError>(())
                            &&& *final(self) matches VectorStorage::ScalarQuantized(after) && {
                                &&& after.trained
                                &&& after.params == params
                                &&& after.count == before.count
                                &&& after.dimensions == before.dimensions
                                &&& before.trained ==> after == (ScalarVectors { params, ..before })
                                &&& !before.trained ==> after.training_buffer@.len() == 0
                                    && after.quantizes(&before, *quantize)
                            }
                        },
                    }
                },
            },
    {
        match self {
            VectorStorage::FullPrecision(_) => Err(VectorStorageError::FullPrecision),
            VectorStorage::ScalarQuantized(s) => {
                if sample_vectors.len() == 0 {
                    return Err(VectorStorageError::EmptySample);
                }
                match apply_sampler(train, sample_vectors) {
                    None => Err(VectorStorageError::TrainingFailed),
                    Some(params) => {
                        let ghost before = *s;
                        s.params = params;
                        if !s.trained {
                            let ghost ready = *s;
                            s.quantize_buffer(quantize);
                            assert(forall|i: int| #[trigger] ready.collected(i) == before.collected(i));
                        }
                        Ok(())
                    },
                }
            },
        }
    }

    /// Bytes that the vectors and what goes with them take.
    pub open spec fn memory(&self) -> nat {
        match self {
            VectorStorage::FullPrecision(s) => s.vectors@.len() * 4 + s.norms@.len() * 4,
            VectorStorage::ScalarQuantized(s) => s.quantized@.len() + s.norms@.len() * 4
                + s.sums@.len() * 4 + s.training_buffer@.len() * 4 + (8
                + vstd::layout::size_of::<usize>()),
        }
    }

    pub fn memory_usage(&self) -> (r: usize)
        requires
            self.memory() <= usize::MAX,
        ensures
            r == self.memory(),
    {
        match self {
            VectorStorage::FullPrecision(s) => s.vectors.len() * 4 + s.norms.len() * 4,
            VectorStorage::ScalarQuantized(s) => s.quantized.len() + s.norms.len() * 4
                + s.sums.len() * 4 + s.training_buffer.len() * 4 + (8 + core::mem::size_of::<
                usize,
            >()),
        }
    }

    /// Moves each vector to a new place: the map says where each goes. Vectors
    /// in places that none goes to are zero.
    pub fn reorder(&mut self, old_to_new: &[u32])
        requires
            old(self).wf(),
            spread(old_to_new@, old(self).count() as nat),
            *old(self) matches VectorStorage::ScalarQuantized(s) ==> s.trained || s.count == 0,
        ensures
            final(self).wf(),
            final(self).count() == old(self).count(),
            final(self).dim() == old(self).dim(),
            match (*old(self), *final(self)) {
                (VectorStorage::FullPrecision(a), VectorStorage::FullPrecision(b)) => {
                    let n = a.count as int;
                    let map = old_to_new@;
                    &&& rows_moved(
                        a.vectors@,
                        b.vectors@,
                        0u32,
                        map,
                        n,
                        n,
                        a.dimensions as int,
                    )
                    &&& rows_moved(a.norms@, b.norms@, 0u32, map, n, n, 1)
                },
                (VectorStorage::ScalarQuantized(a), VectorStorage::ScalarQuantized(b)) => {
                    let n = a.count as int;
                    let map = old_to_new@;
                    &&& b.params == a.params
                    &&& b.trained == a.trained
                    &&& b.training_buffer == a.training_buffer
                    &&& a.trained ==> {
                        &&& rows_moved(
                            a.quantized@,
                            b.quantized@,
                            0u8,
                            map,
                            n,
                            n,
                            a.dimensions as int,
                        )
                        &&& rows_moved(a.norms@, b.norms@, 0u32, map, n, n, 1)
                        &&& rows_moved(a.sums@, b.sums@, 0i32, map, n, n, 1)
                    }
                },
                _ => false,
            },
    {
        match self {
            VectorStorage::FullPrecision(s) => {
                let n: usize = s.count;
                let vectors: Vec<u32> = move_rows(&s.vectors, 0u32, old_to_new, n, s.dimensions);
                let norms: Vec<u32> = move_rows(&s.norms, 0u32, old_to_new, n, 1);
                s.vectors = vectors;
                s.norms = norms;
            },
            VectorStorage::ScalarQuantized(s) => {
                if s.trained {
                    let n: usize = s.count;
                    let quantized: Vec<u8> = move_rows(
                        &s.quantized,
                        0u8,
                        old_to_new,
                        n,
                        s.dimensions,
                    );
                    let norms: Vec<u32> = move_rows(&s.norms, 0u32, old_to_new, n, 1);
                    let sums: Vec<i32> = move_rows(&s.sums, 0i32, old_to_new, n, 1);
                    s.quantized = quantized;
                    s.norms = norms;
                    s.sums = sums;
                }
            },
        }
    }
}

/// A row put behind others can be read back, and the others stay.
pub proof fn law_rows_come_back<T>(before: Seq<T>, row: Seq<T>, n: nat, dim: nat)
    requires
        before.len() == n * dim,
        row.len() == dim,
    ensures
        row_of(before + row, n as int, dim as int) == row,
        forall|i: int|
            0 <= i < n ==> #[trigger] row_of(before + row, i, dim as int) == row_of(
                before,
                i,
                dim as int,
            ),
{
    let d = dim as int;
    assert(row_of(before + row, n as int, d) =~= row) by {
        assert(n * d >= 0) by (nonlinear_arith)
            requires
                n >= 0,
                d >= 0,
        ;
    }
    assert forall|i: int| 0 <= i < n implies #[trigger] row_of(before + row, i, d) == row_of(
        before,
        i,
        d,
    ) by {
        lemma_row_bounds(i, n as int, d);
        assert(row_of(before + row, i, d) =~= row_of(before, i, d));
    }
}

/// A vector that was stored at full precision can be read back under its
/// number, and the vectors before it stay as they are.
pub proof fn law_full_vectors_come_back(before: FullVectors, after: FullVectors, vector: Seq<u32>)
    requires
        before.wf(),
        vector.len() == before.dimensions,
        after.dimensions == before.dimensions,
        after.vectors@ == before.vectors@ + vector,
    ensures
        after.row(before.count as int) == vector,
        forall|i: int| 0 <= i < before.count ==> #[trigger] after.row(i) == before.row(i),
{
    law_rows_come_back(before.vectors@, vector, before.count as nat, before.dimensions as nat);
    assert forall|i: int| 0 <= i < before.count implies #[trigger] after.row(i) == before.row(
        i,
    ) by {
        assert(row_of(before.vectors@ + vector, i, before.dimensions as int) == row_of(
            before.vectors@,
            i,
            before.dimensions as int,
        ));
    }
}

/// Once the quantization is trained, each vector that was inserted is held as
/// the codes, the norm and the sum that the quantizer gives for it, and the
/// codes before it stay as they are. Until then it is held as it is.
pub proof fn law_scalar_vectors_come_back<
    T: Fn(&Vec<Vec<u32>>) -> Option<ScalarParams>,
    Q: Fn(ScalarParams, &[u32]) -> QuantizedVector,
>(before: ScalarVectors, after: ScalarVectors, vector: Seq<u32>, train: T, quantize: Q, ok: bool)
    requires
        before.wf(),
        vector.len() == before.dimensions,
        after.inserted(&before, vector, train, quantize, ok),
        before.trained ==> quantized(quantize, before.params, vector).0.len() == before.dimensions,
    ensures
        after.trained ==> (
            after.codes(before.count as int),
            after.norms@[before.count as int],
            after.sums@[before.count as int],
        ) == quantized(quantize, after.params, vector),
        !after.trained ==> after.collected(before.count as int) == vector,
        before.trained ==> forall|i: int|
            0 <= i < before.count ==> #[trigger] after.codes(i) == before.codes(i),
        !after.trained ==> forall|i: int|
            0 <= i < before.count ==> #[trigger] after.collected(i) == before.collected(i),
{
    let n = before.count as nat;
    let d = before.dimensions as nat;
    if before.trained {
        let q = quantized(quantize, before.params, vector);
        law_rows_come_back(before.quantized@, q.0, n, d);
        assert forall|i: int| 0 <= i < n implies #[trigger] after.codes(i) == before.codes(i) by {
            assert(row_of(before.quantized@ + q.0, i, d as int) == row_of(
                before.quantized@,
                i,
                d as int,
            ));
        }
    } else {
        let buffer = before.training_buffer@ + vector;
        law_rows_come_back(before.training_buffer@, vector, n, d);
        if after.trained {
            assert((after.codes(n as int), after.norms@[n as int], after.sums@[n as int])
                == quantized(quantize, after.params, row_of(buffer, n as int, d as int)));
        } else {
            assert forall|i: int| 0 <= i < n implies #[trigger] after.collected(i)
                == before.collected(i) by {
                assert(row_of(buffer, i, d as int) == row_of(
                    before.training_buffer@,
                    i,
                    d as int,
                ));
            }
        }
    }
}

} // verus!
