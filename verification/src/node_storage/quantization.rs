//! Scalar quantization with lazy training.
//!
//! In SQ8 mode the first vectors are collected. Once there are enough of them,
//! the parameters are trained on them, they are quantized, and so is every later
//! vector as it comes. How parameters are trained, and how a vector is quantized
//! with them, the caller says.

use vstd::prelude::*;

use super::vectors::{filled, put_norm, put_sum};
use super::{decoded, NodeStorage, ScalarParams};
use crate::storage::{lemma_row_bounds, slice_to_vec};

verus! {

/// Vectors that are collected before the quantization is trained.
pub const TRAINING_VECTORS: usize = 256;

/// A vector that was quantized.
#[derive(Debug)]
pub struct QuantizedVector {
    /// One code per component.
    pub data: Vec<u8>,
    /// Bits of the squared norm.
    pub norm_sq: u32,
    /// Sum of the codes.
    pub sum: i32,
}

/// Why the quantization could not be trained.
#[derive(Debug, Clone, Copy, PartialEq, Eq, Structural)]
pub struct TrainingFailed;

/// A quantizer accepts any vector of the right length, gives one code per
/// component, and depends on the components alone.
pub open spec fn quantizer_ok<Q: Fn(ScalarParams, &[u32]) -> QuantizedVector>(
    quantize: Q,
    dimensions: nat,
) -> bool {
    &&& forall|p: ScalarParams, v: &[u32]|
        v@.len() == dimensions ==> #[trigger] call_requires(quantize, (p, v))
    &&& forall|p: ScalarParams, v: &[u32], q: QuantizedVector|
        v@.len() == dimensions && #[trigger] call_ensures(quantize, (p, v), q) ==> q.data@.len()
            == dimensions
    &&& forall|p: ScalarParams, v: &[u32], w: &[u32], q: QuantizedVector, r: QuantizedVector|
        #[trigger] call_ensures(quantize, (p, v), q) && #[trigger] call_ensures(
            quantize,
            (p, w),
            r,
        ) && v@ == w@ ==> q.data@ == r.data@ && q.norm_sq == r.norm_sq && q.sum == r.sum
}

/// A quantizer may give these codes, norm and sum.
pub open spec fn quantizer_returns<Q: Fn(ScalarParams, &[u32]) -> QuantizedVector>(
    quantize: Q,
    params: ScalarParams,
    v: Seq<u32>,
    r: (Seq<u8>, u32, i32),
) -> bool {
    exists|w: &[u32], q: QuantizedVector|
        w@ == v && #[trigger] call_ensures(quantize, (params, w), q) && r == (
            q.data@,
            q.norm_sq,
            q.sum,
        )
}

/// The codes, norm and sum that a quantizer gives.
pub open spec fn quantized<Q: Fn(ScalarParams, &[u32]) -> QuantizedVector>(
    quantize: Q,
    params: ScalarParams,
    v: Seq<u32>,
) -> (Seq<u8>, u32, i32) {
    choose|r: (Seq<u8>, u32, i32)| quantizer_returns(quantize, params, v, r)
}

pub(crate) fn apply_quantizer<Q: Fn(ScalarParams, &[u32]) -> QuantizedVector>(
    quantize: &Q,
    params: ScalarParams,
    v: &[u32],
) -> (q: QuantizedVector)
    requires
        quantizer_ok(*quantize, v@.len()),
    ensures
        (q.data@, q.norm_sq, q.sum) == quantized(*quantize, params, v@),
        q.data@.len() == v@.len(),
{
    let q = quantize(params, v);
    proof {
        assert(call_ensures(*quantize, (params, v), q));
        assert(quantizer_returns(*quantize, params, v@, (q.data@, q.norm_sq, q.sum)));
    }
    q
}

/// A trainer accepts any collected vectors, and depends on their components
/// alone.
pub open spec fn trainer_ok<T: Fn(&[u32], usize) -> Option<ScalarParams>>(train: T) -> bool {
    &&& forall|v: &[u32], n: usize| #[trigger] call_requires(train, (v, n))
    &&& forall|
        v: &[u32],
        w: &[u32],
        n: usize,
        p: Option<ScalarParams>,
        q: Option<ScalarParams>,
    |
        #[trigger] call_ensures(train, (v, n), p) && #[trigger] call_ensures(train, (w, n), q)
            && v@ == w@ ==> p == q
}

pub open spec fn trainer_returns<T: Fn(&[u32], usize) -> Option<ScalarParams>>(
    train: T,
    v: Seq<u32>,
    dimensions: usize,
    p: Option<ScalarParams>,
) -> bool {
    exists|w: &[u32]| w@ == v && #[trigger] call_ensures(train, (w, dimensions), p)
}

/// The parameters that training on some vectors gives.
pub open spec fn trained<T: Fn(&[u32], usize) -> Option<ScalarParams>>(
    train: T,
    v: Seq<u32>,
    dimensions: usize,
) -> Option<ScalarParams> {
    choose|p: Option<ScalarParams>| trainer_returns(train, v, dimensions, p)
}

fn apply_trainer<T: Fn(&[u32], usize) -> Option<ScalarParams>>(
    train: &T,
    v: &[u32],
    dimensions: usize,
) -> (p: Option<ScalarParams>)
    requires
        trainer_ok(*train),
    ensures
        p == trained(*train, v@, dimensions),
{
    let p: Option<ScalarParams> = train(v, dimensions);
    proof {
        assert(call_ensures(*train, (v, dimensions), p));
        assert(trainer_returns(*train, v@, dimensions, p));
    }
    p
}

/// Number of codes.
pub const CODES: usize = 256;

/// Values can be found for any parameters: one for each code, and depending on
/// the parameters alone.
pub open spec fn values_ok<V: Fn(ScalarParams) -> Vec<u32>>(values: V) -> bool {
    &&& forall|p: ScalarParams| #[trigger] call_requires(values, (p,))
    &&& forall|p: ScalarParams, v: Vec<u32>| #[trigger] call_ensures(values, (p,), v) ==> v@.len()
        == CODES
    &&& forall|p: ScalarParams, v: Vec<u32>, w: Vec<u32>|
        #[trigger] call_ensures(values, (p,), v) && #[trigger] call_ensures(values, (p,), w)
            ==> v@ == w@
}

pub open spec fn values_returns<V: Fn(ScalarParams) -> Vec<u32>>(
    values: V,
    params: ScalarParams,
    r: Seq<u32>,
) -> bool {
    exists|v: Vec<u32>| v@ == r && #[trigger] call_ensures(values, (params,), v)
}

/// How vectors become codes: how parameters are trained on vectors, what a
/// vector is coded as, and what each code stands for.
pub trait Coder: Sized {
    /// Vectors of this length can be coded.
    spec fn usable(&self, dimensions: nat) -> bool;

    /// The parameters that training on some vectors gives.
    spec fn params_for(&self, v: Seq<u32>, dimensions: usize) -> Option<ScalarParams>;

    /// The codes, squared norm and sum of a vector.
    spec fn coded(&self, params: ScalarParams, v: Seq<u32>) -> (Seq<u8>, u32, i32);

    /// The value of each code.
    spec fn meaning(&self, params: ScalarParams) -> Seq<u32>;

    fn train(&self, v: &[u32], dimensions: usize) -> (p: Option<ScalarParams>)
        requires
            self.usable(dimensions as nat),
        ensures
            p == self.params_for(v@, dimensions),
    ;

    fn quantize(&self, params: ScalarParams, v: &[u32]) -> (q: QuantizedVector)
        requires
            self.usable(v@.len()),
        ensures
            (q.data@, q.norm_sq, q.sum) == self.coded(params, v@),
            q.data@.len() == v@.len(),
    ;

    fn values(&self, params: ScalarParams, dimensions: usize) -> (r: Vec<u32>)
        requires
            self.usable(dimensions as nat),
        ensures
            r@ == self.meaning(params),
            r@.len() == CODES,
    ;
}

/// A coder of functions that the caller gives.
#[derive(Debug, Clone, Copy)]
pub struct ScalarCoder<T, Q, V> {
    pub train: T,
    pub quantize: Q,
    pub values: V,
}

impl<
    T: Fn(&[u32], usize) -> Option<ScalarParams>,
    Q: Fn(ScalarParams, &[u32]) -> QuantizedVector,
    V: Fn(ScalarParams) -> Vec<u32>,
> Coder for ScalarCoder<T, Q, V> {
    open spec fn usable(&self, dimensions: nat) -> bool {
        &&& trainer_ok(self.train)
        &&& quantizer_ok(self.quantize, dimensions)
        &&& values_ok(self.values)
    }

    open spec fn params_for(&self, v: Seq<u32>, dimensions: usize) -> Option<ScalarParams> {
        trained(self.train, v, dimensions)
    }

    open spec fn coded(&self, params: ScalarParams, v: Seq<u32>) -> (Seq<u8>, u32, i32) {
        quantized(self.quantize, params, v)
    }

    open spec fn meaning(&self, params: ScalarParams) -> Seq<u32> {
        choose|r: Seq<u32>| values_returns(self.values, params, r)
    }

    fn train(&self, v: &[u32], dimensions: usize) -> (p: Option<ScalarParams>) {
        apply_trainer(&self.train, v, dimensions)
    }

    fn quantize(&self, params: ScalarParams, v: &[u32]) -> (q: QuantizedVector) {
        apply_quantizer(&self.quantize, params, v)
    }

    fn values(&self, params: ScalarParams, dimensions: usize) -> (r: Vec<u32>) {
        let values = &self.values;
        let r: Vec<u32> = values(params);
        proof {
            assert(call_ensures(self.values, (params,), r));
            assert(values_returns(self.values, params, r@));
        }
        r
    }
}

/// What a storage keeps beside its nodes to hold vectors as codes.
#[verifier::ext_equal]
pub struct Quantization {
    /// Vectors are held in SQ8 mode.
    pub sq8: bool,
    pub trained: bool,
    pub params: Option<ScalarParams>,
    /// Squared norms.
    pub norms: Seq<u32>,
    /// Sums of codes.
    pub sums: Seq<i32>,
    /// Vectors that wait for training, one behind the other.
    pub collected: Seq<u32>,
    /// The value of each code.
    pub values: Seq<u32>,
}

impl Quantization {
    /// Nothing is kept.
    pub open spec fn none() -> Self {
        Quantization {
            sq8: false,
            trained: false,
            params: None,
            norms: Seq::empty(),
            sums: Seq::empty(),
            collected: Seq::empty(),
            values: Seq::empty(),
        }
    }

    /// In SQ8 mode one more vector waits for training.
    pub open spec fn with(self, v: Seq<u32>) -> Self {
        if self.sq8 {
            Quantization { collected: self.collected + v, ..self }
        } else {
            self
        }
    }

    /// Mode and training are the same.
    pub open spec fn same_mode(self, other: Self) -> bool {
        self.sq8 == other.sq8 && self.trained == other.trained
    }
}

/// One of several vectors that stand one behind the other.
pub open spec fn chunk(v: Seq<u32>, i: int, dimensions: int) -> Seq<u32> {
    v.subrange(i * dimensions, (i + 1) * dimensions)
}

/// A list as it was, but for its first `n` entries, of which there are now at
/// least so many.
pub open spec fn same_beyond<T>(before: Seq<T>, after: Seq<T>, n: int) -> bool {
    &&& after.len() == (if before.len() >= n { before.len() as int } else { n })
    &&& forall|i: int| n <= i < before.len() ==> #[trigger] after[i] == before[i]
}

/// A distance may come out of these terms.
pub open spec fn combined<C: Fn(ScalarParams, &[u8], u32, i32) -> u32>(
    combine: C,
    params: ScalarParams,
    codes: Seq<u8>,
    norm: u32,
    sum: i32,
    d: u32,
) -> bool {
    exists|c: &[u8]| c@ == codes && #[trigger] call_ensures(combine, (params, c, norm, sum), d)
}

/// A vector may be restored from these codes.
pub open spec fn restored<D: Fn(ScalarParams, &[u8]) -> Vec<u32>>(
    dequantize: D,
    params: ScalarParams,
    codes: Seq<u8>,
    v: Vec<u32>,
) -> bool {
    exists|c: &[u8]| c@ == codes && #[trigger] call_ensures(dequantize, (params, c), v)
}

impl NodeStorage {
    /// All but the vectors is the same.
    pub open spec fn same_but_vectors(&self, other: &Self) -> bool {
        &&& self.same_shape(other)
        &&& other.upper_neighbors == self.upper_neighbors
        &&& forall|i: u32| i < self.len ==> #[trigger] other.links0(i) == self.links0(i)
        &&& forall|i: u32| i < self.len ==> #[trigger] other.slot_of(i) == self.slot_of(i)
        &&& forall|i: u32| i < self.len ==> #[trigger] other.node_level(i) == self.node_level(i)
    }

    /// The vector of a node is among those that are collected.
    pub open spec fn has_waiting(&self, id: u32) -> bool {
        (id + 1) * self.dimensions <= self.training_buffer@.len()
    }

    /// Number of vectors that are collected.
    pub open spec fn collected(&self) -> int {
        self.training_buffer@.len() as int / self.dimensions as int
    }

    /// The first `n` nodes hold the collected vectors `v`, quantized.
    pub open spec fn quantized_from<C: Coder>(
        &self,
        coder: C,
        params: ScalarParams,
        v: Seq<u32>,
        n: int,
    ) -> bool {
        &&& self.norms@.len() >= n
        &&& self.sq8_sums@.len() >= n
        &&& forall|i: u32|
            i < n ==> (#[trigger] self.codes(i), self.norms@[i as int], self.sq8_sums@[i as int])
                == coder.coded(params, chunk(v, i as int, self.dimensions as int))
    }

    /// The collected vectors were quantized with some parameters into the first
    /// nodes.
    pub open spec fn coded_from<C: Coder>(
        &self,
        before: &Self,
        params: ScalarParams,
        coder: C,
    ) -> bool {
        &&& before.same_but_vectors(self)
        &&& self.sq8_trained
        &&& self.sq8_params == Some(params)
        &&& self.code_values@ == coder.meaning(params)
        &&& self.code_values@.len() == CODES
        &&& self.training_buffer@.len() == 0
        &&& self.quantized_from(coder, params, before.training_buffer@, before.collected())
        &&& forall|i: u32|
            before.collected() <= i < before.len ==> #[trigger] self.codes(i) == before.codes(i)
        &&& same_beyond(before.norms@, self.norms@, before.collected())
        &&& same_beyond(before.sq8_sums@, self.sq8_sums@, before.collected())
    }

    /// Quantizes the collected vectors into the first nodes.
    fn code_collected<C: Coder>(&mut self, params: ScalarParams, coder: &C)
        requires
            old(self).wf(),
            old(self).sq8,
            old(self).dimensions > 0,
            old(self).collected() <= old(self).len,
            coder.usable(old(self).dimensions as nat),
        ensures
            final(self).wf(),
            final(self).coded_from(old(self), params, *coder),
    {
        let dim: usize = self.dimensions;
        let n: usize = self.training_buffer.len() / dim;
        let ghost buffer = self.training_buffer@;
        self.sq8_params = Some(params);
        self.code_values = coder.values(params, dim);
        self.sq8_trained = true;
        let mut i: usize = 0;
        while i < n
            invariant
                i <= n,
                n == buffer.len() as int / dim as int,
                n <= self.len,
                dim > 0,
                dim == self.dimensions,
                self.wf(),
                self.sq8,
                self.sq8_trained,
                self.sq8_params == Some(params),
                self.code_values@ == coder.meaning(params),
                self.code_values@.len() == CODES,
                self.training_buffer@ == buffer,
                coder.usable(dim as nat),
                old(self).same_but_vectors(self),
                self.quantized_from(*coder, params, buffer, i as int),
                same_beyond(old(self).norms@, self.norms@, i as int),
                same_beyond(old(self).sq8_sums@, self.sq8_sums@, i as int),
                forall|j: u32| i <= j < self.len ==> #[trigger] self.codes(j) == old(self).codes(j),
            decreases n - i,
        {
            let ghost before = *self;
            proof {
                let b = buffer.len() as int;
                let d = dim as int;
                assert(d * (b / d) <= b) by (nonlinear_arith)
                    requires
                        d > 0,
                        b >= 0,
                ;
                assert(d * (b / d) == (b / d) * d) by (nonlinear_arith);
                lemma_row_bounds(i as int, n as int, d);
                assert(self.training_buffer@.len() == self.training_buffer.len());
            }
            let v: &[u32] = vstd::slice::slice_subrange(
                self.training_buffer.as_slice(),
                i * dim,
                (i + 1) * dim,
            );
            let q = coder.quantize(params, v);
            assert(v@ =~= chunk(buffer, i as int, dim as int));
            self.store_codes(i as u32, q.data.as_slice());
            let ghost mid = *self;
            put_norm(&mut self.norms, i, q.norm_sq);
            put_sum(&mut self.sq8_sums, i, q.sum);
            proof {
                assert forall|j: u32| j < self.len implies #[trigger] self.links0(j) == old(self).links0(j) by {
                    assert(self.links0(j) == mid.links0(j));
                    assert(mid.links0(j) == before.links0(j));
                }
                assert forall|j: u32| j < self.len implies #[trigger] self.slot_of(j) == old(self).slot_of(j) by {
                    assert(self.slot_of(j) == mid.slot_of(j));
                    assert(mid.slot_of(j) == before.slot_of(j));
                }
                assert forall|j: u32| j < self.len implies #[trigger] self.node_level(j) == old(self).node_level(j) by {
                    assert(self.node_level(j) == mid.node_level(j));
                    assert(mid.node_level(j) == before.node_level(j));
                }
                assert forall|j: u32| i + 1 <= j < self.len implies #[trigger] self.codes(j) == old(self).codes(j) by {
                    assert(self.codes(j) == mid.codes(j));
                    assert(mid.codes(j) == before.codes(j));
                }
                assert forall|j: u32| j < i + 1 implies (
                    #[trigger] self.codes(j),
                    self.norms@[j as int],
                    self.sq8_sums@[j as int],
                ) == coder.coded(params, chunk(buffer, j as int, dim as int)) by {
                    assert(self.codes(j) == mid.codes(j));
                    if j < i {
                        assert(mid.codes(j) == before.codes(j));
                    }
                }
            }
            i += 1;
        }
        let ghost done = *self;
        self.training_buffer = Vec::new();
        proof {
            self.lemma_same_data(&done);
        }
    }

    /// Trains the quantization on the collected vectors, and quantizes them into
    /// the first nodes.
    pub fn train_quantization<C: Coder>(&mut self, coder: &C) -> (r: core::result::Result<
        (),
        TrainingFailed,
    >)
        requires
            old(self).wf(),
            old(self).sq8,
            old(self).dimensions > 0,
            old(self).collected() <= old(self).len,
            coder.usable(old(self).dimensions as nat),
        ensures
            final(self).wf(),
            match coder.params_for(old(self).training_buffer@, old(self).dimensions) {
                Some(params) => r == Ok::<(), TrainingFailed>(()) && final(self).coded_from(
                    old(self),
                    params,
                    *coder,
                ),
                None => r == Err::<(), TrainingFailed>(TrainingFailed) && *final(self) == *old(self),
            },
    {
        match coder.train(self.training_buffer.as_slice(), self.dimensions) {
            None => Err(TrainingFailed),
            Some(params) => {
                self.code_collected(params, coder);
                Ok(())
            },
        }
    }

    /// Stores a vector in SQ8 mode: quantized once the quantization is trained,
    /// in the collection before that.
    pub fn set_vector_sq8<C: Coder>(
        &mut self,
        id: u32,
        vector: &[u32],
        coder: &C,
    ) -> (r: core::result::Result<(), TrainingFailed>)
        requires
            old(self).wf(),
            old(self).sq8,
            old(self).dimensions > 0,
            id < old(self).len,
            vector@.len() == old(self).dimensions,
            old(self).sq8_trained ==> old(self).sq8_params is Some,
            !old(self).sq8_trained && old(self).collected() + 1 >= TRAINING_VECTORS
                ==> old(self).collected() < old(self).len,
            coder.usable(old(self).dimensions as nat),
        ensures
            final(self).wf(),
            old(self).same_but_vectors(final(self)),
            final(self).sq8_stored(old(self), id, vector@, *coder, r is Ok),
    {
        let dim: usize = self.dimensions;
        if self.sq8_trained {
            let params: ScalarParams = match self.sq8_params {
                Some(p) => p,
                None => {
                    return Ok(());
                },
            };
            let q = coder.quantize(params, vector);
            self.store_codes(id, q.data.as_slice());
            let ghost mid = *self;
            put_norm(&mut self.norms, id as usize, q.norm_sq);
            put_sum(&mut self.sq8_sums, id as usize, q.sum);
            proof {
                self.lemma_same_data(&mid);
            }
            return Ok(());
        }
        let zeros: Vec<u8> = vec![0u8; dim];
        self.store_codes(id, zeros.as_slice());
        let ghost mid = *self;
        self.training_buffer.extend_from_slice(vector);
        proof {
            assert(self.training_buffer@ =~= old(self).training_buffer@ + vector@);
            self.lemma_same_data(&mid);
            assert(zeros@ =~= Seq::new(dim as nat, |i: int| 0u8));
            let b = old(self).training_buffer@.len() as int;
            let d = dim as int;
            assert((b + d) / d == b / d + 1) by (nonlinear_arith)
                requires
                    d > 0,
                    b >= 0,
            ;
        }
        let ghost full = *self;
        if self.training_buffer.len() / dim >= TRAINING_VECTORS {
            let r = self.train_quantization(coder);
            proof {
                assert forall|i: u32| i < self.len implies #[trigger] self.links0(i) == old(self).links0(i) by {
                    assert(full.links0(i) == old(self).links0(i));
                }
                assert forall|i: u32| i < self.len implies #[trigger] self.slot_of(i) == old(self).slot_of(i) by {
                    assert(full.slot_of(i) == old(self).slot_of(i));
                }
                assert forall|i: u32| i < self.len implies #[trigger] self.node_level(i) == old(self).node_level(i) by {
                    assert(full.node_level(i) == old(self).node_level(i));
                }
                assert(full.training_buffer@ == old(self).training_buffer@ + vector@);
                if r is Ok {
                    assert forall|i: u32|
                        full.collected() <= i < old(self).len && i != id implies #[trigger] self.codes(
                        i,
                    ) == old(self).codes(i) by {
                        assert(full.codes(i) == old(self).codes(i));
                    }
                }
            }
            return r;
        }
        Ok(())
    }

    /// Storages with the same bytes have the same nodes.
    pub(crate) proof fn lemma_same_data(&self, other: &Self)
        requires
            self.data@ == other.data@,
            self.same_shape(other),
        ensures
            forall|i: u32| #[trigger] self.links0(i) == other.links0(i),
            forall|i: u32| #[trigger] self.codes(i) == other.codes(i),
            forall|i: u32| #[trigger] self.words(i) == other.words(i),
            !self.sq8 ==> forall|i: u32| #[trigger] self.vec(i) == other.vec(i),
            self.same_quantization(other) ==> forall|i: u32| #[trigger] self.vec(i) == other.vec(i),
            forall|i: u32| #[trigger] self.slot_of(i) == other.slot_of(i),
            forall|i: u32| #[trigger] self.node_level(i) == other.node_level(i),
    {
    }

    /// A vector was stored in SQ8 mode.
    pub open spec fn sq8_stored<C: Coder>(
        &self,
        before: &Self,
        id: u32,
        vector: Seq<u32>,
        coder: C,
        ok: bool,
    ) -> bool {
        let buffer = before.training_buffer@ + vector;
        let n = before.collected() + 1;
        if before.sq8_trained {
            let q = coder.coded(before.sq8_params->0, vector);
            &&& ok
            &&& self.codes(id) == q.0
            &&& self.norms@ == filled(before.norms@, id as int, 0u32, q.1)
            &&& self.sq8_sums@ == filled(before.sq8_sums@, id as int, 0i32, q.2)
            &&& forall|i: u32|
                i < before.len && i != id ==> #[trigger] self.codes(i) == before.codes(i)
            &&& self.sq8_params == before.sq8_params
            &&& self.code_values == before.code_values
            &&& self.sq8_trained
            &&& self.training_buffer == before.training_buffer
        } else {
            let params = coder.params_for(buffer, before.dimensions);
            if n >= TRAINING_VECTORS && params is Some {
                &&& ok
                &&& self.sq8_trained
                &&& self.sq8_params == params
                &&& self.code_values@ == coder.meaning(params->0)
                &&& self.code_values@.len() == CODES
                &&& self.training_buffer@.len() == 0
                &&& self.quantized_from(coder, params->0, buffer, n)
                &&& same_beyond(before.norms@, self.norms@, n)
                &&& same_beyond(before.sq8_sums@, self.sq8_sums@, n)
                &&& id >= n ==> self.codes(id) == Seq::new(
                    before.dimensions as nat,
                    |i: int| 0u8,
                )
                &&& forall|i: u32|
                    n <= i < before.len && i != id ==> #[trigger] self.codes(i) == before.codes(i)
            } else {
                &&& ok == (n < TRAINING_VECTORS)
                &&& !self.sq8_trained
                &&& self.sq8_params == before.sq8_params
                &&& self.code_values == before.code_values
                &&& self.training_buffer@ == buffer
                &&& self.norms == before.norms
                &&& self.sq8_sums == before.sq8_sums
                &&& self.codes(id) == Seq::new(before.dimensions as nat, |i: int| 0u8)
                &&& forall|i: u32|
                    i < before.len && i != id ==> #[trigger] self.codes(i) == before.codes(i)
            }
        }
    }

    /// Stores a vector, in any mode, and at full precision its squared norm.
    pub fn set_vector<N: Fn(&[u32]) -> u32, C: Coder>(
        &mut self,
        id: u32,
        vector: &[u32],
        norm: &N,
        coder: &C,
    ) -> (r: core::result::Result<(), TrainingFailed>)
        requires
            old(self).wf(),
            id < old(self).len,
            vector@.len() == old(self).dimensions,
            !old(self).sq8 ==> forall|v: &[u32]| #[trigger] call_requires(*norm, (v,)),
            old(self).sq8 ==> {
                &&& old(self).dimensions > 0
                &&& old(self).sq8_trained ==> old(self).sq8_params is Some
                &&& !old(self).sq8_trained && old(self).collected() + 1 >= TRAINING_VECTORS
                    ==> old(self).collected() < old(self).len
                &&& coder.usable(old(self).dimensions as nat)
            },
        ensures
            final(self).wf(),
            old(self).same_but_vectors(final(self)),
            old(self).sq8 ==> final(self).sq8_stored(
                old(self),
                id,
                vector@,
                *coder,
                r is Ok,
            ),
            !old(self).sq8 ==> {
                &&& r is Ok
                &&& final(self).vec(id) == vector@
                &&& forall|i: u32|
                    i < old(self).len && i != id ==> #[trigger] final(self).vec(i) == old(self).vec(
                        i,
                    )
                &&& exists|v: &[u32], x: u32|
                    v@ == vector@ && #[trigger] call_ensures(*norm, (v,), x) && final(self).norms@
                        == filled(old(self).norms@, id as int, 0u32, x)
                &&& final(self).sq8_params == old(self).sq8_params
                &&& final(self).code_values == old(self).code_values
                &&& final(self).sq8_sums == old(self).sq8_sums
                &&& final(self).training_buffer == old(self).training_buffer
                &&& final(self).sq8_trained == old(self).sq8_trained
            },
    {
        if self.sq8 {
            return self.set_vector_sq8(id, vector, coder);
        }
        self.store_components(id, vector);
        let ghost mid = *self;
        let x: u32 = norm(vector);
        self.set_norm(id, x);
        proof {
            self.lemma_same_data(&mid);
            assert(call_ensures(*norm, (vector,), x));
        }
        Ok(())
    }

    /// The vector of a node in any mode: as it is stored at full precision, as
    /// it was collected before training, and restored from its codes after it.
    pub fn get_dequantized<D: Fn(ScalarParams, &[u8]) -> Vec<u32>>(
        &self,
        id: u32,
        dequantize: &D,
    ) -> (r: Option<Vec<u32>>)
        requires
            self.wf(),
            !self.sq8 || self.sq8_trained ==> id < self.len,
            forall|p: ScalarParams, c: &[u8]|
                c@.len() == self.dimensions ==> #[trigger] call_requires(*dequantize, (p, c)),
        ensures
            !self.sq8 ==> r is Some && r->0@ == self.vec(id),
            self.sq8 && self.sq8_trained ==> {
                &&& r is Some == self.sq8_params is Some
                &&& r is Some ==> restored(*dequantize, self.sq8_params->0, self.codes(id), r->0)
            },
            self.sq8 && !self.sq8_trained ==> {
                &&& r is Some == self.has_waiting(id)
                &&& r is Some ==> r->0@ == chunk(
                    self.training_buffer@,
                    id as int,
                    self.dimensions as int,
                )
            },
    {
        if !self.sq8 {
            return Some(self.vector(id));
        }
        if self.sq8_trained {
            return match self.sq8_params {
                None => None,
                Some(params) => {
                    let codes: &[u8] = self.quantized_vector(id);
                    let v: Vec<u32> = dequantize(params, codes);
                    proof {
                        assert(call_ensures(*dequantize, (params, codes), v));
                        assert(restored(*dequantize, params, self.codes(id), v));
                    }
                    Some(v)
                },
            };
        }
        let dim: usize = self.dimensions;
        if dim == 0 {
            let v: Vec<u32> = Vec::new();
            proof {
                let i = id as int;
                assert((i + 1) * 0 == 0 && i * 0 == 0);
                assert(v@ =~= chunk(self.training_buffer@, id as int, 0));
            }
            return Some(v);
        }
        let n: usize = self.training_buffer.len() / dim;
        proof {
            let b = self.training_buffer@.len() as int;
            let d = dim as int;
            let i = id as int;
            assert((i < b / d) == ((i + 1) * d <= b)) by (nonlinear_arith)
                requires
                    d > 0,
                    b >= 0,
                    i >= 0,
            ;
            assert((i + 1) * d == i * d + d) by (nonlinear_arith);
            assert(i * d >= 0) by (nonlinear_arith)
                requires
                    i >= 0,
                    d >= 0,
            ;
        }
        if id as usize >= n {
            return None;
        }
        let start: usize = id as usize * dim;
        let part: &[u32] = vstd::slice::slice_subrange(
            self.training_buffer.as_slice(),
            start,
            start + dim,
        );
        let v: Vec<u32> = slice_to_vec(part);
        assert(v@ =~= chunk(self.training_buffer@, id as int, dim as int));
        Some(v)
    }

    /// What the distance to a quantized vector is computed from: parameters,
    /// codes, squared norm and sum. Nothing before training, and for a node
    /// that does not have all of it.
    pub open spec fn sq8_terms(&self, id: u32) -> Option<(ScalarParams, Seq<u8>, u32, i32)> {
        if self.sq8_params is Some && self.sq8_trained && id < self.len && id < self.norms@.len()
            && id < self.sq8_sums@.len() {
            Some(
                (
                    self.sq8_params->0,
                    self.codes(id),
                    self.norms@[id as int],
                    self.sq8_sums@[id as int],
                ),
            )
        } else {
            None
        }
    }

    /// A distance was computed from the terms of a node, or there were none.
    pub open spec fn sq8_distance<C: Fn(ScalarParams, &[u8], u32, i32) -> u32>(
        &self,
        id: u32,
        combine: C,
        r: Option<u32>,
    ) -> bool {
        match self.sq8_terms(id) {
            None => r is None,
            Some((params, codes, norm, sum)) => r is Some && combined(
                combine,
                params,
                codes,
                norm,
                sum,
                r->0,
            ),
        }
    }

    /// The distance to a quantized vector.
    pub fn distance_sq8<C: Fn(ScalarParams, &[u8], u32, i32) -> u32>(
        &self,
        id: u32,
        combine: &C,
    ) -> (r: Option<u32>)
        requires
            self.wf(),
            self.sq8,
            forall|p: ScalarParams, c: &[u8], n: u32, s: i32|
                c@.len() == self.dimensions ==> #[trigger] call_requires(*combine, (p, c, n, s)),
        ensures
            self.sq8_distance(id, *combine, r),
    {
        let params: ScalarParams = match self.sq8_params {
            None => {
                return None;
            },
            Some(p) => p,
        };
        let index: usize = id as usize;
        if !self.sq8_trained || index >= self.len || index >= self.norms.len() || index
            >= self.sq8_sums.len() {
            return None;
        }
        let codes: &[u8] = self.quantized_vector(id);
        let d: u32 = combine(params, codes, self.norms[index], self.sq8_sums[index]);
        proof {
            let norm = self.norms@[id as int];
            let sum = self.sq8_sums@[id as int];
            assert(call_ensures(*combine, (params, codes, norm, sum), d));
            assert(combined(*combine, params, self.codes(id), norm, sum, d));
        }
        Some(d)
    }

    /// How many of the first `n` of some nodes have a distance.
    pub open spec fn sq8_count(&self, ids: Seq<u32>, n: nat) -> nat
        decreases n,
    {
        if n == 0 {
            0
        } else {
            self.sq8_count(ids, (n - 1) as nat) + if self.sq8_terms(ids[n - 1]) is Some {
                1nat
            } else {
                0nat
            }
        }
    }

    /// The distances to several nodes, as far as there is room for them. Where
    /// a node has none, the place of its distance is left as it was. Returns how
    /// many were computed.
    pub fn distance_sq8_batch<C: Fn(ScalarParams, &[u8], u32, i32) -> u32>(
        &self,
        ids: &[u32],
        combine: &C,
        distances: &mut Vec<u32>,
    ) -> (count: usize)
        requires
            self.wf(),
            self.sq8,
            forall|p: ScalarParams, c: &[u8], n: u32, s: i32|
                c@.len() == self.dimensions ==> #[trigger] call_requires(*combine, (p, c, n, s)),
        ensures
            final(distances)@.len() == old(distances)@.len(),
            forall|i: int|
                #![trigger final(distances)@[i]]
                0 <= i < old(distances)@.len() ==> {
                    if i < ids@.len() && self.sq8_terms(ids@[i]) is Some {
                        self.sq8_distance(ids@[i], *combine, Some(final(distances)@[i]))
                    } else {
                        final(distances)@[i] == old(distances)@[i]
                    }
                },
            count == self.sq8_count(
                ids@,
                if ids@.len() <= old(distances)@.len() {
                    ids@.len()
                } else {
                    old(distances)@.len()
                },
            ),
    {
        let n: usize = if ids.len() <= distances.len() { ids.len() } else { distances.len() };
        let mut count: usize = 0;
        let mut i: usize = 0;
        while i < n
            invariant
                i <= n <= ids@.len(),
                n <= distances@.len(),
                count <= i,
                count == self.sq8_count(ids@, i as nat),
                self.wf(),
                self.sq8,
                forall|p: ScalarParams, c: &[u8], m: u32, s: i32|
                    c@.len() == self.dimensions ==> #[trigger] call_requires(
                        *combine,
                        (p, c, m, s),
                    ),
                distances@.len() == old(distances)@.len(),
                forall|j: int|
                    #![trigger distances@[j]]
                    0 <= j < distances@.len() ==> {
                        if j < i && self.sq8_terms(ids@[j]) is Some {
                            self.sq8_distance(ids@[j], *combine, Some(distances@[j]))
                        } else {
                            distances@[j] == old(distances)@[j]
                        }
                    },
            decreases n - i,
        {
            let r: Option<u32> = self.distance_sq8(ids[i], combine);
            match r {
                Some(d) => {
                    distances.set(i, d);
                    count += 1;
                },
                None => {},
            }
            i += 1;
        }
        count
    }
}

/// What is left of a vector once it is coded.
pub open spec fn recoded<C: Coder>(coder: C, params: ScalarParams, v: Seq<u32>) -> Seq<u32> {
    decoded(coder.meaning(params), coder.coded(params, v).0)
}

impl NodeStorage {
    /// Vectors wait for the quantization to be trained.
    pub open spec fn waits(&self) -> bool {
        self.sq8 && !self.sq8_trained && self.dimensions > 0 && self.collected() > 0
    }

    /// The vectors to train on: the first of those that are collected.
    pub open spec fn sample(&self) -> Seq<u32> {
        if self.collected() > TRAINING_VECTORS {
            self.training_buffer@.take(TRAINING_VECTORS * self.dimensions)
        } else {
            self.training_buffer@
        }
    }

    /// The vectors that waited for training, if any, were coded with parameters
    /// that were trained on the first of them, provided that the training
    /// succeeded.
    pub open spec fn taught<C: Coder>(&self, before: &Self, coder: C) -> bool {
        let params = coder.params_for(before.sample(), before.dimensions);
        if before.waits() && params is Some {
            self.coded_from(before, params->0, coder)
        } else {
            *self == *before
        }
    }

    /// Trains the quantization on the vectors that wait for it, however few they
    /// are. Where the training fails, they go on waiting.
    pub fn flush_sq8_training<C: Coder>(&mut self, coder: &C)
        requires
            old(self).wf(),
            old(self).vectors_ok(),
            coder.usable(old(self).dimensions as nat),
        ensures
            final(self).wf(),
            final(self).taught(old(self), *coder),
    {
        if !self.sq8 || self.sq8_trained || self.dimensions == 0 {
            return;
        }
        let n: usize = self.training_buffer.len() / self.dimensions;
        if n == 0 {
            return;
        }
        proof {
            self.lemma_all_collected();
            let b = self.training_buffer@.len() as int;
            let d = self.dimensions as int;
            if n > TRAINING_VECTORS {
                assert(TRAINING_VECTORS * d <= n * d) by (nonlinear_arith)
                    requires
                        TRAINING_VECTORS <= n,
                        d >= 0,
                ;
            }
            assert(self.training_buffer@.len() == self.training_buffer.len());
        }
        let dim: usize = self.dimensions;
        let sample: &[u32] = if n > TRAINING_VECTORS {
            vstd::slice::slice_subrange(self.training_buffer.as_slice(), 0, TRAINING_VECTORS * dim)
        } else {
            self.training_buffer.as_slice()
        };
        assert(sample@ =~= self.sample());
        match coder.train(sample, dim) {
            None => {},
            Some(params) => {
                self.code_collected(params, coder);
            },
        }
    }

    /// Each node has a vector that waits.
    pub proof fn lemma_all_collected(&self)
        requires
            self.vectors_ok(),
            self.sq8,
            !self.sq8_trained,
            self.dimensions > 0,
        ensures
            self.collected() == self.len,
    {
        let n = self.len as int;
        let d = self.dimensions as int;
        assert((n * d) / d == n) by (nonlinear_arith)
            requires
                d > 0,
                n >= 0,
        ;
    }

    /// Once the quantization is trained, every vector is what its codes say.
    pub proof fn lemma_taught<C: Coder>(&self, before: &Self, coder: C)
        requires
            before.wf(),
            before.vectors_ok(),
            self.taught(before, coder),
        ensures
            self.vectors_ok(),
            before.same_shape(self),
            self.upper_neighbors == before.upper_neighbors,
            forall|i: u32|
                i < before.len ==> #[trigger] self.vec(i) == (if self.sq8_trained
                    && !before.sq8_trained {
                    recoded(coder, self.sq8_params->0, before.vec(i))
                } else {
                    before.vec(i)
                }),
            forall|i: u32| i < before.len ==> #[trigger] self.links0(i) == before.links0(i),
            forall|i: u32| i < before.len ==> #[trigger] self.slot_of(i) == before.slot_of(i),
            forall|i: u32| i < before.len ==> #[trigger] self.node_level(i) == before.node_level(i),
    {
        let params = coder.params_for(before.sample(), before.dimensions);
        if before.waits() && params is Some {
            before.lemma_all_collected();
        }
    }

    /// Finds the values of the codes again, for a storage that was read back.
    pub fn restore_values<C: Coder>(&mut self, coder: &C)
        requires
            coder.usable(old(self).dimensions as nat),
        ensures
            *final(self) == (NodeStorage {
                code_values: final(self).code_values,
                ..*old(self)
            }),
            final(self).code_values@ == (match old(self).sq8_params {
                Some(params) => coder.meaning(params),
                None => old(self).code_values@,
            }),
            old(self).sq8_params is Some ==> final(self).code_values@.len() == CODES,
    {
        match self.sq8_params {
            Some(params) => {
                let dimensions: usize = self.dimensions;
                self.code_values = coder.values(params, dimensions);
            },
            None => {},
        }
    }
}

} // verus!
