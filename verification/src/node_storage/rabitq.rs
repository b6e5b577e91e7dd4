//! Vectors that are held as one bit per component, with what it takes to
//! estimate distances from them.
//!
//! The first vectors are collected until there are enough to train on. Rotation
//! and estimates, which take floating-point arithmetic, are up to the caller.

use vstd::prelude::*;

use super::quantization::{chunk, TrainingFailed};

verus! {

/// Vectors that are collected before the quantization is trained.
pub const RABITQ_TRAINING_SIZE: usize = 256;

/// What training gives.
#[derive(Debug, Clone)]
pub struct RaBitQParams {
    /// Words of a code.
    pub code_words: usize,
    /// Bits of the rotation and the centre.
    pub rotation: Vec<u32>,
}

/// A vector after quantization, with the terms of the estimate.
#[derive(Debug, Clone)]
pub struct RaBitQCode {
    pub signs: Vec<u64>,
    pub dis_u_2: u32,
    pub factor_ip: u32,
    pub factor_ppc: u32,
}

/// Vectors as codes, or collected while the quantization is not trained.
#[derive(Debug)]
pub struct RaBitQStorage {
    pub dimensions: usize,
    pub trained: bool,
    pub params: Option<RaBitQParams>,
    /// The codes, one behind the other.
    pub codes: Vec<u64>,
    /// Three terms for each vector.
    pub metadata: Vec<u32>,
    /// The vectors as they were given.
    pub originals: Vec<u32>,
    /// Bits of the squared norm of each vector.
    pub norms: Vec<u32>,
    pub training_buffer: Vec<u32>,
}

/// A sequence with a part written into it, and zeros before it where it was
/// too short.
pub open spec fn placed<T>(s: Seq<T>, at: int, part: Seq<T>, zero: T) -> Seq<T> {
    Seq::new(
        if s.len() >= at + part.len() {
            s.len()
        } else {
            (at + part.len()) as nat
        },
        |i: int|
            if at <= i < at + part.len() {
                part[i - at]
            } else if i < s.len() {
                s[i]
            } else {
                zero
            },
    )
}

fn place<T: Copy>(v: &mut Vec<T>, at: usize, part: &[T], zero: T)
    requires
        at + part@.len() <= usize::MAX,
    ensures
        final(v)@ == placed(old(v)@, at as int, part@, zero),
{
    let ghost before = v@;
    let end: usize = at + part.len();
    while v.len() < end
        invariant
            before.len() <= v@.len(),
            v@.len() <= end || v@.len() == before.len(),
            forall|i: int|
                0 <= i < v@.len() ==> #[trigger] v@[i] == (if i < before.len() {
                    before[i]
                } else {
                    zero
                }),
        decreases end - v.len(),
    {
        v.push(zero);
    }
    let ghost grown = v@;
    let mut i: usize = 0;
    while i < part.len()
        invariant
            i <= part@.len(),
            end == at + part@.len(),
            end <= v@.len(),
            v@.len() == grown.len(),
            forall|j: int|
                0 <= j < v@.len() ==> #[trigger] v@[j] == (if at <= j < at + i {
                    part@[j - at]
                } else {
                    grown[j]
                }),
        decreases part.len() - i,
    {
        v.set(at + i, part[i]);
        i += 1;
    }
    assert(v@ =~= placed(before, at as int, part@, zero));
}

// ---------------------------------------------------------------------------
// Functions from the caller
// ---------------------------------------------------------------------------

/// A code as a value.
pub open spec fn code_view(c: RaBitQCode) -> (Seq<u64>, Seq<u32>) {
    (c.signs@, seq![c.dis_u_2, c.factor_ip, c.factor_ppc])
}

/// A quantizer accepts any vector of the right length, gives codes of the
/// right length, and depends on the components alone.
pub open spec fn coder_ok<Q: Fn(&RaBitQParams, &[u32]) -> RaBitQCode>(
    quantize: Q,
    dimensions: nat,
) -> bool {
    &&& forall|p: &RaBitQParams, v: &[u32]|
        v@.len() == dimensions ==> #[trigger] call_requires(quantize, (p, v))
    &&& forall|p: &RaBitQParams, v: &[u32], c: RaBitQCode| #[trigger]
        call_ensures(quantize, (p, v), c) ==> c.signs@.len() == p.code_words
    &&& forall|p: &RaBitQParams, v: &[u32], w: &[u32], c: RaBitQCode, d: RaBitQCode|
        #[trigger] call_ensures(quantize, (p, v), c) && #[trigger] call_ensures(quantize, (p, w), d)
            && v@ == w@ ==> code_view(c) == code_view(d)
}

pub open spec fn coder_returns<Q: Fn(&RaBitQParams, &[u32]) -> RaBitQCode>(
    quantize: Q,
    params: RaBitQParams,
    v: Seq<u32>,
    r: (Seq<u64>, Seq<u32>),
) -> bool {
    exists|w: &[u32], c: RaBitQCode|
        w@ == v && r == code_view(c) && #[trigger] call_ensures(quantize, (&params, w), c)
}

/// The code of a vector.
pub open spec fn coded<Q: Fn(&RaBitQParams, &[u32]) -> RaBitQCode>(
    quantize: Q,
    params: RaBitQParams,
    v: Seq<u32>,
) -> (Seq<u64>, Seq<u32>) {
    choose|r: (Seq<u64>, Seq<u32>)| coder_returns(quantize, params, v, r)
}

fn apply_coder<Q: Fn(&RaBitQParams, &[u32]) -> RaBitQCode>(
    quantize: &Q,
    params: &RaBitQParams,
    v: &[u32],
) -> (c: RaBitQCode)
    requires
        coder_ok(*quantize, v@.len()),
    ensures
        code_view(c) == coded(*quantize, *params, v@),
        c.signs@.len() == params.code_words,
{
    let c = quantize(params, v);
    proof {
        assert(call_ensures(*quantize, (params, v), c));
        assert(coder_returns(*quantize, *params, v@, code_view(c)));
    }
    c
}

/// A function that gives squared norms accepts any vector, and depends on its
/// components alone.
pub open spec fn norm_ok<N: Fn(&[u32]) -> u32>(norm: N) -> bool {
    &&& forall|v: &[u32]| #[trigger] call_requires(norm, (v,))
    &&& forall|v: &[u32], w: &[u32], x: u32, y: u32| #[trigger]
        call_ensures(norm, (v,), x) && #[trigger] call_ensures(norm, (w,), y) && v@ == w@ ==> x
            == y
}

pub open spec fn norm_returns<N: Fn(&[u32]) -> u32>(norm: N, v: Seq<u32>, x: u32) -> bool {
    exists|w: &[u32]| w@ == v && #[trigger] call_ensures(norm, (w,), x)
}

/// The squared norm of a vector.
pub open spec fn norm_of<N: Fn(&[u32]) -> u32>(norm: N, v: Seq<u32>) -> u32 {
    choose|x: u32| norm_returns(norm, v, x)
}

pub(crate) fn apply_norm<N: Fn(&[u32]) -> u32>(norm: &N, v: &[u32]) -> (x: u32)
    requires
        norm_ok(*norm),
    ensures
        x == norm_of(*norm, v@),
{
    let x: u32 = norm(v);
    proof {
        assert(call_ensures(*norm, (v,), x));
        assert(norm_returns(*norm, v@, x));
    }
    x
}

/// A trainer accepts any vectors, and has no more words in a code than there
/// are components.
pub open spec fn coder_trainer_ok<T: Fn(&[u32], usize) -> Option<RaBitQParams>>(train: T) -> bool {
    &&& forall|v: &[u32], n: usize| #[trigger] call_requires(train, (v, n))
    &&& forall|v: &[u32], n: usize, p: Option<RaBitQParams>| #[trigger]
        call_ensures(train, (v, n), p) ==> (p matches Some(q) ==> q.code_words <= n)
}

/// Training on some vectors may give these parameters, or fail.
pub open spec fn may_train<T: Fn(&[u32], usize) -> Option<RaBitQParams>>(
    train: T,
    v: Seq<u32>,
    dimensions: usize,
    p: Option<RaBitQParams>,
) -> bool {
    exists|w: &[u32]| w@ == v && #[trigger] call_ensures(train, (w, dimensions), p)
}

// ---------------------------------------------------------------------------
// Storing
// ---------------------------------------------------------------------------

/// Codes, terms and norms.
pub struct CodeTables {
    pub codes: Seq<u64>,
    pub metadata: Seq<u32>,
    pub norms: Seq<u32>,
}

/// The tables with a vector stored at a place.
pub open spec fn stored<Q: Fn(&RaBitQParams, &[u32]) -> RaBitQCode, N: Fn(&[u32]) -> u32>(
    t: CodeTables,
    quantize: Q,
    norm: N,
    params: RaBitQParams,
    at: int,
    v: Seq<u32>,
) -> CodeTables {
    let code = coded(quantize, params, v);
    CodeTables {
        codes: placed(t.codes, at * params.code_words, code.0, 0u64),
        metadata: placed(t.metadata, at * 3, code.1, 0u32),
        norms: placed(t.norms, at, seq![norm_of(norm, v)], 0u32),
    }
}

/// The tables with the first `n` of the collected vectors stored.
pub open spec fn all_stored<Q: Fn(&RaBitQParams, &[u32]) -> RaBitQCode, N: Fn(&[u32]) -> u32>(
    t: CodeTables,
    quantize: Q,
    norm: N,
    params: RaBitQParams,
    v: Seq<u32>,
    dimensions: int,
    n: nat,
) -> CodeTables
    decreases n,
{
    if n == 0 {
        t
    } else {
        stored(
            all_stored(t, quantize, norm, params, v, dimensions, (n - 1) as nat),
            quantize,
            norm,
            params,
            n - 1,
            chunk(v, n - 1, dimensions),
        )
    }
}

/// A vector that is stored does not disturb those at other places.
pub proof fn law_stored_apart<Q: Fn(&RaBitQParams, &[u32]) -> RaBitQCode, N: Fn(&[u32]) -> u32>(
    t: CodeTables,
    quantize: Q,
    norm: N,
    params: RaBitQParams,
    at: int,
    v: Seq<u32>,
    other: int,
)
    requires
        0 <= at,
        0 <= other,
        other != at,
        coded(quantize, params, v).0.len() == params.code_words,
        coded(quantize, params, v).1.len() == 3,
        (other + 1) * params.code_words <= t.codes.len(),
        (other + 1) * 3 <= t.metadata.len(),
        other < t.norms.len(),
    ensures
        ({
            let after = stored(t, quantize, norm, params, at, v);
            let w = params.code_words as int;
            &&& after.codes.subrange(other * w, (other + 1) * w) == t.codes.subrange(
                other * w,
                (other + 1) * w,
            )
            &&& after.metadata.subrange(other * 3, (other + 1) * 3) == t.metadata.subrange(
                other * 3,
                (other + 1) * 3,
            )
            &&& after.norms[other] == t.norms[other]
        }),
{
    let after = stored(t, quantize, norm, params, at, v);
    let w = params.code_words as int;
    assert((other + 1) * w <= at * w || (at + 1) * w <= other * w) by (nonlinear_arith)
        requires
            other != at,
            w >= 0,
    ;
    assert((at + 1) * w == at * w + w) by (nonlinear_arith);
    assert((other + 1) * w == other * w + w) by (nonlinear_arith);
    assert(0 <= other * w) by (nonlinear_arith)
        requires
            0 <= other,
            0 <= w,
    ;
    assert(0 <= at * w) by (nonlinear_arith)
        requires
            0 <= at,
            0 <= w,
    ;
    assert(after.codes.subrange(other * w, (other + 1) * w) =~= t.codes.subrange(
        other * w,
        (other + 1) * w,
    ));
    assert(after.metadata.subrange(other * 3, (other + 1) * 3) =~= t.metadata.subrange(
        other * 3,
        (other + 1) * 3,
    ));
}

/// The code and the terms of a vector, as far as they are there.
pub open spec fn terms_at(
    storage: RaBitQStorage,
    id: u32,
) -> Option<(Seq<u64>, u32, u32, u32)> {
    match storage.params {
        Some(p) if storage.trained && (id + 1) * p.code_words <= storage.codes@.len() && (id + 1)
            * 3 <= storage.metadata@.len() => Some(
            (
                storage.codes@.subrange(id * p.code_words, (id + 1) * p.code_words),
                storage.metadata@[id * 3],
                storage.metadata@[id * 3 + 1],
                storage.metadata@[id * 3 + 2],
            ),
        ),
        _ => None,
    }
}

/// A distance may be estimated from these terms.
pub open spec fn may_estimate<E: Fn(&[u64], u32, u32, u32) -> u32>(
    estimate: E,
    terms: (Seq<u64>, u32, u32, u32),
    d: u32,
) -> bool {
    exists|s: &[u64]|
        s@ == terms.0 && #[trigger] call_ensures(estimate, (s, terms.1, terms.2, terms.3), d)
}

/// How many of the first `n` nodes have terms.
pub open spec fn terms_count(storage: RaBitQStorage, ids: Seq<u32>, n: nat) -> nat
    decreases n,
{
    if n == 0 {
        0
    } else {
        terms_count(storage, ids, (n - 1) as nat) + if terms_at(storage, ids[n - 1]) is Some {
            1nat
        } else {
            0nat
        }
    }
}

impl RaBitQStorage {
    pub open spec fn tables(&self) -> CodeTables {
        CodeTables { codes: self.codes@, metadata: self.metadata@, norms: self.norms@ }
    }

    /// What was trained is there.
    pub open spec fn wf(&self) -> bool {
        &&& self.dimensions > 0
        &&& self.trained ==> self.params is Some
        &&& self.training_buffer@.len() % (self.dimensions as nat) == 0
    }

    /// A vector fits at a place.
    pub open spec fn fits(&self, id: u32) -> bool {
        &&& (id + 1) * 3 <= usize::MAX
        &&& (id + 1) * self.dimensions <= usize::MAX
        &&& self.params matches Some(p) ==> (id + 1) * p.code_words <= usize::MAX
    }

    pub fn new(dimensions: usize) -> (r: Self)
        requires
            dimensions > 0,
        ensures
            r.wf(),
            r.dimensions == dimensions,
            !r.trained,
            r.params is None,
            r.tables() == (CodeTables {
                codes: Seq::empty(),
                metadata: Seq::empty(),
                norms: Seq::empty(),
            }),
            r.originals@.len() == 0,
            r.training_buffer@.len() == 0,
    {
        proof {
            vstd::arithmetic::div_mod::lemma_small_mod(0, dimensions as nat);
        }
        RaBitQStorage {
            dimensions,
            trained: false,
            params: None,
            codes: Vec::new(),
            metadata: Vec::new(),
            originals: Vec::new(),
            norms: Vec::new(),
            training_buffer: Vec::new(),
        }
    }

    fn store<Q: Fn(&RaBitQParams, &[u32]) -> RaBitQCode, N: Fn(&[u32]) -> u32>(
        &mut self,
        params: &RaBitQParams,
        at: usize,
        v: &[u32],
        quantize: &Q,
        norm: &N,
    )
        requires
            coder_ok(*quantize, v@.len()),
            norm_ok(*norm),
            (at + 1) * params.code_words <= usize::MAX,
            (at + 1) * 3 <= usize::MAX,
        ensures
            final(self).tables() == stored(
                old(self).tables(),
                *quantize,
                *norm,
                *params,
                at as int,
                v@,
            ),
            *final(self) == (RaBitQStorage {
                codes: final(self).codes,
                metadata: final(self).metadata,
                norms: final(self).norms,
                ..*old(self)
            }),
    {
        let words: usize = params.code_words;
        proof {
            assert((at + 1) * words == at * words + words) by (nonlinear_arith);
            assert(0 <= at * words) by (nonlinear_arith);
        }
        let code: RaBitQCode = apply_coder(quantize, params, v);
        place(&mut self.codes, at * words, code.signs.as_slice(), 0u64);
        let mut terms: Vec<u32> = Vec::new();
        terms.push(code.dis_u_2);
        terms.push(code.factor_ip);
        terms.push(code.factor_ppc);
        assert(terms@ =~= code_view(code).1);
        place(&mut self.metadata, at * 3, terms.as_slice(), 0u32);
        let mut one: Vec<u32> = Vec::new();
        one.push(apply_norm(norm, v));
        assert(one@ =~= seq![norm_of(*norm, v@)]);
        place(&mut self.norms, at, one.as_slice(), 0u32);
    }

    /// The quantization was trained on the collected vectors, and these were
    /// stored; or training failed, and nothing changed but that they are kept as
    /// the vectors that were given.
    pub open spec fn trained_from<
        T: Fn(&[u32], usize) -> Option<RaBitQParams>,
        Q: Fn(&RaBitQParams, &[u32]) -> RaBitQCode,
        N: Fn(&[u32]) -> u32,
    >(
        &self,
        before: &Self,
        train: T,
        quantize: Q,
        norm: N,
        r: core::result::Result<(), TrainingFailed>,
    ) -> bool {
        let v = before.training_buffer@;
        let n = v.len() as int / before.dimensions as int;
        &&& self.dimensions == before.dimensions
        &&& self.training_buffer@.len() == 0
        &&& self.originals@ == v
        &&& match r {
            Ok(_) => {
                &&& self.trained
                &&& self.params is Some
                &&& may_train(train, v, before.dimensions, self.params)
                &&& self.tables() == all_stored(
                    before.tables(),
                    quantize,
                    norm,
                    self.params->0,
                    v,
                    before.dimensions as int,
                    n as nat,
                )
            },
            Err(_) => {
                &&& may_train(train, v, before.dimensions, None)
                &&& self.trained == before.trained
                &&& self.params == before.params
                &&& self.tables() == before.tables()
            },
        }
    }

    /// Trains the quantization on the collected vectors, and stores these.
    pub fn train_rabitq_quantization<
        T: Fn(&[u32], usize) -> Option<RaBitQParams>,
        Q: Fn(&RaBitQParams, &[u32]) -> RaBitQCode,
        N: Fn(&[u32]) -> u32,
    >(&mut self, train: &T, quantize: &Q, norm: &N) -> (r: core::result::Result<(), TrainingFailed>)
        requires
            old(self).wf(),
            old(self).training_buffer@.len() * 3 <= usize::MAX,
            coder_trainer_ok(*train),
            coder_ok(*quantize, old(self).dimensions as nat),
            norm_ok(*norm),
        ensures
            final(self).wf(),
            final(self).trained_from(old(self), *train, *quantize, *norm, r),
    {
        let dim: usize = self.dimensions;
        let n: usize = self.training_buffer.len() / dim;
        proof {
            vstd::arithmetic::div_mod::lemma_small_mod(0, dim as nat);
        }
        let mut v: Vec<u32> = Vec::new();
        std::mem::swap(&mut v, &mut self.training_buffer);
        let ghost given = v@;
        let ghost before = self.tables();
        let trained: Option<RaBitQParams> = train(v.as_slice(), dim);
        assert(may_train(*train, given, dim, trained));
        let params: RaBitQParams = match trained {
            None => {
                self.originals = v;
                return Err(TrainingFailed);
            },
            Some(params) => params,
        };
        proof {
            vstd::arithmetic::div_mod::lemma_fundamental_div_mod(given.len() as int, dim as int);
            assert(n * dim <= given.len()) by (nonlinear_arith)
                requires
                    given.len() == dim * n + given.len() as int % dim as int,
                    0 <= given.len() as int % dim as int,
            ;
            assert(n <= n * dim) by (nonlinear_arith)
                requires
                    dim >= 1,
            ;
        }
        let mut i: usize = 0;
        while i < n
            invariant
                i <= n,
                n * dim <= given.len(),
                n <= given.len(),
                given.len() * 3 <= usize::MAX,
                dim > 0,
                v@ == given,
                params.code_words <= dim,
                coder_ok(*quantize, dim as nat),
                norm_ok(*norm),
                self.tables() == all_stored(
                    before,
                    *quantize,
                    *norm,
                    params,
                    given,
                    dim as int,
                    i as nat,
                ),
                self.dimensions == dim,
                self.training_buffer@.len() == 0,
            decreases n - i,
        {
            proof {
                assert((i + 1) * dim <= n * dim) by (nonlinear_arith)
                    requires
                        i + 1 <= n,
                ;
                assert((i + 1) * params.code_words <= (i + 1) * dim) by (nonlinear_arith)
                    requires
                        params.code_words <= dim,
                ;
                assert(i * dim <= (i + 1) * dim) by (nonlinear_arith);
                assert((i + 1) * dim == i * dim + dim) by (nonlinear_arith);
            }
            let part: &[u32] = vstd::slice::slice_subrange(v.as_slice(), i * dim, i * dim + dim);
            assert(part@ == chunk(given, i as int, dim as int));
            self.store(&params, i, part, quantize, norm);
            i += 1;
        }
        self.originals = v;
        self.params = Some(params);
        self.trained = true;
        Ok(())
    }

    /// A vector was stored at a place, or collected.
    pub open spec fn took<
        T: Fn(&[u32], usize) -> Option<RaBitQParams>,
        Q: Fn(&RaBitQParams, &[u32]) -> RaBitQCode,
        N: Fn(&[u32]) -> u32,
    >(
        &self,
        before: &Self,
        id: u32,
        v: Seq<u32>,
        train: T,
        quantize: Q,
        norm: N,
        r: core::result::Result<(), TrainingFailed>,
    ) -> bool {
        if before.trained {
            &&& r is Ok
            &&& self.tables() == stored(
                before.tables(),
                quantize,
                norm,
                before.params->0,
                id as int,
                v,
            )
            &&& self.originals@ == placed(before.originals@, id * before.dimensions, v, 0u32)
            &&& self.dimensions == before.dimensions
            &&& self.trained
            &&& self.params == before.params
            &&& self.training_buffer == before.training_buffer
        } else {
            exists|collected: RaBitQStorage|
                {
                    &&& #[trigger] collected.training_buffer@ == before.training_buffer@ + v
                    &&& collected == (RaBitQStorage {
                        training_buffer: collected.training_buffer,
                        ..*before
                    })
                    &&& if collected.training_buffer@.len() as int / before.dimensions as int
                        >= RABITQ_TRAINING_SIZE {
                        self.trained_from(&collected, train, quantize, norm, r)
                    } else {
                        *self == collected && r is Ok
                    }
                }
        }
    }

    /// Stores a vector at a place. While the quantization is not trained, the
    /// vector is collected, and the last one that was missing has it trained.
    pub fn set_vector_rabitq<
        T: Fn(&[u32], usize) -> Option<RaBitQParams>,
        Q: Fn(&RaBitQParams, &[u32]) -> RaBitQCode,
        N: Fn(&[u32]) -> u32,
    >(&mut self, id: u32, vector: &[u32], train: &T, quantize: &Q, norm: &N) -> (r:
        core::result::Result<(), TrainingFailed>)
        requires
            old(self).wf(),
            vector@.len() == old(self).dimensions,
            old(self).trained ==> old(self).fits(id),
            !old(self).trained ==> (old(self).training_buffer@.len() + old(self).dimensions) * 3
                <= usize::MAX,
            coder_trainer_ok(*train),
            coder_ok(*quantize, old(self).dimensions as nat),
            norm_ok(*norm),
        ensures
            final(self).wf(),
            final(self).took(old(self), id, vector@, *train, *quantize, *norm, r),
    {
        let at: usize = id as usize;
        let dim: usize = self.dimensions;
        if self.trained {
            let mut taken: Option<RaBitQParams> = None;
            std::mem::swap(&mut taken, &mut self.params);
            match taken {
                Some(params) => {
                    self.store(&params, at, vector, quantize, norm);
                    self.params = Some(params);
                },
                None => {},
            }
            proof {
                assert((at + 1) * dim == at * dim + dim) by (nonlinear_arith);
                assert(0 <= at * dim) by (nonlinear_arith);
            }
            place(&mut self.originals, at * dim, vector, 0u32);
            return Ok(());
        }
        let ghost before = *self;
        let mut i: usize = 0;
        while i < vector.len()
            invariant
                i <= vector@.len(),
                self.training_buffer@ == before.training_buffer@ + vector@.take(i as int),
                *self == (RaBitQStorage { training_buffer: self.training_buffer, ..before }),
            decreases vector.len() - i,
        {
            self.training_buffer.push(vector[i]);
            assert(before.training_buffer@ + vector@.take(i + 1) =~= (before.training_buffer@
                + vector@.take(i as int)).push(vector@[i as int]));
            i += 1;
        }
        let ghost collected = *self;
        proof {
            assert(vector@.take(i as int) =~= vector@);
            assert(collected.training_buffer@ == before.training_buffer@ + vector@);
            vstd::arithmetic::div_mod::lemma_mod_add_multiples_vanish(
                before.training_buffer@.len() as int,
                dim as int,
            );
        }
        if self.training_buffer.len() / dim >= RABITQ_TRAINING_SIZE {
            return self.train_rabitq_quantization(train, quantize, norm);
        }
        Ok(())
    }

    /// Estimates the distance to a vector, where it has a code.
    pub fn distance_rabitq<E: Fn(&[u64], u32, u32, u32) -> u32>(&self, id: u32, estimate: &E) -> (r:
        Option<u32>)
        requires
            self.fits(id),
            forall|s: &[u64], a: u32, b: u32, c: u32| #[trigger]
                call_requires(*estimate, (s, a, b, c)),
        ensures
            r is Some == terms_at(*self, id) is Some,
            r matches Some(d) ==> may_estimate(*estimate, terms_at(*self, id)->0, d),
    {
        if !self.trained {
            return None;
        }
        match &self.params {
            None => None,
            Some(params) => {
                let words: usize = params.code_words;
                let at: usize = id as usize;
                proof {
                    assert((at + 1) * words == at * words + words) by (nonlinear_arith);
                    assert(0 <= at * words) by (nonlinear_arith);
                }
                let start: usize = at * words;
                if start + words > self.codes.len() || at * 3 + 3 > self.metadata.len() {
                    return None;
                }
                let signs: &[u64] = vstd::slice::slice_subrange(
                    self.codes.as_slice(),
                    start,
                    start + words,
                );
                let ghost terms = terms_at(*self, id)->0;
                assert(terms_at(*self, id) is Some);
                assert(signs@ =~= terms.0);
                let dis_u_2: u32 = self.metadata[at * 3];
                let factor_ip: u32 = self.metadata[at * 3 + 1];
                let factor_ppc: u32 = self.metadata[at * 3 + 2];
                assert((dis_u_2, factor_ip, factor_ppc) == (terms.1, terms.2, terms.3));
                let d: u32 = estimate(signs, dis_u_2, factor_ip, factor_ppc);
                assert(call_ensures(*estimate, (signs, terms.1, terms.2, terms.3), d));
                assert(may_estimate(*estimate, terms, d));
                Some(d)
            },
        }
    }

    /// Estimates the distances to several vectors, as far as there is room for
    /// them. Where a vector has no code, the place of its distance is left as it
    /// was. Returns how many were estimated.
    pub fn distance_rabitq_batch<E: Fn(&[u64], u32, u32, u32) -> u32>(
        &self,
        ids: &[u32],
        estimate: &E,
        distances: &mut Vec<u32>,
    ) -> (count: usize)
        requires
            forall|i: int| 0 <= i < ids@.len() ==> self.fits(#[trigger] ids@[i]),
            forall|s: &[u64], a: u32, b: u32, c: u32| #[trigger]
                call_requires(*estimate, (s, a, b, c)),
        ensures
            final(distances)@.len() == old(distances)@.len(),
            forall|i: int|
                #![trigger final(distances)@[i]]
                0 <= i < old(distances)@.len() ==> {
                    if i < ids@.len() && terms_at(*self, ids@[i]) is Some {
                        may_estimate(
                            *estimate,
                            terms_at(*self, ids@[i])->0,
                            final(distances)@[i],
                        )
                    } else {
                        final(distances)@[i] == old(distances)@[i]
                    }
                },
            count == terms_count(
                *self,
                ids@,
                if ids@.len() <= old(distances)@.len() {
                    ids@.len()
                } else {
                    old(distances)@.len()
                },
            ),
    {
        let n: usize = if ids.len() <= distances.len() { ids.len() } else { distances.len() };
        let mut count: usize = 0;
        let mut i: usize = 0;
        while i < n
            invariant
                i <= n <= ids@.len(),
                n <= distances@.len(),
                count <= i,
                count == terms_count(*self, ids@, i as nat),
                forall|j: int| 0 <= j < ids@.len() ==> self.fits(#[trigger] ids@[j]),
                forall|s: &[u64], a: u32, b: u32, c: u32| #[trigger]
                    call_requires(*estimate, (s, a, b, c)),
                distances@.len() == old(distances)@.len(),
                forall|j: int|
                    #![trigger distances@[j]]
                    0 <= j < distances@.len() ==> {
                        if j < i && terms_at(*self, ids@[j]) is Some {
                            may_estimate(
                                *estimate,
                                terms_at(*self, ids@[j])->0,
                                distances@[j],
                            )
                        } else {
                            distances@[j] == old(distances)@[j]
                        }
                    },
            decreases n - i,
        {
            match self.distance_rabitq(ids[i], estimate) {
                Some(d) => {
                    distances.set(i, d);
                    count += 1;
                },
                None => {},
            }
            i += 1;
        }
        count
    }
}

} // verus!
