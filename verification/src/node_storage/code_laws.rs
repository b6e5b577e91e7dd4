//! What becomes of vectors that are held as codes.

use vstd::prelude::*;

use super::compress::{laid_out, lemma_laid_out};
use super::quantization::{chunk, Coder, TrainingFailed};
use super::rabitq::{
    all_stored, coded, law_stored_apart, norm_of, stored, terms_at, CodeTables, RaBitQCode,
    RaBitQParams, RaBitQStorage,
};
use super::NodeStorage;
use crate::index::coded_laws::{all_coded, first_vectors};

verus! {

/// A storage that is put in SQ8 mode keeps its graph. Fewer than 256 vectors read
/// back as they were; more are coded, with parameters trained on the first 256.
pub proof fn law_compressed<C: Coder>(before: &NodeStorage, after: &NodeStorage, coder: C) -> (
    sample: Seq<u32>)
    requires
        before.wf(),
        !before.sq8,
        before.len <= u32::MAX,
        after.compresses(before, coder),
    ensures
        after.sq8,
        after.len == before.len,
        forall|i: u32, l: u8| i < before.len ==> #[trigger] after.links(i, l) == before.links(i, l),
        forall|i: u32| i < before.len ==> #[trigger] after.slot_of(i) == before.slot_of(i),
        forall|i: u32| i < before.len ==> #[trigger] after.node_level(i) == before.node_level(i),
        before.len < 256 ==> !after.sq8_trained && forall|i: u32|
            i < before.len ==> #[trigger] after.vec(i) == before.vec(i),
        before.len >= 256 ==> {
            &&& first_vectors(before, sample)
            &&& coder.params_for(sample, before.dimensions) == after.sq8_params
            &&& all_coded(before, after, coder)
        },
{
    lemma_laid_out(*before, before.len as nat);
    if before.len < 256 {
        Seq::empty()
    } else {
        lemma_laid_out(*before, 256);
        laid_out(*before, 256)
    }
}

/// The tables hold the code, the terms and the norm of a vector at a place.
pub open spec fn holds_code<Q: Fn(&RaBitQParams, &[u32]) -> RaBitQCode, N: Fn(&[u32]) -> u32>(
    t: CodeTables,
    quantize: Q,
    norm: N,
    params: RaBitQParams,
    at: int,
    v: Seq<u32>,
) -> bool {
    let w = params.code_words as int;
    &&& (at + 1) * w <= t.codes.len()
    &&& (at + 1) * 3 <= t.metadata.len()
    &&& at < t.norms.len()
    &&& t.codes.subrange(at * w, (at + 1) * w) == coded(quantize, params, v).0
    &&& t.metadata.subrange(at * 3, (at + 1) * 3) == coded(quantize, params, v).1
    &&& t.norms[at] == norm_of(norm, v)
}

/// Codes have as many words as the parameters say, and come with three terms.
pub open spec fn codes_fit<Q: Fn(&RaBitQParams, &[u32]) -> RaBitQCode>(
    quantize: Q,
    params: RaBitQParams,
    dimensions: int,
) -> bool {
    forall|x: Seq<u32>|
        x.len() == dimensions ==> (#[trigger] coded(quantize, params, x)).0.len()
            == params.code_words && coded(quantize, params, x).1.len() == 3
}

/// A vector that is stored can be read at its place.
pub proof fn law_stored_is_there<
    Q: Fn(&RaBitQParams, &[u32]) -> RaBitQCode,
    N: Fn(&[u32]) -> u32,
>(t: CodeTables, quantize: Q, norm: N, params: RaBitQParams, at: int, v: Seq<u32>)
    requires
        0 <= at,
        coded(quantize, params, v).0.len() == params.code_words,
        coded(quantize, params, v).1.len() == 3,
    ensures
        holds_code(stored(t, quantize, norm, params, at, v), quantize, norm, params, at, v),
{
    let w = params.code_words as int;
    let after = stored(t, quantize, norm, params, at, v);
    assert((at + 1) * w == at * w + w) by (nonlinear_arith);
    assert(0 <= at * w) by (nonlinear_arith)
        requires
            0 <= at,
            0 <= w,
    ;
    assert(after.codes.subrange(at * w, (at + 1) * w) =~= coded(quantize, params, v).0);
    assert(after.metadata.subrange(at * 3, (at + 1) * 3) =~= coded(quantize, params, v).1);
}

proof fn lemma_all_stored<Q: Fn(&RaBitQParams, &[u32]) -> RaBitQCode, N: Fn(&[u32]) -> u32>(
    t: CodeTables,
    quantize: Q,
    norm: N,
    params: RaBitQParams,
    v: Seq<u32>,
    dimensions: int,
    n: nat,
    i: int,
)
    requires
        0 <= i < n,
        dimensions > 0,
        n * dimensions <= v.len(),
        codes_fit(quantize, params, dimensions),
    ensures
        holds_code(
            all_stored(t, quantize, norm, params, v, dimensions, n),
            quantize,
            norm,
            params,
            i,
            chunk(v, i, dimensions),
        ),
    decreases n,
{
    let last = n - 1;
    let before = all_stored(t, quantize, norm, params, v, dimensions, last as nat);
    let x = chunk(v, last, dimensions);
    assert(n * dimensions == last * dimensions + dimensions && last * dimensions >= 0)
        by (nonlinear_arith)
        requires
            last == n - 1,
            last >= 0,
            dimensions > 0,
    ;
    assert(x.len() == dimensions);
    assert(coded(quantize, params, x).0.len() == params.code_words);
    if i == last {
        law_stored_is_there(before, quantize, norm, params, last, x);
    } else {
        lemma_all_stored(t, quantize, norm, params, v, dimensions, last as nat, i);
        law_stored_apart(before, quantize, norm, params, last, x, i);
    }
}

/// Once the quantization is trained on the vectors that were collected, each of
/// them can be read as its code at its number, and they are kept as they were.
pub proof fn law_trained_from<
    T: Fn(&[u32], usize) -> Option<RaBitQParams>,
    Q: Fn(&RaBitQParams, &[u32]) -> RaBitQCode,
    N: Fn(&[u32]) -> u32,
>(
    after: &RaBitQStorage,
    before: &RaBitQStorage,
    train: T,
    quantize: Q,
    norm: N,
    r: core::result::Result<(), TrainingFailed>,
    i: u32,
)
    requires
        before.dimensions > 0,
        after.trained_from(before, train, quantize, norm, r),
        r is Ok,
        (i + 1) * before.dimensions <= before.training_buffer@.len(),
        codes_fit(quantize, after.params->0, before.dimensions as int),
    ensures
        after.trained,
        after.training_buffer@.len() == 0,
        after.originals@ == before.training_buffer@,
        ({
            let d = before.dimensions as int;
            let v = before.training_buffer@.subrange(i * d, (i + 1) * d);
            let (codes, terms) = coded(quantize, after.params->0, v);
            &&& terms_at(*after, i) == Some((codes, terms[0], terms[1], terms[2]))
            &&& after.norms@[i as int] == norm_of(norm, v)
        }),
{
    let d = before.dimensions as int;
    let v = before.training_buffer@;
    let n = v.len() as int / d;
    let params = after.params->0;
    assert(i < n) by (nonlinear_arith)
        requires
            d > 0,
            (i + 1) * d <= v.len(),
            n == v.len() as int / d,
    ;
    assert(n * d <= v.len()) by (nonlinear_arith)
        requires
            d > 0,
            n == v.len() as int / d,
    ;
    lemma_all_stored(before.tables(), quantize, norm, params, v, d, n as nat, i as int);
    let t = after.tables();
    let own = chunk(v, i as int, d);
    assert(holds_code(t, quantize, norm, params, i as int, own));
    let terms = t.metadata.subrange(i * 3, (i + 1) * 3);
    assert(terms[0] == t.metadata[i * 3]);
    assert(terms[1] == t.metadata[i * 3 + 1]);
    assert(terms[2] == t.metadata[i * 3 + 2]);
}

} // verus!
