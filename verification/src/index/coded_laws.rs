//! What becomes of vectors in an index that holds them as codes.

use vstd::prelude::*;

use super::batch::law_insertion_keeps_nodes;
use super::coded::{kept, quantization_after, taught_when_due, vector_inserted};
use super::insert::node_inserted;
use super::insert_laws::{law_insertion_links, searched_from, walked_above, well_linked};
use super::HNSWIndex;
use crate::graph::GraphStore;
use crate::node_storage::quantization::{chunk, Coder};
use crate::node_storage::NodeStorage;

verus! {

/// The links, slots and levels of two storages are the same.
pub open spec fn graph_stays(before: &NodeStorage, after: &NodeStorage) -> bool {
    &&& after.len == before.len
    &&& after.dimensions == before.dimensions
    &&& after.sq8 == before.sq8
    &&& forall|i: u32, l: u8| i < before.len ==> #[trigger] after.links(i, l) == before.links(i, l)
    &&& forall|i: u32| i < before.len ==> #[trigger] after.slot_of(i) == before.slot_of(i)
    &&& forall|i: u32| i < before.len ==> #[trigger] after.node_level(i) == before.node_level(i)
}

/// A sample for the training of the quantization: the vectors of the first
/// nodes, no more than 256, one behind the other.
pub open spec fn first_vectors(store: &NodeStorage, sample: Seq<u32>) -> bool {
    let n = if store.len <= 256 { store.len as int } else { 256 };
    &&& sample.len() == n * store.dimensions
    &&& forall|i: u32|
        i < n ==> chunk(sample, i as int, store.dimensions as int) == #[trigger] store.vec(i)
}

/// Every vector is held as codes: those that its values get with the parameters,
/// with its norm and the sum of the codes. It reads back as the codes say.
pub open spec fn all_coded<C: Coder>(before: &NodeStorage, after: &NodeStorage, coder: C) -> bool {
    &&& after.sq8_trained
    &&& after.sq8_params is Some
    &&& after.training_buffer@.len() == 0
    &&& after.norms@.len() >= before.len
    &&& after.sq8_sums@.len() >= before.len
    &&& forall|i: u32|
        i < before.len ==> {
            let (codes, norm, sum) = coder.coded(after.sq8_params->0, #[trigger] before.vec(i));
            let values = coder.meaning(after.sq8_params->0);
            &&& after.codes(i) == codes
            &&& after.norms@[i as int] == norm
            &&& after.sq8_sums@[i as int] == sum
            &&& after.vec(i).len() == codes.len()
            &&& forall|j: int|
                0 <= j < codes.len() ==> #[trigger] after.vec(i)[j] == values[codes[j] as int]
        }
}

/// Training the quantization leaves the graph alone. Where vectors wait for it,
/// it is trained on the first 256 of them, and if that succeeds all of them are
/// coded; else nothing changes.
pub proof fn law_training<C: Coder>(before: &NodeStorage, after: &NodeStorage, coder: C) -> (sample:
    Seq<u32>)
    requires
        before.wf(),
        before.vectors_ok(),
        after.taught(before, coder),
    ensures
        graph_stays(before, after),
        ({
            let waiting = before.sq8 && !before.sq8_trained && before.dimensions > 0 && before.len
                > 0;
            let params = coder.params_for(sample, before.dimensions);
            &&& waiting ==> first_vectors(before, sample)
            &&& waiting && params is Some ==> all_coded(before, after, coder) && after.sq8_params
                == params
            &&& !(waiting && params is Some) ==> *after == *before
        }),
{
    after.lemma_taught(before, coder);
    let sample = before.sample();
    assert forall|i: u32, l: u8| i < before.len implies #[trigger] after.links(i, l)
        == before.links(i, l) by {
        if l == 0 {
            assert(after.links0(i) == before.links0(i));
        }
    }
    if before.sq8 && !before.sq8_trained && before.dimensions > 0 {
        before.lemma_all_collected();
    }
    if before.sq8 && !before.sq8_trained && before.dimensions > 0 && before.len > 0 {
        let d = before.dimensions as int;
        let n = if before.len <= 256 { before.len as int } else { 256 };
        let b = before.training_buffer@;
        assert(n * d <= before.len * d) by (nonlinear_arith)
            requires
                n <= before.len,
                d > 0,
        ;
        assert(sample.len() == n * d);
        assert forall|i: u32| i < n implies chunk(sample, i as int, d) == #[trigger] before.vec(
            i,
        ) by {
            assert((i + 1) * d <= n * d) by (nonlinear_arith)
                requires
                    i + 1 <= n,
                    d > 0,
            ;
            assert(0 <= i * d <= (i + 1) * d) by (nonlinear_arith)
                requires
                    d > 0,
                    i >= 0,
            ;
            assert(chunk(sample, i as int, d) =~= chunk(b, i as int, d));
        }
        if coder.params_for(sample, before.dimensions) is Some {
            assert forall|i: u32| i < before.len implies {
                let (codes, norm, sum) = coder.coded(after.sq8_params->0, #[trigger] before.vec(i));
                let values = coder.meaning(after.sq8_params->0);
                &&& after.codes(i) == codes
                &&& after.norms@[i as int] == norm
                &&& after.sq8_sums@[i as int] == sum
                &&& after.vec(i).len() == codes.len()
                &&& forall|j: int|
                    0 <= j < codes.len() ==> #[trigger] after.vec(i)[j] == values[codes[j] as int]
            } by {
                assert(after.codes(i) == coder.coded(after.sq8_params->0, before.vec(i)).0);
            }
        }
    }
    sample
}

/// The distance to a vector that is coded is computed from its own codes, norm
/// and sum.
pub proof fn law_terms_of_coded<C: Coder>(
    before: &NodeStorage,
    after: &NodeStorage,
    coder: C,
    id: u32,
)
    requires
        all_coded(before, after, coder),
        after.len == before.len,
        id < before.len,
    ensures
        ({
            let params = after.sq8_params->0;
            let (codes, norm, sum) = coder.coded(params, before.vec(id));
            after.sq8_terms(id) == Some((params, codes, norm, sum))
        }),
{
    assert(after.codes(id) == coder.coded(after.sq8_params->0, before.vec(id)).0);
}

/// An insertion in any mode: what is kept of the vector, all of it or what its
/// codes say, is linked well; and the quantization is trained as soon as 256
/// vectors wait for it, which leaves the graph alone.
pub proof fn law_vector_is_inserted<M: Fn(&[u32], &[u32]) -> u32, C: Coder>(
    before: HNSWIndex<NodeStorage>,
    after: HNSWIndex<NodeStorage>,
    metric: M,
    vector: Seq<u32>,
    level: u8,
    coder: C,
) -> (r: (HNSWIndex<NodeStorage>, Seq<u32>, Seq<u32>))
    requires
        before.wf(),
        before.storage.len <= u32::MAX,
        before.entry_point is Some,
        before.storage.dimensions > 0,
        vector.len() == before.storage.dimensions,
        vector_inserted(before, after, metric, vector, level, coder),
    ensures
        ({
            let (mid, trail, sample) = r;
            let node = before.storage.len as u32;
            let coded = before.storage.sq8 && before.storage.sq8_trained;
            &&& mid.storage.len == before.storage.len + 1
            &&& mid.storage.node_level(node) == level
            &&& mid.storage.slot_of(node) == node
            &&& !coded ==> mid.storage.vec(node) == vector
            &&& coded ==> forall|j: int|
                0 <= j < mid.storage.vec(node).len() ==> #[trigger] mid.storage.vec(node)[j]
                    == before.storage.code_values@[coder.coded(
                    before.storage.sq8_params->0,
                    vector,
                ).0[j] as int]
            &&& forall|i: u32|
                i < node ==> #[trigger] mid.storage.vec(i) == before.storage.vec(i)
            &&& walked_above(
                before.storage,
                metric,
                mid.storage.vec(node),
                before.entry_point->0,
                level,
                trail,
            )
            &&& forall|l: u8|
                l <= level ==> #[trigger] well_linked(
                    before.storage,
                    mid.storage,
                    metric,
                    node,
                    l,
                    before.params,
                    searched_from(mid.storage, node, l, level, trail.last()),
                )
            &&& graph_stays(&mid.storage, &after.storage)
            &&& after.entry_point == mid.entry_point
            &&& after.params == before.params
            &&& !(before.storage.sq8 && !before.storage.sq8_trained && before.storage.len + 1
                >= 256) ==> after.storage == mid.storage
            &&& before.storage.sq8 && !before.storage.sq8_trained && before.storage.len + 1 >= 256
                ==> {
                let params = coder.params_for(sample, before.storage.dimensions);
                &&& first_vectors(&mid.storage, sample)
                &&& params is None ==> after.storage == mid.storage
                &&& params is Some ==> after.storage.sq8_params == params && all_coded(
                    &mid.storage,
                    &after.storage,
                    coder,
                )
            }
        }),
{
    let stored = kept(before.storage, vector, coder);
    let mid = choose|mid: HNSWIndex<NodeStorage>|
        {
            &&& #[trigger] node_inserted(before, mid, metric, stored, level)
            &&& mid.wf()
            &&& mid.storage.quantization() == quantization_after(before.storage, vector, coder)
            &&& taught_when_due(mid, after, coder)
        };
    let node = before.storage.len as u32;
    law_insertion_keeps_nodes(&before, &mid, metric, stored, level);
    let trail = law_insertion_links(before, mid, metric, stored, level);
    assert(mid.storage.vector_at(node) == stored);
    assert forall|i: u32| i < node implies #[trigger] mid.storage.vec(i) == before.storage.vec(
        i,
    ) by {
        assert(mid.storage.vector_at(i) == before.storage.vector_at(i));
    }
    assert(mid.storage.level_at(node) == level);
    assert(mid.storage.slot_at(node) == node);
    assert(mid.storage.dim() == before.storage.dim());
    assert(mid.storage.quantization().sq8 == before.storage.sq8);
    assert(mid.storage.quantization().trained == before.storage.sq8_trained);
    if mid.storage.sq8 && !mid.storage.sq8_trained {
        mid.storage.lemma_all_collected();
    }
    let due = before.storage.sq8 && !before.storage.sq8_trained && before.storage.len + 1 >= 256;
    let sample = if due {
        law_training(&mid.storage, &after.storage, coder)
    } else {
        Seq::empty()
    };
    (mid, trail, sample)
}

} // verus!
