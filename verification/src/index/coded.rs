//! An index that holds its vectors as codes once it knows how.

use vstd::prelude::*;

use super::insert::{capped_level, level_source_ok, node_inserted, std_rng_draw};
use super::parallel::{acceptable, rejection};
use super::{shape_fits, HNSWIndex};
use crate::distance::{all_finite, finite_vector, metric_ok};
use crate::error::{HNSWError, Result};
use crate::graph::{links_below, GraphStore};
use crate::node_storage::quantization::{Coder, Quantization, QuantizedVector, TRAINING_VECTORS};
use crate::node_storage::vectors::filled;
use crate::node_storage::{decoded, node_params_fit, NodeStorage};
use crate::reorder::views;
use crate::types::{HNSWParams, Metric};

verus! {

/// What a storage keeps of a vector: all of it, or what its codes say once the
/// quantization is trained.
pub open spec fn kept<C: Coder>(storage: NodeStorage, vector: Seq<u32>, coder: C) -> Seq<u32> {
    if storage.sq8 && storage.sq8_trained {
        decoded(storage.code_values@, coder.coded(storage.sq8_params->0, vector).0)
    } else {
        vector
    }
}

/// What is kept beside the nodes after a vector is added: its norm and the sum
/// of its codes once the quantization is trained, and the vector itself before
/// that.
pub open spec fn quantization_after<C: Coder>(
    storage: NodeStorage,
    vector: Seq<u32>,
    coder: C,
) -> Quantization {
    let now = storage.quantization();
    if storage.sq8 && storage.sq8_trained {
        let q = coder.coded(storage.sq8_params->0, vector);
        Quantization {
            norms: filled(now.norms, storage.len as int, 0u32, q.1),
            sums: filled(now.sums, storage.len as int, 0i32, q.2),
            ..now
        }
    } else {
        now.with(vector)
    }
}

/// The vectors of an index that waited for the quantization to be trained were
/// coded, provided that the training succeeded. The graph stays as it is.
pub open spec fn index_taught<C: Coder>(
    before: HNSWIndex<NodeStorage>,
    after: HNSWIndex<NodeStorage>,
    coder: C,
) -> bool {
    &&& after.storage.taught(&before.storage, coder)
    &&& after.entry_point == before.entry_point
    &&& after.params == before.params
    &&& after.distance_fn == before.distance_fn
    &&& after.rng_state == before.rng_state
}

/// The quantization is trained as soon as enough vectors wait for it.
pub open spec fn taught_when_due<C: Coder>(
    before: HNSWIndex<NodeStorage>,
    after: HNSWIndex<NodeStorage>,
    coder: C,
) -> bool {
    if before.storage.waits() && before.storage.collected() >= TRAINING_VECTORS {
        index_taught(before, after, coder)
    } else {
        after == before
    }
}

/// What an insertion makes of an index in any mode: what is kept of the vector
/// is inserted, and then the quantization is trained if it is time for that.
pub open spec fn vector_inserted<M: Fn(&[u32], &[u32]) -> u32, C: Coder>(
    before: HNSWIndex<NodeStorage>,
    after: HNSWIndex<NodeStorage>,
    metric: M,
    vector: Seq<u32>,
    level: u8,
    coder: C,
) -> bool {
    exists|mid: HNSWIndex<NodeStorage>|
        {
            &&& #[trigger] node_inserted(
                before,
                mid,
                metric,
                kept(before.storage, vector, coder),
                level,
            )
            &&& mid.wf()
            &&& mid.storage.quantization() == quantization_after(before.storage, vector, coder)
            &&& taught_when_due(mid, after, coder)
        }
}

/// An index stays well-formed when its vectors are coded.
pub proof fn lemma_taught_wf<C: Coder>(
    before: HNSWIndex<NodeStorage>,
    after: HNSWIndex<NodeStorage>,
    coder: C,
)
    requires
        before.wf(),
        index_taught(before, after, coder),
        after.storage.wf(),
    ensures
        after.wf(),
{
    let a = after.storage;
    let b = before.storage;
    a.lemma_taught(&b, coder);
    assert forall|id: u32, l: u8| id < b.len implies #[trigger] a.links_at(id, l) == b.links_at(
        id,
        l,
    ) by {
        if l == 0 {
            assert(a.links0(id) == b.links0(id));
        }
    }
    assert forall|level: u8| #[trigger] links_below(a, level, a.node_count()) by {
        assert(links_below(b, level, b.node_count()));
        assert forall|id: u32, j: int|
            id < a.node_count() && 0 <= j < a.links_at(id, level).len() implies (
        #[trigger] a.links_at(id, level)[j]) < a.node_count() by {
            assert(a.links_at(id, level) == b.links_at(id, level));
            assert(b.links_at(id, level)[j] < b.node_count());
        }
    }
    assert(shape_fits(a, after.params)) by {
        assert forall|level: u8| #[trigger] a.link_cap(level) == after.params.links(level) by {
            assert(b.link_cap(level) == before.params.links(level));
        }
        assert forall|id: u32| id < a.node_count() implies #[trigger] a.level_at(id)
            <= after.params.max_level by {
            assert(a.node_level(id) == b.node_level(id));
            assert(b.level_at(id) <= before.params.max_level);
        }
        assert forall|id: u32, level: u8| id < a.node_count() implies #[trigger] a.links_at(
            id,
            level,
        ).len() <= after.params.links(level) by {
            assert(a.links_at(id, level) == b.links_at(id, level));
            assert(b.links_at(id, level).len() <= before.params.links(level));
        }
    }
}

impl HNSWIndex<NodeStorage> {
    /// An empty index that holds its vectors in SQ8 mode.
    pub fn new_coded(dimensions: usize, params: HNSWParams, distance_fn: Metric) -> (r: Self)
        requires
            node_params_fit(dimensions as nat, params.m as nat),
        ensures
            r.wf(),
            r.storage.created(dimensions, params.m, params.max_level as usize, true),
            r.entry_point is None,
            r.params == params,
            r.distance_fn == distance_fn,
            r.rng_state == params.seed,
    {
        let storage = NodeStorage::new_sq8(dimensions, params.m, params.max_level as usize);
        let r = HNSWIndex { storage, entry_point: None, rng_state: params.seed, params, distance_fn };
        assert(0 * dimensions == 0);
        assert forall|level: u8| #[trigger] links_below(
            r.storage,
            level,
            r.storage.node_count(),
        ) by {}
        r
    }

    /// Trains the quantization on the vectors that wait for it, however few
    /// they are.
    pub fn flush_training<C: Coder>(&mut self, coder: &C)
        requires
            old(self).wf(),
            coder.usable(old(self).storage.dim()),
        ensures
            final(self).wf(),
            index_taught(*old(self), *final(self), *coder),
    {
        self.storage.flush_sq8_training(coder);
        proof {
            lemma_taught_wf(*old(self), *self, *coder);
        }
    }

    /// Trains the quantization if enough vectors wait for it.
    pub fn train_if_due<C: Coder>(&mut self, coder: &C)
        requires
            old(self).wf(),
            coder.usable(old(self).storage.dim()),
        ensures
            final(self).wf(),
            final(self).storage.len == old(self).storage.len,
            final(self).storage.node_size == old(self).storage.node_size,
            final(self).storage.dim() == old(self).storage.dim(),
            final(self).rng_state == old(self).rng_state,
            final(self).params == old(self).params,
            final(self).distance_fn == old(self).distance_fn,
            taught_when_due(*old(self), *final(self), *coder),
    {
        let dimensions: usize = self.storage.dimensions;
        if self.storage.sq8 && !self.storage.sq8_trained && dimensions > 0
            && self.storage.training_buffer.len() / dimensions >= TRAINING_VECTORS {
            self.flush_training(coder);
            proof {
                self.storage.lemma_taught(&old(self).storage, *coder);
            }
        }
    }

    /// Inserts a vector with a level that has been drawn for it, in any mode.
    fn insert_kept<M: Fn(&[u32], &[u32]) -> u32, C: Coder>(
        &mut self,
        vector: &[u32],
        level: u8,
        metric: &M,
        coder: &C,
    ) -> (id: u32)
        requires
            old(self).wf(),
            metric_ok(*metric),
            coder.usable(old(self).storage.dim()),
            vector@.len() == old(self).storage.dim(),
            level <= old(self).params.max_level,
            old(self).storage.fits(1),
        ensures
            final(self).wf(),
            id == old(self).storage.node_count(),
            final(self).storage.node_count() == old(self).storage.node_count() + 1,
            final(self).storage.stride() == old(self).storage.stride(),
            final(self).storage.dim() == old(self).storage.dim(),
            final(self).rng_state == old(self).rng_state,
            node_inserted(
                *old(self),
                *final(self),
                *metric,
                kept(old(self).storage, vector@, *coder),
                level,
            ),
            final(self).storage.quantization() == quantization_after(
                old(self).storage,
                vector@,
                *coder,
            ),
    {
        let ghost before = *self;
        let trained: bool = self.storage.sq8 && self.storage.sq8_trained;
        match (trained, self.storage.sq8_params) {
            (true, Some(params)) => {
                let q: QuantizedVector = coder.quantize(params, vector);
                let id: u32 = self.storage.push_coded(q.data.as_slice(), q.norm_sq, q.sum, level);
                let ghost pushed = self.storage;
                let held: Vec<u32> = self.storage.current_vector(id);
                self.link_pushed(held.as_slice(), level, metric, id, Ghost(before));
                assert(pushed.quantization() =~= quantization_after(
                    before.storage,
                    vector@,
                    *coder,
                ));
                id
            },
            _ => self.insert_at_level(vector, level, metric),
        }
    }

    /// Inserts a vector, in any mode. The index stays as it is when the vector
    /// has the wrong length or a component that is not finite.
    pub fn insert_vector<M: Fn(&[u32], &[u32]) -> u32, L: Fn(u32) -> u8, C: Coder>(
        &mut self,
        vector: &[u32],
        metric: &M,
        level_source: &L,
        coder: &C,
    ) -> (r: Result<u32>)
        requires
            old(self).wf(),
            metric_ok(*metric),
            level_source_ok(*level_source),
            coder.usable(old(self).storage.dim()),
            acceptable(vector@, old(self).storage.dim()) ==> old(self).storage.fits(1),
        ensures
            final(self).wf(),
            vector@.len() != old(self).storage.dim() ==> r == Err::<u32, HNSWError>(
                HNSWError::DimensionMismatch {
                    expected: old(self).storage.dim() as usize,
                    actual: vector@.len() as usize,
                },
            ),
            vector@.len() == old(self).storage.dim() && !all_finite(vector@) ==> r == Err::<
                u32,
                HNSWError,
            >(HNSWError::InvalidVector),
            acceptable(vector@, old(self).storage.dim()) ==> r is Ok,
            r is Err ==> *final(self) == *old(self),
            final(self).storage.dim() == old(self).storage.dim(),
            r is Ok ==> forall|n: nat|
                old(self).storage.fits(n + 1) ==> #[trigger] final(self).storage.fits(n),
            r matches Ok(id) ==> {
                &&& id == old(self).storage.node_count()
                &&& final(self).storage.len == old(self).storage.len + 1
                &&& final(self).rng_state == std_rng_draw(old(self).rng_state).1
                &&& vector_inserted(
                    *old(self),
                    *final(self),
                    *metric,
                    vector@,
                    capped_level(
                        *level_source,
                        std_rng_draw(old(self).rng_state).0,
                        old(self).params.max_level,
                    ),
                    *coder,
                )
            },
    {
        let expected: usize = self.storage.vector_dim();
        if vector.len() != expected {
            return Err(HNSWError::DimensionMismatch { expected, actual: vector.len() });
        }
        if !finite_vector(vector) {
            return Err(HNSWError::InvalidVector);
        }
        let level: u8 = self.random_level(level_source);
        let ghost drawn = *self;
        let id: u32 = self.insert_kept(vector, level, metric, coder);
        let ghost mid = *self;
        proof {
            assert(node_inserted(
                *old(self),
                mid,
                *metric,
                kept(old(self).storage, vector@, *coder),
                level,
            ));
        }
        self.train_if_due(coder);
        Ok(id)
    }
}

/// One vector was inserted, with a level that was drawn for it.
pub open spec fn vector_step<M: Fn(&[u32], &[u32]) -> u32, L: Fn(u32) -> u8, C: Coder>(
    before: HNSWIndex<NodeStorage>,
    after: HNSWIndex<NodeStorage>,
    metric: M,
    level_source: L,
    coder: C,
    vector: Seq<u32>,
) -> bool {
    &&& after.storage.len == before.storage.len + 1
    &&& after.rng_state == std_rng_draw(before.rng_state).1
    &&& vector_inserted(
        before,
        after,
        metric,
        vector,
        capped_level(
            level_source,
            std_rng_draw(before.rng_state).0,
            before.params.max_level,
        ),
        coder,
    )
}

/// `steps` leads from one index to another, inserting one vector after the
/// other.
pub open spec fn vectors_in_turn<M: Fn(&[u32], &[u32]) -> u32, L: Fn(u32) -> u8, C: Coder>(
    steps: Seq<HNSWIndex<NodeStorage>>,
    metric: M,
    level_source: L,
    coder: C,
    vectors: Seq<Seq<u32>>,
) -> bool {
    &&& steps.len() == vectors.len() + 1
    &&& forall|i: int|
        0 <= i < vectors.len() ==> #[trigger] vector_step(
            steps[i],
            steps[i + 1],
            metric,
            level_source,
            coder,
            vectors[i],
        )
}

impl HNSWIndex<NodeStorage> {
    /// Inserts vectors in turn, in any mode, up to the first that is turned
    /// down.
    pub fn insert_vectors<M: Fn(&[u32], &[u32]) -> u32, L: Fn(u32) -> u8, C: Coder>(
        &mut self,
        vectors: &Vec<Vec<u32>>,
        metric: &M,
        level_source: &L,
        coder: &C,
    ) -> (r: Result<()>)
        requires
            old(self).wf(),
            metric_ok(*metric),
            level_source_ok(*level_source),
            coder.usable(old(self).storage.dim()),
            old(self).storage.fits(vectors@.len()),
        ensures
            final(self).wf(),
            exists|k: int, steps: Seq<HNSWIndex<NodeStorage>>|
                {
                    &&& 0 <= k <= vectors@.len()
                    &&& #[trigger] vectors_in_turn(
                        steps,
                        *metric,
                        *level_source,
                        *coder,
                        views(vectors@).take(k),
                    )
                    &&& steps[0] == *old(self)
                    &&& steps.last() == *final(self)
                    &&& forall|j: int|
                        0 <= j < k ==> acceptable(
                            (#[trigger] vectors@[j])@,
                            old(self).storage.dim(),
                        )
                    &&& match r {
                        Ok(_) => k == vectors@.len(),
                        Err(e) => {
                            &&& k < vectors@.len()
                            &&& !acceptable(vectors@[k]@, old(self).storage.dim())
                            &&& e == rejection(vectors@[k]@, old(self).storage.dim())
                        },
                    }
                },
    {
        let ghost before = *self;
        let ghost seen = views(vectors@);
        let ghost n = vectors@.len();
        let ghost mut steps: Seq<HNSWIndex<NodeStorage>> = seq![*self];
        let mut i: usize = 0;
        assert(seen.take(0) =~= Seq::<Seq<u32>>::empty());
        while i < vectors.len()
            invariant
                i <= vectors@.len(),
                n == vectors@.len(),
                seen == views(vectors@),
                self.wf(),
                self.storage.dim() == before.storage.dim(),
                metric_ok(*metric),
                level_source_ok(*level_source),
                coder.usable(before.storage.dim()),
                self.storage.fits((n - i) as nat),
                before == *old(self),
                vectors_in_turn(steps, *metric, *level_source, *coder, seen.take(i as int)),
                steps[0] == before,
                steps.last() == *self,
                forall|j: int|
                    0 <= j < i ==> acceptable((#[trigger] vectors@[j])@, before.storage.dim()),
            decreases vectors.len() - i,
        {
            let ghost mid = *self;
            proof {
                mid.storage.lemma_fits((n - i) as nat, 1);
            }
            match self.insert_vector(vectors[i].as_slice(), metric, level_source, coder) {
                Err(e) => {
                    assert(*self == mid);
                    return Err(e);
                },
                Ok(_) => {},
            }
            proof {
                let rest = (n - i - 1) as nat;
                assert(mid.storage.fits(rest + 1));
                let longer = steps.push(*self);
                let front = seen.take(i as int);
                let all = seen.take(i + 1);
                assert forall|j: int| 0 <= j < all.len() implies #[trigger] vector_step(
                    longer[j],
                    longer[j + 1],
                    *metric,
                    *level_source,
                    *coder,
                    all[j],
                ) by {
                    if j < i {
                        assert(vector_step(
                            steps[j],
                            steps[j + 1],
                            *metric,
                            *level_source,
                            *coder,
                            front[j],
                        ));
                    } else {
                        assert(seen[j] == vectors@[j]@);
                    }
                }
                steps = longer;
            }
            i += 1;
        }
        assert(seen.take(i as int) =~= seen);
        Ok(())
    }
}

} // verus!
