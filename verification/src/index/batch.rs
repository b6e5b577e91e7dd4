//! Insertion of several vectors, one after the other.

use vstd::prelude::*;

use super::insert::{
    capped_level, level_source_ok, node_inserted, node_linked, node_pushed, std_rng_draw,
};
use super::parallel::{acceptable, rejection};
use super::HNSWIndex;
use crate::distance::metric_ok;
use crate::error::{HNSWError, Result};
use crate::graph::{same_nodes, GraphStore};
use crate::reorder::views;

verus! {

/// A vector was inserted.
pub open spec fn step_inserted<
    S: GraphStore,
    M: Fn(&[u32], &[u32]) -> u32,
    L: Fn(u32) -> u8,
>(before: HNSWIndex<S>, after: HNSWIndex<S>, metric: M, level_source: L, vector: Seq<u32>) -> bool {
    &&& acceptable(vector, before.storage.dim())
    &&& after.wf()
    &&& after.storage.node_count() == before.storage.node_count() + 1
    &&& after.rng_state == std_rng_draw(before.rng_state).1
    &&& node_inserted(
        before,
        after,
        metric,
        vector,
        capped_level(
            level_source,
            std_rng_draw(before.rng_state).0,
            before.params.max_level,
        ),
    )
}

/// `steps` leads from one index to another by inserting vectors in turn.
pub open spec fn inserted_in_turn<
    S: GraphStore,
    M: Fn(&[u32], &[u32]) -> u32,
    L: Fn(u32) -> u8,
>(steps: Seq<HNSWIndex<S>>, metric: M, level_source: L, vectors: Seq<Seq<u32>>) -> bool {
    &&& steps.len() == vectors.len() + 1
    &&& forall|i: int|
        0 <= i < vectors.len() ==> #[trigger] step_inserted(
            steps[i],
            steps[i + 1],
            metric,
            level_source,
            vectors[i],
        )
}

/// The components of some vectors.
pub open spec fn components(vectors: Seq<&[u32]>) -> Seq<Seq<u32>> {
    vectors.map_values(|v: &[u32]| v@)
}

/// What came of the insertion of several vectors: all were inserted, or those
/// before the first that cannot be.
pub open spec fn batch_inserted<
    S: GraphStore,
    M: Fn(&[u32], &[u32]) -> u32,
    L: Fn(u32) -> u8,
>(
    before: HNSWIndex<S>,
    after: HNSWIndex<S>,
    metric: M,
    level_source: L,
    vectors: Seq<Seq<u32>>,
    r: Result<()>,
) -> bool {
    exists|k: int, steps: Seq<HNSWIndex<S>>|
        {
            &&& 0 <= k <= vectors.len()
            &&& #[trigger] inserted_in_turn(steps, metric, level_source, vectors.take(k))
            &&& steps[0] == before
            &&& steps.last() == after
            &&& match r {
                Ok(_) => k == vectors.len(),
                Err(e) => {
                    &&& k < vectors.len()
                    &&& !acceptable(vectors[k], before.storage.dim())
                    &&& e == rejection(vectors[k], before.storage.dim())
                },
            }
        }
}

/// An insertion keeps the vectors and levels of the nodes that were there, and
/// the new node has the vector and the level that were given.
pub proof fn law_insertion_keeps_nodes<S: GraphStore, M: Fn(&[u32], &[u32]) -> u32>(
    before: &HNSWIndex<S>,
    after: &HNSWIndex<S>,
    metric: M,
    vector: Seq<u32>,
    level: u8,
)
    requires
        before.wf(),
        before.storage.node_count() <= u32::MAX,
        node_inserted(*before, *after, metric, vector, level),
    ensures
        after.storage.node_count() == before.storage.node_count() + 1,
        after.storage.dim() == before.storage.dim(),
        after.params == before.params,
        forall|i: u32|
            i < before.storage.node_count() ==> #[trigger] after.storage.vector_at(i)
                == before.storage.vector_at(i),
        forall|i: u32|
            i < before.storage.node_count() ==> #[trigger] after.storage.level_at(i)
                == before.storage.level_at(i),
        forall|i: u32|
            i < before.storage.node_count() ==> #[trigger] after.storage.slot_at(i)
                == before.storage.slot_at(i),
        after.storage.slot_at(before.storage.node_count() as u32)
            == before.storage.node_count(),
        after.storage.vector_at(before.storage.node_count() as u32) == vector,
        after.storage.level_at(before.storage.node_count() as u32) == level,
{
    let id = before.storage.node_count() as u32;
    match before.entry_point {
        None => {},
        Some(entry) => {
            let (pushed, chosen) = choose|pushed: S, chosen: Map<int, Seq<u32>>|
                {
                    &&& #[trigger] node_pushed(before.storage, pushed, vector, level)
                    &&& #[trigger] node_linked(
                        pushed,
                        after.storage,
                        metric,
                        id,
                        level,
                        before.params,
                        super::insert::descent_end(pushed, metric, id, level, entry),
                        chosen,
                    )
                };
            assert(same_nodes(pushed, after.storage));
            assert forall|i: u32|
                i < before.storage.node_count() implies #[trigger] after.storage.vector_at(i)
                == before.storage.vector_at(i) by {
                assert(pushed.vector_at(i) == before.storage.vector_at(i));
            }
            assert forall|i: u32|
                i < before.storage.node_count() implies #[trigger] after.storage.level_at(i)
                == before.storage.level_at(i) by {
                assert(pushed.level_at(i) == before.storage.level_at(i));
            }
            assert forall|i: u32|
                i < before.storage.node_count() implies #[trigger] after.storage.slot_at(i)
                == before.storage.slot_at(i) by {
                assert(pushed.slot_at(i) == before.storage.slot_at(i));
            }
        },
    }
}

/// No node reaches higher than the entry point, and there is one as soon as
/// there are nodes.
pub open spec fn entry_reaches_highest<S: GraphStore>(index: HNSWIndex<S>) -> bool {
    match index.entry_point {
        None => index.storage.node_count() == 0,
        Some(entry) => {
            &&& entry < index.storage.node_count()
            &&& forall|i: u32|
                i < index.storage.node_count() ==> #[trigger] index.storage.level_at(i)
                    <= index.storage.level_at(entry)
        },
    }
}

/// An insertion leaves the entry point at the highest level, so that a search
/// passes through all levels.
pub proof fn law_entry_reaches_highest<S: GraphStore, M: Fn(&[u32], &[u32]) -> u32>(
    before: &HNSWIndex<S>,
    after: &HNSWIndex<S>,
    metric: M,
    vector: Seq<u32>,
    level: u8,
)
    requires
        before.wf(),
        before.storage.node_count() <= u32::MAX,
        entry_reaches_highest(*before),
        node_inserted(*before, *after, metric, vector, level),
    ensures
        entry_reaches_highest(*after),
{
    law_insertion_keeps_nodes(before, after, metric, vector, level);
    let n = before.storage.node_count();
    let entry = after.entry_point->0;
    assert forall|i: u32| i < after.storage.node_count() implies #[trigger] after.storage.level_at(i)
        <= after.storage.level_at(entry) by {
        if i < n {
            assert(after.storage.level_at(i) == before.storage.level_at(i));
        }
    }
}

/// After several vectors were inserted in turn, the nodes that were there keep
/// their vectors, and behind them stand the new ones in the order given.
pub proof fn law_batch_keeps_order<
    S: GraphStore,
    M: Fn(&[u32], &[u32]) -> u32,
    L: Fn(u32) -> u8,
>(steps: Seq<HNSWIndex<S>>, metric: M, level_source: L, vectors: Seq<Seq<u32>>)
    requires
        inserted_in_turn(steps, metric, level_source, vectors),
        steps[0].wf(),
        steps[0].storage.node_count() + vectors.len() <= u32::MAX + 1,
    ensures
        steps.last().wf(),
        steps.last().storage.node_count() == steps[0].storage.node_count() + vectors.len(),
        steps.last().storage.dim() == steps[0].storage.dim(),
        steps.last().params == steps[0].params,
        forall|i: u32|
            i < steps[0].storage.node_count() ==> #[trigger] steps.last().storage.vector_at(i)
                == steps[0].storage.vector_at(i),
        forall|i: u32|
            steps[0].storage.node_count() <= i < steps[0].storage.node_count() + vectors.len()
                ==> #[trigger] steps.last().storage.vector_at(i) == vectors[i
                - steps[0].storage.node_count()],
    decreases vectors.len(),
{
    if vectors.len() > 0 {
        let n = vectors.len() - 1;
        let front = steps.drop_last();
        let given = vectors.drop_last();
        assert(inserted_in_turn(front, metric, level_source, given)) by {
            assert forall|i: int| 0 <= i < given.len() implies #[trigger] step_inserted(
                front[i],
                front[i + 1],
                metric,
                level_source,
                given[i],
            ) by {
                assert(step_inserted(
                    steps[i],
                    steps[i + 1],
                    metric,
                    level_source,
                    vectors[i],
                ));
            }
        }
        law_batch_keeps_order(front, metric, level_source, given);
        let before = steps[n];
        let after = steps[n + 1];
        assert(front.last() == before);
        assert(front[0] == steps[0]);
        assert(step_inserted(before, after, metric, level_source, vectors[n]));
        law_insertion_keeps_nodes(
            &before,
            &after,
            metric,
            vectors[n],
            capped_level(level_source, std_rng_draw(before.rng_state).0, before.params.max_level),
        );
        assert forall|i: u32|
            i < steps[0].storage.node_count() implies #[trigger] steps.last().storage.vector_at(i)
            == steps[0].storage.vector_at(i) by {
            assert(before.storage.vector_at(i) == steps[0].storage.vector_at(i));
        }
        assert forall|i: u32|
            steps[0].storage.node_count() <= i < steps[0].storage.node_count()
                + vectors.len() implies #[trigger] steps.last().storage.vector_at(i) == vectors[i
            - steps[0].storage.node_count()] by {
            if i < before.storage.node_count() {
                assert(before.storage.vector_at(i) == given[i - steps[0].storage.node_count()]);
            }
        }
    }
}

impl<S: GraphStore> HNSWIndex<S> {
    /// Inserts vectors in turn, up to the first that cannot be inserted. The
    /// slots play no part.
    pub fn insert_batch_parallel_from_refs<M: Fn(&[u32], &[u32]) -> u32, L: Fn(u32) -> u8>(
        &mut self,
        vectors: &Vec<&[u32]>,
        _slots: &[u32],
        metric: &M,
        level_source: &L,
    ) -> (r: Result<()>)
        requires
            old(self).wf(),
            metric_ok(*metric),
            level_source_ok(*level_source),
            vectors@.len() > 0 && acceptable(vectors@[0]@, old(self).storage.dim())
                ==> old(self).storage.room(vectors@.len()),
        ensures
            final(self).wf(),
            r is Ok <==> forall|i: int|
                0 <= i < vectors@.len() ==> acceptable(
                    (#[trigger] vectors@[i])@,
                    old(self).storage.dim(),
                ),
            batch_inserted(
                *old(self),
                *final(self),
                *metric,
                *level_source,
                components(vectors@),
                r,
            ),
    {
        let ghost all = components(vectors@);
        let ghost n = all.len();
        let ghost start = *self;
        let ghost mut steps: Seq<HNSWIndex<S>> = seq![*self];
        let mut i: usize = 0;
        proof {
            assert(all.take(0) =~= Seq::<Seq<u32>>::empty());
            if n > 0 {
                assert(all[0] == vectors@[0]@);
                if acceptable(all[0], self.storage.dim()) {
                    self.storage.lemma_room(n, n);
                }
            }
        }
        while i < vectors.len()
            invariant
                i <= n,
                n == all.len(),
                all == components(vectors@),
                self.wf(),
                metric_ok(*metric),
                level_source_ok(*level_source),
                i > 0 || (n > 0 && acceptable(all[0], start.storage.dim())) ==> {
                    &&& self.storage.room((n - i) as nat)
                    &&& start.storage.node_count() + n <= u32::MAX + 1
                },
                self.storage.dim() == start.storage.dim(),
                start == *old(self),
                start.wf(),
                steps[0] == start,
                i == 0 ==> steps.len() == 1,
                steps.last() == *self,
                inserted_in_turn(steps, *metric, *level_source, all.take(i as int)),
                forall|j: int| 0 <= j < i ==> acceptable(#[trigger] all[j], start.storage.dim()),
            decreases vectors.len() - i,
        {
            let ghost before = *self;
            proof {
                assert(all[i as int] == vectors@[i as int]@);
                if acceptable(all[i as int], start.storage.dim()) {
                    self.storage.lemma_room((n - i) as nat, 1);
                    law_batch_keeps_order(steps, *metric, *level_source, all.take(i as int));
                }
            }
            match self.insert(vectors[i], metric, level_source) {
                Err(e) => {
                    proof {
                        assert(!acceptable(vectors@[i as int]@, start.storage.dim()));
                        assert(e == rejection(all[i as int], start.storage.dim()));
                        assert(batch_inserted(
                            start,
                            *self,
                            *metric,
                            *level_source,
                            all,
                            Err::<(), HNSWError>(e),
                        ));
                    }
                    return Err(e);
                },
                Ok(_) => {},
            }
            proof {
                let rest = (n - i - 1) as nat;
                assert(before.storage.room(rest + 1));
                assert(step_inserted(before, *self, *metric, *level_source, all[i as int]));
                law_insertion_keeps_nodes(
                    &before,
                    self,
                    *metric,
                    all[i as int],
                    capped_level(
                        *level_source,
                        std_rng_draw(before.rng_state).0,
                        before.params.max_level,
                    ),
                );
                let grown = steps.push(*self);
                let longer = all.take(i + 1);
                assert(inserted_in_turn(grown, *metric, *level_source, longer)) by {
                    assert forall|j: int| 0 <= j < longer.len() implies #[trigger] step_inserted(
                        grown[j],
                        grown[j + 1],
                        *metric,
                        *level_source,
                        longer[j],
                    ) by {
                        if j < i {
                            assert(step_inserted(
                                steps[j],
                                steps[j + 1],
                                *metric,
                                *level_source,
                                all.take(i as int)[j],
                            ));
                        } else {
                            assert(grown[j] == before);
                        }
                    }
                }
                steps = grown;
            }
            i += 1;
        }
        proof {
            assert(all.take(i as int) =~= all);
            assert forall|j: int| 0 <= j < vectors@.len() implies acceptable(
                (#[trigger] vectors@[j])@,
                start.storage.dim(),
            ) by {
                assert(acceptable(all[j], start.storage.dim()));
            }
            assert(batch_inserted(
                start,
                *self,
                *metric,
                *level_source,
                all,
                Ok::<(), HNSWError>(()),
            ));
        }
        Ok(())
    }

    /// Inserts vectors in turn, up to the first that cannot be inserted. The
    /// slots play no part.
    pub fn insert_batch_parallel<M: Fn(&[u32], &[u32]) -> u32, L: Fn(u32) -> u8>(
        &mut self,
        vectors: Vec<Vec<u32>>,
        slots: &[u32],
        metric: &M,
        level_source: &L,
    ) -> (r: Result<()>)
        requires
            old(self).wf(),
            metric_ok(*metric),
            level_source_ok(*level_source),
            vectors@.len() > 0 && acceptable(vectors@[0]@, old(self).storage.dim())
                ==> old(self).storage.room(vectors@.len()),
        ensures
            final(self).wf(),
            r is Ok <==> forall|i: int|
                0 <= i < vectors@.len() ==> acceptable(
                    (#[trigger] vectors@[i])@,
                    old(self).storage.dim(),
                ),
            batch_inserted(
                *old(self),
                *final(self),
                *metric,
                *level_source,
                views(vectors@),
                r,
            ),
    {
        let mut refs: Vec<&[u32]> = Vec::new();
        let mut i: usize = 0;
        while i < vectors.len()
            invariant
                i <= vectors@.len(),
                refs@.len() == i,
                forall|j: int| 0 <= j < i ==> (#[trigger] refs@[j])@ == vectors@[j]@,
            decreases vectors.len() - i,
        {
            refs.push(vectors[i].as_slice());
            i += 1;
        }
        let ghost dim = self.storage.dim();
        proof {
            assert(components(refs@) =~= views(vectors@));
            assert forall|i: int| 0 <= i < vectors@.len() implies acceptable(
                (#[trigger] vectors@[i])@,
                dim,
            ) == acceptable(refs@[i]@, dim) by {
                assert(refs@[i]@ == vectors@[i]@);
            }
        }
        let r: Result<()> = self.insert_batch_parallel_from_refs(
            &refs,
            slots,
            metric,
            level_source,
        );
        proof {
            if r is Ok {
                assert forall|i: int| 0 <= i < vectors@.len() implies acceptable(
                    (#[trigger] vectors@[i])@,
                    dim,
                ) by {
                    assert(acceptable(refs@[i]@, dim));
                }
            }
        }
        r
    }
}

} // verus!
