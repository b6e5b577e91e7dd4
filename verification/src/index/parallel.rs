//! Construction of an index from a batch of vectors.
//!
//! All nodes are added first, and linked one after the other in the order of
//! their ids. The nodes that come after a warm start are linked with a wider
//! beam.

use vstd::prelude::*;

use super::insert::{
    capped_level, descent_end, level_linked, level_source_ok, insert_into_graph, node_linked, starts_at,
    std_rng_draw,
};
use super::{params_fit, shape_fits, HNSWIndex};
use crate::distance::{all_finite, finite_vector, metric_ok};
use crate::error::{HNSWError, Result};
use crate::graph::{links_below, links_valid, same_nodes, GraphStore};
use crate::storage::HNSWStorage;
use crate::types::{HNSWParams, Metric};

verus! {

/// Nodes that are linked with the beam width of the parameters.
pub const PARALLEL_BUILD_WARM_START: usize = 10_000;

/// How much wider the beam is for the nodes after the warm start.
pub const PARALLEL_BUILD_EF_MULTIPLIER: usize = 2;

/// Stands for construction in parallel.
#[derive(Debug, Clone, Copy, PartialEq, Eq, Structural)]
pub struct ParallelBuilder {}

/// The state of the level generator after `n` draws.
pub open spec fn rng_after(seed: u64, n: nat) -> u64
    decreases n,
{
    if n == 0 {
        seed
    } else {
        std_rng_draw(rng_after(seed, (n - 1) as nat)).1
    }
}

/// The levels that the generator assigns to the first `n` nodes.
pub open spec fn drawn_levels<L: Fn(u32) -> u8>(
    source: L,
    seed: u64,
    max_level: u8,
    n: nat,
) -> Seq<u8> {
    Seq::new(
        n,
        |i: int| capped_level(source, std_rng_draw(rng_after(seed, i as nat)).0, max_level),
    )
}

/// The entry point once the nodes 0 to `i` are linked: node 0, until a node
/// reaches higher.
pub open spec fn entry_after(levels: Seq<u8>, i: nat) -> u32
    decreases i,
{
    if i == 0 {
        0
    } else {
        let before = entry_after(levels, (i - 1) as nat);
        if levels[i as int] > levels[before as int] {
            i as u32
        } else {
            before
        }
    }
}

/// The parameters with which a node is linked.
pub open spec fn params_for(params: HNSWParams, i: int) -> HNSWParams {
    if i < PARALLEL_BUILD_WARM_START {
        params
    } else {
        HNSWParams {
            ef_construction: (params.ef_construction * PARALLEL_BUILD_EF_MULTIPLIER) as usize,
            ..params
        }
    }
}

/// A vector that can be added.
pub open spec fn acceptable(v: Seq<u32>, dim: nat) -> bool {
    v.len() == dim && all_finite(v)
}

/// Why a vector cannot be added.
pub open spec fn rejection(v: Seq<u32>, dim: nat) -> HNSWError {
    if v.len() != dim {
        HNSWError::DimensionMismatch { expected: dim as usize, actual: v.len() as usize }
    } else {
        HNSWError::InvalidVector
    }
}

/// The storage holds these vectors with these levels.
pub open spec fn holds_nodes<S: GraphStore>(
    store: S,
    vectors: Seq<&[u32]>,
    levels: Seq<u8>,
    n: nat,
) -> bool {
    &&& store.node_count() == n
    &&& forall|i: u32| i < n ==> #[trigger] store.vector_at(i) == vectors[i as int]@
    &&& forall|i: u32| i < n ==> #[trigger] store.level_at(i) == levels[i as int]
    &&& forall|i: u32| i < n ==> #[trigger] store.slot_at(i) == i
}

/// The nodes from `from` on have no links.
pub open spec fn unlinked_from<S: GraphStore>(store: S, from: nat) -> bool {
    forall|i: u32, l: u8|
        from <= i < store.node_count() ==> #[trigger] store.links_at(i, l) == Seq::<u32>::empty()
}

/// One node is linked, starting from the entry point at that time.
pub open spec fn step_linked<S: GraphStore, M: Fn(&[u32], &[u32]) -> u32>(
    before: S,
    after: S,
    metric: M,
    params: HNSWParams,
    levels: Seq<u8>,
    i: int,
) -> bool {
    exists|chosen: Map<int, Seq<u32>>| #[trigger]
        node_linked(
            before,
            after,
            metric,
            i as u32,
            levels[i],
            params_for(params, i),
            descent_end(
                before,
                metric,
                i as u32,
                levels[i],
                entry_after(levels, (i - 1) as nat),
            ),
            chosen,
        )
}

/// `steps` leads from the nodes without links to the finished graph, linking
/// one node after the other.
pub open spec fn graph_built<S: GraphStore, M: Fn(&[u32], &[u32]) -> u32>(
    steps: Seq<S>,
    metric: M,
    params: HNSWParams,
    vectors: Seq<&[u32]>,
    levels: Seq<u8>,
) -> bool {
    &&& steps.len() == vectors.len()
    &&& steps.len() > 0 ==> holds_nodes(steps[0], vectors, levels, vectors.len()) && unlinked_from(
        steps[0],
        0,
    )
    &&& forall|i: int|
        1 <= i < steps.len() ==> #[trigger] step_linked(
            steps[i - 1],
            steps[i],
            metric,
            params,
            levels,
            i,
        )
}

proof fn lemma_entry_bound(levels: Seq<u8>, i: nat)
    requires
        i < levels.len(),
        levels.len() <= u32::MAX + 1,
    ensures
        entry_after(levels, i) <= i,
    decreases i,
{
    if i > 0 {
        lemma_entry_bound(levels, (i - 1) as nat);
    }
}

/// Links all nodes of a storage that holds nodes without links.
fn link_all<S: GraphStore, M: Fn(&[u32], &[u32]) -> u32>(
    index: &mut HNSWIndex<S>,
    vectors: &Vec<&[u32]>,
    metric: &M,
    Ghost(levels): Ghost<Seq<u8>>,
)
    requires
        old(index).storage.store_wf(),
        shape_fits(old(index).storage, old(index).params),
        links_valid(old(index).storage),
        metric_ok(*metric),
        vectors@.len() > 0,
        levels.len() == vectors@.len(),
        holds_nodes(old(index).storage, vectors@, levels, vectors@.len()),
        unlinked_from(old(index).storage, 0),
        vectors@.len() > PARALLEL_BUILD_WARM_START ==> old(index).params.ef_construction
            * PARALLEL_BUILD_EF_MULTIPLIER <= usize::MAX,
    ensures
        final(index).wf(),
        final(index).params == old(index).params,
        final(index).distance_fn == old(index).distance_fn,
        final(index).rng_state == old(index).rng_state,
        final(index).entry_point == Some(entry_after(levels, (vectors@.len() - 1) as nat)),
        forall|n: nat| old(index).storage.room(n) ==> #[trigger] final(index).storage.room(n),
        same_nodes(old(index).storage, final(index).storage),
        exists|steps: Seq<S>|
            {
                &&& #[trigger] graph_built(
                    steps,
                    *metric,
                    old(index).params,
                    vectors@,
                    levels,
                )
                &&& steps.last() == final(index).storage
            },
{
    let ghost before = *index;
    let ghost n = vectors@.len();
    let total: usize = vectors.len();
    proof {
        index.storage.lemma_store();
    }
    let mut entry: u32 = 0;
    let mut entry_level: u8 = index.storage.level_of(0);
    let ghost mut steps: Seq<S> = seq![index.storage];
    let mut i: usize = 1;
    proof {
        assert forall|l: u8| #[trigger] links_below(index.storage, l, 1) by {
            assert forall|id: u32, j: int|
                id < 1 && 0 <= j < index.storage.links_at(id, l).len() implies (
            #[trigger] index.storage.links_at(id, l)[j]) < 1 by {
                assert(index.storage.links_at(id, l) == Seq::<u32>::empty());
            }
        }
    }
    while i < total
        invariant
            1 <= i <= total,
            total == n,
            n == vectors@.len(),
            n <= u32::MAX + 1,
            levels.len() == n,
            metric_ok(*metric),
            before.params == index.params,
            before.distance_fn == index.distance_fn,
            before.rng_state == index.rng_state,
            n > PARALLEL_BUILD_WARM_START ==> before.params.ef_construction
                * PARALLEL_BUILD_EF_MULTIPLIER <= usize::MAX,
            index.storage.store_wf(),
            shape_fits(index.storage, before.params),
            links_valid(index.storage),
            same_nodes(before.storage, index.storage),
            holds_nodes(before.storage, vectors@, levels, n),
            holds_nodes(index.storage, vectors@, levels, n),
            unlinked_from(before.storage, 0),
            unlinked_from(index.storage, i as nat),
            forall|l: u8| #[trigger] links_below(index.storage, l, i as nat),
            forall|k: nat| before.storage.room(k) ==> #[trigger] index.storage.room(k),
            entry == entry_after(levels, (i - 1) as nat),
            entry < i,
            entry_level == levels[entry as int],
            steps.len() == i,
            steps.last() == index.storage,
            steps[0] == before.storage,
            forall|j: int|
                1 <= j < i ==> #[trigger] step_linked(
                    steps[j - 1],
                    steps[j],
                    *metric,
                    before.params,
                    levels,
                    j,
                ),
        decreases total - i,
    {
        let node: u32 = i as u32;
        let level: u8 = index.storage.level_of(node);
        let mut params: HNSWParams = index.params;
        if i >= PARALLEL_BUILD_WARM_START {
            params.ef_construction = params.ef_construction * PARALLEL_BUILD_EF_MULTIPLIER;
        }
        let ghost mid = index.storage;
        proof {
            assert(params == params_for(before.params, i as int));
            assert(mid.level_at(node) <= before.params.max_level);
            assert(shape_fits(mid, params)) by {
                assert forall|l: u8| #[trigger] mid.link_cap(l) == params.links(l) by {
                    assert(mid.link_cap(l) == before.params.links(l));
                }
                assert forall|id: u32, l: u8| id < mid.node_count() implies #[trigger] mid.links_at(
                    id,
                    l,
                ).len() <= params.links(l) by {
                    assert(mid.links_at(id, l).len() <= before.params.links(l));
                }
            }
        }
        insert_into_graph(&mut index.storage, metric, node, vectors[i], level, entry, &params);
        proof {
            let chosen = choose|chosen: Map<int, Seq<u32>>| #[trigger]
                node_linked(
                    mid,
                    index.storage,
                    *metric,
                    node,
                    level,
                    params,
                    descent_end(mid, *metric, node, level, entry),
                    chosen,
                );
            let after = index.storage;
            assert forall|l: u8| #[trigger] after.link_cap(l) == before.params.links(l) by {
                assert(after.link_cap(l) == params.links(l));
            }
            assert forall|id: u32, l: u8| id < after.node_count() implies #[trigger] after.links_at(
                id,
                l,
            ).len() <= before.params.links(l) by {
                assert(after.links_at(id, l).len() <= params.links(l));
            }
            assert(shape_fits(after, before.params));
            assert forall|id: u32, l: u8| i + 1 <= id < after.node_count() implies #[trigger] after.links_at(
                id,
                l,
            ) == Seq::<u32>::empty() by {
                assert(mid.links_at(id, l) == Seq::<u32>::empty());
                if l <= level {
                    assert(links_below(after, l, node as nat + 1));
                    let own = chosen[l as int];
                    assert(level_linked(
                        mid,
                        after,
                        *metric,
                        node,
                        l,
                        params,
                        starts_at(
                            chosen,
                            l as int,
                            level as int,
                            descent_end(mid, *metric, node, level, entry),
                        ),
                        own,
                    ));
                    assert(after.links_at(node, l) == own);
                    assert(!own.contains(id)) by {
                        if own.contains(id) {
                            let j = choose|j: int| 0 <= j < own.len() && own[j] == id;
                            assert(after.links_at(node, l)[j] < node as nat + 1);
                        }
                    }
                    assert(after.links_at(id, l) == mid.links_at(id, l));
                }
            }
            assert forall|l: u8| #[trigger] links_below(after, l, (i + 1) as nat) by {
                if l <= level {
                    assert(links_below(after, l, node as nat + 1));
                } else {
                    assert(links_below(mid, l, i as nat));
                    assert forall|id: u32, j: int|
                        id < (i + 1) as nat && 0 <= j < after.links_at(id, l).len() implies (
                    #[trigger] after.links_at(id, l)[j]) < (i + 1) as nat by {
                        assert(after.links_at(id, l) == mid.links_at(id, l));
                        if id < i {
                            assert(mid.links_at(id, l)[j] < i as nat);
                        }
                    }
                }
            }
            assert(step_linked(mid, after, *metric, before.params, levels, i as int));
            let grown = steps.push(after);
            assert forall|j: int| 1 <= j < i + 1 implies #[trigger] step_linked(
                grown[j - 1],
                grown[j],
                *metric,
                before.params,
                levels,
                j,
            ) by {
                if j < i {
                    assert(grown[j - 1] == steps[j - 1]);
                    assert(grown[j] == steps[j]);
                } else {
                    assert(grown[j - 1] == mid);
                    assert(grown[j] == after);
                }
            }
            steps = grown;
        }
        if level > entry_level {
            entry = node;
            entry_level = level;
        }
        i += 1;
    }
    index.entry_point = Some(entry);
    proof {
        assert(graph_built(steps, *metric, before.params, vectors@, levels));
    }
}

/// Builds an index from a batch of vectors on an empty storage.
pub fn build_on<S: GraphStore, M: Fn(&[u32], &[u32]) -> u32, L: Fn(u32) -> u8>(
    empty: HNSWIndex<S>,
    vectors: &Vec<&[u32]>,
    metric: &M,
    level_source: &L,
) -> (r: Result<HNSWIndex<S>>)
    requires
        empty.wf(),
        empty.storage.node_count() == 0,
        empty.entry_point is None,
        empty.storage.room(vectors@.len()),
        metric_ok(*metric),
        level_source_ok(*level_source),
        vectors@.len() > PARALLEL_BUILD_WARM_START ==> empty.params.ef_construction
            * PARALLEL_BUILD_EF_MULTIPLIER <= usize::MAX,
    ensures
        r is Ok <==> forall|i: int|
            0 <= i < vectors@.len() ==> acceptable((#[trigger] vectors@[i])@, empty.storage.dim()),
        r matches Err(e) ==> exists|i: int|
            {
                &&& 0 <= i < vectors@.len()
                &&& !acceptable((#[trigger] vectors@[i])@, empty.storage.dim())
                &&& forall|j: int|
                    0 <= j < i ==> acceptable((#[trigger] vectors@[j])@, empty.storage.dim())
                &&& e == rejection(vectors@[i]@, empty.storage.dim())
            },
        r matches Ok(index) ==> batch_built(
            empty,
            index,
            *metric,
            vectors@,
            drawn_levels(
                *level_source,
                empty.rng_state,
                empty.params.max_level,
                vectors@.len(),
            ),
        ),
{
    let mut index: HNSWIndex<S> = empty;
    let ghost seed = empty.rng_state;
    let ghost n = vectors@.len();
    let ghost levels = drawn_levels(*level_source, seed, empty.params.max_level, n);
    let dim: usize = index.storage.vector_dim();
    let mut i: usize = 0;
    while i < vectors.len()
        invariant
            i <= vectors@.len(),
            n == vectors@.len(),
            dim == empty.storage.dim(),
            metric_ok(*metric),
            level_source_ok(*level_source),
            levels == drawn_levels(*level_source, seed, empty.params.max_level, n),
            index.storage.store_wf(),
            index.storage.dim() == dim,
            index.storage.quantization().same_mode(empty.storage.quantization()),
            index.params == empty.params,
            index.distance_fn == empty.distance_fn,
            index.entry_point is None,
            index.rng_state == rng_after(seed, i as nat),
            shape_fits(index.storage, empty.params),
            links_valid(index.storage),
            unlinked_from(index.storage, 0),
            holds_nodes(index.storage, vectors@, levels, i as nat),
            index.storage.room((n - i) as nat),
            forall|j: int|
                0 <= j < i ==> acceptable((#[trigger] vectors@[j])@, empty.storage.dim()),
        decreases vectors.len() - i,
    {
        let vector: &[u32] = vectors[i];
        if vector.len() != dim {
            assert(!acceptable(vectors@[i as int]@, empty.storage.dim()));
            return Err(HNSWError::DimensionMismatch { expected: dim, actual: vector.len() });
        }
        if !finite_vector(vector) {
            assert(!acceptable(vectors@[i as int]@, empty.storage.dim()));
            return Err(HNSWError::InvalidVector);
        }
        let ghost mid = index.storage;
        let level: u8 = index.random_level(level_source);
        proof {
            index.storage.lemma_room((n - i) as nat, 1);
            assert(level == levels[i as int]);
        }
        let _ = index.storage.push_node(vector, level);
        proof {
            let after = index.storage;
            let rest = (n - i - 1) as nat;
            assert(mid.room(rest + 1));
            assert forall|id: u32, l: u8| 0 <= id < after.node_count() implies #[trigger] after.links_at(
                id,
                l,
            ) == Seq::<u32>::empty() by {
                if id < i {
                    assert(mid.links_at(id, l) == Seq::<u32>::empty());
                }
            }
            assert forall|id: u32| id < (i + 1) as nat implies #[trigger] after.vector_at(id)
                == vectors@[id as int]@ by {
                if id < i {
                    assert(mid.vector_at(id) == vectors@[id as int]@);
                }
            }
            assert forall|id: u32| id < (i + 1) as nat implies #[trigger] after.level_at(id)
                == levels[id as int] by {
                if id < i {
                    assert(mid.level_at(id) == levels[id as int]);
                }
            }
            assert forall|id: u32| id < (i + 1) as nat implies #[trigger] after.slot_at(id) == id by {
                if id < i {
                    assert(mid.slot_at(id) == id);
                }
            }
            assert forall|l: u8| #[trigger] links_below(after, l, after.node_count()) by {
                assert forall|id: u32, j: int|
                    id < after.node_count() && 0 <= j < after.links_at(id, l).len() implies (
                #[trigger] after.links_at(id, l)[j]) < after.node_count() by {
                    assert(after.links_at(id, l) == Seq::<u32>::empty());
                }
            }
            assert(shape_fits(after, empty.params));
        }
        i += 1;
    }
    if vectors.len() > 0 {
        let ghost nodes = index.storage;
        link_all(&mut index, vectors, metric, Ghost(levels));
        proof {
            assert(holds_nodes(index.storage, vectors@, levels, n)) by {
                assert forall|id: u32| id < n implies #[trigger] index.storage.vector_at(id)
                    == vectors@[id as int]@ by {
                    assert(nodes.vector_at(id) == vectors@[id as int]@);
                }
                assert forall|id: u32| id < n implies #[trigger] index.storage.level_at(id)
                    == levels[id as int] by {
                    assert(nodes.level_at(id) == levels[id as int]);
                }
                assert forall|id: u32| id < n implies #[trigger] index.storage.slot_at(id) == id by {
                    assert(nodes.slot_at(id) == id);
                }
            }
        }
    }
    Ok(index)
}

/// What a batch makes of an empty index.
pub open spec fn batch_built<S: GraphStore, M: Fn(&[u32], &[u32]) -> u32>(
    empty: HNSWIndex<S>,
    index: HNSWIndex<S>,
    metric: M,
    vectors: Seq<&[u32]>,
    levels: Seq<u8>,
) -> bool {
    &&& index.wf()
    &&& index.params == empty.params
    &&& index.distance_fn == empty.distance_fn
    &&& index.rng_state == rng_after(empty.rng_state, vectors.len())
    &&& index.storage.dim() == empty.storage.dim()
    &&& index.storage.quantization().same_mode(empty.storage.quantization())
    &&& holds_nodes(index.storage, vectors, levels, vectors.len())
    &&& vectors.len() == 0 ==> index.entry_point is None
    &&& vectors.len() > 0 ==> {
        &&& index.entry_point == Some(entry_after(levels, (vectors.len() - 1) as nat))
        &&& exists|steps: Seq<S>|
            {
                &&& #[trigger] graph_built(steps, metric, empty.params, vectors, levels)
                &&& steps.last() == index.storage
            }
    }
}

/// Sizes of the matrices for a batch that fit the machine.
pub open spec fn batch_fits(dim: nat, params: HNSWParams, n: nat) -> bool {
    &&& params_fit(params)
    &&& dim > 0
    &&& n * dim <= usize::MAX
    &&& n <= u32::MAX
    &&& n * ((params.m * 2 + 1) + params.max_level * (params.m + 1)) <= usize::MAX
    &&& n > PARALLEL_BUILD_WARM_START ==> params.ef_construction * PARALLEL_BUILD_EF_MULTIPLIER
        <= usize::MAX
}

impl HNSWIndex<HNSWStorage> {
    /// Builds an index from borrowed vectors. Flat storage holds them
    /// uncompressed.
    pub fn build_parallel_from_refs<M: Fn(&[u32], &[u32]) -> u32, L: Fn(u32) -> u8>(
        dimensions: usize,
        params: HNSWParams,
        distance_fn: Metric,
        _use_quantization: bool,
        vectors: Vec<&[u32]>,
        metric: &M,
        level_source: &L,
    ) -> (r: Result<Self>)
        requires
            batch_fits(dimensions as nat, params, vectors@.len()),
            metric_ok(*metric),
            level_source_ok(*level_source),
        ensures
            r is Ok <==> forall|i: int|
                0 <= i < vectors@.len() ==> acceptable((#[trigger] vectors@[i])@, dimensions as nat),
            r matches Err(e) ==> exists|i: int|
                {
                    &&& 0 <= i < vectors@.len()
                    &&& !acceptable((#[trigger] vectors@[i])@, dimensions as nat)
                    &&& forall|j: int|
                        0 <= j < i ==> acceptable((#[trigger] vectors@[j])@, dimensions as nat)
                    &&& e == rejection(vectors@[i]@, dimensions as nat)
                },
            r matches Ok(index) ==> exists|empty: HNSWIndex<HNSWStorage>|
                {
                    &&& empty.params == params
                    &&& empty.distance_fn == distance_fn
                    &&& empty.rng_state == params.seed
                    &&& empty.storage.dim() == dimensions
                    &&& #[trigger] batch_built(
                        empty,
                        index,
                        *metric,
                        vectors@,
                        drawn_levels(*level_source, params.seed, params.max_level, vectors@.len()),
                    )
                },
    {
        let empty: HNSWIndex<HNSWStorage> = HNSWIndex::with_capacity(
            dimensions,
            params,
            distance_fn,
            vectors.len(),
        );
        build_on(empty, &vectors, metric, level_source)
    }

    /// Builds an index from vectors.
    pub fn build_parallel<M: Fn(&[u32], &[u32]) -> u32, L: Fn(u32) -> u8>(
        dimensions: usize,
        params: HNSWParams,
        distance_fn: Metric,
        use_quantization: bool,
        vectors: Vec<Vec<u32>>,
        metric: &M,
        level_source: &L,
    ) -> (r: Result<Self>)
        requires
            batch_fits(dimensions as nat, params, vectors@.len()),
            metric_ok(*metric),
            level_source_ok(*level_source),
        ensures
            r is Ok <==> forall|i: int|
                0 <= i < vectors@.len() ==> acceptable((#[trigger] vectors@[i])@, dimensions as nat),
            r matches Ok(index) ==> exists|
                empty: HNSWIndex<HNSWStorage>,
                refs: Seq<&[u32]>,
            |
                {
                    &&& refs.len() == vectors@.len()
                    &&& forall|i: int|
                        0 <= i < refs.len() ==> (#[trigger] refs[i])@ == vectors@[i]@
                    &&& empty.params == params
                    &&& empty.distance_fn == distance_fn
                    &&& empty.rng_state == params.seed
                    &&& empty.storage.dim() == dimensions
                    &&& #[trigger] batch_built(
                        empty,
                        index,
                        *metric,
                        refs,
                        drawn_levels(*level_source, params.seed, params.max_level, refs.len()),
                    )
                },
            r matches Err(e) ==> exists|i: int|
                {
                    &&& 0 <= i < vectors@.len()
                    &&& !acceptable((#[trigger] vectors@[i])@, dimensions as nat)
                    &&& forall|j: int|
                        0 <= j < i ==> acceptable((#[trigger] vectors@[j])@, dimensions as nat)
                    &&& e == rejection(vectors@[i]@, dimensions as nat)
                },
    {
        let mut refs: Vec<&[u32]> = Vec::new();
        let mut i: usize = 0;
        while i < vectors.len()
            invariant
                i <= vectors@.len(),
                refs@.len() == i,
                forall|j: int| 0 <= j < i ==> (#[trigger] refs@[j])@ == vectors@[j]@,
            decreases vectors.len() - i,
        {
            refs.push(vectors[i].as_slice());
            i += 1;
        }
        let ghost borrowed = refs@;
        proof {
            assert forall|i: int| 0 <= i < vectors@.len() implies acceptable(
                (#[trigger] vectors@[i])@,
                dimensions as nat,
            ) == acceptable(borrowed[i]@, dimensions as nat) by {
                assert(borrowed[i]@ == vectors@[i]@);
            }
        }
        let r: Result<Self> = Self::build_parallel_from_refs(
            dimensions,
            params,
            distance_fn,
            use_quantization,
            refs,
            metric,
            level_source,
        );
        proof {
            if r is Ok {
                assert forall|i: int| 0 <= i < vectors@.len() implies acceptable(
                    (#[trigger] vectors@[i])@,
                    dimensions as nat,
                ) by {
                    assert(acceptable(borrowed[i]@, dimensions as nat));
                }
            } else {
                let e = r->Err_0;
                let i = choose|i: int|
                    {
                        &&& 0 <= i < borrowed.len()
                        &&& !acceptable((#[trigger] borrowed[i])@, dimensions as nat)
                        &&& forall|j: int|
                            0 <= j < i ==> acceptable(
                                (#[trigger] borrowed[j])@,
                                dimensions as nat,
                            )
                        &&& e == rejection(borrowed[i]@, dimensions as nat)
                    };
                assert(!acceptable(vectors@[i]@, dimensions as nat));
                assert forall|j: int| 0 <= j < i implies acceptable(
                    (#[trigger] vectors@[j])@,
                    dimensions as nat,
                ) by {
                    assert(acceptable(borrowed[j]@, dimensions as nat));
                }
            }
        }
        r
    }
}

} // verus!
