//! Construction of an index from vectors that are clustered first.
//!
//! Vectors that are near each other are inserted one after the other. Means of
//! vectors are up to the caller.

use vstd::prelude::*;

use crate::distance::{float_lt, float_rank, less, measure, metric_ok, metric_value, rank};
use crate::error::{HNSWError, Result};
use crate::graph::GraphStore;
use crate::index::batch::{batch_inserted, components, inserted_in_turn, law_batch_keeps_order};
use crate::index::coded::{vector_step, vectors_in_turn};
use crate::index::insert::level_source_ok;
use crate::index::parallel::{acceptable, batch_fits, rejection};
use crate::index::{params_fit, HNSWIndex};
use crate::node_storage::quantization::Coder;
use crate::node_storage::{
    node_params_fit, raw_node_size, round_up, NodeStorage, FIRST_CAPACITY,
};
use crate::reorder::views;
use crate::segment_manager::merge::{all_acceptable, first_rejected};
use crate::storage::{slice_to_vec, HNSWStorage};
use crate::types::{HNSWParams, Metric};

verus! {

/// Vectors that belong together.
#[derive(Debug, Clone)]
pub struct Cluster {
    /// Which vectors they are.
    pub indices: Vec<usize>,
    pub centroid: Vec<u32>,
}

impl Cluster {
    pub fn len(&self) -> (n: usize)
        ensures
            n == self.indices@.len(),
    {
        self.indices.len()
    }

    pub fn is_empty(&self) -> (r: bool)
        ensures
            r == (self.indices@.len() == 0),
    {
        self.indices.len() == 0
    }
}

// ---------------------------------------------------------------------------
// Clusters from assignments
// ---------------------------------------------------------------------------

/// The vectors that are assigned to a cluster, in order.
pub open spec fn members(assignments: Seq<usize>, cluster: int) -> Seq<usize>
    decreases assignments.len(),
{
    if assignments.len() == 0 {
        Seq::empty()
    } else {
        let front = members(assignments.drop_last(), cluster);
        if assignments.last() == cluster {
            front.push((assignments.len() - 1) as usize)
        } else {
            front
        }
    }
}

/// The first `k` clusters, without those that are empty.
pub open spec fn clusters_of(assignments: Seq<usize>, centroids: Seq<Seq<u32>>, k: nat) -> Seq<
    (Seq<usize>, Seq<u32>),
>
    decreases k,
{
    if k == 0 {
        Seq::empty()
    } else {
        let front = clusters_of(assignments, centroids, (k - 1) as nat);
        let own = members(assignments, k - 1);
        if own.len() > 0 {
            front.push((own, centroids[k - 1]))
        } else {
            front
        }
    }
}

/// The contents of some clusters.
pub open spec fn cluster_views(clusters: Seq<Cluster>) -> Seq<(Seq<usize>, Seq<u32>)> {
    clusters.map_values(|c: Cluster| (c.indices@, c.centroid@))
}

/// How many vectors some clusters have.
pub open spec fn cluster_total(clusters: Seq<(Seq<usize>, Seq<u32>)>) -> nat
    decreases clusters.len(),
{
    if clusters.len() == 0 {
        0
    } else {
        cluster_total(clusters.drop_last()) + clusters.last().0.len()
    }
}

/// How many vectors are assigned to the first `k` clusters.
spec fn assigned_below(assignments: Seq<usize>, k: int) -> nat
    decreases assignments.len(),
{
    if assignments.len() == 0 {
        0
    } else {
        assigned_below(assignments.drop_last(), k) + if assignments.last() < k {
            1nat
        } else {
            0nat
        }
    }
}

proof fn lemma_assigned_step(assignments: Seq<usize>, k: int)
    ensures
        assigned_below(assignments, k + 1) == assigned_below(assignments, k) + members(
            assignments,
            k,
        ).len(),
    decreases assignments.len(),
{
    if assignments.len() > 0 {
        lemma_assigned_step(assignments.drop_last(), k);
    }
}

proof fn lemma_cluster_total(assignments: Seq<usize>, centroids: Seq<Seq<u32>>, k: nat)
    ensures
        cluster_total(clusters_of(assignments, centroids, k)) == assigned_below(
            assignments,
            k as int,
        ),
    decreases k,
{
    if k > 0 {
        lemma_cluster_total(assignments, centroids, (k - 1) as nat);
        lemma_assigned_step(assignments, k - 1);
        let all = clusters_of(assignments, centroids, k);
        if members(assignments, k - 1).len() > 0 {
            assert(all.drop_last() =~= clusters_of(assignments, centroids, (k - 1) as nat));
        }
    } else {
        lemma_none_below(assignments);
    }
}

proof fn lemma_none_below(assignments: Seq<usize>)
    ensures
        assigned_below(assignments, 0) == 0,
    decreases assignments.len(),
{
    if assignments.len() > 0 {
        lemma_none_below(assignments.drop_last());
    }
}

proof fn lemma_all_below(assignments: Seq<usize>, k: int)
    requires
        forall|i: int| 0 <= i < assignments.len() ==> #[trigger] assignments[i] < k,
    ensures
        assigned_below(assignments, k) == assignments.len(),
    decreases assignments.len(),
{
    if assignments.len() > 0 {
        let front = assignments.drop_last();
        assert forall|i: int| 0 <= i < front.len() implies #[trigger] front[i] < k by {
            assert(assignments[i] < k);
        }
        lemma_all_below(front, k);
        assert(assignments[assignments.len() - 1] < k);
    }
}

/// Clusters hold every vector exactly once: the vectors of a cluster are those
/// that are assigned to it, and together they are as many as there are.
pub proof fn law_clusters_cover(assignments: Seq<usize>, centroids: Seq<Seq<u32>>, k: nat)
    requires
        assignments.len() <= usize::MAX,
        forall|i: int| 0 <= i < assignments.len() ==> #[trigger] assignments[i] < k,
    ensures
        cluster_total(clusters_of(assignments, centroids, k)) == assignments.len(),
        forall|c: int, j: int|
            0 <= j < members(assignments, c).len() ==> (#[trigger] members(assignments, c)[j])
                < assignments.len() && assignments[members(assignments, c)[j] as int] == c,
{
    lemma_cluster_total(assignments, centroids, k);
    lemma_all_below(assignments, k as int);
    assert forall|c: int, j: int|
        0 <= j < members(assignments, c).len() implies (#[trigger] members(assignments, c)[j])
        < assignments.len() && assignments[members(assignments, c)[j] as int] == c by {
        lemma_members(assignments, c);
    }
}

proof fn lemma_members(assignments: Seq<usize>, c: int)
    requires
        assignments.len() <= usize::MAX,
    ensures
        forall|j: int|
            0 <= j < members(assignments, c).len() ==> (#[trigger] members(assignments, c)[j])
                < assignments.len() && assignments[members(assignments, c)[j] as int] == c,
    decreases assignments.len(),
{
    if assignments.len() > 0 {
        let front = assignments.drop_last();
        lemma_members(front, c);
        let all = members(assignments, c);
        let some = members(front, c);
        assert forall|j: int| 0 <= j < all.len() implies (#[trigger] all[j]) < assignments.len()
            && assignments[all[j] as int] == c by {
            if j < some.len() {
                assert(all[j] == some[j]);
                assert(front[some[j] as int] == c);
            } else {
                assert(all[j] == (assignments.len() - 1) as usize);
            }
        }
    }
}

fn members_of(assignments: &Vec<usize>, cluster: usize) -> (r: Vec<usize>)
    ensures
        r@ == members(assignments@, cluster as int),
{
    let mut r: Vec<usize> = Vec::new();
    let mut i: usize = 0;
    assert(assignments@.take(0) =~= Seq::<usize>::empty());
    while i < assignments.len()
        invariant
            i <= assignments@.len(),
            r@ == members(assignments@.take(i as int), cluster as int),
        decreases assignments.len() - i,
    {
        assert(assignments@.take(i + 1).drop_last() =~= assignments@.take(i as int));
        if assignments[i] == cluster {
            r.push(i);
        }
        i += 1;
    }
    assert(assignments@.take(i as int) =~= assignments@);
    r
}

/// The clusters that vectors are assigned to, without those that are empty.
pub fn build_clusters_from_assignments(
    assignments: &Vec<usize>,
    centroids: &Vec<Vec<u32>>,
    k: usize,
) -> (r: Vec<Cluster>)
    requires
        k <= centroids@.len(),
    ensures
        cluster_views(r@) == clusters_of(assignments@, views(centroids@), k as nat),
{
    let mut r: Vec<Cluster> = Vec::new();
    let mut c: usize = 0;
    assert(cluster_views(r@) =~= clusters_of(assignments@, views(centroids@), 0));
    while c < k
        invariant
            c <= k <= centroids@.len(),
            cluster_views(r@) == clusters_of(assignments@, views(centroids@), c as nat),
        decreases k - c,
    {
        let indices: Vec<usize> = members_of(assignments, c);
        if indices.len() > 0 {
            let ghost before = r@;
            let cluster = Cluster { indices, centroid: slice_to_vec(centroids[c].as_slice()) };
            r.push(cluster);
            assert(cluster_views(r@) =~= cluster_views(before).push(
                (cluster.indices@, cluster.centroid@),
            ));
        }
        c += 1;
    }
    r
}

// ---------------------------------------------------------------------------
// Assignment to the nearest centroid
// ---------------------------------------------------------------------------

/// The first place of the least distance.
pub open spec fn first_least(distances: Seq<u32>) -> int
    decreases distances.len(),
{
    if distances.len() <= 1 {
        0
    } else {
        let best = first_least(distances.drop_last());
        if rank(distances.last()) < rank(distances[best]) {
            distances.len() - 1
        } else {
            best
        }
    }
}

/// The distances of a vector to the centroids.
pub open spec fn distances_to<M: Fn(&[u32], &[u32]) -> u32>(
    metric: M,
    v: Seq<u32>,
    centroids: Seq<Seq<u32>>,
) -> Seq<u32> {
    centroids.map_values(|c: Seq<u32>| metric_value(metric, v, c))
}

/// All vectors have as many components.
pub open spec fn all_of_length(vectors: Seq<Seq<u32>>, dims: nat) -> bool {
    forall|i: int| 0 <= i < vectors.len() ==> (#[trigger] vectors[i]).len() == dims
}

/// Each vector is assigned to the first of the centroids that are nearest.
pub open spec fn assigned<M: Fn(&[u32], &[u32]) -> u32>(
    metric: M,
    vectors: Seq<Seq<u32>>,
    centroids: Seq<Seq<u32>>,
) -> Seq<usize> {
    vectors.map_values(|v: Seq<u32>| first_least(distances_to(metric, v, centroids)) as usize)
}

/// No distance is less than that at the place which is found, and those before
/// it are greater.
pub proof fn law_first_least(distances: Seq<u32>)
    requires
        distances.len() > 0,
    ensures
        0 <= first_least(distances) < distances.len(),
        forall|i: int|
            0 <= i < distances.len() ==> rank(distances[first_least(distances)]) <= rank(
                #[trigger] distances[i],
            ),
        forall|i: int|
            0 <= i < first_least(distances) ==> rank(distances[first_least(distances)]) < rank(
                #[trigger] distances[i],
            ),
    decreases distances.len(),
{
    if distances.len() > 1 {
        let front = distances.drop_last();
        law_first_least(front);
        let best = first_least(front);
        let all = first_least(distances);
        assert(front[best] == distances[best]);
        assert forall|i: int| 0 <= i < distances.len() implies rank(distances[all]) <= rank(
            #[trigger] distances[i],
        ) by {
            if i < front.len() {
                assert(rank(front[best]) <= rank(front[i]));
            }
        }
        assert forall|i: int| 0 <= i < all implies rank(distances[all]) < rank(
            #[trigger] distances[i],
        ) by {
            if all == best {
                assert(rank(front[best]) < rank(front[i]));
            } else {
                assert(rank(front[best]) <= rank(front[i]));
            }
        }
    }
}

fn nearest_centroid<M: Fn(&[u32], &[u32]) -> u32>(
    metric: &M,
    v: &Vec<u32>,
    centroids: &Vec<Vec<u32>>,
) -> (best: usize)
    requires
        metric_ok(*metric),
        centroids@.len() > 0,
        all_of_length(views(centroids@), v@.len()),
    ensures
        best == first_least(distances_to(*metric, v@, views(centroids@))),
        best < centroids@.len(),
{
    let ghost ds = distances_to(*metric, v@, views(centroids@));
    assert(views(centroids@)[0].len() == v@.len());
    let mut best: usize = 0;
    let mut least: u32 = measure(metric, v.as_slice(), centroids[0].as_slice());
    let mut i: usize = 1;
    assert(first_least(ds.take(1)) == 0);
    while i < centroids.len()
        invariant
            1 <= i <= centroids@.len(),
            metric_ok(*metric),
            all_of_length(views(centroids@), v@.len()),
            ds == distances_to(*metric, v@, views(centroids@)),
            best < i,
            best == first_least(ds.take(i as int)),
            least == ds[best as int],
        decreases centroids.len() - i,
    {
        assert(views(centroids@)[i as int].len() == v@.len());
        let d: u32 = measure(metric, v.as_slice(), centroids[i].as_slice());
        proof {
            let longer = ds.take(i + 1);
            assert(longer.drop_last() =~= ds.take(i as int));
            assert(longer[best as int] == ds[best as int]);
            assert(longer.last() == d);
        }
        if float_rank(d) < float_rank(least) {
            best = i;
            least = d;
        }
        i += 1;
    }
    assert(ds.take(i as int) =~= ds);
    best
}

/// Assigns each vector to a centroid, and says whether an assignment changed.
fn assign_all<M: Fn(&[u32], &[u32]) -> u32>(
    metric: &M,
    vectors: &Vec<Vec<u32>>,
    centroids: &Vec<Vec<u32>>,
    assignments: &mut Vec<usize>,
) -> (changed: bool)
    requires
        metric_ok(*metric),
        centroids@.len() > 0,
        old(assignments)@.len() == vectors@.len(),
        forall|i: int|
            0 <= i < vectors@.len() ==> all_of_length(
                views(centroids@),
                (#[trigger] vectors@[i])@.len(),
            ),
    ensures
        final(assignments)@ == assigned(*metric, views(vectors@), views(centroids@)),
        changed == (final(assignments)@ != old(assignments)@),
        forall|i: int|
            0 <= i < final(assignments)@.len() ==> #[trigger] final(assignments)@[i]
                < centroids@.len(),
{
    let ghost goal = assigned(*metric, views(vectors@), views(centroids@));
    let ghost before = assignments@;
    let mut changed: bool = false;
    let mut i: usize = 0;
    while i < vectors.len()
        invariant
            i <= vectors@.len(),
            metric_ok(*metric),
            centroids@.len() > 0,
            assignments@.len() == vectors@.len(),
            before.len() == vectors@.len(),
            forall|j: int|
                0 <= j < vectors@.len() ==> all_of_length(
                    views(centroids@),
                    (#[trigger] vectors@[j])@.len(),
                ),
            goal == assigned(*metric, views(vectors@), views(centroids@)),
            forall|j: int| 0 <= j < i ==> #[trigger] assignments@[j] == goal[j],
            forall|j: int| i <= j < assignments@.len() ==> #[trigger] assignments@[j] == before[j],
            forall|j: int| 0 <= j < i ==> #[trigger] assignments@[j] < centroids@.len(),
            changed == exists|j: int| 0 <= j < i && goal[j] != #[trigger] before[j],
        decreases vectors.len() - i,
    {
        assert(all_of_length(views(centroids@), vectors@[i as int]@.len()));
        let nearest: usize = nearest_centroid(metric, &vectors[i], centroids);
        assert(nearest == goal[i as int]);
        let old_one: usize = assignments[i];
        assert(old_one == before[i as int]);
        assignments.set(i, nearest);
        if old_one != nearest {
            changed = true;
        }
        i += 1;
    }
    proof {
        assert(assignments@ =~= goal);
        if changed {
            let j = choose|j: int| 0 <= j < i && goal[j] != #[trigger] before[j];
            assert(goal[j] != before[j]);
        } else {
            assert(goal =~= before);
        }
    }
    changed
}

// ---------------------------------------------------------------------------
// Centroids to start with
// ---------------------------------------------------------------------------

/// Bits of 1e-10: a vector that near to a centroid is that centroid.
pub const SAME_PLACE: u32 = 0x2edb_e6ff;

/// Bits of the greatest finite value.
pub const GREATEST: u32 = 0x7f7f_ffff;

/// A distance is that of a vector which is a centroid already.
pub open spec fn taken(distances: Seq<u32>) -> bool {
    exists|i: int| 0 <= i < distances.len() && float_lt(#[trigger] distances[i], SAME_PLACE)
}

/// The least of some distances.
pub open spec fn least_of(distances: Seq<u32>) -> u32
    decreases distances.len(),
{
    if distances.len() == 0 {
        GREATEST
    } else {
        let least = least_of(distances.drop_last());
        if float_lt(distances.last(), least) {
            distances.last()
        } else {
            least
        }
    }
}

/// Of the first `n` vectors, the first of those that are farthest from all
/// centroids, with its distance; the first vector where there is none.
pub open spec fn farthest<M: Fn(&[u32], &[u32]) -> u32>(
    metric: M,
    vectors: Seq<Seq<u32>>,
    centroids: Seq<Seq<u32>>,
    n: nat,
) -> (int, u32)
    decreases n,
{
    if n == 0 {
        (0, 0u32)
    } else {
        let best = farthest(metric, vectors, centroids, (n - 1) as nat);
        let ds = distances_to(metric, vectors[n - 1], centroids);
        if !taken(ds) && float_lt(best.1, least_of(ds)) {
            (n - 1, least_of(ds))
        } else {
            best
        }
    }
}

/// `k` centroids to start with: the first vector, and then each time the one
/// farthest from those that are chosen.
pub open spec fn first_centroids<M: Fn(&[u32], &[u32]) -> u32>(
    metric: M,
    vectors: Seq<Seq<u32>>,
    k: nat,
) -> Seq<Seq<u32>>
    decreases k,
{
    if k <= 1 {
        seq![vectors[0]]
    } else {
        let front = first_centroids(metric, vectors, (k - 1) as nat);
        front.push(vectors[farthest(metric, vectors, front, vectors.len()).0])
    }
}

/// Whether a vector is a centroid already, and its least distance to one.
fn look_around<M: Fn(&[u32], &[u32]) -> u32>(
    metric: &M,
    v: &Vec<u32>,
    centroids: &Vec<Vec<u32>>,
) -> (r: (bool, u32))
    requires
        metric_ok(*metric),
        all_of_length(views(centroids@), v@.len()),
    ensures
        r.0 == taken(distances_to(*metric, v@, views(centroids@))),
        r.1 == least_of(distances_to(*metric, v@, views(centroids@))),
{
    let ghost ds = distances_to(*metric, v@, views(centroids@));
    let mut near: bool = false;
    let mut least: u32 = GREATEST;
    let mut i: usize = 0;
    assert(ds.take(0) =~= Seq::<u32>::empty());
    while i < centroids.len()
        invariant
            i <= centroids@.len(),
            metric_ok(*metric),
            all_of_length(views(centroids@), v@.len()),
            ds == distances_to(*metric, v@, views(centroids@)),
            near == exists|j: int| 0 <= j < i && float_lt(#[trigger] ds[j], SAME_PLACE),
            least == least_of(ds.take(i as int)),
        decreases centroids.len() - i,
    {
        assert(views(centroids@)[i as int].len() == v@.len());
        let d: u32 = measure(metric, v.as_slice(), centroids[i].as_slice());
        assert(d == ds[i as int]);
        proof {
            assert(ds.take(i + 1).drop_last() =~= ds.take(i as int));
        }
        if less(d, SAME_PLACE) {
            near = true;
        }
        if less(d, least) {
            least = d;
        }
        i += 1;
    }
    assert(ds.take(i as int) =~= ds);
    (near, least)
}

/// Chooses centroids to start with.
pub fn kmeans_plus_plus_init<M: Fn(&[u32], &[u32]) -> u32>(
    vectors: &Vec<Vec<u32>>,
    k: usize,
    metric: &M,
) -> (centroids: Vec<Vec<u32>>)
    requires
        metric_ok(*metric),
        vectors@.len() > 0,
        k > 0,
        all_of_length(views(vectors@), vectors@[0]@.len()),
    ensures
        views(centroids@) == first_centroids(*metric, views(vectors@), k as nat),
        centroids@.len() == k,
        all_of_length(views(centroids@), vectors@[0]@.len()),
{
    let ghost all = views(vectors@);
    let ghost dims = vectors@[0]@.len();
    let mut centroids: Vec<Vec<u32>> = Vec::new();
    centroids.push(slice_to_vec(vectors[0].as_slice()));
    assert(views(centroids@) =~= seq![all[0]]);
    while centroids.len() < k
        invariant
            1 <= centroids@.len() <= k,
            metric_ok(*metric),
            all == views(vectors@),
            vectors@.len() > 0,
            all_of_length(all, dims),
            views(centroids@) == first_centroids(*metric, all, centroids@.len()),
            all_of_length(views(centroids@), dims),
        decreases k - centroids.len(),
    {
        let ghost chosen = views(centroids@);
        let mut best: usize = 0;
        let mut distance: u32 = 0;
        let mut i: usize = 0;
        while i < vectors.len()
            invariant
                i <= vectors@.len(),
                vectors@.len() > 0,
                metric_ok(*metric),
                all == views(vectors@),
                all_of_length(all, dims),
                chosen == views(centroids@),
                all_of_length(chosen, dims),
                best < vectors@.len(),
                (best as int, distance) == farthest(*metric, all, chosen, i as nat),
            decreases vectors.len() - i,
        {
            assert(all[i as int].len() == dims);
            let (near, least) = look_around(metric, &vectors[i], &centroids);
            if !near && less(distance, least) {
                distance = least;
                best = i;
            }
            i += 1;
        }
        assert(all[best as int].len() == dims);
        centroids.push(slice_to_vec(vectors[best].as_slice()));
        proof {
            let n = centroids@.len();
            assert(views(centroids@) =~= chosen.push(all[best as int]));
            assert(first_centroids(*metric, all, n) == chosen.push(all[best as int]));
            assert forall|j: int| 0 <= j < n implies (#[trigger] views(centroids@)[j]).len()
                == dims by {
                if j < chosen.len() {
                    assert(chosen[j].len() == dims);
                }
            }
        }
    }
    centroids
}

// ---------------------------------------------------------------------------
// Clustering
// ---------------------------------------------------------------------------

/// What is asked of the function that finds the mean of each cluster: it gives
/// as many vectors as there are clusters, all of them as long as the given
/// ones, and depends on vectors and assignments alone.
pub open spec fn mean_ok<A: Fn(&Vec<Vec<u32>>, &Vec<usize>, usize) -> Vec<Vec<u32>>>(
    mean: A,
    dims: nat,
) -> bool {
    &&& forall|v: &Vec<Vec<u32>>, a: &Vec<usize>, k: usize|
        v@.len() == a@.len() && all_of_length(views(v@), dims) && (forall|i: int|
            0 <= i < a@.len() ==> a@[i] < k) ==> #[trigger] call_requires(mean, (v, a, k))
    &&& forall|v: &Vec<Vec<u32>>, a: &Vec<usize>, k: usize, r: Vec<Vec<u32>>| #[trigger]
        call_ensures(mean, (v, a, k), r) ==> r@.len() == k && all_of_length(views(r@), dims)
    &&& forall|
        v: &Vec<Vec<u32>>,
        w: &Vec<Vec<u32>>,
        a: &Vec<usize>,
        b: &Vec<usize>,
        k: usize,
        r: Vec<Vec<u32>>,
        s: Vec<Vec<u32>>,
    |
        #[trigger] call_ensures(mean, (v, a, k), r) && #[trigger] call_ensures(mean, (w, b, k), s)
            && views(v@) == views(w@) && a@ == b@ ==> views(r@) == views(s@)
}

pub open spec fn mean_returns<A: Fn(&Vec<Vec<u32>>, &Vec<usize>, usize) -> Vec<Vec<u32>>>(
    mean: A,
    vectors: Seq<Seq<u32>>,
    assignments: Seq<usize>,
    k: usize,
    centroids: Seq<Seq<u32>>,
) -> bool {
    exists|v: &Vec<Vec<u32>>, a: &Vec<usize>, r: Vec<Vec<u32>>|
        {
            &&& views(v@) == vectors
            &&& a@ == assignments
            &&& views(r@) == centroids
            &&& #[trigger] call_ensures(mean, (v, a, k), r)
        }
}

/// The means of the clusters.
pub open spec fn means<A: Fn(&Vec<Vec<u32>>, &Vec<usize>, usize) -> Vec<Vec<u32>>>(
    mean: A,
    vectors: Seq<Seq<u32>>,
    assignments: Seq<usize>,
    k: usize,
) -> Seq<Seq<u32>> {
    choose|centroids: Seq<Seq<u32>>| mean_returns(mean, vectors, assignments, k, centroids)
}

/// Assignments and centroids after at most `rounds` rounds: each assigns the
/// vectors, and unless nothing changes the centroids move to the means.
pub open spec fn rounds_done<
    M: Fn(&[u32], &[u32]) -> u32,
    A: Fn(&Vec<Vec<u32>>, &Vec<usize>, usize) -> Vec<Vec<u32>>,
>(
    metric: M,
    mean: A,
    vectors: Seq<Seq<u32>>,
    k: usize,
    assignments: Seq<usize>,
    centroids: Seq<Seq<u32>>,
    rounds: nat,
) -> (Seq<usize>, Seq<Seq<u32>>)
    decreases rounds,
{
    if rounds == 0 {
        (assignments, centroids)
    } else {
        let next = assigned(metric, vectors, centroids);
        if next == assignments {
            (next, centroids)
        } else {
            rounds_done(
                metric,
                mean,
                vectors,
                k,
                next,
                means(mean, vectors, next, k),
                (rounds - 1) as nat,
            )
        }
    }
}

/// The clusters of some vectors.
pub open spec fn clustered<
    M: Fn(&[u32], &[u32]) -> u32,
    A: Fn(&Vec<Vec<u32>>, &Vec<usize>, usize) -> Vec<Vec<u32>>,
>(metric: M, mean: A, vectors: Seq<Seq<u32>>, k: usize, max_iters: nat) -> Seq<
    (Seq<usize>, Seq<u32>),
> {
    if vectors.len() == 0 || k == 0 {
        Seq::empty()
    } else {
        let k = if k <= vectors.len() {
            k
        } else {
            vectors.len() as usize
        };
        let done = rounds_done(
            metric,
            mean,
            vectors,
            k,
            Seq::new(vectors.len(), |i: int| 0usize),
            first_centroids(metric, vectors, k as nat),
            max_iters,
        );
        clusters_of(done.0, done.1, k as nat)
    }
}

/// Clusters vectors around `k` centroids, in at most `max_iters` rounds.
pub fn kmeans_cluster<
    M: Fn(&[u32], &[u32]) -> u32,
    A: Fn(&Vec<Vec<u32>>, &Vec<usize>, usize) -> Vec<Vec<u32>>,
>(vectors: &Vec<Vec<u32>>, k: usize, max_iters: usize, metric: &M, mean: &A) -> (clusters: Vec<
    Cluster,
>)
    requires
        metric_ok(*metric),
        vectors@.len() > 0 ==> all_of_length(views(vectors@), vectors@[0]@.len()) && mean_ok(
            *mean,
            vectors@[0]@.len(),
        ),
    ensures
        cluster_views(clusters@) == clustered(
            *metric,
            *mean,
            views(vectors@),
            k,
            max_iters as nat,
        ),
        vectors@.len() > 0 && k > 0 ==> cluster_total(cluster_views(clusters@)) == vectors@.len(),
        forall|c: int, j: int|
            0 <= c < clusters@.len() && 0 <= j < clusters@[c].indices@.len()
                ==> #[trigger] clusters@[c].indices@[j] < vectors@.len(),
{
    if vectors.len() == 0 || k == 0 {
        let none: Vec<Cluster> = Vec::new();
        assert(cluster_views(none@) =~= Seq::<(Seq<usize>, Seq<u32>)>::empty());
        return none;
    }
    let ghost all = views(vectors@);
    let ghost dims = vectors@[0]@.len();
    let k: usize = if k <= vectors.len() { k } else { vectors.len() };
    let mut centroids: Vec<Vec<u32>> = kmeans_plus_plus_init(vectors, k, metric);
    let mut assignments: Vec<usize> = vec![0usize; vectors.len()];
    assert(assignments@ =~= Seq::new(all.len(), |i: int| 0usize));
    let ghost goal = rounds_done(
        *metric,
        *mean,
        all,
        k,
        assignments@,
        views(centroids@),
        max_iters as nat,
    );
    let mut left: usize = max_iters;
    let mut open: bool = true;
    while left > 0 && open
        invariant
            metric_ok(*metric),
            mean_ok(*mean, dims),
            all == views(vectors@),
            all_of_length(all, dims),
            0 < k,
            assignments@.len() == vectors@.len(),
            forall|i: int| 0 <= i < assignments@.len() ==> #[trigger] assignments@[i] < k,
            centroids@.len() == k,
            all_of_length(views(centroids@), dims),
            open ==> goal == rounds_done(
                *metric,
                *mean,
                all,
                k,
                assignments@,
                views(centroids@),
                left as nat,
            ),
            !open ==> goal == (assignments@, views(centroids@)),
        decreases left, open as int,
    {
        proof {
            assert forall|i: int| 0 <= i < vectors@.len() implies all_of_length(
                views(centroids@),
                (#[trigger] vectors@[i])@.len(),
            ) by {
                assert(all[i].len() == dims);
            }
        }
        let changed: bool = assign_all(metric, vectors, &centroids, &mut assignments);
        if !changed {
            open = false;
        } else {
            let moved: Vec<Vec<u32>> = mean(vectors, &assignments, k);
            proof {
                assert(call_ensures(*mean, (vectors, &assignments, k), moved));
                assert(mean_returns(*mean, all, assignments@, k, views(moved@)));
                let chosen = means(*mean, all, assignments@, k);
                assert(mean_returns(*mean, all, assignments@, k, chosen));
                assert(chosen == views(moved@));
            }
            centroids = moved;
            left = left - 1;
        }
    }
    let clusters: Vec<Cluster> = build_clusters_from_assignments(&assignments, &centroids, k);
    proof {
        assert(goal == (assignments@, views(centroids@)));
        law_clusters_cover(assignments@, views(centroids@), k as nat);
        assert forall|c: int, j: int|
            0 <= c < clusters@.len() && 0 <= j < clusters@[c].indices@.len() implies #[trigger] clusters@[c].indices@[j]
            < vectors@.len() by {
            lemma_cluster_members(assignments@, views(centroids@), k as nat);
            assert(cluster_views(clusters@)[c].0 == clusters@[c].indices@);
        }
    }
    clusters
}

proof fn lemma_cluster_members(assignments: Seq<usize>, centroids: Seq<Seq<u32>>, k: nat)
    requires
        assignments.len() <= usize::MAX,
    ensures
        forall|c: int, j: int|
            0 <= c < clusters_of(assignments, centroids, k).len() && 0 <= j < clusters_of(
                assignments,
                centroids,
                k,
            )[c].0.len() ==> #[trigger] clusters_of(assignments, centroids, k)[c].0[j]
                < assignments.len(),
    decreases k,
{
    if k > 0 {
        lemma_cluster_members(assignments, centroids, (k - 1) as nat);
        lemma_members(assignments, k - 1);
        let all = clusters_of(assignments, centroids, k);
        let front = clusters_of(assignments, centroids, (k - 1) as nat);
        assert forall|c: int, j: int|
            0 <= c < all.len() && 0 <= j < all[c].0.len() implies #[trigger] all[c].0[j]
            < assignments.len() by {
            if c < front.len() {
                assert(front[c].0[j] < assignments.len());
            }
        }
    }
}

// ---------------------------------------------------------------------------
// Construction
// ---------------------------------------------------------------------------

/// With fewer vectors nothing is clustered.
pub const CLUSTER_THRESHOLD: usize = 1000;

/// How often vectors are assigned to clusters at most.
pub const CLUSTER_ROUNDS: usize = 10;

/// How many clusters to make: four for each thread, but none of fewer than a
/// hundred vectors on average, and two at least.
pub open spec fn cluster_count(threads: int, n: int) -> int {
    let wanted = if threads * 4 <= n / 100 {
        threads * 4
    } else {
        n / 100
    };
    if wanted >= 2 {
        wanted
    } else {
        2
    }
}

/// The vectors of some clusters, one cluster after the other.
pub open spec fn cluster_sequence(clusters: Seq<(Seq<usize>, Seq<u32>)>) -> Seq<usize>
    decreases clusters.len(),
{
    if clusters.len() == 0 {
        Seq::empty()
    } else {
        cluster_sequence(clusters.drop_last()) + clusters.last().0
    }
}

/// The vectors at some places.
pub open spec fn picked(vectors: Seq<Seq<u32>>, places: Seq<usize>) -> Seq<Seq<u32>> {
    places.map_values(|i: usize| vectors[i as int])
}

/// The order in which vectors are inserted.
pub open spec fn build_order<
    D: Fn(&[u32], &[u32]) -> u32,
    A: Fn(&Vec<Vec<u32>>, &Vec<usize>, usize) -> Vec<Vec<u32>>,
>(euclidean: D, mean: A, vectors: Seq<Seq<u32>>, threads: usize) -> Seq<Seq<u32>> {
    let clusters = clustered(
        euclidean,
        mean,
        vectors,
        cluster_count(threads as int, vectors.len() as int) as usize,
        CLUSTER_ROUNDS as nat,
    );
    if vectors.len() < CLUSTER_THRESHOLD || clusters.len() <= 1 {
        vectors
    } else {
        picked(vectors, cluster_sequence(clusters))
    }
}

/// Going through the clusters in turn meets every vector exactly once.
pub proof fn law_cluster_sequence(assignments: Seq<usize>, centroids: Seq<Seq<u32>>, k: nat)
    requires
        assignments.len() <= usize::MAX,
        forall|i: int| 0 <= i < assignments.len() ==> #[trigger] assignments[i] < k,
    ensures
        cluster_sequence(clusters_of(assignments, centroids, k)).len() == assignments.len(),
        cluster_sequence(clusters_of(assignments, centroids, k)).no_duplicates(),
        forall|j: int|
            0 <= j < assignments.len() ==> #[trigger] cluster_sequence(
                clusters_of(assignments, centroids, k),
            )[j] < assignments.len(),
{
    law_clusters_cover(assignments, centroids, k);
    lemma_sequence(assignments, centroids, k);
}

proof fn lemma_sequence(assignments: Seq<usize>, centroids: Seq<Seq<u32>>, k: nat)
    requires
        assignments.len() <= usize::MAX,
    ensures
        cluster_sequence(clusters_of(assignments, centroids, k)).len() == cluster_total(
            clusters_of(assignments, centroids, k),
        ),
        cluster_sequence(clusters_of(assignments, centroids, k)).no_duplicates(),
        forall|j: int|
            0 <= j < cluster_sequence(clusters_of(assignments, centroids, k)).len() ==> {
                let i = #[trigger] cluster_sequence(clusters_of(assignments, centroids, k))[j];
                i < assignments.len() && assignments[i as int] < k
            },
    decreases k,
{
    if k > 0 {
        lemma_sequence(assignments, centroids, (k - 1) as nat);
        lemma_members(assignments, k - 1);
        lemma_members_grow(assignments, k - 1);
        let all = clusters_of(assignments, centroids, k);
        let front = clusters_of(assignments, centroids, (k - 1) as nat);
        let own = members(assignments, k - 1);
        let before = cluster_sequence(front);
        let after = cluster_sequence(all);
        if own.len() > 0 {
            assert(all.drop_last() =~= front);
            assert(after == before + own);
        } else {
            assert(after == before);
        }
        assert forall|j: int| 0 <= j < after.len() implies {
            let i = #[trigger] after[j];
            i < assignments.len() && assignments[i as int] < k
        } by {
            if j < before.len() {
                assert(after[j] == before[j]);
            } else {
                assert(after[j] == own[j - before.len()]);
            }
        }
        assert forall|i: int, j: int|
            0 <= i < after.len() && 0 <= j < after.len() && i != j implies after[i] != after[j] by {
            let n = before.len();
            if i < n && j < n {
                assert(before[i] != before[j]);
            } else if i >= n && j >= n {
                assert(own[i - n] != own[j - n]);
            } else if i < n {
                assert(assignments[before[i] as int] < k - 1);
                assert(assignments[own[j - n] as int] == k - 1);
            } else {
                assert(assignments[before[j] as int] < k - 1);
                assert(assignments[own[i - n] as int] == k - 1);
            }
        }
    }
}

proof fn lemma_members_grow(assignments: Seq<usize>, c: int)
    requires
        assignments.len() <= usize::MAX,
    ensures
        forall|i: int, j: int|
            0 <= i < j < members(assignments, c).len() ==> (#[trigger] members(assignments, c)[i])
                < (#[trigger] members(assignments, c)[j]),
    decreases assignments.len(),
{
    if assignments.len() > 0 {
        let front = assignments.drop_last();
        lemma_members_grow(front, c);
        lemma_members(front, c);
        let all = members(assignments, c);
        let some = members(front, c);
        assert forall|i: int, j: int| 0 <= i < j < all.len() implies (#[trigger] all[i]) < (
        #[trigger] all[j]) by {
            assert(all[i] == some[i]);
            if j < some.len() {
                assert(all[j] == some[j]);
            } else {
                assert(all[j] == (assignments.len() - 1) as usize);
            }
        }
    }
}

/// Builds an index from vectors that are clustered first.
pub struct BatchBuilder;

/// An index in which nothing was inserted yet.
pub open spec fn fresh_index(
    empty: HNSWIndex<HNSWStorage>,
    dim: nat,
    params: HNSWParams,
    distance_fn: Metric,
) -> bool {
    &&& empty.wf()
    &&& empty.storage.node_count() == 0
    &&& empty.storage.dim() == dim
    &&& empty.entry_point is None
    &&& empty.params == params
    &&& empty.distance_fn == distance_fn
    &&& empty.rng_state == params.seed
}

/// What came of inserting vectors in an order into a new index.
pub open spec fn built_from<M: Fn(&[u32], &[u32]) -> u32, L: Fn(u32) -> u8>(
    r: Result<HNSWIndex<HNSWStorage>>,
    dim: nat,
    params: HNSWParams,
    distance_fn: Metric,
    metric: M,
    level_source: L,
    order: Seq<Seq<u32>>,
) -> bool {
    exists|empty: HNSWIndex<HNSWStorage>, after: HNSWIndex<HNSWStorage>, done: Result<()>|
        {
            &&& fresh_index(empty, dim, params, distance_fn)
            &&& #[trigger] batch_inserted(empty, after, metric, level_source, order, done)
            &&& match r {
                Ok(index) => done is Ok && index == after,
                Err(e) => done == Err::<(), HNSWError>(e),
            }
        }
}

/// The length of the first of some vectors, 0 if there is none.
pub open spec fn dimensions_of(vectors: Seq<Seq<u32>>) -> nat {
    if vectors.len() == 0 { 0 } else { vectors[0].len() }
}

/// Nodes in SQ8 mode for a batch of vectors fit the machine.
pub open spec fn coded_batch_fits(dim: nat, params: HNSWParams, n: nat) -> bool {
    &&& node_params_fit(dim, params.m as nat)
    &&& n <= u32::MAX
    &&& (2 * n + FIRST_CAPACITY) * round_up(raw_node_size(dim, params.m as nat, true))
        <= usize::MAX
}

/// What came of inserting vectors in turn into a new index in SQ8 mode.
pub open spec fn coded_from<M: Fn(&[u32], &[u32]) -> u32, L: Fn(u32) -> u8, C: Coder>(
    index: HNSWIndex<NodeStorage>,
    dim: nat,
    params: HNSWParams,
    distance_fn: Metric,
    metric: M,
    level_source: L,
    coder: C,
    vectors: Seq<Seq<u32>>,
) -> bool {
    exists|steps: Seq<HNSWIndex<NodeStorage>>|
        {
            &&& #[trigger] vectors_in_turn(steps, metric, level_source, coder, vectors)
            &&& steps[0].storage.created(dim as usize, params.m, params.max_level as usize, true)
            &&& steps[0].entry_point is None
            &&& steps[0].params == params
            &&& steps[0].distance_fn == distance_fn
            &&& steps[0].rng_state == params.seed
            &&& steps.last() == index
        }
}

proof fn lemma_steps_grow<M: Fn(&[u32], &[u32]) -> u32, L: Fn(u32) -> u8, C: Coder>(
    steps: Seq<HNSWIndex<NodeStorage>>,
    metric: M,
    level_source: L,
    coder: C,
    vectors: Seq<Seq<u32>>,
    n: int,
)
    requires
        vectors_in_turn(steps, metric, level_source, coder, vectors),
        0 <= n <= vectors.len(),
    ensures
        steps[n].storage.len == steps[0].storage.len + n,
    decreases n,
{
    if n > 0 {
        lemma_steps_grow(steps, metric, level_source, coder, vectors, n - 1);
        assert(vector_step(
            steps[n - 1],
            steps[n - 1 + 1],
            metric,
            level_source,
            coder,
            vectors[n - 1],
        ));
    }
}

fn count_clusters(threads: usize, n: usize) -> (k: usize)
    ensures
        k == cluster_count(threads as int, n as int),
{
    let most: usize = n / 100;
    let wanted: usize = if threads <= most / 4 { threads * 4 } else { most };
    if wanted >= 2 { wanted } else { 2 }
}

impl BatchBuilder {
    /// Inserts vectors in turn into a new index.
    pub(crate) fn build_sequential<M: Fn(&[u32], &[u32]) -> u32, L: Fn(u32) -> u8>(
        vectors: &Vec<&[u32]>,
        dimensions: usize,
        params: HNSWParams,
        distance_fn: Metric,
        metric: &M,
        level_source: &L,
    ) -> (r: Result<HNSWIndex<HNSWStorage>>)
        requires
            batch_fits(dimensions as nat, params, vectors@.len()),
            metric_ok(*metric),
            level_source_ok(*level_source),
        ensures
            r is Ok <==> forall|i: int|
                0 <= i < vectors@.len() ==> acceptable(
                    (#[trigger] vectors@[i])@,
                    dimensions as nat,
                ),
            built_from(
                r,
                dimensions as nat,
                params,
                distance_fn,
                *metric,
                *level_source,
                components(vectors@),
            ),
    {
        let mut index: HNSWIndex<HNSWStorage> = HNSWIndex::new(dimensions, params, distance_fn);
        let ghost empty = index;
        let slots: Vec<u32> = Vec::new();
        let done: Result<()> = index.insert_batch_parallel_from_refs(
            vectors,
            slots.as_slice(),
            metric,
            level_source,
        );
        proof {
            assert(fresh_index(empty, dimensions as nat, params, distance_fn));
            assert(batch_inserted(
                empty,
                index,
                *metric,
                *level_source,
                components(vectors@),
                done,
            ));
        }
        match done {
            Ok(_) => Ok(index),
            Err(e) => Err(e),
        }
    }

    /// Builds an index that holds its vectors in SQ8 mode, inserting them in
    /// turn.
    pub fn build_quantized<M: Fn(&[u32], &[u32]) -> u32, L: Fn(u32) -> u8, C: Coder>(
        vectors: &Vec<Vec<u32>>,
        params: HNSWParams,
        distance_fn: Metric,
        metric: &M,
        level_source: &L,
        coder: &C,
    ) -> (r: Result<HNSWIndex<NodeStorage>>)
        requires
            metric_ok(*metric),
            level_source_ok(*level_source),
            coded_batch_fits(dimensions_of(views(vectors@)), params, vectors@.len()),
            coder.usable(dimensions_of(views(vectors@))),
        ensures
            r is Ok <==> all_acceptable(views(vectors@), dimensions_of(views(vectors@))),
            r matches Err(e) ==> first_rejected(
                views(vectors@),
                dimensions_of(views(vectors@)),
                e,
            ),
            r matches Ok(index) ==> {
                &&& index.wf()
                &&& index.storage.len == vectors@.len()
                &&& coded_from(
                    index,
                    dimensions_of(views(vectors@)),
                    params,
                    distance_fn,
                    *metric,
                    *level_source,
                    *coder,
                    views(vectors@),
                )
            },
    {
        let dimensions: usize = if vectors.len() == 0 { 0 } else { vectors[0].len() };
        let ghost seen = views(vectors@);
        let mut index: HNSWIndex<NodeStorage> = HNSWIndex::new_coded(
            dimensions,
            params,
            distance_fn,
        );
        let ghost empty = index;
        let done: Result<()> = index.insert_vectors(vectors, metric, level_source, coder);
        proof {
            let (k, steps) = choose|k: int, steps: Seq<HNSWIndex<NodeStorage>>|
                {
                    &&& 0 <= k <= vectors@.len()
                    &&& #[trigger] vectors_in_turn(
                        steps,
                        *metric,
                        *level_source,
                        *coder,
                        seen.take(k),
                    )
                    &&& steps[0] == empty
                    &&& steps.last() == index
                    &&& forall|j: int|
                        0 <= j < k ==> acceptable((#[trigger] vectors@[j])@, dimensions as nat)
                    &&& match done {
                        Ok(_) => k == vectors@.len(),
                        Err(e) => {
                            &&& k < vectors@.len()
                            &&& !acceptable(vectors@[k]@, dimensions as nat)
                            &&& e == rejection(vectors@[k]@, dimensions as nat)
                        },
                    }
                };
            assert forall|j: int| 0 <= j < k implies acceptable(
                #[trigger] seen[j],
                dimensions as nat,
            ) by {
                assert(acceptable(vectors@[j]@, dimensions as nat));
            }
            if done is Ok {
                assert(seen.take(k) =~= seen);
                lemma_steps_grow(steps, *metric, *level_source, *coder, seen, seen.len() as int);
            } else {
                assert(!acceptable(seen[k], dimensions as nat));
            }
        }
        match done {
            Ok(_) => Ok(index),
            Err(e) => Err(e),
        }
    }

    /// Builds an index. A thousand vectors or more are clustered by the
    /// Euclidean distance first, for `num_threads` threads, and then inserted
    /// one cluster after the other.
    pub fn build<
        M: Fn(&[u32], &[u32]) -> u32,
        L: Fn(u32) -> u8,
        D: Fn(&[u32], &[u32]) -> u32,
        A: Fn(&Vec<Vec<u32>>, &Vec<usize>, usize) -> Vec<Vec<u32>>,
    >(
        vectors: &Vec<Vec<u32>>,
        params: HNSWParams,
        distance_fn: Metric,
        num_threads: usize,
        metric: &M,
        level_source: &L,
        euclidean: &D,
        mean: &A,
    ) -> (r: Result<HNSWIndex<HNSWStorage>>)
        requires
            params_fit(params),
            metric_ok(*metric),
            level_source_ok(*level_source),
            vectors@.len() > 0 ==> batch_fits(vectors@[0]@.len(), params, vectors@.len()),
            vectors@.len() >= CLUSTER_THRESHOLD ==> {
                &&& metric_ok(*euclidean)
                &&& mean_ok(*mean, vectors@[0]@.len())
                &&& forall|i: int|
                    0 <= i < vectors@.len() ==> acceptable(
                        (#[trigger] vectors@[i])@,
                        vectors@[0]@.len(),
                    )
            },
        ensures
            r is Ok <==> forall|i: int|
                0 <= i < vectors@.len() ==> acceptable(
                    (#[trigger] vectors@[i])@,
                    vectors@[0]@.len(),
                ),
            vectors@.len() == 0 ==> (r matches Ok(index) && fresh_index(
                index,
                0,
                params,
                distance_fn,
            )),
            vectors@.len() > 0 ==> built_from(
                r,
                vectors@[0]@.len(),
                params,
                distance_fn,
                *metric,
                *level_source,
                build_order(*euclidean, *mean, views(vectors@), num_threads),
            ),
            r matches Ok(index) ==> index.wf() && index.storage.node_count() == vectors@.len(),
    {
        if vectors.len() == 0 {
            return Ok(HNSWIndex::new(0, params, distance_fn));
        }
        let dimensions: usize = vectors[0].len();
        let ghost all = views(vectors@);
        let ghost order = build_order(*euclidean, *mean, all, num_threads);
        let mut refs: Vec<&[u32]> = Vec::new();
        if vectors.len() >= CLUSTER_THRESHOLD {
            proof {
                assert forall|i: int| 0 <= i < all.len() implies (#[trigger] all[i]).len()
                    == dimensions by {
                    assert(acceptable(vectors@[i]@, dimensions as nat));
                }
            }
            let k: usize = count_clusters(num_threads, vectors.len());
            let clusters: Vec<Cluster> = kmeans_cluster(
                vectors,
                k,
                CLUSTER_ROUNDS,
                euclidean,
                mean,
            );
            if clusters.len() > 1 {
                let ghost given = cluster_views(clusters@);
                assert(order == picked(all, cluster_sequence(given)));
                let mut c: usize = 0;
                assert(given.take(0) =~= Seq::<(Seq<usize>, Seq<u32>)>::empty());
                assert(components(refs@) =~= picked(all, cluster_sequence(given.take(0))));
                while c < clusters.len()
                    invariant
                        c <= clusters@.len(),
                        all == views(vectors@),
                        given == cluster_views(clusters@),
                        forall|c: int, j: int|
                            0 <= c < clusters@.len() && 0 <= j < clusters@[c].indices@.len()
                                ==> #[trigger] clusters@[c].indices@[j] < vectors@.len(),
                        components(refs@) == picked(all, cluster_sequence(given.take(c as int))),
                    decreases clusters.len() - c,
                {
                    let ghost before = cluster_sequence(given.take(c as int));
                    let ghost own = clusters@[c as int].indices@;
                    let mut j: usize = 0;
                    assert(before + own.take(0) =~= before);
                    while j < clusters[c].indices.len()
                        invariant
                            c < clusters@.len(),
                            j <= own.len(),
                            own == clusters@[c as int].indices@,
                            all == views(vectors@),
                            forall|j: int| 0 <= j < own.len() ==> #[trigger] own[j] < vectors@.len(),
                            components(refs@) == picked(all, before + own.take(j as int)),
                        decreases own.len() - j,
                    {
                        let ghost held = refs@;
                        let index: usize = clusters[c].indices[j];
                        assert(index == own[j as int]);
                        refs.push(vectors[index].as_slice());
                        proof {
                            let longer = before + own.take(j + 1);
                            assert(longer =~= (before + own.take(j as int)).push(index));
                            assert(picked(all, longer) =~= picked(
                                all,
                                before + own.take(j as int),
                            ).push(all[index as int]));
                            assert(components(refs@) =~= components(held).push(all[index as int]));
                        }
                        j += 1;
                    }
                    proof {
                        assert(own.take(j as int) =~= own);
                        let longer = given.take(c + 1);
                        assert(longer.drop_last() =~= given.take(c as int));
                        assert(longer.last().0 == own);
                    }
                    c += 1;
                }
                proof {
                    assert(given.take(c as int) =~= given);
                    lemma_total_is_length(given);
                    assert(components(refs@).len() == all.len());
                    assert(components(refs@) == order);
                    lemma_in_range(clusters@, vectors@.len());
                    assert forall|i: int| 0 <= i < refs@.len() implies acceptable(
                        (#[trigger] refs@[i])@,
                        dimensions as nat,
                    ) by {
                        let place = cluster_sequence(given)[i];
                        assert(components(refs@)[i] == all[place as int]);
                        assert(acceptable(vectors@[place as int]@, dimensions as nat));
                    }
                }
                let r: Result<HNSWIndex<HNSWStorage>> = Self::build_sequential(
                    &refs,
                    dimensions,
                    params,
                    distance_fn,
                    metric,
                    level_source,
                );
                proof {
                    lemma_built_count(
                        r,
                        dimensions as nat,
                        params,
                        distance_fn,
                        *metric,
                        *level_source,
                        order,
                    );
                }
                return r;
            }
        }
        let mut i: usize = 0;
        while i < vectors.len()
            invariant
                i <= vectors@.len(),
                refs@.len() == i,
                forall|j: int| 0 <= j < i ==> (#[trigger] refs@[j])@ == vectors@[j]@,
            decreases vectors.len() - i,
        {
            refs.push(vectors[i].as_slice());
            i += 1;
        }
        proof {
            assert(components(refs@) =~= all);
            assert(order == all);
        }
        let r: Result<HNSWIndex<HNSWStorage>> = Self::build_sequential(
            &refs,
            dimensions,
            params,
            distance_fn,
            metric,
            level_source,
        );
        proof {
            assert forall|i: int| 0 <= i < vectors@.len() implies acceptable(
                (#[trigger] vectors@[i])@,
                dimensions as nat,
            ) == acceptable(refs@[i]@, dimensions as nat) by {
                assert(refs@[i]@ == vectors@[i]@);
            }
            if r is Ok {
                assert forall|i: int| 0 <= i < vectors@.len() implies acceptable(
                    (#[trigger] vectors@[i])@,
                    dimensions as nat,
                ) by {
                    assert(acceptable(refs@[i]@, dimensions as nat));
                }
            }
            lemma_built_count(
                r,
                dimensions as nat,
                params,
                distance_fn,
                *metric,
                *level_source,
                order,
            );
        }
        r
    }
}

proof fn lemma_total_is_length(clusters: Seq<(Seq<usize>, Seq<u32>)>)
    ensures
        cluster_sequence(clusters).len() == cluster_total(clusters),
    decreases clusters.len(),
{
    if clusters.len() > 0 {
        lemma_total_is_length(clusters.drop_last());
    }
}

proof fn lemma_in_range(clusters: Seq<Cluster>, n: nat)
    requires
        forall|c: int, j: int|
            0 <= c < clusters.len() && 0 <= j < clusters[c].indices@.len()
                ==> #[trigger] clusters[c].indices@[j] < n,
    ensures
        forall|i: int|
            0 <= i < cluster_sequence(cluster_views(clusters)).len()
                ==> #[trigger] cluster_sequence(cluster_views(clusters))[i] < n,
    decreases clusters.len(),
{
    if clusters.len() > 0 {
        let front = clusters.drop_last();
        assert forall|c: int, j: int|
            0 <= c < front.len() && 0 <= j < front[c].indices@.len() implies #[trigger] front[c].indices@[j]
            < n by {
            assert(clusters[c].indices@[j] < n);
        }
        lemma_in_range(front, n);
        let all = cluster_views(clusters);
        assert(all.drop_last() =~= cluster_views(front));
        let before = cluster_sequence(cluster_views(front));
        let last = clusters.len() - 1;
        assert forall|i: int| 0 <= i < cluster_sequence(all).len() implies #[trigger] cluster_sequence(
            all,
        )[i] < n by {
            if i < before.len() {
                assert(cluster_sequence(all)[i] == before[i]);
            } else {
                assert(cluster_sequence(all)[i] == clusters[last].indices@[i - before.len()]);
            }
        }
    }
}

/// An index that was built has a node for each vector.
proof fn lemma_built_count<M: Fn(&[u32], &[u32]) -> u32, L: Fn(u32) -> u8>(
    r: Result<HNSWIndex<HNSWStorage>>,
    dim: nat,
    params: HNSWParams,
    distance_fn: Metric,
    metric: M,
    level_source: L,
    order: Seq<Seq<u32>>,
)
    requires
        built_from(r, dim, params, distance_fn, metric, level_source, order),
        order.len() <= u32::MAX,
    ensures
        r matches Ok(index) ==> index.wf() && index.storage.node_count() == order.len(),
{
    let (empty, after, done) = choose|
        empty: HNSWIndex<HNSWStorage>,
        after: HNSWIndex<HNSWStorage>,
        done: Result<()>,
    |
        {
            &&& fresh_index(empty, dim, params, distance_fn)
            &&& #[trigger] batch_inserted(empty, after, metric, level_source, order, done)
            &&& match r {
                Ok(index) => done is Ok && index == after,
                Err(e) => done == Err::<(), HNSWError>(e),
            }
        };
    if r is Ok {
        let (k, steps) = choose|k: int, steps: Seq<HNSWIndex<HNSWStorage>>|
            {
                &&& 0 <= k <= order.len()
                &&& #[trigger] inserted_in_turn(steps, metric, level_source, order.take(k))
                &&& steps[0] == empty
                &&& steps.last() == after
                &&& match done {
                    Ok(_) => k == order.len(),
                    Err(e) => {
                        &&& k < order.len()
                        &&& !acceptable(order[k], empty.storage.dim())
                        &&& e == rejection(order[k], empty.storage.dim())
                    },
                }
            };
        law_batch_keeps_order(steps, metric, level_source, order.take(k));
    }
}

} // verus!
