//! What clustering is for: centroids far apart, and every vector with the
//! nearest of them.

use vstd::prelude::*;

use crate::batch_builder::{
    assigned, build_order, cluster_count, cluster_sequence, clustered, clusters_of, distances_to,
    farthest, first_centroids, first_least, law_cluster_sequence, law_first_least, least_of, means,
    members, rounds_done, taken, CLUSTER_ROUNDS, GREATEST,
    SAME_PLACE,
};
use crate::distance::{float_lt, is_finite, metric_value, rank};

verus! {

/// All distances between the vectors are finite.
pub open spec fn finite_apart<M: Fn(&[u32], &[u32]) -> u32>(
    metric: M,
    vectors: Seq<Seq<u32>>,
) -> bool {
    forall|i: int, j: int|
        0 <= i < vectors.len() && 0 <= j < vectors.len() ==> is_finite(
            #[trigger] metric_value(metric, vectors[i], vectors[j]),
        )
}

/// A vector lies apart from all centroids: none is as near as 1e-10.
pub open spec fn apart<M: Fn(&[u32], &[u32]) -> u32>(
    metric: M,
    v: Seq<u32>,
    centroids: Seq<Seq<u32>>,
) -> bool {
    forall|j: int|
        0 <= j < centroids.len() ==> !float_lt(
            #[trigger] metric_value(metric, v, centroids[j]),
            SAME_PLACE,
        ) && float_lt(0, metric_value(metric, v, centroids[j]))
}

/// A vector is at least as far from all centroids as another one is from one of
/// them.
pub open spec fn as_far<M: Fn(&[u32], &[u32]) -> u32>(
    metric: M,
    v: Seq<u32>,
    other: Seq<u32>,
    centroids: Seq<Seq<u32>>,
) -> bool {
    exists|j: int|
        0 <= j < centroids.len() && forall|l: int|
            0 <= l < centroids.len() ==> !float_lt(
                #[trigger] metric_value(metric, v, centroids[l]),
                #[trigger] metric_value(metric, other, centroids[j]),
            )
}

/// One of the vectors is chosen next to some centroids: if there are vectors
/// apart from them, one of those that is as far from them as any.
pub open spec fn chosen_next<M: Fn(&[u32], &[u32]) -> u32>(
    metric: M,
    vectors: Seq<Seq<u32>>,
    centroids: Seq<Seq<u32>>,
    b: int,
) -> bool {
    &&& 0 <= b < vectors.len()
    &&& forall|i: int|
        0 <= i < vectors.len() && #[trigger] apart(metric, vectors[i], centroids) ==> apart(
            metric,
            vectors[b],
            centroids,
        ) && as_far(metric, vectors[b], vectors[i], centroids)
}

proof fn lemma_least(distances: Seq<u32>)
    requires
        forall|j: int| 0 <= j < distances.len() ==> is_finite(#[trigger] distances[j]),
    ensures
        is_finite(least_of(distances)),
        forall|j: int|
            0 <= j < distances.len() ==> !float_lt(#[trigger] distances[j], least_of(distances)),
        distances.len() > 0 ==> exists|j: int|
            0 <= j < distances.len() && !float_lt(least_of(distances), #[trigger] distances[j]),
        least_of(distances) == GREATEST || exists|j: int|
            0 <= j < distances.len() && least_of(distances) == #[trigger] distances[j],
    decreases distances.len(),
{
    if distances.len() > 0 {
        let front = distances.drop_last();
        let n = front.len() as int;
        assert forall|j: int| 0 <= j < front.len() implies is_finite(#[trigger] front[j]) by {
            assert(is_finite(distances[j]));
        }
        lemma_least(front);
        let least = least_of(distances);
        assert(is_finite(distances[n]));
        assert forall|j: int| 0 <= j < distances.len() implies !float_lt(
            #[trigger] distances[j],
            least,
        ) by {
            assert(is_finite(distances[j]));
            if j < n {
                assert(!float_lt(front[j], least_of(front)));
            }
        }
        if float_lt(distances[n], least_of(front)) {
            assert(!float_lt(least, distances[n]));
        } else if front.len() > 0 {
            let j = choose|j: int|
                0 <= j < front.len() && !float_lt(least_of(front), #[trigger] front[j]);
            assert(!float_lt(least, distances[j]));
            if least != GREATEST {
                let l = choose|l: int|
                    0 <= l < front.len() && least_of(front) == #[trigger] front[l];
                assert(distances[l] == least);
            }
        } else {
            assert(!float_lt(least, distances[n]));
        }
    }
}

/// What the search for the farthest vector has come to.
spec fn farthest_of<M: Fn(&[u32], &[u32]) -> u32>(
    metric: M,
    vectors: Seq<Seq<u32>>,
    centroids: Seq<Seq<u32>>,
    n: int,
    best: (int, u32),
) -> bool {
    let gap = |i: int| least_of(distances_to(metric, vectors[i], centroids));
    let free = |i: int|
        !taken(distances_to(metric, vectors[i], centroids)) && float_lt(0, gap(i));
    &&& 0 <= best.0
    &&& best.0 < n || best.0 == 0
    &&& is_finite(best.1)
    &&& best.1 == 0 || (best.0 < n && free(best.0) && best.1 == gap(best.0))
    &&& forall|i: int|
        0 <= i < n && #[trigger] free(i) ==> best.1 != 0 && !float_lt(best.1, gap(i))
}

proof fn lemma_farthest<M: Fn(&[u32], &[u32]) -> u32>(
    metric: M,
    vectors: Seq<Seq<u32>>,
    centroids: Seq<Seq<u32>>,
    n: nat,
)
    requires
        n <= vectors.len(),
        forall|i: int, j: int|
            0 <= i < vectors.len() && 0 <= j < centroids.len() ==> is_finite(
                #[trigger] metric_value(metric, vectors[i], centroids[j]),
            ),
    ensures
        farthest_of(metric, vectors, centroids, n as int, farthest(metric, vectors, centroids, n)),
    decreases n,
{
    if n > 0 {
        lemma_farthest(metric, vectors, centroids, (n - 1) as nat);
        let ds = distances_to(metric, vectors[n - 1], centroids);
        assert forall|j: int| 0 <= j < ds.len() implies is_finite(#[trigger] ds[j]) by {
            assert(is_finite(metric_value(metric, vectors[n - 1], centroids[j])));
        }
        lemma_least(ds);
        let before = farthest(metric, vectors, centroids, (n - 1) as nat);
        let after = farthest(metric, vectors, centroids, n);
        let gap = |i: int| least_of(distances_to(metric, vectors[i], centroids));
        let free = |i: int|
            !taken(distances_to(metric, vectors[i], centroids)) && float_lt(0, gap(i));
        if after != before {
            assert(float_lt(before.1, gap(n - 1)));
            if before.1 != 0 {
                assert(float_lt(0, before.1));
            }
            assert(free(n - 1));
        }
        assert forall|i: int| 0 <= i < n && #[trigger] free(i) implies after.1 != 0 && !float_lt(
            after.1,
            gap(i),
        ) by {
            if i < n - 1 {
                assert(free(i));
                assert(!float_lt(before.1, gap(i)));
                let di = distances_to(metric, vectors[i], centroids);
                assert forall|j: int| 0 <= j < di.len() implies is_finite(#[trigger] di[j]) by {
                    assert(is_finite(metric_value(metric, vectors[i], centroids[j])));
                }
                lemma_least(di);
            }
        }
    }
}

/// The centroids that clustering starts with are vectors: the first one, and
/// each time one that is as far from those before it as any.
pub proof fn law_centroids_are_spread<M: Fn(&[u32], &[u32]) -> u32>(
    metric: M,
    vectors: Seq<Seq<u32>>,
    k: nat,
) -> (at: Seq<int>)
    requires
        vectors.len() > 0,
        k > 0,
        finite_apart(metric, vectors),
    ensures
        first_centroids(metric, vectors, k).len() == k,
        at.len() == k,
        at[0] == 0,
        forall|j: int|
            0 <= j < k ==> 0 <= #[trigger] at[j] < vectors.len() && first_centroids(
                metric,
                vectors,
                k,
            )[j] == vectors[at[j]],
        forall|j: int|
            0 < j < k ==> #[trigger] chosen_next(
                metric,
                vectors,
                first_centroids(metric, vectors, k).take(j),
                at[j],
            ),
    decreases k,
{
    let all = first_centroids(metric, vectors, k);
    if k <= 1 {
        seq![0int]
    } else {
        let before = law_centroids_are_spread(metric, vectors, (k - 1) as nat);
        let front = first_centroids(metric, vectors, (k - 1) as nat);
        let b = farthest(metric, vectors, front, vectors.len()).0;
        let at = before.push(b);
        assert forall|i: int, j: int|
            0 <= i < vectors.len() && 0 <= j < front.len() implies is_finite(
            #[trigger] metric_value(metric, vectors[i], front[j]),
        ) by {
            assert(front[j] == vectors[before[j]]);
        }
        lemma_farthest(metric, vectors, front, vectors.len());
        assert(chosen_next(metric, vectors, front, b)) by {
            lemma_chosen_next(metric, vectors, front);
        }
        assert(all.take(k - 1) =~= front);
        assert forall|j: int| 0 < j < k implies #[trigger] chosen_next(
            metric,
            vectors,
            all.take(j),
            at[j],
        ) by {
            if j < k - 1 {
                assert(all.take(j) =~= front.take(j));
                assert(chosen_next(metric, vectors, front.take(j), before[j]));
            }
        }
        assert forall|j: int| 0 <= j < k implies 0 <= #[trigger] at[j] < vectors.len() && all[j]
            == vectors[at[j]] by {
            if j < k - 1 {
                assert(at[j] == before[j]);
                assert(all[j] == front[j]);
            }
        }
        at
    }
}

proof fn lemma_chosen_next<M: Fn(&[u32], &[u32]) -> u32>(
    metric: M,
    vectors: Seq<Seq<u32>>,
    centroids: Seq<Seq<u32>>,
)
    requires
        vectors.len() > 0,
        centroids.len() > 0,
        forall|i: int, j: int|
            0 <= i < vectors.len() && 0 <= j < centroids.len() ==> is_finite(
                #[trigger] metric_value(metric, vectors[i], centroids[j]),
            ),
    ensures
        chosen_next(
            metric,
            vectors,
            centroids,
            farthest(metric, vectors, centroids, vectors.len()).0,
        ),
{
    let best = farthest(metric, vectors, centroids, vectors.len());
    let b = best.0;
    lemma_farthest(metric, vectors, centroids, vectors.len());
    let gap = |i: int| least_of(distances_to(metric, vectors[i], centroids));
    let free = |i: int|
        !taken(distances_to(metric, vectors[i], centroids)) && float_lt(0, gap(i));
    assert forall|i: int|
        0 <= i < vectors.len() && #[trigger] apart(metric, vectors[i], centroids) implies apart(
        metric,
        vectors[b],
        centroids,
    ) && as_far(metric, vectors[b], vectors[i], centroids) by {
        let di = distances_to(metric, vectors[i], centroids);
        assert forall|j: int| 0 <= j < di.len() implies is_finite(#[trigger] di[j]) && float_lt(
            0,
            di[j],
        ) && !float_lt(di[j], SAME_PLACE) by {
            assert(is_finite(metric_value(metric, vectors[i], centroids[j])));
        }
        lemma_least(di);
        assert(free(i)) by {
            if gap(i) != GREATEST {
                let j = choose|j: int| 0 <= j < di.len() && least_of(di) == #[trigger] di[j];
                assert(float_lt(0, di[j]));
            }
        }
        assert(best.1 != 0 && !float_lt(best.1, gap(i)));
        let db = distances_to(metric, vectors[b], centroids);
        assert forall|j: int| 0 <= j < db.len() implies is_finite(#[trigger] db[j]) by {
            assert(is_finite(metric_value(metric, vectors[b], centroids[j])));
        }
        lemma_least(db);
        assert(free(b));
        assert forall|j: int| 0 <= j < centroids.len() implies !float_lt(
            #[trigger] metric_value(metric, vectors[b], centroids[j]),
            SAME_PLACE,
        ) && float_lt(0, metric_value(metric, vectors[b], centroids[j])) by {
            assert(db[j] == metric_value(metric, vectors[b], centroids[j]));
            assert(!float_lt(db[j], least_of(db)));
            assert(is_finite(db[j]));
        }
        let j = choose|j: int| 0 <= j < di.len() && !float_lt(least_of(di), #[trigger] di[j]);
        assert(di[j] == metric_value(metric, vectors[i], centroids[j]));
        assert forall|l: int| 0 <= l < centroids.len() implies !float_lt(
            #[trigger] metric_value(metric, vectors[b], centroids[l]),
            metric_value(metric, vectors[i], centroids[j]),
        ) by {
            assert(db[l] == metric_value(metric, vectors[b], centroids[l]));
            assert(!float_lt(db[l], least_of(db)));
            assert(is_finite(db[l]) && is_finite(di[j]));
        }
    }
}

/// Each vector goes with the first of the centroids that are nearest to it.
pub open spec fn with_nearest<M: Fn(&[u32], &[u32]) -> u32>(
    metric: M,
    vectors: Seq<Seq<u32>>,
    around: Seq<Seq<u32>>,
    assignments: Seq<usize>,
) -> bool {
    &&& assignments.len() == vectors.len()
    &&& forall|i: int|
        0 <= i < vectors.len() ==> (#[trigger] assignments[i]) < around.len() && forall|c: int|
            0 <= c < around.len() ==> {
                let own = rank(metric_value(metric, vectors[i], around[assignments[i] as int]));
                let other = rank(metric_value(metric, vectors[i], #[trigger] around[c]));
                own <= other && (c < assignments[i] ==> own < other)
            }
}

proof fn lemma_assigned<M: Fn(&[u32], &[u32]) -> u32>(
    metric: M,
    vectors: Seq<Seq<u32>>,
    around: Seq<Seq<u32>>,
)
    requires
        0 < around.len() <= usize::MAX,
    ensures
        with_nearest(metric, vectors, around, assigned(metric, vectors, around)),
{
    let assignments = assigned(metric, vectors, around);
    assert forall|i: int| 0 <= i < vectors.len() implies (#[trigger] assignments[i]) < around.len()
        && forall|c: int|
        0 <= c < around.len() ==> {
            let own = rank(metric_value(metric, vectors[i], around[assignments[i] as int]));
            let other = rank(metric_value(metric, vectors[i], #[trigger] around[c]));
            own <= other && (c < assignments[i] ==> own < other)
        } by {
        let ds = distances_to(metric, vectors[i], around);
        law_first_least(ds);
        assert forall|c: int| 0 <= c < around.len() implies {
            let own = rank(metric_value(metric, vectors[i], around[assignments[i] as int]));
            let other = rank(metric_value(metric, vectors[i], #[trigger] around[c]));
            own <= other && (c < assignments[i] ==> own < other)
        } by {
            assert(ds[c] == metric_value(metric, vectors[i], around[c]));
        }
    }
}

/// Vectors that are assigned to some clusters have as many means.
pub open spec fn gives_means<A: Fn(&Vec<Vec<u32>>, &Vec<usize>, usize) -> Vec<Vec<u32>>>(
    mean: A,
    vectors: Seq<Seq<u32>>,
) -> bool {
    forall|a: Seq<usize>, n: usize|
        a.len() == vectors.len() && (forall|i: int| 0 <= i < a.len() ==> #[trigger] a[i] < n)
            ==> (#[trigger] means(mean, vectors, a, n)).len() == n
}

proof fn lemma_rounds<
    M: Fn(&[u32], &[u32]) -> u32,
    A: Fn(&Vec<Vec<u32>>, &Vec<usize>, usize) -> Vec<Vec<u32>>,
>(
    metric: M,
    mean: A,
    vectors: Seq<Seq<u32>>,
    k: usize,
    assignments: Seq<usize>,
    centroids: Seq<Seq<u32>>,
    rounds: nat,
) -> (around: Seq<Seq<u32>>)
    requires
        rounds > 0,
        k > 0,
        centroids.len() == k,
        gives_means(mean, vectors),
    ensures
        ({
            let done = rounds_done(metric, mean, vectors, k, assignments, centroids, rounds);
            &&& around.len() == k
            &&& with_nearest(metric, vectors, around, done.0)
            &&& done.1.len() == k
            &&& done.1 == around || done.1 == means(mean, vectors, done.0, k)
        }),
    decreases rounds,
{
    let next = assigned(metric, vectors, centroids);
    lemma_assigned(metric, vectors, centroids);
    if next == assignments || rounds == 1 {
        reveal_with_fuel(rounds_done, 2);
        centroids
    } else {
        lemma_rounds(
            metric,
            mean,
            vectors,
            k,
            next,
            means(mean, vectors, next, k),
            (rounds - 1) as nat,
        )
    }
}

/// One more round goes on from where the rounds before it came to: each vector is
/// assigned to the nearest centroid; if that changes nothing, all stays as it is,
/// and else the centroids move to the means. Without a round nothing changes.
pub proof fn law_one_more_round<
    M: Fn(&[u32], &[u32]) -> u32,
    A: Fn(&Vec<Vec<u32>>, &Vec<usize>, usize) -> Vec<Vec<u32>>,
>(
    metric: M,
    mean: A,
    vectors: Seq<Seq<u32>>,
    k: usize,
    assignments: Seq<usize>,
    centroids: Seq<Seq<u32>>,
    rounds: nat,
) -> (next: Seq<usize>)
    requires
        k > 0,
        centroids.len() == k,
        gives_means(mean, vectors),
    ensures
        rounds_done(metric, mean, vectors, k, assignments, centroids, 0) == (
            assignments,
            centroids,
        ),
        ({
            let before = rounds_done(metric, mean, vectors, k, assignments, centroids, rounds);
            let after = rounds_done(
                metric,
                mean,
                vectors,
                k,
                assignments,
                centroids,
                rounds + 1,
            );
            &&& with_nearest(metric, vectors, before.1, next)
            &&& next == before.0 ==> after == before
            &&& next != before.0 ==> after == (next, means(mean, vectors, next, k))
        }),
    decreases rounds,
{
    let next = assigned(metric, vectors, centroids);
    lemma_assigned(metric, vectors, centroids);
    if rounds == 0 {
        reveal_with_fuel(rounds_done, 2);
        next
    } else if next == assignments {
        next
    } else {
        law_one_more_round(
            metric,
            mean,
            vectors,
            k,
            next,
            means(mean, vectors, next, k),
            (rounds - 1) as nat,
        )
    }
}

/// Clusters hold each vector with the nearest of `k` centroids: the vectors of a
/// cluster are exactly those assigned to it, in their order. Its centroid is
/// that one, or the mean that it moved to. They come of all the rounds that are
/// allowed, from the centroids to start with and no assignment but to the first.
pub proof fn law_clustered<
    M: Fn(&[u32], &[u32]) -> u32,
    A: Fn(&Vec<Vec<u32>>, &Vec<usize>, usize) -> Vec<Vec<u32>>,
>(metric: M, mean: A, vectors: Seq<Seq<u32>>, k: usize, max_iters: nat) -> (r: (
    Seq<usize>,
    Seq<Seq<u32>>,
    Seq<Seq<u32>>,
))
    requires
        0 < vectors.len() <= usize::MAX,
        k > 0,
        max_iters > 0,
        gives_means(mean, vectors),
    ensures
        ({
            let count = if k <= vectors.len() { k as int } else { vectors.len() as int };
            &&& r.1.len() == count
            &&& r.2.len() == count
            &&& with_nearest(metric, vectors, r.1, r.0)
            &&& r.2 == r.1 || r.2 == means(mean, vectors, r.0, count as usize)
            &&& (r.0, r.2) == rounds_done(
                metric,
                mean,
                vectors,
                count as usize,
                Seq::new(vectors.len(), |i: int| 0usize),
                first_centroids(metric, vectors, count as nat),
                max_iters,
            )
            &&& clustered(metric, mean, vectors, k, max_iters) == clusters_of(
                r.0,
                r.2,
                count as nat,
            )
        }),
{
    let count: usize = if k <= vectors.len() { k } else { vectors.len() as usize };
    let first = first_centroids(metric, vectors, count as nat);
    lemma_count(metric, vectors, count as nat);
    let zeros = Seq::new(vectors.len(), |i: int| 0usize);
    let around = lemma_rounds(metric, mean, vectors, count, zeros, first, max_iters);
    let done = rounds_done(metric, mean, vectors, count, zeros, first, max_iters);
    (done.0, around, done.1)
}

proof fn lemma_count<M: Fn(&[u32], &[u32]) -> u32>(metric: M, vectors: Seq<Seq<u32>>, k: nat)
    requires
        k > 0,
    ensures
        first_centroids(metric, vectors, k).len() == k,
    decreases k,
{
    if k > 1 {
        lemma_count(metric, vectors, (k - 1) as nat);
    }
}

/// The clusters of an assignment are, in the order of their numbers, those that
/// have vectors; each holds exactly the vectors assigned to it, in their order.
pub proof fn law_clusters(assignments: Seq<usize>, centroids: Seq<Seq<u32>>, k: nat) -> (
    numbers: Seq<int>)
    requires
        assignments.len() <= usize::MAX,
    ensures
        numbers.len() == clusters_of(assignments, centroids, k).len(),
        forall|i: int, j: int|
            0 <= i < j < numbers.len() ==> #[trigger] numbers[i] < #[trigger] numbers[j],
        forall|i: int|
            0 <= i < numbers.len() ==> 0 <= #[trigger] numbers[i] < k && clusters_of(
                assignments,
                centroids,
                k,
            )[i].1 == centroids[numbers[i]] && lists_members(
                assignments,
                numbers[i],
                clusters_of(assignments, centroids, k)[i].0,
            ),
        forall|i: int|
            0 <= i < assignments.len() && (#[trigger] assignments[i]) < k ==> numbers.contains(
                assignments[i] as int,
            ),
    decreases k,
{
    if k == 0 {
        Seq::empty()
    } else {
        let before = law_clusters(assignments, centroids, (k - 1) as nat);
        let own = members(assignments, k - 1);
        lemma_lists_members(assignments, k - 1);
        if own.len() > 0 {
            let numbers = before.push(k - 1);
            assert forall|i: int|
                0 <= i < assignments.len() && (#[trigger] assignments[i])
                    < k implies numbers.contains(assignments[i] as int) by {
                if assignments[i] < k - 1 {
                    let j = choose|j: int|
                        0 <= j < before.len() && before[j] == assignments[i] as int;
                    assert(numbers[j] == assignments[i] as int);
                } else {
                    assert(numbers[before.len() as int] == assignments[i] as int);
                }
            }
            numbers
        } else {
            assert forall|i: int|
                0 <= i < assignments.len() && (#[trigger] assignments[i])
                    < k implies before.contains(assignments[i] as int) by {
                if assignments[i] == k - 1 {
                    assert(own.contains(i as usize));
                }
            }
            before
        }
    }
}

/// A list names the vectors of a cluster, each once, in their order.
pub open spec fn lists_members(assignments: Seq<usize>, cluster: int, list: Seq<usize>) -> bool {
    &&& forall|i: int, j: int| 0 <= i < j < list.len() ==> #[trigger] list[i] < #[trigger] list[j]
    &&& forall|j: int|
        0 <= j < list.len() ==> (#[trigger] list[j]) < assignments.len()
            && assignments[list[j] as int] == cluster
    &&& forall|i: int|
        0 <= i < assignments.len() && #[trigger] assignments[i] == cluster ==> list.contains(
            i as usize,
        )
}

proof fn lemma_lists_members(assignments: Seq<usize>, cluster: int)
    requires
        assignments.len() <= usize::MAX,
    ensures
        lists_members(assignments, cluster, members(assignments, cluster)),
    decreases assignments.len(),
{
    if assignments.len() > 0 {
        let front = assignments.drop_last();
        let n = front.len() as int;
        lemma_lists_members(front, cluster);
        let some = members(front, cluster);
        let all = members(assignments, cluster);
        assert forall|j: int| 0 <= j < all.len() implies (#[trigger] all[j]) < assignments.len()
            && assignments[all[j] as int] == cluster by {
            if j < some.len() {
                assert(all[j] == some[j]);
                assert(front[some[j] as int] == cluster);
            }
        }
        assert forall|i: int| 0 <= i < assignments.len() && #[trigger] assignments[i]
            == cluster implies all.contains(i as usize) by {
            if i < n {
                assert(front[i] == cluster);
                let j = choose|j: int| 0 <= j < some.len() && some[j] == i as usize;
                assert(all[j] == i as usize);
            } else {
                assert(all[some.len() as int] == n as usize);
            }
        }
    }
}

/// How many clusters are made: four for each thread, as long as that leaves a
/// hundred vectors for each, else as many as leave a hundred; never fewer than
/// two.
pub proof fn law_cluster_count(threads: int, n: int)
    requires
        threads >= 1,
        n >= 0,
    ensures
        cluster_count(threads, n) >= 2,
        cluster_count(threads, n) <= 4 * threads,
        cluster_count(threads, n) > 2 ==> 100 * cluster_count(threads, n) <= n,
        cluster_count(threads, n) == 4 * threads || 100 * (cluster_count(threads, n) + 1) > n,
{
}

/// The order in which vectors are inserted has every vector exactly once; fewer
/// than a thousand stay in the order given.
pub proof fn law_build_order<
    D: Fn(&[u32], &[u32]) -> u32,
    A: Fn(&Vec<Vec<u32>>, &Vec<usize>, usize) -> Vec<Vec<u32>>,
>(euclidean: D, mean: A, vectors: Seq<Seq<u32>>, threads: usize) -> (places: Seq<usize>)
    requires
        0 < vectors.len() <= usize::MAX,
        gives_means(mean, vectors),
    ensures
        vectors.len() < 1000 ==> build_order(euclidean, mean, vectors, threads) == vectors,
        build_order(euclidean, mean, vectors, threads).len() == vectors.len(),
        places.len() == vectors.len(),
        places.no_duplicates(),
        forall|j: int|
            0 <= j < places.len() ==> (#[trigger] places[j]) < vectors.len() && build_order(
                euclidean,
                mean,
                vectors,
                threads,
            )[j] == vectors[places[j] as int],
{
    let n = vectors.len();
    let wanted = cluster_count(threads as int, n as int);
    let k = wanted as usize;
    let order = build_order(euclidean, mean, vectors, threads);
    let clusters = clustered(euclidean, mean, vectors, k, CLUSTER_ROUNDS as nat);
    if n < 1000 || clusters.len() <= 1 {
        let places = Seq::new(n, |i: int| i as usize);
        assert forall|i: int, j: int|
            0 <= i < n && 0 <= j < n && i != j implies places[i] != places[j] by {
            assert(places[i] == i && places[j] == j);
        }
        places
    } else {
        let (assignments, around, centroids) = law_clustered(
            euclidean,
            mean,
            vectors,
            k,
            CLUSTER_ROUNDS as nat,
        );
        let count = if k <= n { k as nat } else { n };
        assert forall|i: int| 0 <= i < assignments.len() implies #[trigger] assignments[i]
            < count by {}
        law_cluster_sequence(assignments, centroids, count);
        cluster_sequence(clusters)
    }
}

} // verus!
