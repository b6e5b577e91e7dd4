//! Traversal of a layered graph.
//!
//! Both ways of looking for near nodes are here: the greedy descent through
//! the upper levels, and the beam search of one level. They work on any
//! storage that tells the vector, the level and the links of a node.

use vstd::prelude::*;

use crate::candidates::{inserted, ordered, sorted, CandidateQueue};
use crate::distance::{float_lt, float_rank, less, measure, metric_ok, metric_value, rank};
use crate::node_storage::quantization::Quantization;
use crate::types::Candidate;
use crate::visited::VisitedList;

verus! {

/// Storage of a layered graph whose nodes carry vectors.
pub trait GraphStore: Sized {
    /// The storage is consistent in itself.
    spec fn store_wf(&self) -> bool;

    /// Number of nodes; their ids are the numbers below it.
    spec fn node_count(&self) -> nat;

    /// Number of components of each vector.
    spec fn dim(&self) -> nat;

    spec fn vector_at(&self, id: u32) -> Seq<u32>;

    /// What is kept to hold vectors as codes.
    spec fn quantization(&self) -> Quantization;

    /// Bytes that each node takes, where it takes a fixed number of them.
    spec fn stride(&self) -> nat;

    /// The highest level on which a node takes part.
    spec fn level_at(&self, id: u32) -> u8;

    spec fn links_at(&self, id: u32, level: u8) -> Seq<u32>;

    /// The number under which a node is known outside.
    spec fn slot_at(&self, id: u32) -> u32;

    /// How many links of a node fit at a level.
    spec fn link_cap(&self, level: u8) -> nat;

    /// Highest level that the storage has room for.
    spec fn top_level(&self) -> nat;

    proof fn lemma_store(&self)
        requires
            self.store_wf(),
        ensures
            forall|id: u32|
                id < self.node_count() ==> #[trigger] self.vector_at(id).len() == self.dim(),
            self.node_count() <= usize::MAX,
            self.node_count() <= u32::MAX + 1,
    ;

    fn count(&self) -> (n: usize)
        requires
            self.store_wf(),
        ensures
            n == self.node_count(),
    ;

    fn vector_dim(&self) -> (n: usize)
        requires
            self.store_wf(),
        ensures
            n == self.dim(),
    ;

    fn vector_of(&self, id: u32) -> (v: Vec<u32>)
        requires
            self.store_wf(),
            id < self.node_count(),
        ensures
            v@ == self.vector_at(id),
    ;

    fn level_of(&self, id: u32) -> (level: u8)
        requires
            self.store_wf(),
            id < self.node_count(),
        ensures
            level == self.level_at(id),
    ;

    fn links_of(&self, id: u32, level: u8) -> (links: Vec<u32>)
        requires
            self.store_wf(),
            id < self.node_count(),
        ensures
            links@ == self.links_at(id, level),
    ;

    fn cap_of(&self, level: u8) -> (n: usize)
        requires
            self.store_wf(),
        ensures
            n == self.link_cap(level),
    ;

    fn top_of(&self) -> (n: usize)
        requires
            self.store_wf(),
        ensures
            n == self.top_level(),
    ;

    /// A level above which a node has no links.
    fn highest_linked(&self, id: u32) -> (n: u8)
        requires
            self.store_wf(),
            id < self.node_count(),
        ensures
            forall|level: u8|
                level > n ==> #[trigger] self.links_at(id, level) == Seq::<u32>::empty(),
    ;

    /// Whether the storage is consistent in itself.
    fn is_consistent(&self) -> (r: bool)
        ensures
            r == self.store_wf(),
    ;

    /// Replaces the links of one node at one level.
    fn set_links(&mut self, id: u32, level: u8, links: &[u32])
        requires
            old(self).store_wf(),
            id < old(self).node_count(),
            level <= old(self).top_level(),
            links@.len() <= old(self).link_cap(level),
        ensures
            final(self).store_wf(),
            final(self).node_count() == old(self).node_count(),
            final(self).dim() == old(self).dim(),
            final(self).top_level() == old(self).top_level(),
            forall|l: u8| #[trigger] final(self).link_cap(l) == old(self).link_cap(l),
            forall|i: u32|
                i < old(self).node_count() ==> #[trigger] final(self).vector_at(i)
                    == old(self).vector_at(i),
            forall|i: u32|
                i < old(self).node_count() ==> #[trigger] final(self).level_at(i)
                    == old(self).level_at(i),
            forall|i: u32|
                i < old(self).node_count() ==> #[trigger] final(self).slot_at(i)
                    == old(self).slot_at(i),
            forall|i: u32, l: u8|
                i < old(self).node_count() ==> #[trigger] final(self).links_at(i, l) == (if i == id
                    && l == level {
                    links@
                } else {
                    old(self).links_at(i, l)
                }),
            final(self).quantization() == old(self).quantization(),
            final(self).stride() == old(self).stride(),
            forall|n: nat| old(self).room(n) ==> #[trigger] final(self).room(n),
    ;

    /// There is room for `n` more nodes.
    spec fn room(&self, n: nat) -> bool;

    proof fn lemma_room(&self, n: nat, fewer: nat)
        requires
            self.store_wf(),
            self.room(n),
            fewer <= n,
        ensures
            self.room(fewer),
            self.node_count() + n <= u32::MAX + 1,
    ;

    /// Adds a node without links, whose slot is its id, and returns the id.
    fn push_node(&mut self, vector: &[u32], level: u8) -> (id: u32)
        requires
            old(self).store_wf(),
            old(self).room(1),
            vector@.len() == old(self).dim(),
        ensures
            final(self).store_wf(),
            id == old(self).node_count(),
            final(self).node_count() == old(self).node_count() + 1,
            final(self).dim() == old(self).dim(),
            final(self).top_level() == old(self).top_level(),
            forall|l: u8| #[trigger] final(self).link_cap(l) == old(self).link_cap(l),
            final(self).vector_at(id) == vector@,
            final(self).level_at(id) == level,
            final(self).slot_at(id) == id,
            forall|i: u32| i < id ==> #[trigger] final(self).vector_at(i) == old(self).vector_at(i),
            forall|i: u32| i < id ==> #[trigger] final(self).level_at(i) == old(self).level_at(i),
            forall|i: u32| i < id ==> #[trigger] final(self).slot_at(i) == old(self).slot_at(i),
            forall|i: u32, l: u8|
                i < id ==> #[trigger] final(self).links_at(i, l) == old(self).links_at(i, l),
            forall|l: u8| #[trigger] final(self).links_at(id, l) == Seq::<u32>::empty(),
            final(self).quantization() == old(self).quantization().with(vector@),
            final(self).stride() == old(self).stride(),
            forall|n: nat| old(self).room(n + 1) ==> #[trigger] final(self).room(n),
    ;
}

/// Two storages hold the same nodes; their links may differ.
pub open spec fn same_nodes<S: GraphStore>(a: S, b: S) -> bool {
    &&& b.node_count() == a.node_count()
    &&& b.dim() == a.dim()
    &&& b.top_level() == a.top_level()
    &&& forall|l: u8| #[trigger] b.link_cap(l) == a.link_cap(l)
    &&& forall|i: u32| i < a.node_count() ==> #[trigger] b.vector_at(i) == a.vector_at(i)
    &&& forall|i: u32| i < a.node_count() ==> #[trigger] b.level_at(i) == a.level_at(i)
    &&& forall|i: u32| i < a.node_count() ==> #[trigger] b.slot_at(i) == a.slot_at(i)
    &&& b.quantization() == a.quantization()
    &&& b.stride() == a.stride()
}

/// At one level, the nodes below `limit` link to nodes below `limit` only.
pub open spec fn links_below<S: GraphStore>(store: S, level: u8, limit: nat) -> bool {
    forall|id: u32, i: int|
        id < limit && 0 <= i < store.links_at(id, level).len() ==> (#[trigger] store.links_at(
            id,
            level,
        )[i]) < limit
}

/// Every link leads to a node.
pub open spec fn links_valid<S: GraphStore>(store: S) -> bool {
    forall|level: u8| #[trigger] links_below(store, level, store.node_count())
}

/// The links of each node at one level.
pub open spec fn link_fn<S: GraphStore>(store: S, level: u8) -> spec_fn(u32) -> Seq<u32> {
    |id: u32|
        if id < store.node_count() {
            store.links_at(id, level)
        } else {
            Seq::empty()
        }
}

/// The distance of each node to a query.
pub open spec fn distance_fn<S: GraphStore, M: Fn(&[u32], &[u32]) -> u32>(
    store: S,
    metric: M,
    query: Seq<u32>,
) -> spec_fn(u32) -> u32 {
    |id: u32|
        if id < store.node_count() {
            metric_value(metric, query, store.vector_at(id))
        } else {
            0
        }
}

/// Measures the distance of a node to a query.
pub fn distance_to<S: GraphStore, M: Fn(&[u32], &[u32]) -> u32>(
    store: &S,
    metric: &M,
    query: &[u32],
    id: u32,
) -> (r: u32)
    requires
        store.store_wf(),
        metric_ok(*metric),
        query@.len() == store.dim(),
        id < store.node_count(),
    ensures
        r == distance_fn(*store, *metric, query@)(id),
{
    proof {
        store.lemma_store();
    }
    let v: Vec<u32> = store.vector_of(id);
    measure(metric, query, v.as_slice())
}

// ---------------------------------------------------------------------------
// Greedy descent
// ---------------------------------------------------------------------------

/// The nearest of `best` and the listed nodes, the first of them that is
/// nearer than all before it.
pub open spec fn scan(d: spec_fn(u32) -> u32, list: Seq<u32>, best: Candidate) -> Candidate
    decreases list.len(),
{
    if list.len() == 0 {
        best
    } else {
        let before = scan(d, list.drop_last(), best);
        let id = list.last();
        if float_lt(d(id), before.distance) {
            Candidate { node_id: id, distance: d(id) }
        } else {
            before
        }
    }
}

proof fn lemma_scan(d: spec_fn(u32) -> u32, list: Seq<u32>, best: Candidate)
    ensures
        scan(d, list, best) == best || float_lt(scan(d, list, best).distance, best.distance),
        scan(d, list, best) == best || list.contains(scan(d, list, best).node_id),
        scan(d, list, best) == best || scan(d, list, best).distance == d(
            scan(d, list, best).node_id,
        ),
        forall|i: int|
            0 <= i < list.len() ==> !float_lt(
                d(#[trigger] list[i]),
                scan(d, list, best).distance,
            ),
    decreases list.len(),
{
    if list.len() > 0 {
        let rest = list.drop_last();
        lemma_scan(d, rest, best);
        let before = scan(d, rest, best);
        if before != best {
            let j = choose|j: int| 0 <= j < rest.len() && rest[j] == before.node_id;
            assert(list[j] == before.node_id);
        }
        assert(list[list.len() - 1] == list.last());
        assert forall|i: int| 0 <= i < list.len() implies !float_lt(
            d(#[trigger] list[i]),
            scan(d, list, best).distance,
        ) by {
            if i < list.len() - 1 {
                assert(rest[i] == list[i]);
            }
        }
    }
}

/// Moves to the nearest linked node for as long as that gets nearer.
pub open spec fn descend(
    links: spec_fn(u32) -> Seq<u32>,
    d: spec_fn(u32) -> u32,
    best: Candidate,
) -> Candidate
    decreases rank(best.distance) + 0x8000_0000,
{
    let next = scan(d, links(best.node_id), best);
    if float_lt(next.distance, best.distance) {
        descend(links, d, next)
    } else {
        best
    }
}

/// Descends on the levels `high`, `high - 1`, ..., `low + 1`, in this order.
pub open spec fn descend_levels<S: GraphStore>(
    store: S,
    d: spec_fn(u32) -> u32,
    best: Candidate,
    high: u8,
    low: u8,
) -> Candidate
    decreases high,
{
    if high <= low {
        best
    } else {
        descend_levels(
            store,
            d,
            descend(link_fn(store, high), d, best),
            (high - 1) as u8,
            low,
        )
    }
}

/// A descent ends where no linked node is nearer, and no farther away than it
/// started.
pub proof fn law_descent_ends_at_local_minimum(
    links: spec_fn(u32) -> Seq<u32>,
    d: spec_fn(u32) -> u32,
    best: Candidate,
)
    ensures
        ({
            let end = descend(links, d, best);
            &&& forall|i: int|
                0 <= i < links(end.node_id).len() ==> !float_lt(
                    d(#[trigger] links(end.node_id)[i]),
                    end.distance,
                )
            &&& rank(end.distance) <= rank(best.distance)
            &&& best.distance == d(best.node_id) ==> end.distance == d(end.node_id)
        }),
    decreases rank(best.distance) + 0x8000_0000,
{
    let next = scan(d, links(best.node_id), best);
    lemma_scan(d, links(best.node_id), best);
    if float_lt(next.distance, best.distance) {
        law_descent_ends_at_local_minimum(links, d, next);
    }
}

/// Walks from `entry` to a nearby node, level by level from `high` down to
/// `low + 1`. Only the nodes below `limit` take part.
pub fn greedy_descent<S: GraphStore, M: Fn(&[u32], &[u32]) -> u32>(
    store: &S,
    metric: &M,
    query: &[u32],
    entry: u32,
    high: u8,
    low: u8,
    limit: usize,
) -> (best: Candidate)
    requires
        store.store_wf(),
        limit <= store.node_count(),
        forall|level: u8| #[trigger] links_below(*store, level, limit as nat),
        metric_ok(*metric),
        query@.len() == store.dim(),
        entry < limit,
    ensures
        best == descend_levels(
            *store,
            distance_fn(*store, *metric, query@),
            Candidate {
                node_id: entry,
                distance: distance_fn(*store, *metric, query@)(entry),
            },
            high,
            low,
        ),
        best.node_id < limit,
        best.distance == distance_fn(*store, *metric, query@)(best.node_id),
{
    let ghost d = distance_fn(*store, *metric, query@);
    let first: u32 = distance_to(store, metric, query, entry);
    let mut best: Candidate = Candidate::new(entry, first);
    let ghost start = best;
    let mut level: u8 = high;
    while level > low
        invariant
            store.store_wf(),
            limit <= store.node_count(),
            forall|level: u8| #[trigger] links_below(*store, level, limit as nat),
            metric_ok(*metric),
            query@.len() == store.dim(),
            d == distance_fn(*store, *metric, query@),
            level <= high,
            best.node_id < limit,
            best.distance == d(best.node_id),
            descend_levels(*store, d, best, level, low) == descend_levels(
                *store,
                d,
                start,
                high,
                low,
            ),
        decreases level,
    {
        let ghost links = link_fn(*store, level);
        let ghost entered = best;
        let mut changed: bool = true;
        while changed
            invariant
                store.store_wf(),
                limit <= store.node_count(),
                forall|level: u8| #[trigger] links_below(*store, level, limit as nat),
                metric_ok(*metric),
                query@.len() == store.dim(),
                d == distance_fn(*store, *metric, query@),
                links == link_fn(*store, level),
                best.node_id < limit,
                best.distance == d(best.node_id),
                changed ==> descend(links, d, best) == descend(links, d, entered),
                !changed ==> best == descend(links, d, entered),
            decreases rank(best.distance) + 0x8000_0000, changed as int,
        {
            changed = false;
            let list: Vec<u32> = store.links_of(best.node_id, level);
            let ghost before = best;
            assert(list@ == links(before.node_id));
            let mut i: usize = 0;
            while i < list.len()
                invariant
                    store.store_wf(),
                    limit <= store.node_count(),
                    forall|level: u8| #[trigger] links_below(*store, level, limit as nat),
                    metric_ok(*metric),
                    query@.len() == store.dim(),
                    d == distance_fn(*store, *metric, query@),
                    links == link_fn(*store, level),
                    before.node_id < limit,
                    list@ == links(before.node_id),
                    list@ == store.links_at(before.node_id, level),
                    i <= list@.len(),
                    best == scan(d, list@.take(i as int), before),
                    changed == float_lt(best.distance, before.distance),
                    !changed ==> best == before,
                    best.node_id < limit,
                    best.distance == d(best.node_id),
                    rank(best.distance) <= rank(before.distance),
                decreases list.len() - i,
            {
                let id: u32 = list[i];
                assert(links_below(*store, level, limit as nat));
                assert(store.links_at(before.node_id, level)[i as int] < limit);
                let dist: u32 = distance_to(store, metric, query, id);
                proof {
                    assert(list@.take(i + 1).drop_last() =~= list@.take(i as int));
                }
                if less(dist, best.distance) {
                    best = Candidate::new(id, dist);
                    changed = true;
                }
                i += 1;
            }
            assert(list@.take(i as int) =~= list@);
        }
        level = level - 1;
    }
    best
}

// ---------------------------------------------------------------------------
// Beam search
// ---------------------------------------------------------------------------

/// A candidate of this node is among those listed.
pub open spec fn holds(s: Seq<Candidate>, id: u32) -> bool {
    exists|i: int| 0 <= i < s.len() && (#[trigger] s[i]).node_id == id
}

/// No node is listed twice.
pub open spec fn distinct(s: Seq<Candidate>) -> bool {
    forall|i: int, j: int|
        0 <= i < s.len() && 0 <= j < s.len() && i != j ==> (#[trigger] s[i]).node_id
            != (#[trigger] s[j]).node_id
}

/// Whether distance `a` counts as nearer than distance `b`: by the float
/// comparison, or by the total order, in which a NaN is far away.
pub open spec fn nearer(raw: bool, a: u32, b: u32) -> bool {
    if raw { float_lt(a, b) } else { rank(a) < rank(b) }
}

/// A set of nodes that holds the starting nodes and, with each node, all nodes
/// that it links to.
pub open spec fn link_closed(
    links: spec_fn(u32) -> Seq<u32>,
    starts: Seq<u32>,
    c: Set<u32>,
) -> bool {
    &&& forall|i: int| 0 <= i < starts.len() ==> c.contains(#[trigger] starts[i])
    &&& forall|id: u32, i: int|
        c.contains(id) && 0 <= i < links(id).len() ==> c.contains(#[trigger] links(id)[i])
}

/// Once the beam is full, a node at distance `dist` cannot improve it.
pub open spec fn no_gain(kept: Seq<Candidate>, ef: nat, raw: bool, dist: u32) -> bool {
    kept.len() >= ef && kept.len() > 0 && !nearer(raw, dist, kept.last().distance)
}

/// A node at distance `a` joins a full beam whose farthest node is at distance
/// `b`: if it is nearer, or with `ties` also if it is just as far.
pub open spec fn joins(raw: bool, ties: bool, a: u32, b: u32) -> bool {
    nearer(raw, a, b) || (ties && rank(a) == rank(b))
}

/// The beam is full, and a node at distance `dist` does not join it.
pub open spec fn passed_over(
    kept: Seq<Candidate>,
    ef: nat,
    raw: bool,
    ties: bool,
    dist: u32,
) -> bool {
    kept.len() >= ef && kept.len() > 0 && !joins(raw, ties, dist, kept.last().distance)
}

/// A node with its distance.
pub open spec fn candidate_of(d: spec_fn(u32) -> u32, id: u32) -> Candidate {
    Candidate { node_id: id, distance: d(id) }
}

/// The nodes that have been looked at when the links of the nodes `followed`
/// have been followed: the starting nodes, and all nodes linked from those.
pub open spec fn reached(
    links: spec_fn(u32) -> Seq<u32>,
    starts: Seq<u32>,
    followed: Seq<u32>,
) -> Set<u32> {
    Set::new(
        |id: u32|
            starts.contains(id) || exists|i: int|
                0 <= i < followed.len() && links(#[trigger] followed[i]).contains(id),
    )
}

/// `kept` is what a beam of width `ef` holds of the nodes `seen`: the nearest
/// of them, nearest first. The starting nodes are taken in even where they are
/// more than the beam is wide.
pub open spec fn beam_of(
    d: spec_fn(u32) -> u32,
    starts: Seq<u32>,
    ef: nat,
    raw: bool,
    seen: Set<u32>,
    kept: Seq<Candidate>,
) -> bool {
    &&& sorted(kept)
    &&& distinct(kept)
    &&& kept.len() <= ef || kept.len() <= starts.len()
    &&& forall|i: int|
        0 <= i < kept.len() ==> seen.contains((#[trigger] kept[i]).node_id) && kept[i].distance
            == d(kept[i].node_id)
    &&& forall|id: u32| #[trigger]
        seen.contains(id) ==> holds(kept, id) || no_gain(kept, ef, raw, d(id))
}

/// After the nodes `followed`, the search goes on with the links of `id`: of
/// the nodes it has looked at and not followed, this one is the nearest, apart
/// from those that do not join a full beam, and it is no farther away than the
/// farthest node of a full beam.
pub open spec fn follows_next(
    links: spec_fn(u32) -> Seq<u32>,
    d: spec_fn(u32) -> u32,
    starts: Seq<u32>,
    ef: nat,
    raw: bool,
    ties: bool,
    followed: Seq<u32>,
    id: u32,
) -> bool {
    let seen = reached(links, starts, followed);
    &&& seen.contains(id)
    &&& !followed.contains(id)
    &&& exists|kept: Seq<Candidate>|
        {
            &&& #[trigger] beam_of(d, starts, ef, raw, seen, kept)
            &&& kept.len() >= ef ==> rank(d(id)) <= kept.last().rank()
            &&& forall|x: u32| #[trigger]
                seen.contains(x) && !followed.contains(x) ==> ordered(
                    candidate_of(d, id),
                    candidate_of(d, x),
                ) || passed_over(kept, ef, raw, ties, d(x))
        }
}

/// The order in which a beam search follows the links of nodes.
pub open spec fn search_path(
    links: spec_fn(u32) -> Seq<u32>,
    d: spec_fn(u32) -> u32,
    starts: Seq<u32>,
    ef: nat,
    raw: bool,
    ties: bool,
    followed: Seq<u32>,
) -> bool {
    forall|i: int|
        0 <= i < followed.len() ==> follows_next(
            links,
            d,
            starts,
            ef,
            raw,
            ties,
            followed.take(i),
            #[trigger] followed[i],
        )
}

/// A beam search at work.
#[verifier::ext_equal]
pub struct Beam {
    /// The nodes that it has looked at.
    pub seen: Set<u32>,
    /// Those whose links are still to be followed, nearest first.
    pub open: Seq<Candidate>,
    /// Those that it keeps, nearest first.
    pub kept: Seq<Candidate>,
    /// What is left of the links that it is following.
    pub pending: Seq<u32>,
}

/// All nodes of a set with their distances, nearest first.
pub open spec fn lists(s: Seq<Candidate>, d: spec_fn(u32) -> u32, nodes: Set<u32>) -> bool {
    &&& sorted(s)
    &&& distinct(s)
    &&& forall|i: int|
        0 <= i < s.len() ==> nodes.contains((#[trigger] s[i]).node_id) && s[i].distance == d(
            s[i].node_id,
        )
    &&& forall|id: u32| #[trigger] nodes.contains(id) ==> holds(s, id)
}

/// A search begins with the starting nodes.
pub open spec fn beam_begins(d: spec_fn(u32) -> u32, starts: Seq<u32>, beam: Beam) -> bool {
    &&& forall|id: u32| #[trigger] beam.seen.contains(id) <==> starts.contains(id)
    &&& lists(beam.open, d, beam.seen)
    &&& lists(beam.kept, d, beam.seen)
    &&& beam.pending.len() == 0
}

/// What a beam of width `ef` is after a node was put on it: if it is too wide,
/// the farthest node leaves.
pub open spec fn beam_takes(
    before: Seq<Candidate>,
    c: Candidate,
    ef: nat,
    after: Seq<Candidate>,
) -> bool {
    exists|all: Seq<Candidate>|
        {
            &&& #[trigger] inserted(before, c, all)
            &&& sorted(all)
            &&& after == (if all.len() > ef { all.drop_last() } else { all })
        }
}

/// The search looks at the first of the links that it is following. A node that
/// it sees for the first time goes on the beam, and its links are to be
/// followed, unless the beam is full and the node does not join it.
pub open spec fn beam_looks(
    d: spec_fn(u32) -> u32,
    ef: nat,
    raw: bool,
    ties: bool,
    before: Beam,
    after: Beam,
) -> bool {
    let c = candidate_of(d, before.pending[0]);
    &&& after.pending == before.pending.drop_first()
    &&& after.seen == before.seen.insert(c.node_id)
    &&& if before.seen.contains(c.node_id) || passed_over(
        before.kept,
        ef,
        raw,
        ties,
        c.distance,
    ) {
        &&& after.open == before.open
        &&& after.kept == before.kept
    } else {
        &&& inserted(before.open, c, after.open)
        &&& sorted(after.open)
        &&& beam_takes(before.kept, c, ef, after.kept)
    }
}

/// The search is over: no links are left to be followed, or only those of nodes
/// that are farther away than all of a full beam.
pub open spec fn beam_ends(ef: nat, beam: Beam) -> bool {
    &&& beam.pending.len() == 0
    &&& beam.open.len() == 0 || (beam.kept.len() >= ef && beam.kept.len() > 0
        && beam.open[0].rank() > beam.kept.last().rank())
}

/// One step of a search: it looks at the next of the links that it is
/// following, or goes on with the links of the nearest node.
pub open spec fn beam_steps(
    links: spec_fn(u32) -> Seq<u32>,
    d: spec_fn(u32) -> u32,
    ef: nat,
    raw: bool,
    ties: bool,
    before: Beam,
    after: Beam,
) -> bool {
    if before.pending.len() > 0 {
        beam_looks(d, ef, raw, ties, before, after)
    } else {
        &&& !beam_ends(ef, before)
        &&& after == (Beam {
            open: before.open.drop_first(),
            pending: links(before.open[0].node_id),
            ..before
        })
    }
}

/// The states that a search goes through.
pub open spec fn beam_history(
    links: spec_fn(u32) -> Seq<u32>,
    d: spec_fn(u32) -> u32,
    starts: Seq<u32>,
    ef: nat,
    raw: bool,
    ties: bool,
    states: Seq<Beam>,
) -> bool {
    &&& states.len() > 0
    &&& beam_begins(d, starts, states[0])
    &&& forall|i: int|
        0 <= i < states.len() - 1 ==> beam_steps(
            links,
            d,
            ef,
            raw,
            ties,
            #[trigger] states[i],
            states[i + 1],
        )
}

/// A search comes to this state.
#[verifier::opaque]
pub open spec fn beam_comes_to(
    links: spec_fn(u32) -> Seq<u32>,
    d: spec_fn(u32) -> u32,
    starts: Seq<u32>,
    ef: nat,
    raw: bool,
    ties: bool,
    beam: Beam,
) -> bool {
    exists|states: Seq<Beam>|
        {
            &&& #[trigger] beam_history(links, d, starts, ef, raw, ties, states)
            &&& states.last() == beam
        }
}

proof fn lemma_begin(
    links: spec_fn(u32) -> Seq<u32>,
    d: spec_fn(u32) -> u32,
    starts: Seq<u32>,
    ef: nat,
    raw: bool,
    ties: bool,
    beam: Beam,
)
    requires
        beam_begins(d, starts, beam),
    ensures
        beam_comes_to(links, d, starts, ef, raw, ties, beam),
{
    reveal(beam_comes_to);
    let states = seq![beam];
    assert(beam_history(links, d, starts, ef, raw, ties, states));
}

proof fn lemma_step(
    links: spec_fn(u32) -> Seq<u32>,
    d: spec_fn(u32) -> u32,
    starts: Seq<u32>,
    ef: nat,
    raw: bool,
    ties: bool,
    before: Beam,
    after: Beam,
)
    requires
        beam_comes_to(links, d, starts, ef, raw, ties, before),
        beam_steps(links, d, ef, raw, ties, before, after),
    ensures
        beam_comes_to(links, d, starts, ef, raw, ties, after),
{
    reveal(beam_comes_to);
    let states = choose|states: Seq<Beam>|
        {
            &&& #[trigger] beam_history(links, d, starts, ef, raw, ties, states)
            &&& states.last() == before
        };
    let longer = states.push(after);
    assert forall|i: int| 0 <= i < longer.len() - 1 implies beam_steps(
        links,
        d,
        ef,
        raw,
        ties,
        #[trigger] longer[i],
        longer[i + 1],
    ) by {
        assert(longer[i] == states[i]);
        if i < states.len() - 1 {
            assert(longer[i + 1] == states[i + 1]);
        }
    }
    assert(longer[0] == states[0]);
    assert(beam_history(links, d, starts, ef, raw, ties, longer));
}

proof fn lemma_joins(
    links: spec_fn(u32) -> Seq<u32>,
    d: spec_fn(u32) -> u32,
    starts: Seq<u32>,
    ef: nat,
    raw: bool,
    ties: bool,
    before: Beam,
    after: Beam,
    all: Seq<Candidate>,
)
    requires
        beam_comes_to(links, d, starts, ef, raw, ties, before),
        before.pending.len() > 0,
        !before.seen.contains(before.pending[0]),
        !passed_over(before.kept, ef, raw, ties, d(before.pending[0])),
        inserted(before.open, candidate_of(d, before.pending[0]), after.open),
        sorted(after.open),
        inserted(before.kept, candidate_of(d, before.pending[0]), all),
        sorted(all),
        after.kept == (if all.len() > ef { all.drop_last() } else { all }),
        after.seen == before.seen.insert(before.pending[0]),
        after.pending == before.pending.drop_first(),
    ensures
        beam_steps(links, d, ef, raw, ties, before, after),
        beam_comes_to(links, d, starts, ef, raw, ties, after),
{
    assert(beam_takes(before.kept, candidate_of(d, before.pending[0]), ef, after.kept));
    lemma_step(links, d, starts, ef, raw, ties, before, after);
}

proof fn lemma_leaves(
    links: spec_fn(u32) -> Seq<u32>,
    d: spec_fn(u32) -> u32,
    starts: Seq<u32>,
    ef: nat,
    raw: bool,
    ties: bool,
    before: Beam,
    after: Beam,
)
    requires
        beam_comes_to(links, d, starts, ef, raw, ties, before),
        before.pending.len() > 0,
        before.seen.contains(before.pending[0]) || passed_over(
            before.kept,
            ef,
            raw,
            ties,
            d(before.pending[0]),
        ),
        after.open == before.open,
        after.kept == before.kept,
        after.seen == before.seen.insert(before.pending[0]),
        after.pending == before.pending.drop_first(),
    ensures
        beam_steps(links, d, ef, raw, ties, before, after),
        beam_comes_to(links, d, starts, ef, raw, ties, after),
{
    lemma_step(links, d, starts, ef, raw, ties, before, after);
}

/// What a beam search of width `ef` has done when it ends: it followed the
/// links of one node after the other, always of the nearest, looked in this
/// way at the nodes `seen`, all of them within reach of the starting nodes,
/// and kept the nearest of them, nearest first. It did not end before it had
/// followed the links of each node it kept, and of each node that joins what
/// it kept. Where nodes are equally far, the steps of the search tell which of
/// them it kept.
pub open spec fn beam_outcome(
    links: spec_fn(u32) -> Seq<u32>,
    d: spec_fn(u32) -> u32,
    starts: Seq<u32>,
    ef: nat,
    raw: bool,
    ties: bool,
    seen: Set<u32>,
    kept: Seq<Candidate>,
) -> bool {
    &&& forall|i: int| 0 <= i < starts.len() ==> seen.contains(#[trigger] starts[i])
    &&& forall|c: Set<u32>| #[trigger] link_closed(links, starts, c) ==> seen.subset_of(c)
    &&& beam_of(d, starts, ef, raw, seen, kept)
    &&& exists|last: Beam|
        {
            &&& #[trigger] beam_comes_to(links, d, starts, ef, raw, ties, last)
            &&& beam_ends(ef, last)
            &&& last.seen == seen
            &&& last.kept == kept
        }
    &&& exists|followed: Seq<u32>|
        {
            &&& #[trigger] search_path(links, d, starts, ef, raw, ties, followed)
            &&& seen == reached(links, starts, followed)
            &&& forall|id: u32| #[trigger] holds(kept, id) ==> followed.contains(id)
            &&& forall|id: u32| #[trigger]
                seen.contains(id) ==> followed.contains(id) || passed_over(
                    kept,
                    ef,
                    raw,
                    ties,
                    d(id),
                )
        }
}

/// A beam that did not fill up has seen every node within reach and kept all
/// of them: the search was exhaustive.
pub proof fn law_wide_beam_is_exhaustive(
    links: spec_fn(u32) -> Seq<u32>,
    d: spec_fn(u32) -> u32,
    starts: Seq<u32>,
    ef: nat,
    raw: bool,
    ties: bool,
    seen: Set<u32>,
    kept: Seq<Candidate>,
)
    requires
        beam_outcome(links, d, starts, ef, raw, ties, seen, kept),
        kept.len() < ef,
    ensures
        link_closed(links, starts, seen),
        forall|c: Set<u32>| #[trigger] link_closed(links, starts, c) ==> seen.subset_of(c),
        forall|id: u32| #[trigger] seen.contains(id) <==> holds(kept, id),
{
    assert forall|id: u32| #[trigger] seen.contains(id) <==> holds(kept, id) by {
        if holds(kept, id) {
            let i = choose|i: int| 0 <= i < kept.len() && (#[trigger] kept[i]).node_id == id;
            assert(seen.contains(kept[i].node_id));
        }
    }
    let followed = choose|followed: Seq<u32>|
        {
            &&& #[trigger] search_path(links, d, starts, ef, raw, ties, followed)
            &&& seen == reached(links, starts, followed)
            &&& forall|id: u32| #[trigger] holds(kept, id) ==> followed.contains(id)
        };
    assert forall|id: u32, i: int| seen.contains(id) && 0 <= i < links(id).len() implies seen.contains(
        #[trigger] links(id)[i],
    ) by {
        assert(holds(kept, id));
        let j = choose|j: int| 0 <= j < followed.len() && followed[j] == id;
        assert(links(followed[j]).contains(links(id)[i]));
    }
}

/// A beam search ends at a local optimum: a node linked from one that was kept
/// was kept too, unless the beam is full of nodes that are no farther away.
pub proof fn law_beam_ends_at_local_optimum(
    links: spec_fn(u32) -> Seq<u32>,
    d: spec_fn(u32) -> u32,
    starts: Seq<u32>,
    ef: nat,
    raw: bool,
    ties: bool,
    seen: Set<u32>,
    kept: Seq<Candidate>,
    id: u32,
    i: int,
)
    requires
        beam_outcome(links, d, starts, ef, raw, ties, seen, kept),
        holds(kept, id),
        0 <= i < links(id).len(),
    ensures
        holds(kept, links(id)[i]) || no_gain(kept, ef, raw, d(links(id)[i])),
{
    let followed = choose|followed: Seq<u32>|
        {
            &&& #[trigger] search_path(links, d, starts, ef, raw, ties, followed)
            &&& seen == reached(links, starts, followed)
            &&& forall|x: u32| #[trigger] holds(kept, x) ==> followed.contains(x)
        };
    assert(followed.contains(id));
    let j = choose|j: int| 0 <= j < followed.len() && followed[j] == id;
    assert(links(followed[j]).contains(links(id)[i]));
    assert(seen.contains(links(id)[i]));
}

/// The state of a beam search that has followed, or is following, the links
/// of the nodes `followed`.
spec fn beam_state(
    links: spec_fn(u32) -> Seq<u32>,
    d: spec_fn(u32) -> u32,
    starts: Seq<u32>,
    ef: nat,
    raw: bool,
    ties: bool,
    seen: Set<u32>,
    frontier: Seq<Candidate>,
    kept: Seq<Candidate>,
    followed: Seq<u32>,
) -> bool {
    &&& forall|c: Set<u32>| #[trigger] link_closed(links, starts, c) ==> seen.subset_of(c)
    &&& beam_of(d, starts, ef, raw, seen, kept)
    &&& seen.len() > 0 ==> kept.len() > 0
    &&& distinct(frontier)
    &&& forall|i: int|
        0 <= i < frontier.len() ==> seen.contains((#[trigger] frontier[i]).node_id)
            && frontier[i].distance == d(frontier[i].node_id)
    &&& forall|id: u32| #[trigger] followed.contains(id) ==> seen.contains(id)
    &&& forall|id: u32| #[trigger] holds(frontier, id) ==> !followed.contains(id)
    &&& forall|id: u32| #[trigger]
        seen.contains(id) ==> followed.contains(id) || holds(frontier, id) || passed_over(
            kept,
            ef,
            raw,
            ties,
            d(id),
        )
    &&& forall|id: u32| #[trigger]
        holds(kept, id) ==> followed.contains(id) || holds(frontier, id)
}

pub proof fn lemma_inserted(before: Seq<Candidate>, c: Candidate, after: Seq<Candidate>)
    requires
        inserted(before, c, after),
    ensures
        after.len() == before.len() + 1,
        holds(after, c.node_id),
        forall|id: u32| holds(before, id) ==> #[trigger] holds(after, id),
        forall|id: u32| #[trigger] holds(after, id) ==> holds(before, id) || id == c.node_id,
        forall|i: int| 0 <= i < after.len() ==> (#[trigger] after[i]) == c || before.contains(after[i]),
        forall|i: int| 0 <= i < before.len() ==> after.contains(#[trigger] before[i]),
        distinct(before) && !holds(before, c.node_id) ==> distinct(after),
{
    let p = choose|i: int| 0 <= i <= before.len() && after == #[trigger] before.insert(i, c);
    assert(after[p] == c);
    assert forall|i: int| 0 <= i < after.len() implies (#[trigger] after[i]) == c || before.contains(
        after[i],
    ) by {
        if i < p {
            assert(after[i] == before[i]);
        } else if i > p {
            assert(after[i] == before[i - 1]);
        }
    }
    assert forall|i: int| 0 <= i < before.len() implies after.contains(#[trigger] before[i]) by {
        if i < p {
            assert(after[i] == before[i]);
        } else {
            assert(after[i + 1] == before[i]);
        }
    }
    assert forall|id: u32| holds(before, id) implies #[trigger] holds(after, id) by {
        let i = choose|i: int| 0 <= i < before.len() && (#[trigger] before[i]).node_id == id;
        assert(after.contains(before[i]));
    }
    assert forall|id: u32| #[trigger] holds(after, id) implies holds(before, id) || id
        == c.node_id by {
        let i = choose|i: int| 0 <= i < after.len() && (#[trigger] after[i]).node_id == id;
        if after[i] != c {
            assert(before.contains(after[i]));
        }
    }
    if distinct(before) && !holds(before, c.node_id) {
        assert forall|i: int, j: int|
            0 <= i < after.len() && 0 <= j < after.len() && i != j implies (#[trigger] after[i]).node_id
            != (#[trigger] after[j]).node_id by {
            let bi = if i < p { i } else { i - 1 };
            let bj = if j < p { j } else { j - 1 };
            if i != p {
                assert(after[i] == before[bi]);
            }
            if j != p {
                assert(after[j] == before[bj]);
            }
        }
    }
}

/// Where the farthest candidate of a sorted list went after an insertion.
proof fn lemma_inserted_last(before: Seq<Candidate>, c: Candidate, after: Seq<Candidate>)
    requires
        inserted(before, c, after),
        sorted(before),
        sorted(after),
        before.len() > 0,
        c.rank() <= before.last().rank(),
    ensures
        after.last().rank() == before.last().rank(),
{
    let p = choose|i: int| 0 <= i <= before.len() && after == #[trigger] before.insert(i, c);
    if p == before.len() {
        assert(after[p] == c);
        assert(after[p - 1] == before.last());
        assert(ordered(after[p - 1], after[p]));
    }
}

/// A newly seen node that is put on the beam.
proof fn lemma_admit(
    links: spec_fn(u32) -> Seq<u32>,
    d: spec_fn(u32) -> u32,
    starts: Seq<u32>,
    ef: nat,
    raw: bool,
    ties: bool,
    seen: Set<u32>,
    frontier: Seq<Candidate>,
    kept: Seq<Candidate>,
    followed: Seq<u32>,
    id: u32,
    frontier2: Seq<Candidate>,
    kept1: Seq<Candidate>,
    kept2: Seq<Candidate>,
)
    requires
        beam_state(links, d, starts, ef, raw, ties, seen, frontier, kept, followed),
        !seen.contains(id),
        forall|c: Set<u32>| #[trigger] link_closed(links, starts, c) ==> c.contains(id),
        kept.len() > 0,
        seen.finite(),
        kept.len() < ef || joins(raw, ties, d(id), kept.last().distance),
        inserted(frontier, Candidate { node_id: id, distance: d(id) }, frontier2),
        inserted(kept, Candidate { node_id: id, distance: d(id) }, kept1),
        sorted(kept1),
        kept2 == (if kept1.len() > ef { kept1.drop_last() } else { kept1 }),
    ensures
        beam_state(links, d, starts, ef, raw, ties, seen.insert(id), frontier2, kept2, followed),
        kept2.len() > 0,
        frontier2.len() == frontier.len() + 1,
{
    let c = Candidate { node_id: id, distance: d(id) };
    let seen2 = seen.insert(id);
    lemma_inserted(frontier, c, frontier2);
    lemma_inserted(kept, c, kept1);
    assert(!holds(kept, id)) by {
        if holds(kept, id) {
            let i = choose|i: int| 0 <= i < kept.len() && (#[trigger] kept[i]).node_id == id;
            assert(seen.contains(kept[i].node_id));
        }
    }
    assert(distinct(kept1));
    if kept.len() >= ef {
        lemma_inserted_last(kept, c, kept1);
    }
    assert forall|i: int| 0 <= i < kept2.len() implies seen2.contains((#[trigger] kept2[i]).node_id)
        && kept2[i].distance == d(kept2[i].node_id) by {
        assert(kept2[i] == kept1[i]);
        if kept1[i] != c {
            assert(kept.contains(kept1[i]));
        }
    }
    assert(sorted(kept2)) by {
        assert forall|i: int, j: int| 0 <= i < j < kept2.len() implies ordered(
            #[trigger] kept2[i],
            #[trigger] kept2[j],
        ) by {
            assert(kept2[i] == kept1[i] && kept2[j] == kept1[j]);
        }
    }
    assert(distinct(kept2)) by {
        assert forall|i: int, j: int|
            0 <= i < kept2.len() && 0 <= j < kept2.len() && i != j implies (#[trigger] kept2[i]).node_id
            != (#[trigger] kept2[j]).node_id by {
            assert(kept2[i] == kept1[i] && kept2[j] == kept1[j]);
        }
    }
    assert forall|i: int| 0 <= i < frontier2.len() implies seen2.contains(
        (#[trigger] frontier2[i]).node_id,
    ) && frontier2[i].distance == d(frontier2[i].node_id) by {
        if frontier2[i] != c {
            assert(frontier.contains(frontier2[i]));
        }
    }
    if kept.len() >= ef {
        assert(kept1.last().rank() == kept.last().rank());
        assert(kept2.last() == kept1[kept1.len() - 2]);
        assert(ordered(kept1[kept1.len() - 2], kept1[kept1.len() - 1]));
        if rank(d(id)) == kept.last().rank() {
            let p = choose|i: int| 0 <= i <= kept.len() && kept1 == #[trigger] kept.insert(i, c);
            if p < kept.len() {
                assert(kept1[kept.len() as int] == kept.last());
                if p + 1 < kept.len() {
                    assert(ordered(kept1[p], kept1[kept1.len() - 2]));
                }
            } else {
                assert(kept1[kept1.len() - 2] == kept.last());
            }
            assert(kept2.last().rank() == kept.last().rank());
        }
    }
    assert(forall|dist: u32| #[trigger]
        no_gain(kept, ef, raw, dist) ==> no_gain(kept2, ef, raw, dist));
    assert(forall|dist: u32| #[trigger]
        passed_over(kept, ef, raw, ties, dist) ==> passed_over(kept2, ef, raw, ties, dist));
    assert forall|x: u32| #[trigger] seen2.contains(x) implies holds(kept2, x) || no_gain(
        kept2,
        ef,
        raw,
        d(x),
    ) by {
        if holds(kept, x) || x == id {
            assert(holds(kept1, x));
            let i = choose|i: int| 0 <= i < kept1.len() && (#[trigger] kept1[i]).node_id == x;
            if i < kept2.len() {
                assert(kept2[i] == kept1[i]);
            } else {
                assert(kept2.last() == kept1[kept1.len() - 2]);
                assert(ordered(kept1[kept1.len() - 2], kept1[kept1.len() - 1]));
                assert(kept1[i].distance == d(x)) by {
                    if kept1[i] != c {
                        assert(kept.contains(kept1[i]));
                    }
                }
            }
        } else {
            assert(seen.contains(x));
        }
    }
    assert(!holds(frontier, id)) by {
        if holds(frontier, id) {
            let i = choose|i: int|
                0 <= i < frontier.len() && (#[trigger] frontier[i]).node_id == id;
            assert(seen.contains(frontier[i].node_id));
        }
    }
    assert forall|x: u32| #[trigger] seen2.contains(x) implies followed.contains(x) || holds(
        frontier2,
        x,
    ) || passed_over(kept2, ef, raw, ties, d(x)) by {
        if x != id {
            assert(seen.contains(x));
            if holds(frontier, x) {
                assert(holds(frontier2, x));
            } else if !followed.contains(x) {
                assert(passed_over(kept, ef, raw, ties, d(x)));
            }
        }
    }
    assert forall|x: u32| #[trigger] holds(kept2, x) implies followed.contains(x) || holds(
        frontier2,
        x,
    ) by {
        let i = choose|i: int| 0 <= i < kept2.len() && (#[trigger] kept2[i]).node_id == x;
        assert(kept1[i] == kept2[i]);
        assert(holds(kept1, x));
        if x != id {
            assert(holds(kept, x));
            if holds(frontier, x) {
                assert(holds(frontier2, x));
            }
        }
    }
    assert forall|x: u32| #[trigger] holds(frontier2, x) implies !followed.contains(x) by {
        if x == id {
            if followed.contains(x) {
                assert(seen.contains(x));
            }
        } else {
            assert(holds(frontier, x));
        }
    }
}

/// A newly seen node that the beam gains nothing from.
proof fn lemma_reject(
    links: spec_fn(u32) -> Seq<u32>,
    d: spec_fn(u32) -> u32,
    starts: Seq<u32>,
    ef: nat,
    raw: bool,
    ties: bool,
    seen: Set<u32>,
    frontier: Seq<Candidate>,
    kept: Seq<Candidate>,
    followed: Seq<u32>,
    id: u32,
)
    requires
        beam_state(links, d, starts, ef, raw, ties, seen, frontier, kept, followed),
        forall|c: Set<u32>| #[trigger] link_closed(links, starts, c) ==> c.contains(id),
        passed_over(kept, ef, raw, ties, d(id)),
    ensures
        beam_state(links, d, starts, ef, raw, ties, seen.insert(id), frontier, kept, followed),
{
    let seen2 = seen.insert(id);
    assert forall|x: u32| #[trigger] seen2.contains(x) implies holds(kept, x) || no_gain(
        kept,
        ef,
        raw,
        d(x),
    ) by {
        if x != id {
            assert(seen.contains(x));
        }
    }
    assert forall|x: u32| #[trigger] seen2.contains(x) implies followed.contains(x) || holds(
        frontier,
        x,
    ) || passed_over(kept, ef, raw, ties, d(x)) by {
        if x != id {
            assert(seen.contains(x));
        }
    }
}

/// A starting node joins the beam whatever its distance.
proof fn lemma_seed(
    links: spec_fn(u32) -> Seq<u32>,
    d: spec_fn(u32) -> u32,
    starts: Seq<u32>,
    ef: nat,
    raw: bool,
    ties: bool,
    seen: Set<u32>,
    frontier: Seq<Candidate>,
    kept: Seq<Candidate>,
    i: int,
    frontier2: Seq<Candidate>,
    kept2: Seq<Candidate>,
)
    requires
        beam_state(links, d, starts, ef, raw, ties, seen, frontier, kept, Seq::<u32>::empty()),
        0 <= i < starts.len(),
        kept.len() == i,
        !seen.contains(starts[i]),
        forall|x: u32| #[trigger] seen.contains(x) ==> holds(kept, x) && holds(frontier, x),
        inserted(
            frontier,
            Candidate { node_id: starts[i], distance: d(starts[i]) },
            frontier2,
        ),
        inserted(kept, Candidate { node_id: starts[i], distance: d(starts[i]) }, kept2),
        sorted(kept2),
    ensures
        beam_state(
            links,
            d,
            starts,
            ef,
            raw,
            ties,
            seen.insert(starts[i]),
            frontier2,
            kept2,
            Seq::<u32>::empty(),
        ),
        kept2.len() == i + 1,
        frontier2.len() == frontier.len() + 1,
        forall|x: u32| #[trigger]
            seen.insert(starts[i]).contains(x) ==> holds(kept2, x) && holds(frontier2, x),
{
    let id = starts[i];
    let c = Candidate { node_id: id, distance: d(id) };
    let seen2 = seen.insert(id);
    lemma_inserted(frontier, c, frontier2);
    lemma_inserted(kept, c, kept2);
    assert(!holds(kept, id)) by {
        if holds(kept, id) {
            let j = choose|j: int| 0 <= j < kept.len() && (#[trigger] kept[j]).node_id == id;
            assert(seen.contains(kept[j].node_id));
        }
    }
    assert forall|x: u32| #[trigger] seen2.contains(x) implies holds(kept2, x) && holds(
        frontier2,
        x,
    ) by {
        if x != id {
            assert(seen.contains(x));
        }
    }
    assert forall|j: int| 0 <= j < kept2.len() implies seen2.contains((#[trigger] kept2[j]).node_id)
        && kept2[j].distance == d(kept2[j].node_id) by {
        if kept2[j] != c {
            assert(kept.contains(kept2[j]));
        }
    }
    assert forall|j: int| 0 <= j < frontier2.len() implies seen2.contains(
        (#[trigger] frontier2[j]).node_id,
    ) && frontier2[j].distance == d(frontier2[j].node_id) by {
        if frontier2[j] != c {
            assert(frontier.contains(frontier2[j]));
        }
    }
    assert(!holds(frontier, id)) by {
        if holds(frontier, id) {
            let j = choose|j: int|
                0 <= j < frontier.len() && (#[trigger] frontier[j]).node_id == id;
            assert(seen.contains(frontier[j].node_id));
        }
    }
    assert forall|x: u32| #[trigger] holds(kept2, x) implies holds(frontier2, x) by {
        let j = choose|j: int| 0 <= j < kept2.len() && (#[trigger] kept2[j]).node_id == x;
        assert(seen2.contains(kept2[j].node_id));
    }
}

/// The search can stop: what is left on the frontier is farther away than the
/// farthest node of a full beam, or nothing is left.
proof fn lemma_stop(
    links: spec_fn(u32) -> Seq<u32>,
    d: spec_fn(u32) -> u32,
    starts: Seq<u32>,
    ef: nat,
    raw: bool,
    ties: bool,
    seen: Set<u32>,
    frontier: Seq<Candidate>,
    kept: Seq<Candidate>,
    followed: Seq<u32>,
)
    requires
        beam_state(links, d, starts, ef, raw, ties, seen, frontier, kept, followed),
        search_path(links, d, starts, ef, raw, ties, followed),
        seen == reached(links, starts, followed),
        beam_comes_to(
            links,
            d,
            starts,
            ef,
            raw,
            ties,
            Beam { seen, open: frontier, kept, pending: Seq::empty() },
        ),
        sorted(frontier),
        frontier.len() == 0 || (kept.len() >= ef && kept.len() > 0 && frontier[0].rank()
            > kept.last().rank()),
    ensures
        beam_outcome(links, d, starts, ef, raw, ties, seen, kept),
{
    assert(beam_ends(ef, Beam { seen, open: frontier, kept, pending: Seq::empty() }));
    assert forall|id: u32| #[trigger] holds(kept, id) implies followed.contains(id) by {
        if holds(frontier, id) {
            let i = choose|i: int| 0 <= i < kept.len() && (#[trigger] kept[i]).node_id == id;
            let j = choose|j: int|
                0 <= j < frontier.len() && (#[trigger] frontier[j]).node_id == id;
            assert(frontier[j].distance == kept[i].distance);
            if j > 0 {
                assert(ordered(frontier[0], frontier[j]));
            }
            if i < kept.len() - 1 {
                assert(ordered(kept[i], kept[kept.len() - 1]));
            }
        }
    }
    assert forall|id: u32| #[trigger] seen.contains(id) implies followed.contains(id)
        || passed_over(kept, ef, raw, ties, d(id)) by {
        if holds(frontier, id) {
            let j = choose|j: int|
                0 <= j < frontier.len() && (#[trigger] frontier[j]).node_id == id;
            if j > 0 {
                assert(ordered(frontier[0], frontier[j]));
            }
        }
    }
}

/// The node taken off the frontier is the next one whose links are followed.
proof fn lemma_take(
    links: spec_fn(u32) -> Seq<u32>,
    d: spec_fn(u32) -> u32,
    starts: Seq<u32>,
    ef: nat,
    raw: bool,
    ties: bool,
    seen: Set<u32>,
    frontier: Seq<Candidate>,
    kept: Seq<Candidate>,
    followed: Seq<u32>,
)
    requires
        beam_state(links, d, starts, ef, raw, ties, seen, frontier, kept, followed),
        search_path(links, d, starts, ef, raw, ties, followed),
        seen == reached(links, starts, followed),
        sorted(frontier),
        frontier.len() > 0,
        kept.len() >= ef ==> frontier[0].rank() <= kept.last().rank(),
    ensures
        beam_state(
            links,
            d,
            starts,
            ef,
            raw,
            ties,
            seen,
            frontier.drop_first(),
            kept,
            followed.push(frontier[0].node_id),
        ),
        search_path(links, d, starts, ef, raw, ties, followed.push(frontier[0].node_id)),
{
    let rest = frontier.drop_first();
    let id = frontier[0].node_id;
    let next = followed.push(id);
    assert(holds(frontier, id));
    assert(seen.contains(frontier[0].node_id));
    assert(frontier[0] == candidate_of(d, id));
    assert forall|x: u32| #[trigger] next.contains(x) <==> followed.contains(x) || x == id by {
        if followed.contains(x) {
            let i = choose|i: int| 0 <= i < followed.len() && followed[i] == x;
            assert(next[i] == x);
        }
        if x == id {
            assert(next[followed.len() as int] == x);
        }
    }
    assert forall|i: int| 0 <= i < rest.len() implies seen.contains((#[trigger] rest[i]).node_id)
        && rest[i].distance == d(rest[i].node_id) by {
        assert(rest[i] == frontier[i + 1]);
    }
    assert(distinct(rest)) by {
        assert forall|i: int, j: int|
            0 <= i < rest.len() && 0 <= j < rest.len() && i != j implies (#[trigger] rest[i]).node_id
            != (#[trigger] rest[j]).node_id by {
            assert(rest[i] == frontier[i + 1] && rest[j] == frontier[j + 1]);
        }
    }
    assert forall|x: u32| #[trigger] holds(rest, x) implies holds(frontier, x) && x != id by {
        let i = choose|i: int| 0 <= i < rest.len() && (#[trigger] rest[i]).node_id == x;
        assert(frontier[i + 1] == rest[i]);
    }
    assert forall|x: u32| holds(frontier, x) && x != id implies #[trigger] holds(rest, x) by {
        let i = choose|i: int| 0 <= i < frontier.len() && (#[trigger] frontier[i]).node_id == x;
        assert(rest[i - 1] == frontier[i]);
    }
    assert forall|x: u32| #[trigger] seen.contains(x) implies next.contains(x) || holds(rest, x)
        || passed_over(kept, ef, raw, ties, d(x)) by {
        assert(followed.contains(x) || holds(frontier, x) || passed_over(
            kept,
            ef,
            raw,
            ties,
            d(x),
        ));
        assert(next.contains(x) || !followed.contains(x));
        assert(holds(rest, x) || x == id || !holds(frontier, x));
        assert(next.contains(id));
    }
    assert forall|x: u32| #[trigger] holds(kept, x) implies next.contains(x) || holds(rest, x) by {
        assert(followed.contains(x) || holds(frontier, x));
        assert(next.contains(x) || !followed.contains(x));
        assert(holds(rest, x) || x == id || !holds(frontier, x));
        assert(next.contains(id));
    }
    assert(follows_next(links, d, starts, ef, raw, ties, followed, id)) by {
        assert(beam_of(d, starts, ef, raw, seen, kept));
        assert forall|x: u32| #[trigger] seen.contains(x) && !followed.contains(x) implies ordered(
            candidate_of(d, id),
            candidate_of(d, x),
        ) || passed_over(kept, ef, raw, ties, d(x)) by {
            if holds(frontier, x) {
                let j = choose|j: int|
                    0 <= j < frontier.len() && (#[trigger] frontier[j]).node_id == x;
                assert(frontier[j] == candidate_of(d, x));
                if j > 0 {
                    assert(ordered(frontier[0], frontier[j]));
                }
            }
        }
    }
    assert forall|i: int| 0 <= i < next.len() implies follows_next(
        links,
        d,
        starts,
        ef,
        raw,
        ties,
        next.take(i),
        #[trigger] next[i],
    ) by {
        assert(next.take(i) =~= followed.take(i));
        if i < followed.len() {
            assert(next[i] == followed[i]);
        } else {
            assert(followed.take(i) =~= followed);
        }
    }
}

/// All links of the last node have been followed.
proof fn lemma_followed(
    links: spec_fn(u32) -> Seq<u32>,
    starts: Seq<u32>,
    followed: Seq<u32>,
    id: u32,
    seen: Set<u32>,
)
    requires
        reached(links, starts, followed).subset_of(seen),
        seen.subset_of(reached(links, starts, followed.push(id))),
        forall|i: int| 0 <= i < links(id).len() ==> seen.contains(#[trigger] links(id)[i]),
    ensures
        seen == reached(links, starts, followed.push(id)),
{
    let next = followed.push(id);
    assert forall|x: u32| reached(links, starts, next).contains(x) implies #[trigger] seen.contains(
        x,
    ) by {
        if !starts.contains(x) {
            let i = choose|i: int| 0 <= i < next.len() && links(#[trigger] next[i]).contains(x);
            if i < followed.len() {
                assert(links(followed[i]).contains(x));
                assert(reached(links, starts, followed).contains(x));
            } else {
                let k = choose|k: int| 0 <= k < links(id).len() && #[trigger] links(id)[k] == x;
                assert(seen.contains(links(id)[k]));
            }
        } else {
            assert(reached(links, starts, followed).contains(x));
        }
    }
    assert(seen =~= reached(links, starts, next));
}

/// One more node linked from the last node has been looked at.
proof fn lemma_looked(
    links: spec_fn(u32) -> Seq<u32>,
    starts: Seq<u32>,
    followed: Seq<u32>,
    id: u32,
    seen: Set<u32>,
    k: int,
)
    requires
        seen.subset_of(reached(links, starts, followed.push(id))),
        0 <= k < links(id).len(),
    ensures
        seen.insert(links(id)[k]).subset_of(reached(links, starts, followed.push(id))),
{
    let next = followed.push(id);
    assert(next[followed.len() as int] == id);
    assert(links(next[followed.len() as int]).contains(links(id)[k]));
}

/// What had been reached stays reached.
proof fn lemma_reached_grows(
    links: spec_fn(u32) -> Seq<u32>,
    starts: Seq<u32>,
    followed: Seq<u32>,
    id: u32,
)
    ensures
        reached(links, starts, followed).subset_of(reached(links, starts, followed.push(id))),
{
    let next = followed.push(id);
    assert forall|x: u32| #[trigger] reached(links, starts, followed).contains(x) implies reached(
        links,
        starts,
        next,
    ).contains(x) by {
        if !starts.contains(x) {
            let i = choose|i: int|
                0 <= i < followed.len() && links(#[trigger] followed[i]).contains(x);
            assert(next[i] == followed[i]);
            assert(links(next[i]).contains(x));
        }
    }
}

/// Before any link is followed, only the starting nodes have been reached.
proof fn lemma_reached_first(
    links: spec_fn(u32) -> Seq<u32>,
    starts: Seq<u32>,
    seen: Set<u32>,
)
    requires
        forall|i: int| 0 <= i < starts.len() ==> seen.contains(#[trigger] starts[i]),
        forall|id: u32| #[trigger] seen.contains(id) ==> starts.contains(id),
    ensures
        seen == reached(links, starts, Seq::<u32>::empty()),
{
    assert(seen =~= reached(links, starts, Seq::<u32>::empty()));
}

/// There are no more nodes in a set than ids to choose from.
pub proof fn lemma_bounded_set(s: Set<u32>, n: nat)
    requires
        s.finite(),
        forall|id: u32| #[trigger] s.contains(id) ==> id < n,
    ensures
        s.len() <= n,
    decreases n,
{
    if n == 0 {
        if s.len() > 0 {
            assert(s.contains(s.choose()));
        }
    } else if n - 1 > u32::MAX {
        lemma_bounded_set(s, (n - 1) as nat);
    } else {
        let last = (n - 1) as u32;
        let rest = s.remove(last);
        assert forall|id: u32| #[trigger] rest.contains(id) implies id < n - 1 by {
            assert(s.contains(id));
        }
        lemma_bounded_set(rest, (n - 1) as nat);
    }
}

/// Searches one level of the graph with a beam of width `ef`, starting from the
/// given nodes. The candidates that are kept come out nearest first.
///
/// With `raw`, a node joins a full beam if its distance is less than that of
/// the farthest candidate as floats compare, else if it comes earlier in the
/// total order, or with `ties` no later. Only the nodes below `limit` take part.
#[verifier::rlimit(40)]
pub fn beam_search<S: GraphStore, M: Fn(&[u32], &[u32]) -> u32>(
    store: &S,
    metric: &M,
    query: &[u32],
    starts: &[u32],
    ef: usize,
    level: u8,
    raw: bool,
    ties: bool,
    limit: usize,
) -> (kept: CandidateQueue)
    requires
        store.store_wf(),
        limit <= store.node_count(),
        links_below(*store, level, limit as nat),
        metric_ok(*metric),
        query@.len() == store.dim(),
        starts@.no_duplicates(),
        forall|i: int| 0 <= i < starts@.len() ==> #[trigger] starts@[i] < limit,
    ensures
        kept.wf(),
        exists|seen: Set<u32>|
            {
                &&& #[trigger] beam_outcome(
                    link_fn(*store, level),
                    distance_fn(*store, *metric, query@),
                    starts@,
                    ef as nat,
                    raw,
                    ties,
                    seen,
                    kept@,
                )
                &&& forall|id: u32| #[trigger] seen.contains(id) ==> id < limit
            },
{
    let ghost links = link_fn(*store, level);
    let ghost d = distance_fn(*store, *metric, query@);
    let ghost count = limit as nat;
    let ghost mut followed = Seq::<u32>::empty();
    proof {
        store.lemma_store();
    }
    let mut visited: VisitedList = VisitedList::new(limit);
    let mut frontier: CandidateQueue = CandidateQueue::new();
    let mut kept: CandidateQueue = CandidateQueue::new();
    let mut i: usize = 0;
    while i < starts.len()
        invariant
            store.store_wf(),
            metric_ok(*metric),
            query@.len() == store.dim(),
            starts@.no_duplicates(),
            forall|j: int| 0 <= j < starts@.len() ==> #[trigger] starts@[j] < limit,
            store.node_count() <= usize::MAX,
            d == distance_fn(*store, *metric, query@),
            followed == Seq::<u32>::empty(),
            count == limit as nat,
            count <= store.node_count(),
            i <= starts@.len(),
            visited.wf(),
            frontier.wf(),
            kept.wf(),
            visited@.finite(),
            forall|j: int| 0 <= j < i ==> visited@.contains(#[trigger] starts@[j]),
            forall|id: u32| #[trigger] visited@.contains(id) ==> id < count,
            forall|id: u32| #[trigger]
                visited@.contains(id) ==> exists|j: int| 0 <= j < i && starts@[j] == id,
            forall|id: u32| #[trigger]
                visited@.contains(id) ==> holds(kept@, id) && holds(frontier@, id),
            kept@.len() == i,
            beam_state(
                links,
                d,
                starts@,
                ef as nat,
                raw,
                ties,
                visited@,
                frontier@,
                kept@,
                followed,
            ),
        decreases starts.len() - i,
    {
        let id: u32 = starts[i];
        let dist: u32 = distance_to(store, metric, query, id);
        let c: Candidate = Candidate::new(id, dist);
        let ghost frontier1 = frontier@;
        let ghost kept1 = kept@;
        let ghost seen1 = visited@;
        frontier.push(c);
        kept.push(c);
        visited.mark_visited(id);
        proof {
            kept.lemma_sorted();
            assert(!seen1.contains(id)) by {
                if seen1.contains(id) {
                    let j = choose|j: int| 0 <= j < i && starts@[j] == id;
                    assert(starts@[j] != starts@[i as int]);
                }
            }
            lemma_seed(
                links,
                d,
                starts@,
                ef as nat,
                raw,
                ties,
                seen1,
                frontier1,
                kept1,
                i as int,
                frontier@,
                kept@,
            );
            assert forall|x: u32| #[trigger] visited@.contains(x) implies exists|j: int|
                0 <= j < i + 1 && starts@[j] == x by {
                if x == id {
                    assert(starts@[i as int] == x);
                } else {
                    let j = choose|j: int| 0 <= j < i && starts@[j] == x;
                    assert(starts@[j] == x);
                }
            }
        }
        i += 1;
    }
    proof {
        lemma_bounded_set(visited@, count);
        lemma_reached_first(links, starts@, visited@);
    }
    proof {
        let beam = Beam {
            seen: visited@,
            open: frontier@,
            kept: kept@,
            pending: Seq::<u32>::empty(),
        };
        frontier.lemma_sorted();
        kept.lemma_sorted();
        assert(lists(beam.open, d, beam.seen));
        assert(lists(beam.kept, d, beam.seen));
        lemma_begin(links, d, starts@, ef as nat, raw, ties, beam);
    }
    let mut open: bool = true;
    while open
        invariant
            store.store_wf(),
            limit <= store.node_count(),
            links_below(*store, level, limit as nat),
            metric_ok(*metric),
            query@.len() == store.dim(),
            store.node_count() <= usize::MAX,
            links == link_fn(*store, level),
            d == distance_fn(*store, *metric, query@),
            count == limit as nat,
            count <= store.node_count(),
            visited.wf(),
            frontier.wf(),
            kept.wf(),
            visited@.finite(),
            visited@.len() <= count,
            forall|j: int| 0 <= j < starts@.len() ==> visited@.contains(#[trigger] starts@[j]),
            forall|id: u32| #[trigger] visited@.contains(id) ==> id < count,
            open ==> beam_state(
                links,
                d,
                starts@,
                ef as nat,
                raw,
                ties,
                visited@,
                frontier@,
                kept@,
                followed,
            ),
            open ==> search_path(links, d, starts@, ef as nat, raw, ties, followed),
            open ==> visited@ == reached(links, starts@, followed),
            open ==> beam_comes_to(
                links,
                d,
                starts@,
                ef as nat,
                raw,
                ties,
                Beam {
                    seen: visited@,
                    open: frontier@,
                    kept: kept@,
                    pending: Seq::empty(),
                },
            ),
            !open ==> beam_outcome(links, d, starts@, ef as nat, raw, ties, visited@, kept@),
        decreases (count - visited@.len()) + frontier@.len(), open as int,
    {
        let ghost frontier0 = frontier@;
        let ghost measure0 = (count - visited@.len()) + frontier@.len();
        proof {
            frontier.lemma_sorted();
            kept.lemma_sorted();
        }
        match frontier.pop_nearest() {
            None => {
                proof {
                    lemma_stop(
                        links,
                        d,
                        starts@,
                        ef as nat,
                        raw,
                        ties,
                        visited@,
                        frontier0,
                        kept@,
                        followed,
                    );
                }
                open = false;
            },
            Some(current) => {
                let full: bool = kept.len() >= ef;
                proof {
                    assert(visited@.contains(frontier0[0].node_id));
                    assert(visited@.len() > 0) by {
                        if visited@.len() == 0 {
                            assert(visited@ =~= Set::<u32>::empty());
                        }
                    }
                }
                let far: Candidate = match kept.farthest() {
                    Some(c) => c,
                    None => current,
                };
                if full && float_rank(current.distance) > float_rank(far.distance) {
                    proof {
                        lemma_stop(
                            links,
                            d,
                            starts@,
                            ef as nat,
                            raw,
                            ties,
                            visited@,
                            frontier0,
                            kept@,
                            followed,
                        );
                    }
                    open = false;
                } else {
                    proof {
                        lemma_take(
                            links,
                            d,
                            starts@,
                            ef as nat,
                            raw,
                            ties,
                            visited@,
                            frontier0,
                            kept@,
                            followed,
                        );
                    }
                    let ghost followed0 = followed;
                    let ghost seen0 = visited@;
                    proof {
                        lemma_reached_grows(links, starts@, followed, current.node_id);
                        followed = followed.push(current.node_id);
                    }
                    proof {
                        lemma_step(
                            links,
                            d,
                            starts@,
                            ef as nat,
                            raw,
                            ties,
                            Beam {
                                seen: visited@,
                                open: frontier0,
                                kept: kept@,
                                pending: Seq::empty(),
                            },
                            Beam {
                                seen: visited@,
                                open: frontier@,
                                kept: kept@,
                                pending: links(current.node_id),
                            },
                        );
                    }
                    let list: Vec<u32> = store.links_of(current.node_id, level);
                    let mut k: usize = 0;
                    assert(list@.skip(0) =~= list@);
                    while k < list.len()
                        invariant
                            store.store_wf(),
                            limit <= store.node_count(),
                            links_below(*store, level, limit as nat),
                            metric_ok(*metric),
                            query@.len() == store.dim(),
                            store.node_count() <= usize::MAX,
                            links == link_fn(*store, level),
                            d == distance_fn(*store, *metric, query@),
                            count == limit as nat,
                            count <= store.node_count(),
                            k <= list@.len(),
                            current.node_id < count,
                            list@ == store.links_at(current.node_id, level),
                            list@ == links(current.node_id),
                            visited.wf(),
                            frontier.wf(),
                            kept.wf(),
                            visited@.finite(),
                            visited@.len() <= count,
                            visited@.contains(current.node_id),
                            kept@.len() > 0,
                            forall|j: int|
                                0 <= j < starts@.len() ==> visited@.contains(
                                    #[trigger] starts@[j],
                                ),
                            forall|id: u32| #[trigger] visited@.contains(id) ==> id < count,
                            forall|j: int|
                                0 <= j < k ==> visited@.contains(
                                    #[trigger] links(current.node_id)[j],
                                ),
                            beam_state(
                                links,
                                d,
                                starts@,
                                ef as nat,
                                raw,
                                ties,
                                visited@,
                                frontier@,
                                kept@,
                                followed,
                            ),
                            beam_comes_to(
                                links,
                                d,
                                starts@,
                                ef as nat,
                                raw,
                                ties,
                                Beam {
                                    seen: visited@,
                                    open: frontier@,
                                    kept: kept@,
                                    pending: list@.skip(k as int),
                                },
                            ),
                            followed == followed0.push(current.node_id),
                            seen0 == reached(links, starts@, followed0),
                            seen0.subset_of(visited@),
                            visited@.subset_of(reached(links, starts@, followed)),
                            (count - visited@.len()) + frontier@.len() <= measure0 - 1,
                        decreases list.len() - k,
                    {
                        let id: u32 = list[k];
                        let ghost looking = Beam {
                            seen: visited@,
                            open: frontier@,
                            kept: kept@,
                            pending: list@.skip(k as int),
                        };
                        let ghost rest = list@.skip(k + 1);
                        assert(looking.pending.drop_first() =~= rest);
                        assert(looking.pending[0] == id);
                        assert(store.links_at(current.node_id, level)[k as int] < count);
                        if !visited.is_visited(id) {
                            let ghost frontier1 = frontier@;
                            let ghost kept1 = kept@;
                            let ghost seen1 = visited@;
                            visited.mark_visited(id);
                            let dist: u32 = distance_to(store, metric, query, id);
                            let far: Candidate = match kept.farthest() {
                                Some(c) => c,
                                None => current,
                            };
                            let better: bool = (if raw {
                                less(dist, far.distance)
                            } else {
                                float_rank(dist) < float_rank(far.distance)
                            }) || (ties && float_rank(dist) == float_rank(far.distance));
                            proof {
                                assert forall|c: Set<u32>| #[trigger]
                                    link_closed(links, starts@, c) implies c.contains(id) by {
                                    assert(seen1.subset_of(c));
                                    assert(c.contains(links(current.node_id)[k as int]));
                                }
                                lemma_bounded_set(visited@, count);
                                lemma_looked(
                                    links,
                                    starts@,
                                    followed0,
                                    current.node_id,
                                    seen1,
                                    k as int,
                                );
                            }
                            if kept.len() < ef || better {
                                let c: Candidate = Candidate::new(id, dist);
                                frontier.push(c);
                                kept.push(c);
                                let ghost kept2 = kept@;
                                proof {
                                    frontier.lemma_sorted();
                                    kept.lemma_sorted();
                                }
                                if kept.len() > ef {
                                    let _ = kept.pop_farthest();
                                }
                                proof {
                                    lemma_joins(
                                        links,
                                        d,
                                        starts@,
                                        ef as nat,
                                        raw,
                                        ties,
                                        looking,
                                        Beam {
                                            seen: visited@,
                                            open: frontier@,
                                            kept: kept@,
                                            pending: rest,
                                        },
                                        kept2,
                                    );
                                    lemma_admit(
                                        links,
                                        d,
                                        starts@,
                                        ef as nat,
                                        raw,
                                        ties,
                                        seen1,
                                        frontier1,
                                        kept1,
                                        followed,
                                        id,
                                        frontier@,
                                        kept2,
                                        kept@,
                                    );
                                }
                            } else {
                                proof {
                                    lemma_leaves(
                                        links,
                                        d,
                                        starts@,
                                        ef as nat,
                                        raw,
                                        ties,
                                        looking,
                                        Beam {
                                            seen: visited@,
                                            open: frontier@,
                                            kept: kept@,
                                            pending: rest,
                                        },
                                    );
                                    lemma_reject(
                                        links,
                                        d,
                                        starts@,
                                        ef as nat,
                                        raw,
                                        ties,
                                        seen1,
                                        frontier1,
                                        kept1,
                                        followed,
                                        id,
                                    );
                                }
                            }
                        } else {
                            proof {
                                assert(visited@.insert(id) =~= visited@);
                                lemma_leaves(
                                    links,
                                    d,
                                    starts@,
                                    ef as nat,
                                    raw,
                                    ties,
                                    looking,
                                    Beam {
                                        seen: visited@,
                                        open: frontier@,
                                        kept: kept@,
                                        pending: rest,
                                    },
                                );
                            }
                        }
                        k += 1;
                    }
                    assert(list@.skip(k as int) =~= Seq::empty());
                    proof {
                        lemma_followed(
                            links,
                            starts@,
                            followed0,
                            current.node_id,
                            visited@,
                        );
                    }
                }
            },
        }
    }
    proof {
        let seen = visited@;
        assert(beam_outcome(links, d, starts@, ef as nat, raw, ties, seen, kept@));
    }
    kept
}

// ---------------------------------------------------------------------------
// Filtered beam search
// ---------------------------------------------------------------------------

/// A filter accepts any node.
pub open spec fn filter_total<F: Fn(u32) -> bool>(filter: F) -> bool {
    forall|id: u32| #[trigger] call_requires(filter, (id,))
}

/// A filter depends on its argument alone.
pub open spec fn filter_functional<F: Fn(u32) -> bool>(filter: F) -> bool {
    forall|id: u32, r: bool, s: bool| #[trigger]
        call_ensures(filter, (id,), r) && #[trigger] call_ensures(filter, (id,), s) ==> r == s
}

/// What is asked of a filter.
pub open spec fn filter_ok<F: Fn(u32) -> bool>(filter: F) -> bool {
    filter_total(filter) && filter_functional(filter)
}

/// The nodes that a filter lets through.
pub open spec fn filter_fn<F: Fn(u32) -> bool>(filter: F) -> spec_fn(u32) -> bool {
    |id: u32| call_ensures(filter, (id,), true)
}

/// Applies a filter.
pub fn passes<F: Fn(u32) -> bool>(filter: &F, id: u32) -> (r: bool)
    requires
        filter_ok(*filter),
    ensures
        r == filter_fn(*filter)(id),
{
    let r: bool = filter(id);
    assert(call_ensures(*filter, (id,), r));
    r
}

/// Tells which nodes a search may return.
pub trait NodeFilter: Sized {
    /// Every node can be asked about.
    spec fn usable(&self) -> bool;

    /// The node may be returned.
    spec fn admits(&self, id: u32) -> bool;

    fn check(&self, id: u32) -> (r: bool)
        requires
            self.usable(),
        ensures
            r == self.admits(id),
    ;
}

/// The nodes that a node filter lets through.
pub open spec fn admitted<P: NodeFilter>(filter: P) -> spec_fn(u32) -> bool {
    |id: u32| filter.admits(id)
}

/// Lets nodes through by their ids.
pub struct ByNode<'a, F> {
    pub filter: &'a F,
}

impl<'a, F: Fn(u32) -> bool> NodeFilter for ByNode<'a, F> {
    open spec fn usable(&self) -> bool {
        filter_ok(*self.filter)
    }

    open spec fn admits(&self, id: u32) -> bool {
        filter_fn(*self.filter)(id)
    }

    fn check(&self, id: u32) -> (r: bool) {
        passes(self.filter, id)
    }
}

/// Of the nodes seen, `picked` holds up to `k` that the filter lets through,
/// and no other one of them is nearer.
pub open spec fn filter_outcome(
    d: spec_fn(u32) -> u32,
    pass: spec_fn(u32) -> bool,
    k: nat,
    seen: Set<u32>,
    picked: Seq<Candidate>,
) -> bool {
    &&& sorted(picked)
    &&& distinct(picked)
    &&& picked.len() <= k
    &&& forall|i: int|
        0 <= i < picked.len() ==> {
            &&& seen.contains((#[trigger] picked[i]).node_id)
            &&& pass(picked[i].node_id)
            &&& picked[i].distance == d(picked[i].node_id)
        }
    &&& forall|id: u32| #[trigger]
        seen.contains(id) && pass(id) ==> holds(picked, id) || no_gain(picked, k, true, d(id))
}

/// What is picked when a search looks at the first of the links that it is
/// following: a node that it sees for the first time, if the filter lets it
/// through and there is room for it or it is nearer than the farthest picked.
pub open spec fn beam_picks(
    d: spec_fn(u32) -> u32,
    pass: spec_fn(u32) -> bool,
    k: nat,
    beam: Beam,
    before: Seq<Candidate>,
    after: Seq<Candidate>,
) -> bool {
    let id = beam.pending[0];
    if beam.pending.len() > 0 && !beam.seen.contains(id) && pass(id) && (before.len() < k
        || float_lt(d(id), before.last().distance)) {
        beam_takes(before, candidate_of(d, id), k, after)
    } else {
        after == before
    }
}

/// What has been picked at each of the states of a search.
pub open spec fn picks_along(
    d: spec_fn(u32) -> u32,
    pass: spec_fn(u32) -> bool,
    k: nat,
    states: Seq<Beam>,
    picks: Seq<Seq<Candidate>>,
) -> bool {
    &&& picks.len() == states.len()
    &&& lists(picks[0], d, Set::new(|id: u32| states[0].seen.contains(id) && pass(id)))
    &&& forall|i: int|
        0 <= i < states.len() - 1 ==> #[trigger] beam_picks(
            d,
            pass,
            k,
            states[i],
            picks[i],
            picks[i + 1],
        )
}

/// A filtered search comes to this state, with these nodes picked.
#[verifier::opaque]
pub open spec fn filter_comes_to(
    links: spec_fn(u32) -> Seq<u32>,
    d: spec_fn(u32) -> u32,
    starts: Seq<u32>,
    ef: nat,
    pass: spec_fn(u32) -> bool,
    k: nat,
    beam: Beam,
    picked: Seq<Candidate>,
) -> bool {
    exists|states: Seq<Beam>, picks: Seq<Seq<Candidate>>|
        {
            &&& #[trigger] beam_history(links, d, starts, ef, true, false, states)
            &&& #[trigger] picks_along(d, pass, k, states, picks)
            &&& states.last() == beam
            &&& picks.last() == picked
        }
}

/// A filtered search ends with these nodes seen, kept and picked. Where nodes
/// are equally far, its steps tell which of them it picked.
pub open spec fn filter_ends_with(
    links: spec_fn(u32) -> Seq<u32>,
    d: spec_fn(u32) -> u32,
    starts: Seq<u32>,
    ef: nat,
    pass: spec_fn(u32) -> bool,
    k: nat,
    seen: Set<u32>,
    kept: Seq<Candidate>,
    picked: Seq<Candidate>,
) -> bool {
    exists|last: Beam|
        {
            &&& #[trigger] filter_comes_to(links, d, starts, ef, pass, k, last, picked)
            &&& beam_ends(ef, last)
            &&& last.seen == seen
            &&& last.kept == kept
        }
}

proof fn lemma_filter_begin(
    links: spec_fn(u32) -> Seq<u32>,
    d: spec_fn(u32) -> u32,
    starts: Seq<u32>,
    ef: nat,
    pass: spec_fn(u32) -> bool,
    k: nat,
    beam: Beam,
    picked: Seq<Candidate>,
)
    requires
        beam_begins(d, starts, beam),
        lists(picked, d, Set::new(|id: u32| beam.seen.contains(id) && pass(id))),
    ensures
        filter_comes_to(links, d, starts, ef, pass, k, beam, picked),
{
    reveal(filter_comes_to);
    let states = seq![beam];
    let picks = seq![picked];
    assert(beam_history(links, d, starts, ef, true, false, states));
    assert(picks_along(d, pass, k, states, picks));
}

proof fn lemma_filter_step(
    links: spec_fn(u32) -> Seq<u32>,
    d: spec_fn(u32) -> u32,
    starts: Seq<u32>,
    ef: nat,
    pass: spec_fn(u32) -> bool,
    k: nat,
    before: Beam,
    after: Beam,
    picked: Seq<Candidate>,
    picked2: Seq<Candidate>,
)
    requires
        filter_comes_to(links, d, starts, ef, pass, k, before, picked),
        beam_steps(links, d, ef, true, false, before, after),
        beam_picks(d, pass, k, before, picked, picked2),
    ensures
        filter_comes_to(links, d, starts, ef, pass, k, after, picked2),
{
    reveal(filter_comes_to);
    let (states, picks) = choose|states: Seq<Beam>, picks: Seq<Seq<Candidate>>|
        {
            &&& #[trigger] beam_history(links, d, starts, ef, true, false, states)
            &&& #[trigger] picks_along(d, pass, k, states, picks)
            &&& states.last() == before
            &&& picks.last() == picked
        };
    let longer = states.push(after);
    let more = picks.push(picked2);
    assert(longer[0] == states[0] && more[0] == picks[0]);
    assert forall|i: int| 0 <= i < longer.len() - 1 implies beam_steps(
        links,
        d,
        ef,
        true,
        false,
        #[trigger] longer[i],
        longer[i + 1],
    ) by {
        assert(longer[i] == states[i]);
        if i < states.len() - 1 {
            assert(longer[i + 1] == states[i + 1]);
        }
    }
    assert forall|i: int| 0 <= i < longer.len() - 1 implies #[trigger] beam_picks(
        d,
        pass,
        k,
        longer[i],
        more[i],
        more[i + 1],
    ) by {
        assert(longer[i] == states[i] && more[i] == picks[i]);
        if i < states.len() - 1 {
            assert(beam_picks(d, pass, k, states[i], picks[i], picks[i + 1]));
        }
    }
    assert(beam_history(links, d, starts, ef, true, false, longer));
    assert(picks_along(d, pass, k, longer, more));
}

proof fn lemma_pick(
    d: spec_fn(u32) -> u32,
    pass: spec_fn(u32) -> bool,
    k: nat,
    seen: Set<u32>,
    picked: Seq<Candidate>,
    id: u32,
    picked1: Seq<Candidate>,
    picked2: Seq<Candidate>,
)
    requires
        filter_outcome(d, pass, k, seen, picked),
        !seen.contains(id),
        pass(id),
        k > 0,
        picked.len() < k || float_lt(d(id), picked.last().distance),
        inserted(picked, Candidate { node_id: id, distance: d(id) }, picked1),
        sorted(picked1),
        picked2 == (if picked1.len() > k { picked1.drop_last() } else { picked1 }),
    ensures
        filter_outcome(d, pass, k, seen.insert(id), picked2),
{
    let c = Candidate { node_id: id, distance: d(id) };
    let seen2 = seen.insert(id);
    lemma_inserted(picked, c, picked1);
    assert(!holds(picked, id)) by {
        if holds(picked, id) {
            let i = choose|i: int| 0 <= i < picked.len() && (#[trigger] picked[i]).node_id == id;
            assert(seen.contains(picked[i].node_id));
        }
    }
    if picked.len() >= k {
        lemma_inserted_last(picked, c, picked1);
    }
    assert forall|i: int| 0 <= i < picked2.len() implies {
        &&& seen2.contains((#[trigger] picked2[i]).node_id)
        &&& pass(picked2[i].node_id)
        &&& picked2[i].distance == d(picked2[i].node_id)
    } by {
        assert(picked2[i] == picked1[i]);
        if picked1[i] != c {
            assert(picked.contains(picked1[i]));
        }
    }
    assert(sorted(picked2)) by {
        assert forall|i: int, j: int| 0 <= i < j < picked2.len() implies ordered(
            #[trigger] picked2[i],
            #[trigger] picked2[j],
        ) by {
            assert(picked2[i] == picked1[i] && picked2[j] == picked1[j]);
        }
    }
    assert(distinct(picked2)) by {
        assert forall|i: int, j: int|
            0 <= i < picked2.len() && 0 <= j < picked2.len() && i != j implies (#[trigger] picked2[i]).node_id
            != (#[trigger] picked2[j]).node_id by {
            assert(picked2[i] == picked1[i] && picked2[j] == picked1[j]);
        }
    }
    assert forall|dist: u32| #[trigger] no_gain(picked, k, true, dist) implies no_gain(
        picked2,
        k,
        true,
        dist,
    ) by {
        assert(picked1.len() > k);
        assert(picked2.last() == picked1[picked1.len() - 2]);
        assert(ordered(picked1[picked1.len() - 2], picked1[picked1.len() - 1]));
    }
    assert forall|x: u32| #[trigger] seen2.contains(x) && pass(x) implies holds(picked2, x)
        || no_gain(picked2, k, true, d(x)) by {
        if holds(picked, x) || x == id {
            assert(holds(picked1, x));
            let i = choose|i: int| 0 <= i < picked1.len() && (#[trigger] picked1[i]).node_id == x;
            if i < picked2.len() {
                assert(picked2[i] == picked1[i]);
            } else {
                assert(picked2.last() == picked1[picked1.len() - 2]);
                assert(ordered(picked1[picked1.len() - 2], picked1[picked1.len() - 1]));
                assert(picked1[i].distance == d(x)) by {
                    if picked1[i] != c {
                        assert(picked.contains(picked1[i]));
                    }
                }
            }
        } else {
            assert(seen.contains(x));
        }
    }
}

proof fn lemma_skip(
    d: spec_fn(u32) -> u32,
    pass: spec_fn(u32) -> bool,
    k: nat,
    seen: Set<u32>,
    picked: Seq<Candidate>,
    id: u32,
)
    requires
        filter_outcome(d, pass, k, seen, picked),
        !pass(id) || no_gain(picked, k, true, d(id)),
    ensures
        filter_outcome(d, pass, k, seen.insert(id), picked),
{
    let seen2 = seen.insert(id);
    assert forall|x: u32| #[trigger] seen2.contains(x) && pass(x) implies holds(picked, x)
        || no_gain(picked, k, true, d(x)) by {
        if x != id {
            assert(seen.contains(x));
        }
    }
}

/// Searches level 0 with a beam of width `ef` that ignores the filter, and
/// picks from the nodes it sees the `k` nearest that the filter lets through.
/// Only the nodes below `limit` take part.
#[verifier::rlimit(40)]
pub fn filtered_beam_search<
    S: GraphStore,
    M: Fn(&[u32], &[u32]) -> u32,
    P: NodeFilter,
>(
    store: &S,
    metric: &M,
    query: &[u32],
    start: u32,
    ef: usize,
    k: usize,
    filter: &P,
    limit: usize,
) -> (picked: CandidateQueue)
    requires
        store.store_wf(),
        limit <= store.node_count(),
        links_below(*store, 0, limit as nat),
        metric_ok(*metric),
        filter.usable(),
        query@.len() == store.dim(),
        start < limit,
        k > 0,
    ensures
        picked.wf(),
        exists|seen: Set<u32>, tops: Seq<Candidate>|
            {
                &&& #[trigger] beam_outcome(
                    link_fn(*store, 0),
                    distance_fn(*store, *metric, query@),
                    seq![start],
                    ef as nat,
                    true,
                    false,
                    seen,
                    tops,
                )
                &&& filter_outcome(
                    distance_fn(*store, *metric, query@),
                    admitted(*filter),
                    k as nat,
                    seen,
                    picked@,
                )
                &&& filter_ends_with(
                    link_fn(*store, 0),
                    distance_fn(*store, *metric, query@),
                    seq![start],
                    ef as nat,
                    admitted(*filter),
                    k as nat,
                    seen,
                    tops,
                    picked@,
                )
                &&& forall|id: u32| #[trigger] seen.contains(id) ==> id < limit
            },
{
    let ghost links = link_fn(*store, 0);
    let ghost d = distance_fn(*store, *metric, query@);
    let ghost pass = admitted(*filter);
    let ghost count = limit as nat;
    let ghost none = Set::<u32>::empty();
    let ghost mut followed = Seq::<u32>::empty();
    let ghost starts = seq![start];
    proof {
        store.lemma_store();
    }
    let mut visited: VisitedList = VisitedList::new(limit);
    let mut frontier: CandidateQueue = CandidateQueue::new();
    let mut tops: CandidateQueue = CandidateQueue::new();
    let mut picked: CandidateQueue = CandidateQueue::new();
    let dist: u32 = distance_to(store, metric, query, start);
    let first: Candidate = Candidate::new(start, dist);
    let ghost empty = Seq::<Candidate>::empty();
    frontier.push(first);
    tops.push(first);
    let accepted: bool = filter.check(start);
    if accepted {
        picked.push(first);
    }
    visited.mark_visited(start);
    proof {
        tops.lemma_sorted();
        picked.lemma_sorted();
        assert(starts[0] == start);
        lemma_seed(
            links,
            d,
            starts,
            ef as nat,
            true,
            false,
            none,
            empty,
            empty,
            0,
            frontier@,
            tops@,
        );
        assert(filter_outcome(d, pass, k as nat, none, empty));
        if accepted {
            lemma_pick(d, pass, k as nat, none, empty, start, picked@, picked@);
        } else {
            lemma_skip(d, pass, k as nat, none, empty, start);
        }
        lemma_bounded_set(visited@, count);
        lemma_reached_first(links, starts, visited@);
    }
    proof {
        let beam = Beam {
            seen: visited@,
            open: frontier@,
            kept: tops@,
            pending: Seq::<u32>::empty(),
        };
        frontier.lemma_sorted();
        tops.lemma_sorted();
        assert(lists(beam.open, d, beam.seen));
        assert(lists(beam.kept, d, beam.seen));
        lemma_begin(links, d, starts, ef as nat, true, false, beam);
        let passing = Set::new(|id: u32| beam.seen.contains(id) && pass(id));
        picked.lemma_sorted();
        assert(lists(picked@, d, passing));
        lemma_filter_begin(links, d, starts, ef as nat, pass, k as nat, beam, picked@);
    }
    let mut open: bool = true;
    while open
        invariant
            store.store_wf(),
            limit <= store.node_count(),
            links_below(*store, 0, limit as nat),
            metric_ok(*metric),
            filter.usable(),
            query@.len() == store.dim(),
            k > 0,
            store.node_count() <= usize::MAX,
            links == link_fn(*store, 0),
            d == distance_fn(*store, *metric, query@),
            pass == admitted(*filter),
            starts == seq![start],
            count == limit as nat,
            count <= store.node_count(),
            visited.wf(),
            frontier.wf(),
            tops.wf(),
            picked.wf(),
            visited@.finite(),
            visited@.len() <= count,
            visited@.contains(start),
            forall|id: u32| #[trigger] visited@.contains(id) ==> id < count,
            filter_outcome(d, pass, k as nat, visited@, picked@),
            open ==> beam_state(
                links,
                d,
                starts,
                ef as nat,
                true,
                false,
                visited@,
                frontier@,
                tops@,
                followed,
            ),
            open ==> search_path(links, d, starts, ef as nat, true, false, followed),
            open ==> visited@ == reached(links, starts, followed),
            open ==> beam_comes_to(
                links,
                d,
                starts,
                ef as nat,
                true,
                false,
                Beam {
                    seen: visited@,
                    open: frontier@,
                    kept: tops@,
                    pending: Seq::empty(),
                },
            ),
            open ==> filter_comes_to(
                links,
                d,
                starts,
                ef as nat,
                pass,
                k as nat,
                Beam {
                    seen: visited@,
                    open: frontier@,
                    kept: tops@,
                    pending: Seq::empty(),
                },
                picked@,
            ),
            !open ==> filter_ends_with(
                links,
                d,
                starts,
                ef as nat,
                pass,
                k as nat,
                visited@,
                tops@,
                picked@,
            ),
            !open ==> beam_outcome(links, d, starts, ef as nat, true, false, visited@, tops@),
        decreases (count - visited@.len()) + frontier@.len(), open as int,
    {
        let ghost frontier0 = frontier@;
        let ghost measure0 = (count - visited@.len()) + frontier@.len();
        proof {
            frontier.lemma_sorted();
            tops.lemma_sorted();
        }
        match frontier.pop_nearest() {
            None => {
                proof {
                    lemma_stop(
                        links,
                        d,
                        starts,
                        ef as nat,
                        true,
                        false,
                        visited@,
                        frontier0,
                        tops@,
                        followed,
                    );
                }
                open = false;
            },
            Some(current) => {
                proof {
                    assert(visited@.contains(frontier0[0].node_id));
                    assert(visited@.len() > 0) by {
                        if visited@.len() == 0 {
                            assert(visited@ =~= Set::<u32>::empty());
                        }
                    }
                }
                let full: bool = tops.len() >= ef;
                let far: Candidate = match tops.farthest() {
                    Some(c) => c,
                    None => current,
                };
                if full && float_rank(current.distance) > float_rank(far.distance) {
                    proof {
                        lemma_stop(
                            links,
                            d,
                            starts,
                            ef as nat,
                            true,
                            false,
                            visited@,
                            frontier0,
                            tops@,
                            followed,
                        );
                    }
                    open = false;
                } else {
                    proof {
                        lemma_take(
                            links,
                            d,
                            starts,
                            ef as nat,
                            true,
                            false,
                            visited@,
                            frontier0,
                            tops@,
                            followed,
                        );
                    }
                    let ghost followed0 = followed;
                    let ghost seen0 = visited@;
                    proof {
                        lemma_reached_grows(links, starts, followed, current.node_id);
                        followed = followed.push(current.node_id);
                    }
                    proof {
                        lemma_step(
                            links,
                            d,
                            starts,
                            ef as nat,
                            true,
                            false,
                            Beam {
                                seen: visited@,
                                open: frontier0,
                                kept: tops@,
                                pending: Seq::empty(),
                            },
                            Beam {
                                seen: visited@,
                                open: frontier@,
                                kept: tops@,
                                pending: links(current.node_id),
                            },
                        );
                        lemma_filter_step(
                            links,
                            d,
                            starts,
                            ef as nat,
                            pass,
                            k as nat,
                            Beam {
                                seen: visited@,
                                open: frontier0,
                                kept: tops@,
                                pending: Seq::empty(),
                            },
                            Beam {
                                seen: visited@,
                                open: frontier@,
                                kept: tops@,
                                pending: links(current.node_id),
                            },
                            picked@,
                            picked@,
                        );
                    }
                    let list: Vec<u32> = store.links_of(current.node_id, 0);
                    let mut i: usize = 0;
                    assert(list@.skip(0) =~= list@);
                    while i < list.len()
                        invariant
                            store.store_wf(),
                            limit <= store.node_count(),
                            links_below(*store, 0, limit as nat),
                            metric_ok(*metric),
                            filter.usable(),
                            query@.len() == store.dim(),
                            k > 0,
                            store.node_count() <= usize::MAX,
                            links == link_fn(*store, 0),
                            d == distance_fn(*store, *metric, query@),
                            pass == admitted(*filter),
                            count == limit as nat,
                            count <= store.node_count(),
                            i <= list@.len(),
                            current.node_id < count,
                            list@ == store.links_at(current.node_id, 0),
                            list@ == links(current.node_id),
                            visited.wf(),
                            frontier.wf(),
                            tops.wf(),
                            picked.wf(),
                            visited@.finite(),
                            visited@.len() <= count,
                            visited@.contains(start),
                            visited@.contains(current.node_id),
                            tops@.len() > 0,
                            forall|id: u32| #[trigger] visited@.contains(id) ==> id < count,
                            forall|j: int|
                                0 <= j < i ==> visited@.contains(
                                    #[trigger] links(current.node_id)[j],
                                ),
                            filter_outcome(d, pass, k as nat, visited@, picked@),
                            beam_state(
                                links,
                                d,
                                starts,
                                ef as nat,
                                true,
                                false,
                                visited@,
                                frontier@,
                                tops@,
                                followed,
                            ),
                            beam_comes_to(
                                links,
                                d,
                                starts,
                                ef as nat,
                                true,
                                false,
                                Beam {
                                    seen: visited@,
                                    open: frontier@,
                                    kept: tops@,
                                    pending: list@.skip(i as int),
                                },
                            ),
                            filter_comes_to(
                                links,
                                d,
                                starts,
                                ef as nat,
                                pass,
                                k as nat,
                                Beam {
                                    seen: visited@,
                                    open: frontier@,
                                    kept: tops@,
                                    pending: list@.skip(i as int),
                                },
                                picked@,
                            ),
                            followed == followed0.push(current.node_id),
                            seen0 == reached(links, starts, followed0),
                            seen0.subset_of(visited@),
                            visited@.subset_of(reached(links, starts, followed)),
                            (count - visited@.len()) + frontier@.len() <= measure0 - 1,
                        decreases list.len() - i,
                    {
                        let id: u32 = list[i];
                        let ghost looking = Beam {
                            seen: visited@,
                            open: frontier@,
                            kept: tops@,
                            pending: list@.skip(i as int),
                        };
                        let ghost rest = list@.skip(i + 1);
                        assert(looking.pending.drop_first() =~= rest);
                        assert(looking.pending[0] == id);
                        assert(store.links_at(current.node_id, 0)[i as int] < count);
                        if !visited.is_visited(id) {
                            let ghost frontier1 = frontier@;
                            let ghost tops1 = tops@;
                            let ghost picked1 = picked@;
                            let ghost seen1 = visited@;
                            visited.mark_visited(id);
                            let dist: u32 = distance_to(store, metric, query, id);
                            let c: Candidate = Candidate::new(id, dist);
                            let far: Candidate = match tops.farthest() {
                                Some(c) => c,
                                None => current,
                            };
                            proof {
                                assert forall|s: Set<u32>| #[trigger]
                                    link_closed(links, starts, s) implies s.contains(id) by {
                                    assert(seen1.subset_of(s));
                                    assert(s.contains(links(current.node_id)[i as int]));
                                }
                                lemma_bounded_set(visited@, count);
                                lemma_looked(
                                    links,
                                    starts,
                                    followed0,
                                    current.node_id,
                                    seen1,
                                    i as int,
                                );
                            }
                            if tops.len() < ef || less(dist, far.distance) {
                                frontier.push(c);
                                tops.push(c);
                                let ghost tops2 = tops@;
                                proof {
                                    frontier.lemma_sorted();
                                    tops.lemma_sorted();
                                }
                                if tops.len() > ef {
                                    let _ = tops.pop_farthest();
                                }
                                proof {
                                    lemma_joins(
                                        links,
                                        d,
                                        starts,
                                        ef as nat,
                                        true,
                                        false,
                                        looking,
                                        Beam {
                                            seen: visited@,
                                            open: frontier@,
                                            kept: tops@,
                                            pending: rest,
                                        },
                                        tops2,
                                    );
                                    lemma_admit(
                                        links,
                                        d,
                                        starts,
                                        ef as nat,
                                        true,
                                        false,
                                        seen1,
                                        frontier1,
                                        tops1,
                                        followed,
                                        id,
                                        frontier@,
                                        tops2,
                                        tops@,
                                    );
                                }
                            } else {
                                proof {
                                    lemma_leaves(
                                        links,
                                        d,
                                        starts,
                                        ef as nat,
                                        true,
                                        false,
                                        looking,
                                        Beam {
                                            seen: visited@,
                                            open: frontier@,
                                            kept: tops@,
                                            pending: rest,
                                        },
                                    );
                                    lemma_reject(
                                        links,
                                        d,
                                        starts,
                                        ef as nat,
                                        true,
                                        false,
                                        seen1,
                                        frontier1,
                                        tops1,
                                        followed,
                                        id,
                                    );
                                }
                            }
                            let ghost looked = Beam {
                                seen: visited@,
                                open: frontier@,
                                kept: tops@,
                                pending: rest,
                            };
                            let accepted: bool = filter.check(id);
                            let room: bool = picked.len() < k;
                            let worst: Candidate = match picked.farthest() {
                                Some(c) => c,
                                None => c,
                            };
                            if accepted && (room || less(dist, worst.distance)) {
                                picked.push(c);
                                let ghost picked2 = picked@;
                                proof {
                                    picked.lemma_sorted();
                                }
                                if picked.len() > k {
                                    let _ = picked.pop_farthest();
                                }
                                proof {
                                    assert(beam_takes(picked1, c, k as nat, picked@));
                                    lemma_filter_step(
                                        links,
                                        d,
                                        starts,
                                        ef as nat,
                                        pass,
                                        k as nat,
                                        looking,
                                        looked,
                                        picked1,
                                        picked@,
                                    );
                                    lemma_pick(
                                        d,
                                        pass,
                                        k as nat,
                                        seen1,
                                        picked1,
                                        id,
                                        picked2,
                                        picked@,
                                    );
                                }
                            } else {
                                proof {
                                    lemma_filter_step(
                                        links,
                                        d,
                                        starts,
                                        ef as nat,
                                        pass,
                                        k as nat,
                                        looking,
                                        looked,
                                        picked1,
                                        picked@,
                                    );
                                    lemma_skip(d, pass, k as nat, seen1, picked1, id);
                                }
                            }
                        } else {
                            proof {
                                assert(visited@.insert(id) =~= visited@);
                                lemma_leaves(
                                    links,
                                    d,
                                    starts,
                                    ef as nat,
                                    true,
                                    false,
                                    looking,
                                    Beam {
                                        seen: visited@,
                                        open: frontier@,
                                        kept: tops@,
                                        pending: rest,
                                    },
                                );
                                lemma_filter_step(
                                    links,
                                    d,
                                    starts,
                                    ef as nat,
                                    pass,
                                    k as nat,
                                    looking,
                                    Beam {
                                        seen: visited@,
                                        open: frontier@,
                                        kept: tops@,
                                        pending: rest,
                                    },
                                    picked@,
                                    picked@,
                                );
                            }
                        }
                        i += 1;
                    }
                    assert(list@.skip(i as int) =~= Seq::empty());
                    proof {
                        lemma_followed(
                            links,
                            starts,
                            followed0,
                            current.node_id,
                            visited@,
                        );
                    }
                }
            },
        }
    }
    proof {
        assert(beam_outcome(links, d, starts, ef as nat, true, false, visited@, tops@));
    }
    picked
}

} // verus!
