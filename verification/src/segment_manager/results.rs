//! Results of several segments as one.

use vstd::prelude::*;

use crate::distance::{float_lt, is_nan, less, rank};
use crate::index::insert::at_most;
use crate::segment::SegmentSearchResult;

verus! {

/// Where a result belongs among those before it: behind the last one that it
/// is not nearer than. A NaN is neither nearer nor farther than anything.
pub open spec fn place(s: Seq<SegmentSearchResult>, x: SegmentSearchResult) -> int
    decreases s.len(),
{
    if s.len() == 0 {
        0
    } else if !float_lt(x.distance, s.last().distance) {
        s.len() as int
    } else {
        place(s.drop_last(), x)
    }
}

/// Results by distance, the nearest first; each takes its place in turn, and
/// those of which neither is nearer stay in their order.
pub open spec fn by_distance(s: Seq<SegmentSearchResult>) -> Seq<SegmentSearchResult>
    decreases s.len(),
{
    if s.len() == 0 {
        Seq::empty()
    } else {
        let front = by_distance(s.drop_last());
        front.insert(place(front, s.last()), s.last())
    }
}

/// Every distance is a number.
pub open spec fn comparable(s: Seq<SegmentSearchResult>) -> bool {
    forall|i: int| 0 <= i < s.len() ==> !is_nan((#[trigger] s[i]).distance)
}

/// The nearest come first.
pub open spec fn nearest_first(s: Seq<SegmentSearchResult>) -> bool {
    forall|i: int, j: int|
        0 <= i <= j < s.len() ==> rank((#[trigger] s[i]).distance) <= rank(
            (#[trigger] s[j]).distance,
        )
}

proof fn lemma_place(s: Seq<SegmentSearchResult>, x: SegmentSearchResult)
    ensures
        0 <= place(s, x) <= s.len(),
        place(s, x) > 0 ==> !float_lt(x.distance, s[place(s, x) - 1].distance),
        forall|i: int|
            place(s, x) <= i < s.len() ==> float_lt(x.distance, (#[trigger] s[i]).distance),
    decreases s.len(),
{
    if s.len() > 0 && float_lt(x.distance, s.last().distance) {
        let front = s.drop_last();
        lemma_place(front, x);
        assert forall|i: int| place(s, x) <= i < s.len() implies float_lt(
            x.distance,
            (#[trigger] s[i]).distance,
        ) by {
            if i < front.len() {
                assert(front[i] == s[i]);
            }
        }
    }
}

/// Sorting by distance loses and invents nothing.
pub proof fn law_by_distance(s: Seq<SegmentSearchResult>)
    ensures
        by_distance(s).to_multiset() == s.to_multiset(),
        by_distance(s).len() == s.len(),
    decreases s.len(),
{
    broadcast use vstd::seq_lib::group_to_multiset_ensures;

    if s.len() > 0 {
        let x = s.last();
        let front = by_distance(s.drop_last());
        law_by_distance(s.drop_last());
        lemma_place(front, x);
        let p = place(front, x);
        let all = front.insert(p, x);
        assert(all.to_multiset() == front.to_multiset().insert(x)) by {
            broadcast use vstd::multiset::group_multiset_axioms;

            assert(all.remove(p) =~= front);
            assert(all[p] == x);
            assert(all.to_multiset().count(x) > 0) by {
                assert(all.contains(x));
            }
            assert(all.to_multiset().remove(x).insert(x) =~= all.to_multiset());
        }
        assert(s =~= s.drop_last().push(x));
    }
}

/// Sorting by distance puts the nearest first, where all distances are numbers.
pub proof fn law_nearest_first(s: Seq<SegmentSearchResult>)
    requires
        comparable(s),
    ensures
        nearest_first(by_distance(s)),
        comparable(by_distance(s)),
    decreases s.len(),
{
    if s.len() > 0 {
        let x = s.last();
        let shorter = s.drop_last();
        let front = by_distance(shorter);
        assert(comparable(shorter)) by {
            assert forall|i: int| 0 <= i < shorter.len() implies !is_nan(
                (#[trigger] shorter[i]).distance,
            ) by {
                assert(shorter[i] == s[i]);
            }
        }
        law_nearest_first(shorter);
        lemma_place(front, x);
        let p = place(front, x);
        let all = front.insert(p, x);
        assert forall|i: int| 0 <= i < all.len() implies !is_nan((#[trigger] all[i]).distance) by {
            if i != p {
                assert(all[i] == front[if i < p { i } else { i - 1 }]);
            }
        }
        assert forall|i: int, j: int| 0 <= i <= j < all.len() implies rank(
            (#[trigger] all[i]).distance,
        ) <= rank((#[trigger] all[j]).distance) by {
            let i2 = if i < p { i } else { i - 1 };
            let j2 = if j < p { j } else { j - 1 };
            if i != p && j != p {
                assert(all[i] == front[i2] && all[j] == front[j2]);
                assert(rank(front[i2].distance) <= rank(front[j2].distance));
            } else if i == p && j != p {
                assert(all[j] == front[j2]);
            } else if i != p && j == p {
                assert(all[i] == front[i2]);
                assert(rank(front[i2].distance) <= rank(front[p - 1].distance));
            }
        }
    }
}

/// Results of which none is nearer than another stay in their order.
pub proof fn law_order_kept(s: Seq<SegmentSearchResult>)
    requires
        forall|i: int, j: int|
            0 <= i < s.len() && 0 <= j < s.len() ==> !float_lt(
                (#[trigger] s[i]).distance,
                (#[trigger] s[j]).distance,
            ),
    ensures
        by_distance(s) == s,
    decreases s.len(),
{
    if s.len() > 0 {
        let shorter = s.drop_last();
        assert forall|i: int, j: int|
            0 <= i < shorter.len() && 0 <= j < shorter.len() implies !float_lt(
            (#[trigger] shorter[i]).distance,
            (#[trigger] shorter[j]).distance,
        ) by {
            assert(shorter[i] == s[i] && shorter[j] == s[j]);
        }
        law_order_kept(shorter);
        if shorter.len() > 0 {
            assert(!float_lt(s[s.len() - 1].distance, s[s.len() - 2].distance));
        }
        assert(by_distance(s) =~= s);
    } else {
        assert(by_distance(s) =~= s);
    }
}

/// The `k` nearest of some results: where all distances are numbers, none that
/// is left out is nearer than one that is kept.
pub proof fn law_nearest_results(s: Seq<SegmentSearchResult>, k: nat, i: int, j: int)
    requires
        comparable(s),
        0 <= i < k <= j < s.len(),
    ensures
        rank(at_most(by_distance(s), k)[i].distance) <= rank(by_distance(s)[j].distance),
        at_most(by_distance(s), k).len() == k,
{
    law_by_distance(s);
    law_nearest_first(s);
    assert(at_most(by_distance(s), k)[i] == by_distance(s)[i]);
    assert(rank(by_distance(s)[i].distance) <= rank(by_distance(s)[j].distance));
}

/// Sorts results by distance and keeps the `k` nearest.
pub fn sort_and_cut(results: Vec<SegmentSearchResult>, k: usize) -> (r: Vec<SegmentSearchResult>)
    ensures
        r@ == at_most(by_distance(results@), k as nat),
{
    let mut out: Vec<SegmentSearchResult> = Vec::new();
    let mut i: usize = 0;
    assert(results@.take(0) =~= Seq::<SegmentSearchResult>::empty());
    while i < results.len()
        invariant
            i <= results@.len(),
            out@ == by_distance(results@.take(i as int)),
        decreases results.len() - i,
    {
        let x: SegmentSearchResult = results[i];
        let ghost front = out@;
        let mut p: usize = out.len();
        assert(front.take(p as int) =~= front);
        while p > 0 && less(x.distance, out[p - 1].distance)
            invariant
                p <= out@.len(),
                out@ == front,
                place(front, x) == place(front.take(p as int), x),
            ensures
                p <= out@.len(),
                out@ == front,
                p == place(front, x),
            decreases p,
        {
            assert(front.take(p as int).drop_last() =~= front.take(p - 1));
            assert(front.take(p as int).last() == front[p - 1]);
            p -= 1;
        }
        out.insert(p, x);
        proof {
            let longer = results@.take(i + 1);
            assert(longer.drop_last() =~= results@.take(i as int));
            assert(longer.last() == x);
        }
        i += 1;
    }
    assert(results@.take(i as int) =~= results@);
    if out.len() > k {
        out.truncate(k);
    }
    assert(out@ =~= at_most(by_distance(results@), k as nat));
    out
}

} // verus!
