//! Buffers of a search.

use omendb_hnsw::query_buffers::{SearchWorkset, VisitedList};
use omendb_hnsw::types::Candidate;

fn candidate(id: u32, distance: f32) -> Candidate {
    Candidate::new(id, distance.to_bits())
}

fn pairs(output: Vec<(u32, u32)>) -> Vec<(u32, f32)> {
    output.into_iter().map(|(id, d)| (id, f32::from_bits(d))).collect()
}

#[test]
fn test_visited_list_basic() {
    let mut visited = VisitedList::new();

    assert!(!visited.contains(0));
    assert!(!visited.contains(100));

    visited.insert(42);
    assert!(visited.contains(42));
    assert!(!visited.contains(0));

    visited.insert(100);
    assert!(visited.contains(42));
    assert!(visited.contains(100));
}

#[test]
fn test_visited_list_clear() {
    let mut visited = VisitedList::new();

    visited.insert(1);
    visited.insert(2);
    visited.insert(3);

    assert!(visited.contains(1));
    assert!(visited.contains(2));
    assert!(visited.contains(3));

    visited.clear();

    assert!(!visited.contains(1));
    assert!(!visited.contains(2));
    assert!(!visited.contains(3));

    visited.insert(1);
    assert!(visited.contains(1));
    assert!(!visited.contains(2));
}

#[test]
fn test_visited_list_generation_reuse() {
    let mut visited = VisitedList::new();

    for _ in 0..10 {
        visited.insert(42);
        assert!(visited.contains(42));
        visited.clear();
        assert!(!visited.contains(42));
    }
}

#[test]
fn a_visited_list_knows_that_it_is_empty() {
    let mut visited = VisitedList::default();
    assert!(visited.is_empty());
    visited.insert(3);
    assert!(!visited.is_empty());
    visited.clear();
    assert!(visited.is_empty());
}

#[test]
fn test_search_workset_creation() {
    let workset = SearchWorkset::new();
    assert!(workset.visited.is_empty());
    assert!(workset.is_empty());
    assert!(workset.neighbors.is_empty());
}

#[test]
fn test_search_workset_clear() {
    let mut workset = SearchWorkset::new();

    workset.record_visited(1);
    workset.neighbors.push(0);
    workset.seed(candidate(42, 1.0));

    workset.clear();

    assert!(!workset.visited.contains(1));
    assert!(workset.neighbors.is_empty());
    assert!(workset.is_empty());
}

#[test]
fn finalize_uses_partial_sort_for_top_k() {
    let mut workset = SearchWorkset::new();
    for c in [
        candidate(10, 9.0),
        candidate(11, 1.0),
        candidate(12, 8.0),
        candidate(13, 2.0),
        candidate(14, 7.0),
        candidate(15, 3.0),
        candidate(16, 6.0),
        candidate(17, 4.0),
        candidate(18, 5.0),
    ] {
        workset.seed(c);
    }

    let output = pairs(workset.finalize(2));

    assert_eq!(output, vec![(11, 1.0), (13, 2.0)]);
}

#[test]
fn finalize_keeps_full_order_when_small() {
    let mut workset = SearchWorkset::new();
    for c in [candidate(10, 3.0), candidate(11, 1.0), candidate(12, 2.0)] {
        workset.seed(c);
    }

    let output = pairs(workset.finalize(3));

    assert_eq!(output, vec![(11, 1.0), (12, 2.0), (10, 3.0)]);
}

#[test]
fn nothing_comes_of_a_limit_of_zero() {
    let mut workset = SearchWorkset::new();
    assert!(workset.finalize(5).is_empty());
    workset.seed(candidate(1, 1.0));
    assert!(workset.finalize(0).is_empty());
    assert_eq!(pairs(workset.finalize(5)), vec![(1, 1.0)]);
}

#[test]
fn only_the_nearest_are_accepted() {
    let mut workset = SearchWorkset::new();
    workset.consider(candidate(1, 5.0), 2);
    workset.consider(candidate(2, 3.0), 2);
    workset.consider(candidate(3, 4.0), 2);
    workset.consider(candidate(4, 9.0), 2);
    assert!(workset.should_stop(candidate(9, 4.5)));
    assert!(!workset.should_stop(candidate(9, 4.0)));
    assert_eq!(pairs(workset.finalize(10)), vec![(2, 3.0), (3, 4.0)]);
    assert_eq!(workset.pop_frontier(), Some(candidate(2, 3.0)));
    assert_eq!(workset.pop_frontier(), Some(candidate(3, 4.0)));
    assert_eq!(workset.pop_frontier(), Some(candidate(1, 5.0)));
    assert_eq!(workset.pop_frontier(), None);
}

#[test]
fn buffers_are_lent_and_given_back() {
    let mut workset = SearchWorkset::new();
    {
        let (visited, neighbors) = workset.entry_buffers();
        visited.insert(7);
        neighbors.push(8);
    }
    assert!(!workset.record_visited(7));
    assert!(workset.record_visited(6));
    {
        let (visited, neighbors) = workset.collector_buffers();
        assert!(visited.contains(7));
        neighbors.push(9);
    }
    let taken = workset.take_neighbors();
    assert_eq!(taken, vec![8, 9]);
    assert!(workset.neighbors.is_empty());
    workset.restore_neighbors(taken);
    assert_eq!(workset.neighbors, vec![8, 9]);
    workset.restore_batch_distances(vec![1, 2]);
    workset.clear();
    assert_eq!(workset.take_batch_distances(), vec![1, 2]);
    assert!(workset.take_batch_distances().is_empty());
}
