//! Lists of neighbours, flat matrices and vectors.

use omendb_hnsw::frozen_lists::FrozenNeighborLists;
use omendb_hnsw::graph_storage::GraphStorage;
use omendb_hnsw::neighbor_codes::NeighborCodeStorage;
use omendb_hnsw::neighbor_lists::NeighborLists;
use omendb_hnsw::node_storage::quantization::QuantizedVector;
use omendb_hnsw::node_storage::ScalarParams;
use omendb_hnsw::storage::{HNSWStorage, NeighborMatrix};
use omendb_hnsw::vector_storage::{VectorStorage, VectorStorageError};

fn bits(values: &[f32]) -> Vec<u32> {
    values.iter().map(|v| v.to_bits()).collect()
}

fn squared_norm(v: &[u32]) -> u32 {
    v.iter().map(|x| f32::from_bits(*x).powi(2)).sum::<f32>().to_bits()
}

fn train(samples: &Vec<Vec<u32>>) -> Option<ScalarParams> {
    let values: Vec<f32> = samples.iter().flatten().map(|x| f32::from_bits(*x)).collect();
    let low = values.iter().copied().fold(f32::MAX, f32::min);
    let high = values.iter().copied().fold(f32::MIN, f32::max);
    Some(ScalarParams {
        scale: ((high - low) / 255.0).to_bits(),
        offset: low.to_bits(),
        dimensions: samples[0].len(),
    })
}

fn quantize(params: ScalarParams, v: &[u32]) -> QuantizedVector {
    let scale = f32::from_bits(params.scale);
    let offset = f32::from_bits(params.offset);
    let data: Vec<u8> =
        v.iter().map(|x| ((f32::from_bits(*x) - offset) / scale).round() as u8).collect();
    let sum = data.iter().map(|c| *c as i32).sum();
    QuantizedVector { data, norm_sq: squared_norm(v), sum }
}

fn dequantize(params: ScalarParams, codes: &[u8]) -> Vec<u32> {
    let scale = f32::from_bits(params.scale);
    let offset = f32::from_bits(params.offset);
    codes.iter().map(|c| (*c as f32 * scale + offset).to_bits()).collect()
}

fn untrained(dimensions: usize) -> ScalarParams {
    ScalarParams { scale: 1.0f32.to_bits(), offset: 0.0f32.to_bits(), dimensions }
}

#[test]
fn test_graph_storage_new() {
    let storage = GraphStorage::new(8);
    assert_eq!(storage.m_max(), 32);
    assert!(!storage.is_frozen());
}

#[test]
fn test_graph_storage_get_set_neighbors() {
    let mut storage = GraphStorage::new(8);

    storage.set_neighbors(0, 0, vec![1, 2, 3]);
    storage.set_neighbors(0, 1, vec![4, 5]);

    assert_eq!(storage.get_neighbors(0, 0), vec![1, 2, 3]);
    assert_eq!(storage.get_neighbors(0, 1), vec![4, 5]);
    assert_eq!(storage.get_neighbors(99, 0), Vec::<u32>::new());
}

#[test]
fn test_graph_storage_add_bidirectional_link() {
    let mut storage = GraphStorage::new(8);

    storage.add_bidirectional_link(0, 1, 0);

    let neighbors_0 = storage.get_neighbors(0, 0);
    let neighbors_1 = storage.get_neighbors(1, 0);

    assert!(neighbors_0.contains(&1));
    assert!(neighbors_1.contains(&0));
}

#[test]
fn test_graph_storage_freeze() {
    let mut storage = GraphStorage::new(8);
    storage.set_neighbors(0, 0, vec![1, 2, 3]);
    storage.set_neighbors(1, 0, vec![0, 2]);

    assert!(!storage.is_frozen());

    storage.freeze();
    assert!(storage.is_frozen());

    assert_eq!(storage.get_neighbors(0, 0), vec![1, 2, 3]);
    assert_eq!(storage.get_neighbors(1, 0), vec![0, 2]);

    storage.with_neighbors(0, 0, |neighbors: &[u32]| {
        assert_eq!(neighbors, &[1, 2, 3]);
    });
}

#[test]
fn test_graph_storage_unfreeze() {
    let mut storage = GraphStorage::new(8);
    storage.set_neighbors(0, 0, vec![1, 2, 3]);

    storage.freeze();
    assert!(storage.is_frozen());

    storage.unfreeze();
    assert!(!storage.is_frozen());

    storage.set_neighbors(0, 0, vec![1, 2, 3, 4]);
    assert_eq!(storage.get_neighbors(0, 0), vec![1, 2, 3, 4]);
}

#[test]
fn a_thawed_graph_has_the_same_bound() {
    let mut storage = GraphStorage::new(8);
    storage.set_neighbors(0, 0, vec![1, 2, 3]);
    storage.set_neighbors(1, 2, vec![0]);
    storage.freeze();
    assert_eq!(storage.m_max(), 32);
    storage.unfreeze();
    assert_eq!(storage.m_max(), 32);
    assert_eq!(storage.get_neighbors(1, 2), vec![0]);
}

#[test]
fn links_are_counted_over_all_levels() {
    let mut lists = NeighborLists::new(8);
    lists.set_neighbors(0, 0, vec![1, 2, 3]);
    lists.set_neighbors(0, 2, vec![4]);
    lists.set_neighbors(3, 1, vec![5, 6]);
    assert_eq!(lists.total_neighbors(), 6);
    let mut storage = GraphStorage::from_neighbor_lists(lists);
    storage.freeze();
    assert_eq!(storage.total_neighbors(), 6);
    storage.unfreeze();
    assert_eq!(storage.total_neighbors(), 6);
}

#[test]
fn frozen_lists_can_be_saved_as_lists() {
    let mut storage = GraphStorage::new(2);
    storage.set_neighbors(0, 0, vec![1]);
    storage.set_neighbors(1, 1, vec![0]);
    storage.freeze();
    assert_eq!(storage.total_neighbors(), 2);
    assert_eq!(storage.num_nodes(), 2);
    let lists = storage.get_neighbor_lists_for_save();
    assert_eq!(lists.get_neighbors(0, 0), vec![1]);
    assert_eq!(lists.get_neighbors(1, 1), vec![0]);
    let again = GraphStorage::from_neighbor_lists(lists);
    assert!(!again.is_frozen());
    assert_eq!(again.get_neighbors(1, 1), vec![0]);
}

#[test]
fn test_neighbor_lists_basic() {
    let mut lists = NeighborLists::new(8);

    lists.set_neighbors(0, 0, vec![1, 2, 3]);

    let neighbors = lists.get_neighbors(0, 0);
    assert_eq!(neighbors, &[1, 2, 3]);

    let empty = lists.get_neighbors(0, 1);
    assert_eq!(empty.len(), 0);
}

#[test]
fn test_neighbor_lists_bidirectional() {
    let mut lists = NeighborLists::new(8);

    lists.add_bidirectional_link(0, 1, 0);

    assert_eq!(lists.get_neighbors(0, 0), &[1]);
    assert_eq!(lists.get_neighbors(1, 0), &[0]);
}

#[test]
fn links_of_a_node_to_itself_and_repeated_links_are_left_out() {
    let mut lists = NeighborLists::new(2);
    lists.add_bidirectional_link(0, 1, 0);
    lists.add_bidirectional_link(1, 0, 0);
    lists.add_bidirectional_link(2, 2, 0);
    assert_eq!(lists.get_neighbors(0, 0), vec![1]);
    assert_eq!(lists.get_neighbors(1, 0), vec![0]);
    lists.remove_link_parallel(0, 1, 0);
    assert!(lists.get_neighbors(0, 0).is_empty());
    assert_eq!(lists.get_neighbors(1, 0), vec![0]);
}

#[test]
fn breadth_first_order_relabels_the_lists() {
    let mut lists = NeighborLists::new(1);
    lists.add_bidirectional_link(0, 2, 0);
    lists.add_bidirectional_link(2, 1, 0);
    let places = lists.reorder_bfs(2, 0);
    assert_eq!(places[2], 0);
    let of_entry = lists.get_neighbors(0, 0);
    assert_eq!(of_entry.len(), 2);
    assert!(of_entry.contains(&places[0]));
    assert!(of_entry.contains(&places[1]));
    assert_eq!(lists.get_neighbors(places[0], 0), vec![0]);
}

#[test]
fn frozen_lists_stand_one_behind_the_other() {
    let mut lists = NeighborLists::new(2);
    lists.set_neighbors(0, 0, vec![5, 6]);
    lists.set_neighbors(1, 1, vec![7]);
    let frozen: FrozenNeighborLists = lists.freeze();
    assert_eq!(frozen.num_nodes(), 2);
    assert_eq!(frozen.max_levels(), 2);
    assert_eq!(frozen.m_max(), lists.m_max());
    assert_eq!(frozen.total_neighbors(), 3);
    assert_eq!(frozen.get_neighbors(0, 0), &[5, 6]);
    assert_eq!(frozen.get_neighbors(1, 1), &[7]);
    assert!(frozen.get_neighbors(1, 0).is_empty());
    assert!(frozen.get_neighbors(9, 0).is_empty());
    assert_eq!(frozen.with_neighbors(0, 0, |n: &[u32]| n.len()), 2);
}

#[test]
fn codes_of_neighbors_are_interleaved() {
    let mut codes = NeighborCodeStorage::new(2);
    assert!(codes.is_empty());
    codes.update_vertex(0, &[1, 0], &[10, 11, 20, 21]);
    assert_eq!(codes.len(), 1);
    assert_eq!(codes.get_neighbor_count(0), 2);
    let block = codes.get_block(0).unwrap();
    assert_eq!(block.len(), 64);
    assert_eq!(&block[0..2], &[20, 10]);
    assert_eq!(&block[32..34], &[21, 11]);
    assert!(codes.get_block(1).is_none());
    assert_eq!(codes.get_neighbor_count(1), 0);
    let vectors = VectorStorage::new_full_precision(2);
    assert!(NeighborCodeStorage::build_from_storage(&vectors, &NeighborLists::new(1), 0).is_none());
}

#[test]
fn test_stride_limits() {
    let max_levels = 4;
    let m = 64;
    let mut matrix = NeighborMatrix::new(max_levels, m);
    matrix.ensure_capacity(1);

    let neighbors: Vec<u32> = (0..128).collect();
    matrix.set_neighbors(0, 0, &neighbors);

    let read_back = matrix.with_neighbors(0, 0, |n: &[u32]| n.to_vec());
    assert_eq!(read_back.len(), 128, "Failed to store exactly 128 neighbors");
}

#[test]
fn a_matrix_cuts_lists_that_are_too_long() {
    let mut matrix = NeighborMatrix::new(1, 2);
    matrix.ensure_capacity(2);
    matrix.set_neighbors(1, 1, &[1, 2, 3]);
    assert_eq!(matrix.get_neighbors(1, 1), vec![1, 2]);
    assert!(matrix.get_neighbors(0, 1).is_empty());
    assert!(matrix.contains_neighbor(1, 1, 2));
    assert!(!matrix.contains_neighbor(1, 1, 3));
    matrix.update_neighbors(1, 1, |mut list: Vec<u32>| {
        list.pop();
        list
    });
    assert_eq!(matrix.get_neighbors(1, 1), vec![1]);
}

#[test]
fn flat_storage_keeps_vectors_and_levels() {
    let mut storage = HNSWStorage::new(2, 3, 4);
    assert!(storage.is_empty());
    assert_eq!(storage.add_node(&[1, 2], 3), 0);
    assert_eq!(storage.add_node(&[3, 4], 0), 1);
    assert_eq!(storage.len(), 2);
    assert_eq!(storage.vector(0), &[1, 2]);
    assert_eq!(storage.vector(1), &[3, 4]);
    assert_eq!(storage.get_node_level(0), 3);
    assert_eq!(storage.level(1), 0);
    assert_eq!(storage.with_neighbors(1, 0, |n: &[u32]| n.len()), 0);
}

#[test]
fn test_vector_storage_full_precision() {
    let mut storage = VectorStorage::new_full_precision(3);

    let vec1 = bits(&[1.0, 2.0, 3.0]);
    let vec2 = bits(&[4.0, 5.0, 6.0]);

    let id1 = storage.insert(vec1.clone(), &squared_norm, &train, &quantize).unwrap();
    let id2 = storage.insert(vec2.clone(), &squared_norm, &train, &quantize).unwrap();

    assert_eq!(id1, 0);
    assert_eq!(id2, 1);
    assert_eq!(storage.len(), 2);

    assert_eq!(storage.get(0), Some(vec1.as_slice()));
    assert_eq!(storage.get(1), Some(vec2.as_slice()));
    assert_eq!(storage.get(2), None);
    assert_eq!(storage.get_norm(0), Some(14.0f32.to_bits()));
}

#[test]
fn test_vector_storage_dimension_check() {
    let mut storage = VectorStorage::new_full_precision(3);

    let wrong_dim = bits(&[1.0, 2.0]);
    let r = storage.insert(wrong_dim, &squared_norm, &train, &quantize);
    assert_eq!(r, Err(VectorStorageError::DimensionMismatch { expected: 3, actual: 2 }));
}

#[test]
fn test_sq8_train_empty_sample_rejected() {
    let mut storage = VectorStorage::new_sq8_quantized(4, untrained(4));
    let empty_samples: Vec<Vec<u32>> = vec![];
    let result = storage.train_quantization(&empty_samples, &train, &quantize);
    assert_eq!(result, Err(VectorStorageError::EmptySample));
}

#[test]
fn there_is_nothing_to_train_at_full_precision() {
    let mut storage = VectorStorage::new_full_precision(1);
    let result = storage.train_quantization(&vec![vec![0]], &train, &quantize);
    assert_eq!(result, Err(VectorStorageError::FullPrecision));
}

#[test]
fn training_that_fails_is_told() {
    let mut storage = VectorStorage::new_sq8_quantized(1, untrained(1));
    let none = |_: &Vec<Vec<u32>>| -> Option<ScalarParams> { None };
    let result = storage.train_quantization(&vec![bits(&[1.0])], &none, &quantize);
    assert_eq!(result, Err(VectorStorageError::TrainingFailed));
}

#[test]
fn quantized_vectors_come_back_nearly() {
    let mut storage = VectorStorage::new_sq8_quantized(2, untrained(2));
    for i in 0..256 {
        let v = bits(&[i as f32 / 255.0, 1.0 - i as f32 / 255.0]);
        assert_eq!(storage.insert(v, &squared_norm, &train, &quantize), Ok(i));
    }
    assert!(storage.is_sq8());
    assert_eq!(storage.len(), 256);
    let back = storage.get_dequantized(100, &dequantize).unwrap();
    assert!((f32::from_bits(back[0]) - 100.0 / 255.0).abs() < 0.01);
    assert!((f32::from_bits(back[1]) - 155.0 / 255.0).abs() < 0.01);
    assert!(storage.get_dequantized(256, &dequantize).is_none());
}

#[test]
fn vectors_move_with_their_nodes() {
    let mut storage = VectorStorage::new_full_precision(1);
    for x in [1.0, 2.0, 3.0] {
        storage.insert(bits(&[x]), &squared_norm, &train, &quantize).unwrap();
    }
    storage.reorder(&[2, 0, 1]);
    assert_eq!(storage.get(2), Some(bits(&[1.0]).as_slice()));
    assert_eq!(storage.get(0), Some(bits(&[2.0]).as_slice()));
    assert_eq!(storage.get(1), Some(bits(&[3.0]).as_slice()));
}
