//! Storage with vectors and neighbours side by side.

use omendb_hnsw::error::FormatError;
use omendb_hnsw::node_storage::quantization::{
    Coder, QuantizedVector, ScalarCoder, TrainingFailed,
};
use omendb_hnsw::node_storage::upper_neighbors::{UpperNeighborsMmap, UpperNeighborsStorage};
use omendb_hnsw::node_storage::{NodeStorage, ScalarParams};

fn bits(values: &[f32]) -> Vec<u32> {
    values.iter().map(|v| v.to_bits()).collect()
}

fn squared_norm(v: &[u32]) -> u32 {
    v.iter().map(|x| f32::from_bits(*x).powi(2)).sum::<f32>().to_bits()
}

fn train(values: &[u32], dimensions: usize) -> Option<ScalarParams> {
    let values: Vec<f32> = values.iter().map(|x| f32::from_bits(*x)).collect();
    let low = values.iter().copied().fold(f32::MAX, f32::min);
    let high = values.iter().copied().fold(f32::MIN, f32::max);
    Some(ScalarParams {
        scale: ((high - low) / 255.0).to_bits(),
        offset: low.to_bits(),
        dimensions,
    })
}

fn quantize(params: ScalarParams, v: &[u32]) -> QuantizedVector {
    let scale = f32::from_bits(params.scale);
    let offset = f32::from_bits(params.offset);
    let data: Vec<u8> =
        v.iter().map(|x| ((f32::from_bits(*x) - offset) / scale).round() as u8).collect();
    let sum = data.iter().map(|c| *c as i32).sum();
    QuantizedVector { data, norm_sq: squared_norm(v), sum }
}

fn dequantize(params: ScalarParams, codes: &[u8]) -> Vec<u32> {
    let scale = f32::from_bits(params.scale);
    let offset = f32::from_bits(params.offset);
    codes.iter().map(|c| (*c as f32 * scale + offset).to_bits()).collect()
}

fn values(params: ScalarParams) -> Vec<u32> {
    let scale = f32::from_bits(params.scale);
    let offset = f32::from_bits(params.offset);
    (0..256).map(|c| (c as f32 * scale + offset).to_bits()).collect()
}

fn coder() -> impl Coder {
    ScalarCoder { train, quantize, values }
}

fn set(storage: &mut NodeStorage, id: u32, vector: &[f32]) {
    storage.set_vector(id, &bits(vector), &squared_norm, &coder()).unwrap();
}

fn check_layout_size() {
    let storage = NodeStorage::new(128, 16, 8);
    assert_eq!(storage.node_size(), 704);

    let storage = NodeStorage::new(768, 32, 8);
    assert_eq!(storage.node_size(), 3392);
}

fn check_vector() {
    let mut storage = NodeStorage::new(4, 2, 8);
    let vector = vec![1.0f32, 2.0, 3.0, 4.0];
    storage.allocate_node();
    set(&mut storage, 0, &vector);

    let retrieved = storage.vector(0);
    assert_eq!(retrieved, bits(&vector));
}

fn check_neighbors() {
    let mut storage = NodeStorage::new(4, 2, 8);
    storage.allocate_node();
    storage.allocate_node();
    storage.allocate_node();

    storage.set_neighbors(0, &[1, 2]);

    let neighbors = storage.neighbors(0);
    assert_eq!(neighbors, &[1, 2]);
    assert_eq!(storage.neighbors(1), &[] as &[u32]);
}

fn check_slot() {
    let mut storage = NodeStorage::new(4, 2, 8);
    storage.allocate_node();
    storage.set_slot(0, 42);
    assert_eq!(storage.slot(0), 42);
}

fn check_level() {
    let mut storage = NodeStorage::new(4, 2, 8);
    storage.allocate_node();
    storage.set_level(0, 5);
    assert_eq!(storage.level(0), 5);
}

fn check_many_nodes() {
    let mut storage = NodeStorage::new(4, 2, 8);

    for i in 0..100 {
        let id = storage.allocate_node();
        assert_eq!(id, i as u32);

        let vector: Vec<f32> = (0..4).map(|j| (i * 4 + j) as f32).collect();
        set(&mut storage, id, &vector);
        storage.set_slot(id, i as u32 * 10);
        storage.set_level(id, (i % 8) as u8);

        if i > 0 {
            storage.set_neighbors(id, &[(i - 1) as u32]);
        }
    }

    for i in 0..100 {
        let id = i as u32;
        let expected_vector: Vec<f32> = (0..4).map(|j| (i * 4 + j) as f32).collect();

        assert_eq!(storage.vector(id), bits(&expected_vector));
        assert_eq!(storage.slot(id), i as u32 * 10);
        assert_eq!(storage.level(id), (i % 8) as u8);

        if i > 0 {
            assert_eq!(storage.neighbors(id), &[(i - 1) as u32]);
        }
    }
}

fn check_memory() {
    let mut storage = NodeStorage::new(4, 2, 8);
    assert_eq!(storage.memory_usage(), 0);

    storage.allocate_node();
    assert!(storage.memory_usage() > 0);
}

fn check_growth() {
    let mut storage = NodeStorage::new(4, 2, 8);

    for i in 0..100 {
        let id = storage.allocate_node();
        assert_eq!(id, i as u32);
    }

    assert_eq!(storage.len(), 100);
    assert!(storage.capacity() >= 100);
}

#[test]
fn node_storage_test_node_layout_size() {
    check_layout_size();
}

#[test]
fn mod_test_node_layout_size() {
    check_layout_size();
}

#[test]
fn node_storage_test_store_and_retrieve_vector() {
    check_vector();
}

#[test]
fn mod_test_store_and_retrieve_vector() {
    check_vector();
}

#[test]
fn node_storage_test_store_and_retrieve_neighbors() {
    check_neighbors();
}

#[test]
fn mod_test_store_and_retrieve_neighbors() {
    check_neighbors();
}

#[test]
fn node_storage_test_metadata_slot_mapping() {
    check_slot();
}

#[test]
fn mod_test_metadata_slot_mapping() {
    check_slot();
}

#[test]
fn node_storage_test_metadata_level() {
    check_level();
}

#[test]
fn mod_test_metadata_level() {
    check_level();
}

#[test]
fn node_storage_test_multiple_nodes() {
    check_many_nodes();
}

#[test]
fn mod_test_multiple_nodes() {
    check_many_nodes();
}

#[test]
fn node_storage_test_memory_usage() {
    check_memory();
}

#[test]
fn mod_test_memory_usage() {
    check_memory();
}

#[test]
fn node_storage_test_grow_capacity() {
    check_growth();
}

#[test]
fn mod_test_grow_capacity() {
    check_growth();
}

#[test]
fn test_upper_level_allocation() {
    let mut storage = NodeStorage::new(4, 16, 8);
    let id = storage.allocate_node();

    assert_eq!(storage.neighbor_count_at_level(id, 1), 0);
    assert_eq!(storage.neighbor_count_at_level(id, 2), 0);

    storage.allocate_upper_levels(id, 3);

    assert_eq!(storage.neighbor_count_at_level(id, 1), 0);
    assert_eq!(storage.neighbor_count_at_level(id, 2), 0);
    assert_eq!(storage.neighbor_count_at_level(id, 3), 0);
}

#[test]
fn test_upper_level_neighbors() {
    let mut storage = NodeStorage::new(4, 16, 8);
    let id = storage.allocate_node();
    storage.allocate_node();
    storage.allocate_node();

    storage.set_neighbors_at_level(id, 0, vec![1, 2]);
    assert_eq!(storage.neighbors_at_level(id, 0), vec![1, 2]);
    assert_eq!(storage.neighbors(id), &[1, 2]);

    storage.set_neighbors_at_level(id, 1, vec![1]);
    storage.set_neighbors_at_level(id, 2, vec![2]);

    assert_eq!(storage.neighbors_at_level(id, 1), vec![1]);
    assert_eq!(storage.neighbors_at_level(id, 2), vec![2]);

    assert_eq!(storage.neighbors_at_level(id, 0), vec![1, 2]);
}

#[test]
fn test_add_neighbor() {
    let mut storage = NodeStorage::new(4, 4, 8);
    let id = storage.allocate_node();
    for _ in 0..10 {
        storage.allocate_node();
    }

    storage.add_neighbor(id, 0, 1);
    storage.add_neighbor(id, 0, 2);
    assert_eq!(storage.neighbors(id), &[1, 2]);

    storage.allocate_upper_levels(id, 2);
    storage.add_neighbor(id, 1, 3);
    storage.add_neighbor(id, 1, 4);
    storage.add_neighbor(id, 2, 5);

    assert_eq!(storage.neighbors_at_level(id, 1), vec![3, 4]);
    assert_eq!(storage.neighbors_at_level(id, 2), vec![5]);

    assert_eq!(storage.neighbors(id), &[1, 2]);
}

#[test]
fn test_upper_level_memory_usage() {
    let mut storage = NodeStorage::new(4, 16, 8);

    for i in 0..100u32 {
        storage.allocate_node();
        if i % 10 == 0 {
            storage.allocate_upper_levels(i, 2);
            storage.set_neighbors_at_level(i, 1, vec![0, 1, 2]);
        }
    }

    let mem = storage.memory_usage();
    assert!(mem > 0);
}

#[test]
fn test_max_neighbors_enforcement() {
    let mut storage = NodeStorage::new(4, 2, 8);
    let id = storage.allocate_node();
    for _ in 0..10 {
        storage.allocate_node();
    }

    for i in 1..=4 {
        storage.add_neighbor(id, 0, i);
    }
    assert_eq!(storage.neighbor_count(id), 4);

    storage.add_neighbor(id, 0, 5);
    assert_eq!(storage.neighbor_count(id), 4);
    assert!(!storage.neighbors(id).contains(&5));

    storage.allocate_upper_levels(id, 1);
    storage.add_neighbor(id, 1, 1);
    storage.add_neighbor(id, 1, 2);
    assert_eq!(storage.neighbor_count_at_level(id, 1), 2);

    storage.add_neighbor(id, 1, 3);
    assert_eq!(storage.neighbor_count_at_level(id, 1), 2);
}

#[test]
fn test_sq8_node_layout_size() {
    let fp_storage = NodeStorage::new(128, 16, 8);
    let sq8_storage = NodeStorage::new_sq8(128, 16, 8);

    assert_eq!(fp_storage.node_size(), 704);
    assert_eq!(sq8_storage.node_size(), 320);
    assert!(sq8_storage.node_size() < fp_storage.node_size());

    assert!(!fp_storage.is_sq8());
    assert!(sq8_storage.is_sq8());
}

#[test]
fn test_full_precision_norms_stored() {
    let mut storage = NodeStorage::new(4, 2, 8);

    for i in 0..10 {
        storage.allocate_node();
        let vector: Vec<f32> = (0..4).map(|j| (i + j) as f32).collect();
        set(&mut storage, i as u32, &vector);
    }

    for i in 0..10 {
        let norm = storage.get_norm(i as u32);
        assert!(norm.is_some(), "Norm should be stored for vector {i}");

        let vector: Vec<f32> = (0..4).map(|j| (i + j) as f32).collect();
        let expected_norm: f32 = vector.iter().map(|x| x * x).sum();
        assert!(
            (f32::from_bits(norm.unwrap()) - expected_norm).abs() < 0.01,
            "Norm should equal sum of squares"
        );
    }
}

#[test]
fn test_sq8_lazy_training() {
    let mut storage = NodeStorage::new_sq8(4, 2, 8);
    assert!(!storage.is_trained());

    for i in 0..255 {
        storage.allocate_node();
        let vector: Vec<f32> = (0..4).map(|j| (i * 4 + j) as f32).collect();
        set(&mut storage, i as u32, &vector);
    }
    assert!(!storage.is_trained());

    storage.allocate_node();
    let vector: Vec<f32> = (0..4).map(|j| (255 * 4 + j) as f32).collect();
    set(&mut storage, 255, &vector);
    assert!(storage.is_trained());

    storage.allocate_node();
    let vector: Vec<f32> = (0..4).map(|j| (256 * 4 + j) as f32).collect();
    set(&mut storage, 256, &vector);
    assert_eq!(storage.len(), 257);
}

#[test]
fn test_sq8_dequantization() {
    let mut storage = NodeStorage::new_sq8(4, 2, 8);

    for i in 0..256 {
        storage.allocate_node();
        let vector: Vec<f32> = (0..4).map(|j| (i + j) as f32 / 255.0).collect();
        set(&mut storage, i as u32, &vector);
    }
    assert!(storage.is_trained());

    let original: Vec<f32> = (0..4).map(|j| (100 + j) as f32 / 255.0).collect();
    let dequantized = storage.get_dequantized(100, &dequantize).unwrap();

    for (o, d) in original.iter().zip(dequantized.iter()) {
        assert!((o - f32::from_bits(*d)).abs() < 0.02, "Dequantization error too large");
    }
}

#[test]
fn test_sq8_distance_calculation() {
    let mut storage = NodeStorage::new_sq8(128, 2, 8);

    for i in 0..256 {
        storage.allocate_node();
        let vector: Vec<f32> =
            (0..128).map(|j| ((i * 128 + j) % 255) as f32 / 255.0).collect();
        set(&mut storage, i as u32, &vector);
    }
    assert!(storage.is_trained());

    let query: Vec<f32> = (0..128).map(|j| (j % 255) as f32 / 255.0).collect();
    let query_norm: f32 = query.iter().map(|x| x * x).sum();
    let combine = |p: ScalarParams, codes: &[u8], norm: u32, _sum: i32| -> u32 {
        let back = dequantize(p, codes);
        let dot: f32 = back.iter().zip(&query).map(|(x, y)| f32::from_bits(*x) * y).sum();
        (query_norm + f32::from_bits(norm) - 2.0 * dot).to_bits()
    };

    for id in [0, 50, 100, 150, 200, 250] {
        let dist = storage.distance_sq8(id, &combine);
        assert!(dist.is_some(), "Distance should be computable for vector {id}");
        let dist_val = f32::from_bits(dist.unwrap());
        assert!(dist_val >= -0.01, "Distance {} for vector {} is too negative", dist_val, id);
    }

    storage.allocate_node();
    set(&mut storage, 256, &query);
    let self_dist = f32::from_bits(storage.distance_sq8(256, &combine).unwrap());
    assert!(self_dist.abs() < 0.1, "Self-distance should be near zero, got {}", self_dist);

    let mut distances = vec![0; 2];
    assert_eq!(storage.distance_sq8_batch(&[0, 50], &combine, &mut distances), 2);
    assert_eq!(distances[0], storage.distance_sq8(0, &combine).unwrap());
    assert_eq!(distances[1], storage.distance_sq8(50, &combine).unwrap());
    assert!(storage.distance_sq8(1000, &combine).is_none());
}

#[test]
fn test_sq8_norms_stored() {
    let mut storage = NodeStorage::new_sq8(4, 2, 8);

    for i in 0..256 {
        storage.allocate_node();
        let vector: Vec<f32> = (0..4).map(|j| (i + j) as f32).collect();
        set(&mut storage, i as u32, &vector);
    }

    for i in 0..256 {
        let norm = storage.get_norm(i as u32);
        assert!(norm.is_some(), "Norm should be stored for vector {i}");
        assert!(f32::from_bits(norm.unwrap()) >= 0.0, "Norm should be non-negative");
    }
}

#[test]
fn training_that_fails_is_reported() {
    let mut storage = NodeStorage::new_sq8(1, 2, 8);
    let none = |_: &[u32], _: usize| -> Option<ScalarParams> { None };
    let coder = ScalarCoder { train: none, quantize, values };
    for i in 0..255 {
        storage.allocate_node();
        let r = storage.set_vector(i, &bits(&[1.0]), &squared_norm, &coder);
        assert_eq!(r, Ok(()));
    }
    storage.allocate_node();
    let r = storage.set_vector(255, &bits(&[1.0]), &squared_norm, &coder);
    assert_eq!(r, Err(TrainingFailed));
}

fn sample() -> NodeStorage {
    let mut storage = NodeStorage::new(2, 2, 3);
    for i in 0..5u32 {
        storage.allocate_node();
        set(&mut storage, i, &[i as f32, 0.5]);
        storage.set_slot(i, i + 100);
        storage.set_level(i, if i == 2 { 2 } else { 0 });
    }
    storage.set_neighbors(0, &[1, 4]);
    storage.allocate_upper_levels(2, 2);
    storage.set_neighbors_at_level(2, 1, vec![3]);
    storage.set_neighbors_at_level(2, 2, vec![0, 1]);
    storage
}

#[test]
fn a_storage_comes_back_from_its_bytes() {
    let storage = sample();
    let bytes = storage.serialize_full();
    assert_eq!(storage.serialized_len_full(), bytes.len());
    let restored = NodeStorage::deserialize_full(&bytes).unwrap();
    assert_eq!(restored.len(), 5);
    assert_eq!(restored.node_size(), storage.node_size());
    for i in 0..5 {
        assert_eq!(restored.vector(i), storage.vector(i));
        assert_eq!(restored.slot(i), i + 100);
        assert_eq!(restored.level(i), storage.level(i));
        assert_eq!(restored.get_norm(i), storage.get_norm(i));
        for level in 0..4 {
            assert_eq!(
                restored.neighbors_at_level(i, level),
                storage.neighbors_at_level(i, level)
            );
        }
    }
}

#[test]
fn bytes_that_end_too_early_are_refused() {
    let bytes = sample().serialize_full();
    for n in [0, 3, 20, bytes.len() - 1] {
        assert!(NodeStorage::deserialize_full(&bytes[..n]).is_err());
    }
}

#[test]
fn upper_neighbors_are_read_in_place() {
    let storage = sample();
    let region = storage.serialize_upper_neighbors_region();
    let view = UpperNeighborsMmap::new(&region, 5, 2).unwrap();
    assert_eq!(view.upper_level_count(2), 2);
    assert_eq!(view.upper_level_count(0), 0);
    assert_eq!(view.neighbors_at_level(2, 1), vec![3]);
    assert_eq!(view.neighbors_at_level(2, 2), vec![0, 1]);
    assert!(view.neighbors_at_level(0, 1).is_empty());

    let owned = UpperNeighborsStorage::deserialize_region_owned(&region, 5, 2).unwrap();
    assert_eq!(owned.nodes_with_upper(), 1);
    assert_eq!(owned.neighbors_at_level(2, 2), vec![0, 1]);
}

#[test]
fn regions_of_another_graph_are_refused() {
    let region = sample().serialize_upper_neighbors_region();
    let r = UpperNeighborsStorage::deserialize_region_owned(&region, 6, 2);
    assert_eq!(r.err(), Some(FormatError::NodeCountMismatch { expected: 6, found: 5 }));
    let r = UpperNeighborsStorage::deserialize_region_owned(&region, 5, 1);
    assert_eq!(r.err(), Some(FormatError::TooManyNeighbors { count: 2, max: 1 }));
    let r = UpperNeighborsStorage::deserialize_region_owned(&region[..region.len() - 2], 5, 2);
    assert!(r.is_err());
    let r = UpperNeighborsStorage::deserialize_region_owned(&[], 5, 2);
    assert!(r.is_err());
}

#[test]
fn upper_lists_are_kept_by_node() {
    let mut upper = UpperNeighborsStorage::new();
    assert!(upper.is_empty());
    upper.allocate_upper_levels(9, 2);
    assert!(!upper.is_empty());
    assert_eq!(upper.upper_level_count(9), 2);
    assert_eq!(upper.upper_level_count(8), 0);
    upper.add_neighbor(9, 1, 4, 2);
    upper.add_neighbor(9, 1, 5, 2);
    upper.add_neighbor(9, 1, 6, 2);
    assert_eq!(upper.neighbors_at_level(9, 1), vec![4, 5]);
    upper.set_neighbors_at_level(9, 2, vec![7]);
    assert_eq!(upper.neighbors_at_level(9, 2), vec![7]);
    assert_eq!(upper.nodes_with_upper(), 1);
    assert!(upper.ids_below(10));
    assert!(!upper.ids_below(9));
}

#[test]
fn test_rabitq_pretrain_persistence_roundtrip() {
    let dim = 32;
    let n = 50;
    let mut storage = NodeStorage::new_sq8(dim, 4, 8);
    let mut vectors: Vec<Vec<f32>> = Vec::new();
    for i in 0..n {
        storage.allocate_node();
        let vector: Vec<f32> = (0..dim).map(|j| ((i * dim + j) % 100) as f32 / 100.0).collect();
        set(&mut storage, i as u32, &vector);
        vectors.push(vector);
    }
    assert!(!storage.is_trained());
    for i in 0..n {
        assert!(storage.get_dequantized(i as u32, &dequantize).is_some());
    }

    let bytes = storage.serialize_full();
    assert_eq!(bytes.len(), storage.serialized_len_full());
    let restored = NodeStorage::deserialize_full(&bytes).unwrap();
    assert_eq!(restored.len(), n);
    assert!(restored.is_sq8() && !restored.is_trained());
    for (i, v) in vectors.iter().enumerate() {
        assert_eq!(restored.get_dequantized(i as u32, &dequantize), Some(bits(v)));
    }
}

#[test]
fn codes_survive_a_file_after_training() {
    let mut storage = NodeStorage::new_sq8(2, 2, 8);
    for i in 0..300u32 {
        storage.allocate_node();
        set(&mut storage, i, &[(i % 256) as f32, 0.0]);
    }
    assert!(storage.is_trained());
    assert_eq!(storage.current_vector(77), bits(&[77.0, 0.0]));
    let mut restored = NodeStorage::deserialize_full(&storage.serialize_full()).unwrap();
    assert!(restored.is_trained() && !restored.has_vectors());
    restored.restore_values(&coder());
    assert!(restored.has_vectors());
    for i in [0, 5, 255, 299] {
        assert_eq!(restored.quantized_vector(i), storage.quantized_vector(i));
        assert_eq!(restored.current_vector(i), storage.current_vector(i));
        assert_eq!(restored.get_norm(i), storage.get_norm(i));
    }
}

#[test]
fn few_vectors_can_be_coded_on_demand() {
    let mut storage = NodeStorage::new_sq8(1, 2, 8);
    for i in 0..3u32 {
        storage.allocate_node();
        set(&mut storage, i, &[i as f32 * 100.0]);
    }
    assert_eq!(storage.current_vector(1), bits(&[100.0]));
    storage.flush_sq8_training(&coder());
    assert!(storage.is_trained());
    assert_eq!(storage.quantized_vector(0), [0]);
    assert_eq!(storage.quantized_vector(2), [255]);
    assert!((f32::from_bits(storage.current_vector(1)[0]) - 100.0).abs() < 1.0);

    let never = |_: &[u32], _: usize| -> Option<ScalarParams> { None };
    let coder = ScalarCoder { train: never, quantize, values };
    let mut waiting = NodeStorage::new_sq8(1, 2, 8);
    waiting.allocate_node();
    set(&mut waiting, 0, &[7.0]);
    waiting.flush_sq8_training(&coder);
    assert!(!waiting.is_trained());
    assert_eq!(waiting.current_vector(0), bits(&[7.0]));
}

#[test]
fn the_count_of_a_full_list_is_kept() {
    let mut storage = NodeStorage::new(4, 2, 8);
    storage.allocate_node();
    for i in 1..=4 {
        storage.add_neighbor(0, 0, i);
        assert_eq!(storage.neighbor_count(0), i as usize);
    }
    storage.add_neighbor(0, 0, 5);
    assert_eq!(storage.neighbor_count(0), 4);
    assert_eq!(storage.neighbors(0), vec![1, 2, 3, 4]);
    assert!(!storage.try_add_neighbor(0, 0, 6));
    assert_eq!(storage.neighbor_count(0), 4);
}
