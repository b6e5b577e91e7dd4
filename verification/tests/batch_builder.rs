//! Construction from clustered vectors.

use omendb_hnsw::batch_builder::{
    build_clusters_from_assignments, kmeans_cluster, kmeans_plus_plus_init, BatchBuilder, Cluster,
};
use omendb_hnsw::error::{HNSWError, Result};
use omendb_hnsw::index::HNSWIndex;
use omendb_hnsw::node_storage::quantization::{Coder, QuantizedVector, ScalarCoder};
use omendb_hnsw::node_storage::ScalarParams;
use omendb_hnsw::storage::HNSWStorage;
use omendb_hnsw::types::{HNSWParams, Metric};

fn bits(values: &[f32]) -> Vec<u32> {
    values.iter().map(|v| v.to_bits()).collect()
}

fn euclidean(a: &[u32], b: &[u32]) -> u32 {
    let sum: f32 = a
        .iter()
        .zip(b.iter())
        .map(|(x, y)| (f32::from_bits(*x) - f32::from_bits(*y)).powi(2))
        .sum();
    sum.to_bits()
}

fn level(draw: u32) -> u8 {
    let f = draw as f32 / 16_777_216.0;
    (-f.ln() / 16.0f32.ln()) as u8
}

fn train(values: &[u32], dimensions: usize) -> Option<ScalarParams> {
    let values: Vec<f32> = values.iter().map(|x| f32::from_bits(*x)).collect();
    let low = values.iter().copied().fold(f32::MAX, f32::min);
    let high = values.iter().copied().fold(f32::MIN, f32::max);
    let scale = if high > low { (high - low) / 255.0 } else { 1.0 };
    Some(ScalarParams { scale: scale.to_bits(), offset: low.to_bits(), dimensions })
}

fn quantize(params: ScalarParams, v: &[u32]) -> QuantizedVector {
    let scale = f32::from_bits(params.scale);
    let offset = f32::from_bits(params.offset);
    let data: Vec<u8> =
        v.iter().map(|x| ((f32::from_bits(*x) - offset) / scale).round() as u8).collect();
    let sum = data.iter().map(|c| *c as i32).sum();
    let norm: f32 = v.iter().map(|x| f32::from_bits(*x).powi(2)).sum();
    QuantizedVector { data, norm_sq: norm.to_bits(), sum }
}

fn values(params: ScalarParams) -> Vec<u32> {
    let scale = f32::from_bits(params.scale);
    let offset = f32::from_bits(params.offset);
    (0..256).map(|c| (c as f32 * scale + offset).to_bits()).collect()
}

fn coder() -> impl Coder {
    ScalarCoder { train, quantize, values }
}

fn mean(vectors: &Vec<Vec<u32>>, assignments: &Vec<usize>, k: usize) -> Vec<Vec<u32>> {
    let dims = vectors[0].len();
    let mut sums = vec![vec![0.0f32; dims]; k];
    let mut counts = vec![0usize; k];
    for (v, &c) in vectors.iter().zip(assignments) {
        counts[c] += 1;
        for (sum, x) in sums[c].iter_mut().zip(v) {
            *sum += f32::from_bits(*x);
        }
    }
    sums.iter()
        .zip(counts)
        .map(|(sum, n)| {
            sum.iter().map(|s| (if n > 0 { s / n as f32 } else { *s }).to_bits()).collect()
        })
        .collect()
}

fn cluster(vectors: &[Vec<f32>], k: usize) -> Vec<Cluster> {
    let vectors: Vec<Vec<u32>> = vectors.iter().map(|v| bits(v)).collect();
    kmeans_cluster(&vectors, k, 10, &euclidean, &mean)
}

fn build(vectors: &[Vec<f32>], params: HNSWParams) -> Result<HNSWIndex<HNSWStorage>> {
    let vectors: Vec<Vec<u32>> = vectors.iter().map(|v| bits(v)).collect();
    BatchBuilder::build(&vectors, params, Metric::L2, 4, &euclidean, &level, &euclidean, &mean)
}

#[test]
fn test_kmeans_clustering() {
    let mut vectors = Vec::new();
    for i in 0..40 {
        let cluster = i / 10;
        let base = cluster as f32 * 10.0;
        vectors.push(vec![base + (i % 10) as f32 * 0.1, 0.0, 0.0, 0.0]);
    }

    let clusters = cluster(&vectors, 4);

    assert!(clusters.len() >= 2 && clusters.len() <= 4);

    let total: usize = clusters.iter().map(|c| c.len()).sum();
    assert_eq!(total, 40);
}

#[test]
fn test_kmeans_empty() {
    let clusters = cluster(&[], 4);
    assert!(clusters.is_empty());
}

#[test]
fn test_kmeans_single_vector() {
    let vectors = vec![vec![1.0, 2.0, 3.0, 4.0]];
    let clusters = cluster(&vectors, 4);

    assert_eq!(clusters.len(), 1);
    assert_eq!(clusters[0].len(), 1);
}

#[test]
fn test_batch_build_small() {
    let vectors: Vec<Vec<f32>> = (0..50).map(|i| vec![i as f32, 0.0, 0.0, 0.0]).collect();

    let index = build(&vectors, HNSWParams::default()).unwrap();

    assert_eq!(index.len(), 50);

    let results = index.search(&bits(&[25.0, 0.0, 0.0, 0.0]), 5, 100, &euclidean).unwrap();
    assert_eq!(results.len(), 5);
    assert_eq!(results[0].slot, 25);
}

#[test]
fn test_batch_build_medium() {
    let vectors: Vec<Vec<f32>> =
        (0..500).map(|i| vec![(i % 100) as f32, (i / 100) as f32, 0.0, 0.0]).collect();

    let params = HNSWParams { m: 8, ef_construction: 50, ..Default::default() };
    let index = build(&vectors, params).unwrap();

    assert_eq!(index.len(), 500);

    let results = index.search(&bits(&[50.0, 2.0, 0.0, 0.0]), 10, 100, &euclidean).unwrap();
    assert_eq!(results.len(), 10);

    for i in 1..results.len() {
        assert!(f32::from_bits(results[i - 1].distance) <= f32::from_bits(results[i].distance));
    }
}

#[test]
fn test_batch_build_large() {
    let vectors: Vec<Vec<f32>> =
        (0..2000).map(|i| vec![(i % 50) as f32, (i / 50 % 40) as f32, 0.0, 0.0]).collect();

    let params = HNSWParams { m: 8, ef_construction: 50, ..Default::default() };
    let index = build(&vectors, params).unwrap();

    assert_eq!(index.len(), 2000);
}

#[test]
fn a_quantized_index_finds_its_vectors() {
    let vectors: Vec<Vec<u32>> = (0..300).map(|i| bits(&[(i % 256) as f32])).collect();
    let params = HNSWParams::default();
    let build = |v: &Vec<Vec<u32>>| {
        BatchBuilder::build_quantized(v, params, Metric::L2, &euclidean, &level, &coder())
    };
    let index = build(&vectors).unwrap();
    assert_eq!(index.len(), 300);
    assert!(index.storage.is_sq8() && index.storage.is_trained());
    assert_eq!(index.storage.quantized_vector(200), [200]);
    let results = index.search(&bits(&[112.2]), 1, 40, &euclidean).unwrap();
    assert_eq!(results[0].slot, 112);

    let few = build(&vectors[..40].to_vec()).unwrap();
    assert!(few.storage.is_sq8() && !few.storage.is_trained());
    assert_eq!(few.search(&bits(&[12.2]), 1, 40, &euclidean).unwrap()[0].slot, 12);

    let none = build(&vec![]).unwrap();
    assert_eq!(none.dimensions(), 0);
    assert!(none.storage.is_sq8());
    let r = build(&vec![bits(&[1.0]), bits(&[f32::INFINITY])]);
    assert_eq!(r.err(), Some(HNSWError::InvalidVector));
}

#[test]
fn no_vectors_give_an_empty_index() {
    let index = build(&[], HNSWParams::default()).unwrap();
    assert_eq!(index.len(), 0);
    assert_eq!(index.dimensions(), 0);
}

#[test]
fn a_vector_of_another_length_is_refused() {
    let r = build(&[vec![1.0, 2.0], vec![1.0]], HNSWParams::default());
    assert_eq!(r.err(), Some(HNSWError::DimensionMismatch { expected: 2, actual: 1 }));
    let r = build(&[vec![1.0, f32::NAN]], HNSWParams::default());
    assert_eq!(r.err(), Some(HNSWError::InvalidVector));
}

#[test]
fn empty_clusters_are_left_out() {
    let centroids = vec![bits(&[0.0]), bits(&[1.0]), bits(&[2.0])];
    let clusters = build_clusters_from_assignments(&vec![2, 0, 2], &centroids, 3);
    assert_eq!(clusters.len(), 2);
    assert_eq!(clusters[0].indices, vec![1]);
    assert_eq!(clusters[0].centroid, bits(&[0.0]));
    assert_eq!(clusters[1].indices, vec![0, 2]);
    assert_eq!(clusters[1].centroid, bits(&[2.0]));
    assert!(!clusters[0].is_empty());
}

#[test]
fn the_farthest_vectors_come_first() {
    let vectors = vec![bits(&[0.0]), bits(&[1.0]), bits(&[10.0]), bits(&[4.0])];
    let centroids = kmeans_plus_plus_init(&vectors, 3, &euclidean);
    assert_eq!(centroids, vec![bits(&[0.0]), bits(&[10.0]), bits(&[4.0])]);
    let same = vec![bits(&[3.0]), bits(&[3.0])];
    assert_eq!(kmeans_plus_plus_init(&same, 2, &euclidean), vec![bits(&[3.0]), bits(&[3.0])]);
}

#[test]
fn clusters_find_two_groups() {
    let vectors: Vec<Vec<f32>> =
        [0.0, 10.0, 0.5, 10.5, 1.0, 11.0].iter().map(|x| vec![*x]).collect();
    let clusters = cluster(&vectors, 2);
    assert_eq!(clusters.len(), 2);
    assert_eq!(clusters[0].indices, vec![0, 2, 4]);
    assert_eq!(clusters[1].indices, vec![1, 3, 5]);
    assert_eq!(clusters[0].centroid, bits(&[0.5]));
    assert_eq!(clusters[1].centroid, bits(&[10.5]));
}
