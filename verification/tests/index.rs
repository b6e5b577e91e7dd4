//! The index over flat storage.

use omendb_hnsw::bytes::{put_u32, put_u64, read_u32, read_u64, read_u8};
use omendb_hnsw::engine::{SegmentConfig, SegmentManager};
use omendb_hnsw::error::{FormatError, HNSWError};
use omendb_hnsw::graph::{beam_search, GraphStore};
use omendb_hnsw::index::insert::{level_for_draw, select_neighbors_heuristic};
use omendb_hnsw::index::sequential::SequentialBuilder;
use omendb_hnsw::index::{HNSWIndex, HNSWIndexBuilder, HNSWQuantization};
use omendb_hnsw::node_storage::quantization::{Coder, QuantizedVector, ScalarCoder};
use omendb_hnsw::node_storage::{NodeStorage, ScalarParams};
use omendb_hnsw::storage::{HNSWStorage, NeighborMatrix, VectorMatrix};
use omendb_hnsw::types::{Candidate, HNSWParams, Metric, SearchResult, StorageMode};

type Index = HNSWIndex<HNSWStorage>;

fn bits(values: &[f32]) -> Vec<u32> {
    values.iter().map(|v| v.to_bits()).collect()
}

fn l2(a: &[u32], b: &[u32]) -> u32 {
    let sum: f32 = a
        .iter()
        .zip(b.iter())
        .map(|(x, y)| (f32::from_bits(*x) - f32::from_bits(*y)).powi(2))
        .sum();
    sum.to_bits()
}

fn level(draw: u32) -> u8 {
    let f = draw as f32 / 16_777_216.0;
    (-f.ln() / 16.0f32.ln()) as u8
}

fn norm(v: &[u32]) -> u32 {
    v.iter().map(|x| f32::from_bits(*x).powi(2)).sum::<f32>().to_bits()
}

fn train(values: &[u32], dimensions: usize) -> Option<ScalarParams> {
    let offset = *values.first()?;
    Some(ScalarParams { scale: 1.0f32.to_bits(), offset, dimensions })
}

fn quantize(params: ScalarParams, v: &[u32]) -> QuantizedVector {
    let offset = f32::from_bits(params.offset);
    let data: Vec<u8> = v.iter().map(|x| (f32::from_bits(*x) - offset) as u8).collect();
    let sum = data.iter().map(|c| *c as i32).sum();
    QuantizedVector { data, norm_sq: norm(v), sum }
}

fn values(params: ScalarParams) -> Vec<u32> {
    let scale = f32::from_bits(params.scale);
    let offset = f32::from_bits(params.offset);
    (0..256).map(|c| (c as f32 * scale + offset).to_bits()).collect()
}

fn coder() -> impl Coder {
    ScalarCoder { train, quantize, values }
}

fn build_with(
    builder: SequentialBuilder,
    vectors: &Vec<&[u32]>,
) -> Result<HNSWIndex<NodeStorage>, HNSWError> {
    builder.build(vectors, &l2, &wide_level, &norm, &coder())
}

fn wide_level(x: u64) -> u8 {
    let r = x as f64 / u64::MAX as f64;
    (-r.ln() / 16.0f64.ln()).floor() as u8
}

fn new(dim: usize, params: HNSWParams) -> Index {
    HNSWIndex::new(dim, params, Metric::L2)
}

fn insert(index: &mut Index, v: &[f32]) -> omendb_hnsw::error::Result<u32> {
    index.insert(&bits(v), &l2, &level)
}

fn search(index: &Index, q: &[f32], k: usize, ef: usize) -> Vec<SearchResult> {
    index.search(&bits(q), k, ef, &l2).unwrap()
}

fn line(n: usize, params: HNSWParams) -> Index {
    let mut index = new(3, params);
    for i in 0..n {
        insert(&mut index, &[i as f32, 0.0, 0.0]).unwrap();
    }
    index
}

fn put_metric(metric: Metric) -> Vec<u8> {
    vec![match metric {
        Metric::L2 => 0,
        Metric::Cosine => 1,
        Metric::InnerProduct => 2,
    }]
}

fn get_metric(bytes: &[u8]) -> Option<Metric> {
    match bytes {
        [0] => Some(Metric::L2),
        [1] => Some(Metric::Cosine),
        [2] => Some(Metric::InnerProduct),
        _ => None,
    }
}

fn put_params(p: &HNSWParams) -> Vec<u8> {
    let mut out = Vec::new();
    put_u64(&mut out, p.m as u64);
    put_u64(&mut out, p.ef_construction as u64);
    put_u32(&mut out, p.ml);
    put_u64(&mut out, p.seed);
    out.push(p.max_level);
    out
}

fn get_params(bytes: &[u8]) -> Option<HNSWParams> {
    let mut pos = 0;
    Some(HNSWParams {
        m: read_u64(bytes, &mut pos).ok()? as usize,
        ef_construction: read_u64(bytes, &mut pos).ok()? as usize,
        ml: read_u32(bytes, &mut pos).ok()?,
        seed: read_u64(bytes, &mut pos).ok()?,
        max_level: read_u8(bytes, &mut pos).ok()?,
    })
}

fn put_words(out: &mut Vec<u8>, words: &[u32]) {
    put_u64(out, words.len() as u64);
    for w in words {
        put_u32(out, *w);
    }
}

fn get_words(bytes: &[u8], pos: &mut usize) -> Option<Vec<u32>> {
    let n = read_u64(bytes, pos).ok()?;
    (0..n).map(|_| read_u32(bytes, pos).ok()).collect()
}

fn put_storage(s: &HNSWStorage) -> Vec<u8> {
    let mut out = Vec::new();
    put_words(&mut out, &s.vectors.data);
    put_u64(&mut out, s.vectors.dim as u64);
    put_words(&mut out, &s.neighbors.data);
    for x in [
        s.neighbors.stride,
        s.neighbors.m,
        s.neighbors.m0,
        s.neighbors.max_levels,
        s.neighbors.nodes,
    ] {
        put_u64(&mut out, x as u64);
    }
    put_words(&mut out, &s.max_levels.iter().map(|l| *l as u32).collect::<Vec<u32>>());
    out
}

fn get_storage(bytes: &[u8]) -> Option<HNSWStorage> {
    let mut pos = 0;
    let p = &mut pos;
    let data = get_words(bytes, p)?;
    let dim = read_u64(bytes, p).ok()? as usize;
    let links = get_words(bytes, p)?;
    let mut next = || read_u64(bytes, p).ok().map(|x| x as usize);
    let (stride, m, m0, max_levels, nodes) = (next()?, next()?, next()?, next()?, next()?);
    let levels = get_words(bytes, p)?;
    Some(HNSWStorage {
        vectors: VectorMatrix { data, dim },
        neighbors: NeighborMatrix { data: links, stride, m, m0, max_levels, nodes },
        max_levels: levels.iter().map(|l| *l as u8).collect(),
    })
}

fn save(index: &Index) -> Vec<u8> {
    index.encode(
        &put_metric(index.distance_fn),
        &put_params(&index.params),
        &put_storage(&index.storage),
    )
}

fn load(bytes: &[u8]) -> Result<Index, FormatError> {
    Index::decode(bytes, &get_metric, &get_params, &get_storage)
}

#[test]
fn test_hnsw_index_creation() {
    let index = new(128, HNSWParams::default());

    assert_eq!(index.len(), 0);
    assert_eq!(index.dimensions(), 128);
    assert!(index.is_empty());
}

#[test]
fn test_hnsw_index_insert_single() {
    let mut index = new(3, HNSWParams::default());

    let id = insert(&mut index, &[1.0, 2.0, 3.0]).unwrap();

    assert_eq!(id, 0);
    assert_eq!(index.len(), 1);
    assert!(!index.is_empty());
}

#[test]
fn test_hnsw_index_insert_multiple() {
    let mut index = new(3, HNSWParams::default());

    let id1 = insert(&mut index, &[1.0, 2.0, 3.0]).unwrap();
    let id2 = insert(&mut index, &[4.0, 5.0, 6.0]).unwrap();
    let id3 = insert(&mut index, &[7.0, 8.0, 9.0]).unwrap();

    assert_eq!(id1, 0);
    assert_eq!(id2, 1);
    assert_eq!(id3, 2);
    assert_eq!(index.len(), 3);
}

#[test]
fn test_hnsw_index_dimension_validation() {
    let mut index = new(3, HNSWParams::default());

    let r = insert(&mut index, &[1.0, 2.0]);
    assert_eq!(r, Err(HNSWError::DimensionMismatch { expected: 3, actual: 2 }));
    assert_eq!(insert(&mut index, &[1.0, f32::INFINITY, 0.0]), Err(HNSWError::InvalidVector));
    assert_eq!(index.len(), 0);
}

#[test]
fn test_hnsw_index_search_empty() {
    let index = new(3, HNSWParams::default());

    let results = search(&index, &[1.0, 2.0, 3.0], 5, 100);

    assert_eq!(results.len(), 0);
}

#[test]
fn test_hnsw_index_search_single() {
    let mut index = new(3, HNSWParams::default());

    let vec = [1.0, 2.0, 3.0];
    insert(&mut index, &vec).unwrap();

    let results = search(&index, &vec, 5, 100);

    assert_eq!(results.len(), 1);
    assert_eq!(results[0].slot, 0);
    assert!(f32::from_bits(results[0].distance) < 0.01);
}

#[test]
fn test_random_level_distribution() {
    let mut index = new(3, HNSWParams::default());

    let mut level_counts = vec![0; 8];
    for _ in 0..1000 {
        let level = index.random_level(&level);
        level_counts[level as usize] += 1;
    }

    assert!(level_counts[0] > level_counts[1]);
    assert!(level_counts[1] > level_counts[2]);
}

#[test]
fn levels_are_capped_and_zero_draws_stay_at_the_base() {
    let high = |_: u32| -> u8 { 7 };
    assert_eq!(level_for_draw(&high, 0x0000_00ff, 3), 0);
    assert_eq!(level_for_draw(&high, 0x0000_0100, 3), 3);
    assert_eq!(level_for_draw(&high, 0xffff_ffff, 9), 7);
}

#[test]
fn the_generator_moves_on() {
    let mut index = new(3, HNSWParams::default());
    let before = index.rng_state;
    index.random_level(&level);
    assert_ne!(index.rng_state, before);
    let mut other = new(3, HNSWParams::default());
    other.random_level(&level);
    assert_eq!(other.rng_state, index.rng_state);
}

#[test]
fn tests_test_memory_usage() {
    let mut index = new(128, HNSWParams::default());

    for i in 0..10 {
        insert(&mut index, &vec![i as f32; 128]).unwrap();
    }

    let memory = index.storage.memory_usage();

    assert!(memory > 5000);
    assert!(memory < 50000);
}

#[test]
fn test_hnsw_index_search_multiple() {
    let mut index = new(3, HNSWParams::default());

    for v in [
        [1.0, 0.0, 0.0],
        [0.0, 1.0, 0.0],
        [0.0, 0.0, 1.0],
        [0.5, 0.5, 0.0],
        [0.0, 0.5, 0.5],
    ] {
        insert(&mut index, &v).unwrap();
    }

    let results = search(&index, &[1.0, 0.0, 0.0], 3, 10);

    assert_eq!(results.len(), 3);
    assert_eq!(results[0].slot, 0);
    assert!(f32::from_bits(results[0].distance) < 0.01);

    for i in 0..results.len() - 1 {
        assert!(f32::from_bits(results[i].distance) <= f32::from_bits(results[i + 1].distance));
    }
}

#[test]
fn test_hnsw_index_search_with_ef() {
    let index = line(10, HNSWParams::default());

    let query = [5.0, 0.0, 0.0];

    let results_ef_5 = search(&index, &query, 3, 5);
    let results_ef_10 = search(&index, &query, 3, 10);

    assert_eq!(results_ef_5.len(), 3);
    assert_eq!(results_ef_10.len(), 3);

    assert_eq!(results_ef_5[0].slot, 5);
    assert_eq!(results_ef_10[0].slot, 5);
}

#[test]
fn a_beam_narrower_than_the_results_is_refused() {
    let index = line(3, HNSWParams::default());
    let r = index.search(&bits(&[0.0, 0.0, 0.0]), 4, 3, &l2);
    assert_eq!(r, Err(HNSWError::InvalidSearchParams { k: 4, ef: 3 }));
    let r = index.search(&bits(&[0.0, 0.0]), 1, 3, &l2);
    assert_eq!(r, Err(HNSWError::DimensionMismatch { expected: 3, actual: 2 }));
    let r = index.search(&bits(&[0.0, 0.0, f32::NAN]), 1, 3, &l2);
    assert_eq!(r, Err(HNSWError::InvalidVector));
    assert_eq!(index.search(&bits(&[0.0, 0.0, 0.0]), 0, 3, &l2), Ok(vec![]));
}

#[test]
fn filtered_searches_return_what_passes() {
    let index = line(30, HNSWParams::default());
    let even = |id: u32| id % 2 == 0;
    let query = bits(&[11.0, 0.0, 0.0]);
    let results = index.search_with_filter(&query, 4, 10, &l2, &even).unwrap();
    let ids: Vec<u32> = results.iter().map(|r| r.slot).collect();
    assert_eq!(ids.len(), 4);
    for id in [8, 10, 12, 14] {
        assert!(ids.contains(&id));
    }
}

#[test]
fn test_hnsw_levels() {
    let params = HNSWParams { seed: 12345, ..Default::default() };
    let index = line(100, params);

    let mut top_level_counts = vec![0usize; 8];
    for id in 0..100 {
        top_level_counts[index.storage.get_node_level(id) as usize] += 1;
    }

    assert!(top_level_counts[0] > 80);

    let higher_level_count: usize = top_level_counts[1..].iter().sum();
    assert!(higher_level_count > 0);

    let total: usize = top_level_counts.iter().sum();
    assert_eq!(total, 100);
}

#[test]
fn test_neighbor_count_limits() {
    let params = HNSWParams { m: 4, ef_construction: 10, ..Default::default() };
    let index = line(20, params);

    for id in 0..20 {
        let neighbor_count = index.storage.neighbors.get_neighbors(id, 0).len();
        assert!(neighbor_count <= params.m * 2);
    }
}

#[test]
fn test_search_recall_simple() {
    let index = line(10, HNSWParams::default());

    let results = search(&index, &[5.0, 0.0, 0.0], 3, 20);

    assert_eq!(results.len(), 3);
    assert_eq!(results[0].slot, 5);

    let ids: Vec<u32> = results.iter().map(|r| r.slot).collect();
    assert!(ids.contains(&4));
    assert!(ids.contains(&6));
}

#[test]
fn tests_test_save_load_empty() {
    let index = new(3, HNSWParams::default());

    let loaded = load(&save(&index)).unwrap();

    assert_eq!(loaded.dimensions(), 3);
    assert_eq!(loaded.len(), 0);
    assert!(loaded.is_empty());
    assert_eq!(loaded.entry_point, None);
}

#[test]
fn test_save_load_small() {
    let index = line(10, HNSWParams::default());

    let loaded = load(&save(&index)).unwrap();

    assert_eq!(loaded.dimensions(), 3);
    assert_eq!(loaded.len(), 10);
    assert!(!loaded.is_empty());
    assert_eq!(loaded.entry_point, index.entry_point);

    for i in 0..10 {
        assert_eq!(index.storage.vector(i), loaded.storage.vector(i));
    }

    let results = search(&loaded, &[5.0, 0.0, 0.0], 3, 20);
    assert_eq!(results.len(), 3);
    assert_eq!(results[0].slot, 5);
}

#[test]
fn test_save_load_preserves_graph() {
    let mut index = new(3, HNSWParams::default());
    for i in 0..20 {
        insert(&mut index, &[i as f32, (i * 2) as f32, (i * 3) as f32]).unwrap();
    }

    let query = [10.0, 20.0, 30.0];
    let results_before = search(&index, &query, 5, 20);

    let loaded = load(&save(&index)).unwrap();
    let results_after = search(&loaded, &query, 5, 20);

    assert_eq!(results_before.len(), results_after.len());
    for (before, after) in results_before.iter().zip(results_after.iter()) {
        assert_eq!(before.slot, after.slot);
        let difference = f32::from_bits(before.distance) - f32::from_bits(after.distance);
        assert!(difference.abs() < 1e-5);
    }
}

#[test]
fn test_load_invalid_magic() {
    let result = load(b"INVALID\0");
    assert!(matches!(result, Err(FormatError::InvalidMagic { .. })));
}

#[test]
fn test_load_unsupported_version() {
    let mut file = b"HNSWIDX\0".to_vec();
    file.extend_from_slice(&99u32.to_le_bytes());

    let result = load(&file);
    assert_eq!(result.err(), Some(FormatError::UnsupportedVersion { found: 99 }));
}

#[test]
fn files_that_end_too_early_are_refused() {
    let file = save(&line(3, HNSWParams::default()));
    for n in [4, 10, 14, 20, file.len() - 1] {
        assert!(load(&file[..n]).is_err());
    }
    let mut other = file.clone();
    other[8] = 6;
    assert_eq!(load(&other).err(), Some(FormatError::UnsupportedVersion { found: 6 }));
}

#[test]
fn test_empty_index_serialization() {
    let index = new(128, HNSWParams::default());
    let loaded = load(&save(&index)).unwrap();

    assert_eq!(loaded.len(), 0);
    assert_eq!(loaded.dimensions(), 128);
}

#[test]
fn test_index_stats_empty() {
    let index = new(128, HNSWParams::default());

    let stats = index.stats();

    assert_eq!(stats.num_vectors, 0);
    assert_eq!(stats.dimensions, 128);
    assert_eq!(stats.entry_point, None);
    assert_eq!(stats.max_level, 0);
    assert_eq!(stats.total_neighbors_l0, 0);
    assert_eq!(stats.max_neighbors_l0, 0);
    assert!(!stats.quantization_enabled);
    assert!(matches!(stats.distance_function, Metric::L2));
}

#[test]
fn test_index_stats_with_vectors() {
    let mut index = new(3, HNSWParams::default());
    for i in 0..50 {
        insert(&mut index, &[i as f32, (i * 2) as f32, (i * 3) as f32]).unwrap();
    }

    let stats = index.stats();

    assert_eq!(stats.num_vectors, 50);
    assert_eq!(stats.dimensions, 3);
    assert!(stats.entry_point.is_some());
    assert!(stats.level_distribution.len() > 0);
    assert!(stats.level_distribution.iter().sum::<usize>() == 50);
    assert!(stats.total_neighbors_l0 as f32 / 50.0 > 0.0);
    assert!(stats.max_neighbors_l0 > 0);
    assert!(stats.memory_bytes > 0);
    assert!(!stats.quantization_enabled);
}

#[test]
fn test_index_stats_level_distribution() {
    let params = HNSWParams { seed: 42, ..Default::default() };
    let stats = line(100, params).stats();

    assert!(stats.level_distribution[0] > 70);

    let total: usize = stats.level_distribution.iter().sum();
    assert_eq!(total, 100);

    assert_eq!(stats.max_level as usize, stats.level_distribution.len() - 1);
}

#[test]
fn test_index_stats_neighbors() {
    let params = HNSWParams { m: 8, ..Default::default() };
    let stats = line(30, params).stats();

    let avg_neighbors_l0 = stats.total_neighbors_l0 as f32 / stats.num_vectors as f32;
    assert!(avg_neighbors_l0 > 0.0);
    assert!(avg_neighbors_l0 <= (params.m * 2) as f32);

    assert!(stats.max_neighbors_l0 <= params.m * 2);
}

#[test]
fn test_index_stats_distance_functions() {
    for metric in [Metric::L2, Metric::Cosine, Metric::InnerProduct] {
        let index: Index = HNSWIndex::new(3, HNSWParams::default(), metric);
        assert_eq!(index.stats().distance_function, metric);
    }
}

#[test]
fn test_storage_mode_auto_select() {
    let mode = StorageMode::auto_select(1_000_000);
    assert_eq!(mode, StorageMode::Memory);

    let mode = StorageMode::auto_select(50_000_000);
    assert_eq!(mode, StorageMode::Hybrid);

    let mode = StorageMode::auto_select(200_000_000);
    assert_eq!(mode, StorageMode::DiskHeavy);
}

#[test]
fn builders_ask_for_the_dimensions() {
    let index = HNSWIndexBuilder::new()
        .dimensions(4)
        .m(6)
        .ef_construction(30)
        .metric(Metric::Cosine)
        .build()
        .unwrap();
    assert_eq!(index.dimensions(), 4);
    assert_eq!(index.params().m, 6);
    assert_eq!(index.params().ef_construction, 30);
    assert_eq!(index.distance_function(), Metric::Cosine);
    assert!(Index::builder().build().is_err());
    assert_eq!(HNSWQuantization::default(), HNSWQuantization::Off);
}

#[test]
fn the_nearest_candidates_are_selected() {
    let c = |id: u32, d: f32| Candidate::new(id, d.to_bits());
    let chosen = select_neighbors_heuristic(&[c(1, 3.0), c(2, 1.0), c(3, 2.0)], 2);
    assert_eq!(chosen, vec![2, 3]);
}

#[test]
fn a_sound_index_is_recognised() {
    let mut index = line(10, HNSWParams::default());
    assert!(index.is_sound());
    index.storage.neighbors.set_neighbors(0, 0, &[77]);
    assert!(!index.is_sound());
    let mut other = line(10, HNSWParams::default());
    other.entry_point = Some(10);
    assert!(!other.is_sound());
}

#[test]
fn batches_stop_at_the_first_bad_vector() {
    let mut index = new(2, HNSWParams::default());
    let (a, b, c) = (bits(&[1.0, 0.0]), bits(&[1.0]), bits(&[2.0, 0.0]));
    let r = index.insert_batch_parallel_from_refs(
        &vec![a.as_slice(), b.as_slice(), c.as_slice()],
        &[],
        &l2,
        &level,
    );
    assert_eq!(r, Err(HNSWError::DimensionMismatch { expected: 2, actual: 1 }));
    assert_eq!(index.len(), 1);
    let r = index.insert_batch_parallel(vec![c.clone(), a.clone()], &[7, 8], &l2, &level);
    assert_eq!(r, Ok(()));
    assert_eq!(index.len(), 3);
    assert_eq!(index.storage.vector(1), c.as_slice());
    assert_eq!(index.storage.vector(2), a.as_slice());
}

#[test]
fn parallel_construction_finds_its_vectors() {
    let vectors: Vec<Vec<u32>> = (0..60).map(|i| bits(&[i as f32, 1.0])).collect();
    let index = Index::build_parallel(
        2,
        HNSWParams::default(),
        Metric::L2,
        false,
        vectors,
        &l2,
        &level,
    )
    .unwrap();
    assert_eq!(index.len(), 60);
    for i in [0, 17, 59] {
        assert_eq!(search(&index, &[i as f32, 1.0], 1, 60)[0].slot, i);
    }
    let short = vec![bits(&[1.0, 1.0]), bits(&[1.0])];
    let r = Index::build_parallel(2, HNSWParams::default(), Metric::L2, false, short, &l2, &level);
    assert_eq!(r.err(), Some(HNSWError::DimensionMismatch { expected: 2, actual: 1 }));
}

#[test]
fn test_sequential_build_small() {
    let builder = SequentialBuilder::new(4, HNSWParams::default(), Metric::L2, false).unwrap();

    let vectors = vec![
        bits(&[1.0, 0.0, 0.0, 0.0]),
        bits(&[0.0, 1.0, 0.0, 0.0]),
        bits(&[0.0, 0.0, 1.0, 0.0]),
        bits(&[0.0, 0.0, 0.0, 1.0]),
    ];
    let refs: Vec<&[u32]> = vectors.iter().map(|v| v.as_slice()).collect();

    let index = build_with(builder, &refs).unwrap();
    assert_eq!(index.len(), 4);
}

#[test]
fn test_sequential_build_empty() {
    let builder = SequentialBuilder::new(4, HNSWParams::default(), Metric::L2, false).unwrap();
    let index = build_with(builder, &vec![]).unwrap();
    assert_eq!(index.len(), 0);
}

#[test]
fn sequential_construction_finds_its_vectors() {
    let vectors: Vec<Vec<u32>> = (0..80).map(|i| bits(&[i as f32, 2.0])).collect();
    let refs: Vec<&[u32]> = vectors.iter().map(|v| v.as_slice()).collect();
    let builder = SequentialBuilder::new(2, HNSWParams::default(), Metric::L2, false).unwrap();
    let index = build_with(builder, &refs).unwrap();
    for i in [0, 33, 79] {
        let r = index.search(&bits(&[i as f32, 2.0]), 1, 80, &l2).unwrap();
        assert_eq!(r[0].slot, i);
    }
}

#[test]
fn sequential_construction_keeps_norms_and_slots() {
    let vectors: Vec<Vec<u32>> = (0..20).map(|i| bits(&[i as f32, 2.0])).collect();
    let refs: Vec<&[u32]> = vectors.iter().map(|v| v.as_slice()).collect();
    let builder = SequentialBuilder::new(2, HNSWParams::default(), Metric::L2, false).unwrap();
    let index = build_with(builder, &refs).unwrap();
    assert_eq!(index.storage.get_norm(3), Some(13.0f32.to_bits()));
    assert_eq!(index.storage.get_norm(20), None);
    assert_eq!(index.storage.slot(7), 7);
}

#[test]
fn sequential_construction_can_compress_vectors() {
    let vectors: Vec<Vec<u32>> = (0..300).map(|i| bits(&[(i % 250) as f32, 2.0])).collect();
    let refs: Vec<&[u32]> = vectors.iter().map(|v| v.as_slice()).collect();
    let new = |compress: bool| {
        SequentialBuilder::new(2, HNSWParams::default(), Metric::L2, compress).unwrap()
    };
    let plain = build_with(new(false), &refs).unwrap();
    let index = build_with(new(true), &refs).unwrap();
    assert!(index.storage.is_sq8() && index.storage.is_trained());
    assert_eq!(index.storage.len(), 300);
    assert_eq!(index.entry_point, plain.entry_point);
    for id in [0, 17, 255, 299] {
        assert_eq!(index.storage.quantized_vector(id), [(id % 250) as u8, 2]);
        assert_eq!(index.storage.level(id), plain.storage.level(id));
        assert_eq!(index.storage.slot(id), id);
        for level in 0..=plain.storage.level(id) {
            assert_eq!(
                index.storage.neighbors_at_level(id, level),
                plain.storage.neighbors_at_level(id, level)
            );
        }
    }

    let few: Vec<&[u32]> = refs[..30].to_vec();
    let index = build_with(new(true), &few).unwrap();
    assert!(index.storage.is_sq8() && !index.storage.is_trained());
    assert_eq!(index.storage.training_buffer.len(), 60);
    assert_eq!(index.storage.quantized_vector(9), [0, 0]);

    let never = |_: &[u32], _: usize| -> Option<ScalarParams> { None };
    let never = ScalarCoder { train: never, quantize, values };
    let r = new(true).build(&refs, &l2, &wide_level, &norm, &never);
    assert_eq!(r.err(), Some(HNSWError::Internal("Failed to train SQ8 params".to_string())));
    assert!(new(true).build(&few, &l2, &wide_level, &norm, &never).is_ok());
}

#[test]
fn one_segment_takes_all_vectors() {
    let config = SegmentConfig::new(3)
        .with_params(HNSWParams::default())
        .with_distance(Metric::Cosine)
        .with_quantization(true);
    assert_eq!(config.capacity, usize::MAX);
    assert_eq!(config.with_capacity(9).capacity, 9);

    let mut empty = SegmentManager::new(config);
    assert_eq!(empty.dimensions(), 0);
    assert_eq!(empty.metric(), Metric::L2);
    let r = empty.insert_with_slot(&bits(&[1.0]), 5, &l2, &level);
    assert_eq!(r, Err(HNSWError::DimensionMismatch { expected: 0, actual: 1 }));

    let vectors: Vec<Vec<u32>> = (0..5).map(|i| bits(&[i as f32])).collect();
    let refs: Vec<&[u32]> = vectors.iter().map(|v| v.as_slice()).collect();
    let mut manager =
        SegmentManager::build_parallel_with_slots_from_refs(config, refs, &[], &l2, &level)
            .unwrap();
    let view = manager.read_view();
    assert_eq!(manager.insert_with_slot(&bits(&[9.0]), 0, &l2, &level), Ok(5));
    assert_eq!(manager.len(), 6);
    assert_eq!(view.len(), 5);
    assert_eq!(view.mutable_len(), 5);
    assert_eq!(view.frozen_count(), 0);
    assert_eq!(view.generation(), 0);
    assert_eq!(view.segment_capacity(), usize::MAX);
    assert!(view.total_memory() > 0);
    let none = |_: u32| false;
    let found = view.search_with_filter(&bits(&[3.2]), 2, 10, &l2, &none).unwrap();
    assert_eq!(found, view.search(&bits(&[3.2]), 2, 10, &l2).unwrap());
    assert_eq!(found[0].slot, 3);
    assert_eq!(manager.optimize().segments_merged, 0);
    let found = manager.search_with_filter(&bits(&[8.0]), 2, 10, &l2, &none).unwrap();
    assert_eq!(found, manager.search(&bits(&[8.0]), 2, 10, &l2).unwrap());
    assert_eq!(found[0].slot, 5);
    let more = vec![bits(&[20.0]), bits(&[21.0, 0.0]), bits(&[22.0])];
    let r = manager.insert_batch_parallel(more, &[], &l2, &level);
    assert_eq!(r, Err(HNSWError::DimensionMismatch { expected: 1, actual: 2 }));
    assert_eq!(manager.mutable_len(), 7);
    assert_eq!(manager.flush(), Ok(()));
    assert_eq!(manager.freeze_mutable(), Ok(()));
    assert_eq!(manager.generation(), 0);
    assert!(manager.memory_usage() >= view.total_memory());
    assert_eq!(manager.len(), 7);
}

#[test]
fn the_narrowest_beam_ends_where_no_neighbour_is_nearer() {
    let mut index: Index = HNSWIndex::new(1, HNSWParams::default(), Metric::L2);
    for i in 0..60 {
        index.insert(&bits(&[i as f32]), &l2, &level).unwrap();
    }
    for target in [0.0, 7.3, 31.6, 58.9] {
        let query = bits(&[target]);
        let found = index.search(&query, 1, 1, &l2).unwrap();
        let links = index.storage.neighbors.get_neighbors(found[0].slot, 0);
        assert!(!links.is_empty());
        for id in links {
            let away = f32::from_bits(l2(&query, index.storage.vector(id)));
            assert!(away >= f32::from_bits(found[0].distance));
        }
    }
}

#[test]
fn test_index_stats_with_quantization() {
    let mut index = HNSWIndex::new_coded(8, HNSWParams::default(), Metric::L2);
    for i in 0..10 {
        index.insert_vector(&bits(&[i as f32; 8]), &l2, &level, &coder()).unwrap();
    }

    let stats = index.stats();

    assert_eq!(stats.num_vectors, 10);
    assert!(stats.quantization_enabled);
    assert!(stats.memory_bytes > 0);
}

#[test]
fn vectors_are_coded_once_there_are_enough() {
    let mut index = HNSWIndex::new_coded(2, HNSWParams::default(), Metric::L2);
    let at = |i: u32| bits(&[(i % 250) as f32, 0.0]);
    for i in 0..255u32 {
        assert_eq!(index.insert_vector(&at(i), &l2, &level, &coder()), Ok(i));
    }
    assert!(!index.storage.is_trained());
    assert_eq!(index.storage.training_buffer.len(), 510);
    assert_eq!(index.insert_vector(&at(255), &l2, &level, &coder()), Ok(255));
    assert!(index.storage.is_trained());
    assert!(index.storage.training_buffer.is_empty());
    for i in 256..400u32 {
        assert_eq!(index.insert_vector(&at(i), &l2, &level, &coder()), Ok(i));
    }
    assert_eq!(index.storage.len(), 400);
    assert_eq!(index.storage.quantized_vector(399), [149, 0]);
    assert_eq!(index.storage.get_norm(399), Some((149.0f32 * 149.0).to_bits()));
    assert!(index.is_sound());
    let found = index.search(&bits(&[200.2, 0.0]), 1, 50, &l2).unwrap();
    assert_eq!(found[0].slot, 200);
    let r = index.insert_vector(&bits(&[1.0]), &l2, &level, &coder());
    assert_eq!(r, Err(HNSWError::DimensionMismatch { expected: 2, actual: 1 }));
    let r = index.insert_vector(&bits(&[1.0, f32::NAN]), &l2, &level, &coder());
    assert_eq!(r, Err(HNSWError::InvalidVector));
    assert_eq!(index.storage.len(), 400);
}

#[test]
fn a_tie_joins_the_beam_only_where_it_may() {
    let mut index = HNSWIndex::new(1, HNSWParams::default(), Metric::L2);
    for x in [1.0f32, -1.0, 0.0] {
        index.storage.push_node(&bits(&[x]), 0);
    }
    index.storage.set_links(0, 0, &[1]);
    index.storage.set_links(1, 0, &[2]);
    let search = |ties: bool| -> Vec<u32> {
        let query = bits(&[0.0]);
        let kept = beam_search(&index.storage, &l2, &query, &[0], 1, 0, false, ties, 3);
        kept.into_vec().iter().map(|c| c.node_id).collect()
    };
    assert_eq!(search(true), vec![2]);
    assert_eq!(search(false), vec![0]);
}
