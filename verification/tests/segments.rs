//! Segments, and their files.

use omendb_hnsw::bytes::{put_u32, put_u64, read_u32, read_u64, read_u8};
use omendb_hnsw::error::{FormatError, HNSWError};
use omendb_hnsw::node_storage::quantization::{Coder, QuantizedVector, ScalarCoder};
use omendb_hnsw::node_storage::upper_neighbors::UpperNeighborsMmap;
use omendb_hnsw::node_storage::ScalarParams;
use omendb_hnsw::segment::{FrozenSegment, MutableSegment, SegmentSearchResult};
use omendb_hnsw::segment_persistence::parse_header;
use omendb_hnsw::types::{HNSWParams, Metric};

fn bits(values: &[f32]) -> Vec<u32> {
    values.iter().map(|v| v.to_bits()).collect()
}

fn l2(a: &[u32], b: &[u32]) -> u32 {
    let sum: f32 = a
        .iter()
        .zip(b.iter())
        .map(|(x, y)| (f32::from_bits(*x) - f32::from_bits(*y)).powi(2))
        .sum();
    sum.to_bits()
}

fn cosine(a: &[u32], b: &[u32]) -> u32 {
    let pairs = || a.iter().zip(b.iter()).map(|(x, y)| (f32::from_bits(*x), f32::from_bits(*y)));
    let dot: f32 = pairs().map(|(x, y)| x * y).sum();
    let na: f32 = pairs().map(|(x, _)| x * x).sum::<f32>().sqrt();
    let nb: f32 = pairs().map(|(_, y)| y * y).sum::<f32>().sqrt();
    (1.0 - dot / (na * nb)).to_bits()
}

fn level(draw: u32) -> u8 {
    let f = draw as f32 / 16_777_216.0;
    (-f.ln() / 16.0f32.ln()) as u8
}

fn train(values: &[u32], dimensions: usize) -> Option<ScalarParams> {
    let values: Vec<f32> = values.iter().map(|x| f32::from_bits(*x)).collect();
    let low = values.iter().copied().fold(f32::MAX, f32::min);
    let high = values.iter().copied().fold(f32::MIN, f32::max);
    let scale = if high > low { (high - low) / 255.0 } else { 1.0 };
    Some(ScalarParams { scale: scale.to_bits(), offset: low.to_bits(), dimensions })
}

fn quantize(params: ScalarParams, v: &[u32]) -> QuantizedVector {
    let scale = f32::from_bits(params.scale);
    let offset = f32::from_bits(params.offset);
    let data: Vec<u8> =
        v.iter().map(|x| ((f32::from_bits(*x) - offset) / scale).round() as u8).collect();
    let sum = data.iter().map(|c| *c as i32).sum();
    let norm: f32 = v.iter().map(|x| f32::from_bits(*x).powi(2)).sum();
    QuantizedVector { data, norm_sq: norm.to_bits(), sum }
}

fn values(params: ScalarParams) -> Vec<u32> {
    let scale = f32::from_bits(params.scale);
    let offset = f32::from_bits(params.offset);
    (0..256).map(|c| (c as f32 * scale + offset).to_bits()).collect()
}

fn coder() -> impl Coder {
    ScalarCoder { train, quantize, values }
}

fn params(m: usize, ef_construction: usize) -> HNSWParams {
    HNSWParams { m, ef_construction, ..Default::default() }
}

fn segment(dim: usize, params: HNSWParams) -> MutableSegment {
    MutableSegment::new(dim, params, Metric::L2).unwrap()
}

fn insert(segment: &mut MutableSegment, v: &[f32]) -> u32 {
    segment.insert(&bits(v), &l2, &level, &coder()).unwrap()
}

fn distance(r: &SegmentSearchResult) -> f32 {
    f32::from_bits(r.distance)
}

fn line(n: usize, params: HNSWParams) -> MutableSegment {
    let mut mutable = segment(4, params);
    for i in 0..n {
        insert(&mut mutable, &[i as f32, 0.0, 0.0, 0.0]);
    }
    mutable
}

fn wide(n: usize, params: HNSWParams) -> MutableSegment {
    let mut mutable = MutableSegment::with_capacity(128, params, Metric::L2, 1000).unwrap();
    for i in 0..n {
        let vector: Vec<f32> =
            (0..128).map(|j| ((i * 128 + j) % 256) as f32 / 256.0).collect();
        insert(&mut mutable, &vector);
    }
    mutable
}

fn put_metric(metric: Metric) -> Vec<u8> {
    vec![match metric {
        Metric::L2 => 0,
        Metric::Cosine => 1,
        Metric::InnerProduct => 2,
    }]
}

fn get_metric(bytes: &[u8]) -> Option<Metric> {
    match bytes {
        [0] => Some(Metric::L2),
        [1] => Some(Metric::Cosine),
        [2] => Some(Metric::InnerProduct),
        _ => None,
    }
}

fn put_params(p: &HNSWParams) -> Vec<u8> {
    let mut out = Vec::new();
    put_u64(&mut out, p.m as u64);
    put_u64(&mut out, p.ef_construction as u64);
    put_u32(&mut out, p.ml);
    put_u64(&mut out, p.seed);
    out.push(p.max_level);
    out
}

fn get_params(bytes: &[u8]) -> Option<HNSWParams> {
    let mut pos = 0;
    Some(HNSWParams {
        m: read_u64(bytes, &mut pos).ok()? as usize,
        ef_construction: read_u64(bytes, &mut pos).ok()? as usize,
        ml: read_u32(bytes, &mut pos).ok()?,
        seed: read_u64(bytes, &mut pos).ok()?,
        max_level: read_u8(bytes, &mut pos).ok()?,
    })
}

fn save(frozen: &FrozenSegment) -> Vec<u8> {
    frozen.encode(&put_metric(frozen.distance_function()), &put_params(frozen.params()))
}

fn load(bytes: &[u8]) -> Result<FrozenSegment, FormatError> {
    FrozenSegment::decode(bytes, &get_metric, &get_params)
}

#[test]
fn test_mutable_segment_insert_and_search() {
    let mut segment = segment(4, params(16, 100));

    let v1 = [1.0, 0.0, 0.0, 0.0];
    let v2 = [0.0, 1.0, 0.0, 0.0];
    let v3 = [0.0, 0.0, 1.0, 0.0];

    let id1 = insert(&mut segment, &v1);
    let id2 = insert(&mut segment, &v2);
    let id3 = insert(&mut segment, &v3);

    assert_eq!(id1, 0);
    assert_eq!(id2, 1);
    assert_eq!(id3, 2);
    assert_eq!(segment.len(), 3);

    let results = segment.search(&bits(&v1), 3, 100, &l2).unwrap();
    assert!(!results.is_empty());
    assert_eq!(results[0].id, 0);
    assert!(distance(&results[0]) < 0.001);
}

#[test]
fn test_frozen_segment_search() {
    let mut mutable = segment(4, params(16, 100));

    insert(&mut mutable, &[1.0, 0.0, 0.0, 0.0]);
    insert(&mut mutable, &[0.0, 1.0, 0.0, 0.0]);
    insert(&mut mutable, &[0.0, 0.0, 1.0, 0.0]);
    insert(&mut mutable, &[0.0, 0.0, 0.0, 1.0]);

    let frozen = mutable.freeze(&coder());
    assert_eq!(frozen.len(), 4);

    let results = frozen.search(&bits(&[1.0, 0.0, 0.0, 0.0]), 2, 100, &l2);

    assert!(!results.is_empty());
    assert_eq!(results[0].id, 0);
    assert!(distance(&results[0]) < 0.001);
}

#[test]
fn test_frozen_segment_preserves_graph() {
    let frozen = wide(100, params(16, 100)).freeze(&coder());
    assert_eq!(frozen.len(), 100);

    let query: Vec<f32> = (0..128).map(|j| (50 * 128 + j) as f32 / 256.0 % 1.0).collect();
    let results = frozen.search(&bits(&query), 10, 100, &l2);

    assert_eq!(results.len(), 10);
    for i in 1..results.len() {
        assert!(distance(&results[i - 1]) <= distance(&results[i]));
    }
}

#[test]
fn test_segment_capacity() {
    let mut segment = MutableSegment::with_capacity(4, params(16, 100), Metric::L2, 5).unwrap();
    assert!(!segment.is_full());
    for i in 0..5 {
        assert!(!segment.is_full());
        insert(&mut segment, &[i as f32, 0.0, 0.0, 0.0]);
    }
    assert!(segment.is_full());
}

#[test]
fn test_frozen_segment_filtered_search() {
    let frozen = line(10, params(16, 100)).freeze(&coder());

    let even = |slot: u32| slot % 2 == 0;
    let results = frozen.search_with_filter(&bits(&[4.0, 0.0, 0.0, 0.0]), 3, 100, &l2, &even);

    assert!(!results.is_empty());
    for r in &results {
        assert!(r.slot % 2 == 0, "slot {} should be even", r.slot);
    }
    assert_eq!(results[0].slot, 4);
}

#[test]
fn test_frozen_segment_filtered_search_no_matches() {
    let frozen = line(10, params(16, 100)).freeze(&coder());

    let none = |_: u32| false;
    let results = frozen.search_with_filter(&bits(&[5.0, 0.0, 0.0, 0.0]), 3, 100, &l2, &none);

    assert!(results.is_empty());
}

#[test]
fn test_freeze_applies_bfs_reorder_and_preserves_slots() {
    let mut chosen_seed = None;

    for seed in 1..=32 {
        let params = HNSWParams { seed, ..params(16, 100) };
        let mutable = line(64, params);
        if mutable.entry_point().is_some_and(|entry| entry != 0) {
            chosen_seed = Some(seed);
            break;
        }
    }

    let seed = chosen_seed.expect("expected a deterministic seed with a nonzero entry point");
    let mutable = line(64, HNSWParams { seed, ..params(16, 100) });

    let pre_freeze_entry = mutable.entry_point().unwrap();
    assert_ne!(pre_freeze_entry, 0, "test setup requires a nonzero entry point");

    let frozen = mutable.freeze(&coder());

    assert_eq!(frozen.entry_point(), Some(0));

    let results = frozen.search(&bits(&[31.0, 0.0, 0.0, 0.0]), 5, 100, &l2);
    assert!(!results.is_empty());
    assert_eq!(results[0].slot, 31);
}

#[test]
fn test_mutable_segment_filtered_search() {
    let mut segment = segment(4, params(16, 100));

    for i in 0..20 {
        let vector = bits(&[i as f32, 0.0, 0.0, 0.0]);
        segment.insert_with_slot(&vector, i * 10, &l2, &level, &coder()).unwrap();
    }

    let filter = |slot: u32| slot % 30 == 0;
    let results =
        segment.search_with_filter(&bits(&[5.0, 0.0, 0.0, 0.0]), 3, 100, &l2, &filter);

    assert!(results.is_ok());
    let results = results.unwrap();

    for r in &results {
        assert!(r.slot % 30 == 0, "slot {} should be divisible by 30", r.slot);
    }
}

#[test]
fn segments_refuse_vectors_of_another_length() {
    let mut mutable = line(3, params(8, 50));
    let r = mutable.insert(&bits(&[1.0]), &l2, &level, &coder());
    assert_eq!(r, Err(HNSWError::DimensionMismatch { expected: 4, actual: 1 }));
    let r = mutable.insert(&bits(&[1.0, 0.0, f32::NAN, 0.0]), &l2, &level, &coder());
    assert_eq!(r, Err(HNSWError::InvalidVector));
    assert_eq!(mutable.len(), 3);
    assert_eq!(mutable.get_slot(2), Some(2));
    assert_eq!(mutable.get_slot(3), None);
    assert!(mutable.freeze(&coder()).search(&bits(&[1.0]), 2, 10, &l2).is_empty());
}

#[test]
fn test_segment_save_load_roundtrip() {
    let frozen = line(10, params(8, 50)).freeze(&coder());
    let original_len = frozen.len();
    let original_entry = frozen.entry_point();

    let loaded = load(&save(&frozen)).unwrap();
    assert_eq!(loaded.len(), original_len);
    assert_eq!(loaded.entry_point(), original_entry);
    assert_eq!(loaded.params().m, 8);

    let results = loaded.search(&bits(&[5.0, 0.0, 0.0, 0.0]), 3, 50, &l2);
    assert_eq!(results.len(), 3);
    assert_eq!(results[0].id, 5);
}

#[test]
fn test_segment_save_load_empty() {
    let frozen = segment(4, params(8, 50)).freeze(&coder());
    assert_eq!(frozen.len(), 0);

    let loaded = load(&save(&frozen)).unwrap();

    assert_eq!(loaded.len(), 0);
    assert!(loaded.entry_point().is_none());
}

#[test]
fn test_segment_save_load_large() {
    let frozen = wide(500, params(8, 50)).freeze(&coder());

    let loaded = load(&save(&frozen)).unwrap();
    assert_eq!(loaded.len(), 500);

    let query: Vec<f32> = (0..128).map(|j| (250 * 128 + j) as f32 / 256.0 % 1.0).collect();
    let results = loaded.search(&bits(&query), 10, 100, &l2);
    assert_eq!(results.len(), 10);
    for i in 1..results.len() {
        assert!(distance(&results[i - 1]) <= distance(&results[i]));
    }
}

#[test]
fn test_segment_cosine_distance() {
    let mut mutable = MutableSegment::new(4, params(8, 50), Metric::Cosine).unwrap();
    for v in [[1.0, 0.0, 0.0, 0.0], [0.0, 1.0, 0.0, 0.0], [0.707, 0.707, 0.0, 0.0]] {
        mutable.insert(&bits(&v), &cosine, &level, &coder()).unwrap();
    }

    let loaded = load(&save(&mutable.freeze(&coder()))).unwrap();
    assert_eq!(loaded.distance_function(), Metric::Cosine);

    let results = loaded.search(&bits(&[1.0, 0.0, 0.0, 0.0]), 3, 50, &cosine);
    assert!(!results.is_empty());
}

#[test]
fn test_segment_mmap_roundtrip() {
    let frozen = line(10, params(8, 50)).freeze(&coder());
    let original_len = frozen.len();
    let original_entry = frozen.entry_point();
    let file = save(&frozen);

    let loaded = load(&file).unwrap();
    assert_eq!(loaded.len(), original_len);
    assert_eq!(loaded.entry_point(), original_entry);
    assert_eq!(loaded.params().m, 8);

    let results = loaded.search(&bits(&[5.0, 0.0, 0.0, 0.0]), 3, 50, &l2);
    assert_eq!(results.len(), 3);
    assert_eq!(results[0].id, 5);
}

#[test]
fn test_segment_mmap_empty() {
    let file = save(&segment(4, params(8, 50)).freeze(&coder()));

    let loaded = load(&file).unwrap();
    assert_eq!(loaded.len(), 0);
    assert!(loaded.entry_point().is_none());
}

#[test]
fn test_segment_mmap_search_matches_heap() {
    let frozen = wide(500, params(8, 50)).freeze(&coder());
    let file = save(&frozen);

    let loaded = load(&file).unwrap();
    assert_eq!(loaded.len(), frozen.len());

    let query: Vec<f32> = (0..128).map(|j| (250 * 128 + j) as f32 / 256.0 % 1.0).collect();
    let loaded_results = loaded.search(&bits(&query), 10, 100, &l2);
    let heap_results = frozen.search(&bits(&query), 10, 100, &l2);
    assert_eq!(loaded_results.len(), heap_results.len());
    for (m, h) in loaded_results.iter().zip(heap_results.iter()) {
        assert_eq!(m.id, h.id);
        assert!((distance(m) - distance(h)).abs() < 1e-6);
    }
}

#[test]
fn test_segment_mmap_upper_neighbors_region_roundtrip() {
    let mut mutable = MutableSegment::with_capacity(16, params(8, 50), Metric::L2, 512).unwrap();
    for i in 0..256 {
        let mut vector: Vec<f32> = (0..16).map(|j| j as f32).collect();
        vector[0] = i as f32;
        insert(&mut mutable, &vector);
    }

    let heap = load(&save(&mutable.freeze(&coder()))).unwrap();
    let region = heap.storage().serialize_upper_neighbors_region();
    let in_place =
        UpperNeighborsMmap::new(&region, heap.len(), heap.storage().max_neighbors_upper()).unwrap();

    let node_with_upper = (0..heap.len() as u32)
        .find(|&node_id| heap.storage().level(node_id) > 0)
        .expect("expected at least one upper-layer node");

    let max_level = heap.storage().level(node_with_upper);
    for level in 1..=max_level {
        assert_eq!(
            in_place.neighbors_at_level(node_with_upper, level),
            heap.storage().neighbors_at_level(node_with_upper, level)
        );
    }
}

#[test]
fn test_segment_mmap_cosine() {
    let mut mutable = MutableSegment::new(4, params(8, 50), Metric::Cosine).unwrap();
    for v in [[1.0, 0.0, 0.0, 0.0], [0.0, 1.0, 0.0, 0.0], [0.707, 0.707, 0.0, 0.0]] {
        mutable.insert(&bits(&v), &cosine, &level, &coder()).unwrap();
    }
    let file = save(&mutable.freeze(&coder()));

    let loaded = load(&file).unwrap();
    assert_eq!(loaded.distance_function(), Metric::Cosine);
    let results = loaded.search(&bits(&[1.0, 0.0, 0.0, 0.0]), 3, 50, &cosine);
    assert!(!results.is_empty());
}

#[test]
fn test_segment_mmap_sq8() {
    let mut mutable = MutableSegment::new_quantized(4, params(8, 50), Metric::L2).unwrap();
    for i in 0..20 {
        insert(&mut mutable, &[i as f32, 0.0, 0.0, 0.0]);
    }
    let file = save(&mutable.freeze(&coder()));

    let mut loaded = load(&file).unwrap();
    loaded.restore_values(&coder());
    assert_eq!(loaded.len(), 20);
    assert!(loaded.index().is_sound());

    let results = loaded.search(&bits(&[10.0, 0.0, 0.0, 0.0]), 5, 50, &l2);
    assert_eq!(results.len(), 5);
    assert_eq!(results[0].slot, 10);
}

#[test]
fn a_quantized_segment_is_coded_when_it_is_frozen() {
    let mut mutable = MutableSegment::new_quantized(4, params(8, 50), Metric::L2).unwrap();
    assert!(mutable.index().storage.is_sq8());
    for i in 0..20 {
        insert(&mut mutable, &[i as f32, 0.0, 0.0, 0.0]);
    }
    assert!(!mutable.index().storage.is_trained());
    assert_eq!(mutable.search(&bits(&[7.0, 0.0, 0.0, 0.0]), 1, 50, &l2).unwrap()[0].distance, 0);
    let frozen = mutable.freeze(&coder());
    assert!(frozen.storage().is_sq8() && frozen.storage().is_trained());
    assert_eq!(frozen.len(), 20);
    for x in 0..20 {
        let found = frozen.search(&bits(&[x as f32, 0.0, 0.0, 0.0]), 1, 50, &l2);
        assert_eq!(found[0].slot, x);
        assert!(distance(&found[0]) < 0.01);
    }

    let empty = MutableSegment::new_quantized(4, params(8, 50), Metric::L2).unwrap();
    let frozen = empty.freeze(&coder());
    assert!(frozen.storage().is_sq8() && !frozen.storage().is_trained());
    assert!(frozen.search(&bits(&[0.0; 4]), 1, 50, &l2).is_empty());
}

#[test]
fn a_segment_whose_training_fails_keeps_its_vectors() {
    let never = |_: &[u32], _: usize| -> Option<ScalarParams> { None };
    let never = ScalarCoder { train: never, quantize, values };
    let mut mutable = MutableSegment::new_quantized(1, params(8, 50), Metric::L2).unwrap();
    for i in 0..300u32 {
        let v = bits(&[i as f32]);
        mutable.insert_with_slot(&v, i + 1000, &l2, &level, &never).unwrap();
    }
    let frozen = mutable.freeze(&never);
    assert!(!frozen.storage().is_trained());
    assert_eq!(frozen.search(&bits(&[41.0]), 1, 50, &l2)[0].slot, 1041);
    let loaded = load(&save(&frozen)).unwrap();
    assert_eq!(loaded.search(&bits(&[41.0]), 1, 50, &l2)[0].slot, 1041);
}

#[test]
fn upper_neighbors_come_back_from_a_file() {
    let frozen = line(256, params(8, 50)).freeze(&coder());
    let loaded = load(&save(&frozen)).unwrap();
    let high = (0..256).find(|id| frozen.storage().level(*id) > 0).unwrap();
    for level in 0..=frozen.storage().level(high) {
        assert_eq!(
            loaded.storage().neighbors_at_level(high, level),
            frozen.storage().neighbors_at_level(high, level)
        );
    }
}

#[test]
fn headers_tell_what_a_file_holds() {
    let mut mutable = line(7, params(8, 50));
    mutable.set_id(41);
    let frozen = mutable.freeze(&coder());
    let header = parse_header(&save(&frozen), &get_metric, &get_params).unwrap();
    assert_eq!(header.id, 41);
    assert_eq!(header.len, 7);
    assert_eq!(header.params.m, 8);
    assert_eq!(header.distance_fn, Metric::L2);
    assert_eq!(header.node_size, frozen.storage().node_size());
}

#[test]
fn broken_segment_files_are_refused() {
    let file = save(&line(7, params(8, 50)).freeze(&coder()));
    assert!(matches!(load(b"NOTASEGMENT\0\0\0\0"), Err(FormatError::InvalidMagic { .. })));
    let mut other = file.clone();
    other[8] = 77;
    assert_eq!(load(&other).err(), Some(FormatError::UnsupportedVersion { found: 77 }));
    for n in [5, 12, 40, file.len() / 2, file.len() - 1] {
        assert!(load(&file[..n]).is_err());
    }
    let unreadable = FrozenSegment::decode(&file, &|_: &[u8]| None, &get_params);
    assert_eq!(unreadable.err(), Some(FormatError::Undecodable));
}
