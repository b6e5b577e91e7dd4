//! The manager of segments.

use std::sync::Arc;

use omendb_hnsw::bytes::{put_u32, put_u64, read_u32, read_u64, read_u8};
use omendb_hnsw::error::{HNSWError, Result};
use omendb_hnsw::index::HNSWIndex;
use omendb_hnsw::node_storage::quantization::{Coder, QuantizedVector, ScalarCoder};
use omendb_hnsw::node_storage::ScalarParams;
use omendb_hnsw::segment::{FrozenSegment, SegmentSearchResult};
use omendb_hnsw::segment_manager::merge::{
    build_merged_index, collect_from_segments, run_merge_job, MergePolicy, MergeProgress,
    MergeStats, PendingMergeCompletion,
};
use omendb_hnsw::segment_manager::persistence::{
    file_action, metric_name, parse_segment_name, read_manifest, read_pending_meta, segment_name,
    FileAction, ManifestFields,
};
use omendb_hnsw::segment_manager::results::sort_and_cut;
use omendb_hnsw::segment_manager::{SegmentConfig, SegmentManager};
use omendb_hnsw::types::{HNSWParams, Metric};

fn bits(values: &[f32]) -> Vec<u32> {
    values.iter().map(|v| v.to_bits()).collect()
}

fn l2(a: &[u32], b: &[u32]) -> u32 {
    let sum: f32 = a
        .iter()
        .zip(b.iter())
        .map(|(x, y)| (f32::from_bits(*x) - f32::from_bits(*y)).powi(2))
        .sum();
    sum.to_bits()
}

fn level(draw: u32) -> u8 {
    let f = draw as f32 / 16_777_216.0;
    (-f.ln() / 16.0f32.ln()) as u8
}

fn train(values: &[u32], dimensions: usize) -> Option<ScalarParams> {
    let values: Vec<f32> = values.iter().map(|x| f32::from_bits(*x)).collect();
    let low = values.iter().copied().fold(f32::MAX, f32::min);
    let high = values.iter().copied().fold(f32::MIN, f32::max);
    let scale = if high > low { (high - low) / 255.0 } else { 1.0 };
    Some(ScalarParams { scale: scale.to_bits(), offset: low.to_bits(), dimensions })
}

fn quantize(params: ScalarParams, v: &[u32]) -> QuantizedVector {
    let scale = f32::from_bits(params.scale);
    let offset = f32::from_bits(params.offset);
    let data: Vec<u8> =
        v.iter().map(|x| ((f32::from_bits(*x) - offset) / scale).round() as u8).collect();
    let sum = data.iter().map(|c| *c as i32).sum();
    let norm: f32 = v.iter().map(|x| f32::from_bits(*x).powi(2)).sum();
    QuantizedVector { data, norm_sq: norm.to_bits(), sum }
}

fn values(params: ScalarParams) -> Vec<u32> {
    let scale = f32::from_bits(params.scale);
    let offset = f32::from_bits(params.offset);
    (0..256).map(|c| (c as f32 * scale + offset).to_bits()).collect()
}

fn coder() -> impl Coder {
    ScalarCoder { train, quantize, values }
}

fn ratio(largest: usize, smallest: usize) -> u32 {
    (largest as f32 / smallest as f32).to_bits()
}

fn test_config() -> SegmentConfig {
    SegmentConfig::new(4)
        .with_params(HNSWParams { m: 8, ef_construction: 50, ..Default::default() })
        .with_capacity(10)
}

fn insert(manager: &mut SegmentManager, x: usize) {
    manager.insert(&bits(&[x as f32, 0.0, 0.0, 0.0]), &l2, &level, &coder(), &ratio).unwrap();
}

fn filled(config: SegmentConfig, policy: MergePolicy, n: usize) -> SegmentManager {
    let mut manager = SegmentManager::with_merge_policy(config, policy).unwrap();
    for i in 0..n {
        insert(&mut manager, i);
    }
    manager
}

fn search(manager: &SegmentManager, x: f32, k: usize) -> Vec<SegmentSearchResult> {
    manager.search(&bits(&[x, 0.0, 0.0, 0.0]), k, 50, &l2).unwrap()
}

fn merge_all(manager: &mut SegmentManager) -> Option<MergeStats> {
    manager.merge_all_frozen(&l2, &level, &coder()).unwrap()
}

fn distance(r: &SegmentSearchResult) -> f32 {
    f32::from_bits(r.distance)
}

fn put_params(p: &HNSWParams) -> Vec<u8> {
    let mut out = Vec::new();
    put_u64(&mut out, p.m as u64);
    put_u64(&mut out, p.ef_construction as u64);
    put_u32(&mut out, p.ml);
    put_u64(&mut out, p.seed);
    out.push(p.max_level);
    out
}

fn get_params(bytes: &[u8]) -> Option<HNSWParams> {
    let mut pos = 0;
    Some(HNSWParams {
        m: read_u64(bytes, &mut pos).ok()? as usize,
        ef_construction: read_u64(bytes, &mut pos).ok()? as usize,
        ml: read_u32(bytes, &mut pos).ok()?,
        seed: read_u64(bytes, &mut pos).ok()?,
        max_level: read_u8(bytes, &mut pos).ok()?,
    })
}

fn number(x: Option<u64>) -> String {
    x.map_or("null".to_string(), |x| x.to_string())
}

fn manifest_text(f: &ManifestFields) -> String {
    let p = f.merge_policy.as_ref().unwrap();
    format!(
        "{{\"dimensions\": {}, \"params\": {{\"m\": {}, \"ef_construction\": {}, \
         \"max_level\": {}}}, \"distance_fn\": \"{}\", \"segment_capacity\": {}, \
         \"quantization_mode\": \"{}\", \"next_segment_id\": {}, \"generation\": {}, \
         \"segment_ids\": {:?}, \"merge_policy\": {{\"enabled\": {}, \"min_segments\": {}, \
         \"max_segments\": {}, \"min_vectors\": {}}}}}",
        number(f.dimensions),
        number(f.m),
        number(f.ef_construction),
        number(f.max_level),
        f.distance_fn.as_ref().unwrap(),
        number(f.segment_capacity),
        f.quantization_mode.as_ref().unwrap(),
        number(f.next_segment_id),
        number(f.generation),
        f.segment_ids,
        p.enabled.unwrap(),
        number(p.min_segments),
        number(p.max_segments),
        number(p.min_vectors)
    )
}

/// The files of a manager: the manifest, and each segment.
fn save(manager: &mut SegmentManager) -> (String, Vec<Vec<u8>>) {
    let ids = manager.prepare_save(&coder(), &ratio);
    let fields = manager.build_manifest(ids);
    let segments = manager
        .frozen_segments()
        .iter()
        .map(|s| s.encode(metric_name(s.distance_function()).as_bytes(), &put_params(s.params())))
        .collect();
    (manifest_text(&fields), segments)
}

fn get_metric(bytes: &[u8]) -> Option<Metric> {
    [Metric::L2, Metric::Cosine, Metric::InnerProduct]
        .into_iter()
        .find(|m| metric_name(*m).as_bytes() == bytes)
}

fn load(files: (String, Vec<Vec<u8>>)) -> SegmentManager {
    let fields = read_manifest(files.0.as_bytes()).unwrap();
    let frozen = files
        .1
        .iter()
        .map(|bytes| {
            let mut segment = FrozenSegment::decode(bytes, &get_metric, &get_params).unwrap();
            segment.restore_values(&coder());
            Arc::new(segment)
        })
        .collect();
    SegmentManager::restore(&fields, 4.0f32.to_bits(), frozen).unwrap()
}

fn merged_prefix(manager: &mut SegmentManager, count: usize) -> Arc<FrozenSegment> {
    let segments = manager.published.frozen[0..count].to_vec();
    let (vectors, slots) = collect_from_segments(&segments);
    let index = build_merged_index(manager.config(), &vectors, &slots, &l2, &level, &coder()).unwrap();
    let id = manager.next_segment_id;
    manager.next_segment_id += 1;
    Arc::new(FrozenSegment::from_parts(
        id,
        index.entry_point,
        index.params,
        index.distance_fn,
        index.storage,
    ))
}

fn check_insert_and_search() {
    let mut manager = SegmentManager::new(test_config()).unwrap();

    for i in 0..5 {
        insert(&mut manager, i);
    }

    assert_eq!(manager.len(), 5);
    assert_eq!(manager.mutable_len(), 5);
    assert_eq!(manager.frozen_count(), 0);

    let results = search(&manager, 2.0, 3);
    assert_eq!(results.len(), 3);
    assert_eq!(results[0].id, 2);
    assert!(distance(&results[0]) < 0.001);
}

fn check_auto_freeze() {
    let mut manager = SegmentManager::new(test_config().with_capacity(5)).unwrap();

    for i in 0..7 {
        insert(&mut manager, i);
    }

    assert_eq!(manager.frozen_count(), 1);
    assert_eq!(manager.mutable_len(), 2);
    assert_eq!(manager.len(), 7);
}

fn check_search_across_segments() {
    let mut manager = SegmentManager::new(test_config().with_capacity(3)).unwrap();

    for i in 0..9 {
        insert(&mut manager, i);
    }

    assert_eq!(manager.frozen_count(), 2);
    assert_eq!(manager.mutable_len(), 3);

    let results = search(&manager, 4.0, 5);
    assert_eq!(results.len(), 5);

    for i in 1..results.len() {
        assert!(distance(&results[i - 1]) <= distance(&results[i]));
    }
}

fn check_flush() {
    let mut manager = SegmentManager::new(test_config()).unwrap();

    for i in 0..5 {
        insert(&mut manager, i);
    }

    assert_eq!(manager.mutable_len(), 5);
    assert_eq!(manager.frozen_count(), 0);

    manager.flush(&coder(), &ratio).unwrap();

    assert_eq!(manager.mutable_len(), 0);
    assert_eq!(manager.frozen_count(), 1);
    assert_eq!(manager.len(), 5);
}

fn check_empty() {
    let manager = SegmentManager::new(test_config()).unwrap();

    assert!(manager.is_empty());
    assert_eq!(manager.len(), 0);

    let results = search(&manager, 0.0, 10);
    assert!(results.is_empty());
}

fn check_policy_disabled() {
    let manager = filled(test_config().with_capacity(3), MergePolicy::disabled(), 15);

    assert!(manager.frozen_count() >= 2, "Should have multiple frozen segments");
    assert!(!manager.should_merge(&ratio), "Disabled policy should not trigger merge");
}

fn check_policy_max_segments() {
    let policy = MergePolicy {
        min_segments: 2,
        max_segments: 3,
        min_vectors: 1000,
        size_ratio_threshold: 100.0f32.to_bits(),
        enabled: true,
    };
    let manager = filled(test_config().with_capacity(3), policy, 12);

    assert_eq!(manager.len(), 12, "Should still have all vectors");
}

fn check_merge_all() {
    let mut manager = filled(test_config().with_capacity(5), MergePolicy::disabled(), 12);

    assert_eq!(manager.frozen_count(), 2, "Should have 2 frozen segments");
    let total_before = manager.len();

    let stats = merge_all(&mut manager);
    assert!(stats.is_some(), "Should return merge stats");

    let stats = stats.unwrap();
    assert!(stats.vectors_merged > 0, "Should merge vectors");

    assert_eq!(manager.frozen_count(), 1, "Should have 1 merged frozen segment");
    assert_eq!(manager.len(), total_before, "Total vectors unchanged");
}

fn check_merge_preserves_search() {
    let mut manager = filled(test_config().with_capacity(5), MergePolicy::disabled(), 15);

    let _results_before = search(&manager, 7.0, 5);

    merge_all(&mut manager);

    let results_after = search(&manager, 7.0, 5);
    assert_eq!(results_after.len(), 5, "Should still find 5 results");
    assert!(distance(&results_after[0]) < 1.0, "Should find vector close to query");
}

fn check_merge_specific() {
    let mut manager = filled(test_config().with_capacity(3), MergePolicy::disabled(), 12);

    assert_eq!(manager.frozen_count(), 3, "Should have 3 frozen segments");

    let stats = manager.merge_segments(&[0, 1], &l2, &level, &coder()).unwrap();
    assert!(stats.is_some());

    assert_eq!(manager.frozen_count(), 2, "Should have 2 frozen after partial merge");
}

fn check_size_ratio() {
    let policy = MergePolicy {
        min_segments: 2,
        max_segments: 100,
        min_vectors: 1_000_000,
        size_ratio_threshold: 2.0f32.to_bits(),
        enabled: true,
    };
    let mut manager = filled(test_config().with_capacity(10), policy, 10);
    manager.flush(&coder(), &ratio).unwrap();

    for i in 0..3 {
        insert(&mut manager, i);
    }

    assert_eq!(manager.mutable_len(), 3);
    assert_eq!(manager.frozen_count(), 1);

    manager.set_merge_policy(MergePolicy::disabled());
    manager.flush(&coder(), &ratio).unwrap();
    manager.set_merge_policy(policy);

    assert!(manager.should_merge(&ratio), "Size ratio should trigger merge");
}

#[test]
fn segment_manager_test_segment_manager_insert_and_search() {
    check_insert_and_search();
}

#[test]
fn mod_test_segment_manager_insert_and_search() {
    check_insert_and_search();
}

#[test]
fn segment_manager_test_segment_manager_auto_freeze() {
    check_auto_freeze();
}

#[test]
fn mod_test_segment_manager_auto_freeze() {
    check_auto_freeze();
}

#[test]
fn segment_manager_test_segment_manager_search_across_segments() {
    check_search_across_segments();
}

#[test]
fn mod_test_segment_manager_search_across_segments() {
    check_search_across_segments();
}

#[test]
fn segment_manager_test_segment_manager_flush() {
    check_flush();
}

#[test]
fn mod_test_segment_manager_flush() {
    check_flush();
}

#[test]
fn segment_manager_test_segment_manager_empty() {
    check_empty();
}

#[test]
fn mod_test_segment_manager_empty() {
    check_empty();
}

#[test]
fn segment_manager_test_merge_policy_disabled() {
    check_policy_disabled();
}

#[test]
fn mod_test_merge_policy_disabled() {
    check_policy_disabled();
}

#[test]
fn segment_manager_test_merge_policy_max_segments() {
    check_policy_max_segments();
}

#[test]
fn mod_test_merge_policy_max_segments() {
    check_policy_max_segments();
}

#[test]
fn segment_manager_test_merge_all_frozen_manually() {
    check_merge_all();
}

#[test]
fn mod_test_merge_all_frozen_manually() {
    check_merge_all();
}

#[test]
fn segment_manager_test_merge_preserves_search() {
    check_merge_preserves_search();
}

#[test]
fn mod_test_merge_preserves_search() {
    check_merge_preserves_search();
}

#[test]
fn segment_manager_test_merge_segments_specific() {
    check_merge_specific();
}

#[test]
fn mod_test_merge_segments_specific() {
    check_merge_specific();
}

#[test]
fn segment_manager_test_should_merge_size_ratio() {
    check_size_ratio();
}

#[test]
fn mod_test_should_merge_size_ratio() {
    check_size_ratio();
}

#[test]
fn test_read_view_reports_visible_state() {
    let mut manager = SegmentManager::new(test_config().with_capacity(3)).unwrap();

    for i in 0..8 {
        insert(&mut manager, i);
    }

    let view = manager.read_view();
    assert_eq!(view.frozen_count(), manager.frozen_count());
    assert_eq!(view.mutable_len(), manager.mutable_len());
    assert_eq!(view.len(), manager.len());
    assert_eq!(view.is_empty(), manager.is_empty());
    assert_eq!(view.generation(), manager.generation());
    assert_eq!(view.segment_capacity(), manager.config().segment_capacity);
    assert_eq!(view.total_memory(), manager.total_memory());
}

#[test]
fn test_read_view_matches_manager_search() {
    let mut manager = SegmentManager::new(test_config().with_capacity(3)).unwrap();

    for i in 0..9 {
        insert(&mut manager, i);
    }

    let query = bits(&[4.0, 0.0, 0.0, 0.0]);
    let manager_results = manager.search(&query, 5, 50, &l2).unwrap();
    let view_results = manager.read_view().search(&query, 5, 50, &l2).unwrap();

    assert_eq!(view_results.len(), manager_results.len());
    for (view, manager) in view_results.iter().zip(manager_results.iter()) {
        assert_eq!(view.id, manager.id);
        assert_eq!(view.slot, manager.slot);
        assert_eq!(view.distance, manager.distance);
    }
}

#[test]
fn test_publish_completed_pending_merge_preserves_appended_segments() {
    let mut manager = filled(test_config().with_capacity(3), MergePolicy::disabled(), 9);
    manager.flush(&coder(), &ratio).unwrap();

    assert_eq!(manager.frozen_count(), 3);
    let total_before = manager.len();
    let appended_segment_id = manager.published.frozen[2].id();
    let source_ids =
        vec![manager.published.frozen[0].id(), manager.published.frozen[1].id()];
    let merged = merged_prefix(&mut manager, 2);
    let merged_id = merged.id();

    let drained = manager.publish_completed_pending_merge(merged, &source_ids);
    assert_eq!(drained, Some(2));
    assert_eq!(manager.frozen_count(), 2);
    assert_eq!(manager.published.frozen[0].id(), merged_id);
    assert_eq!(manager.published.frozen[1].id(), appended_segment_id);
    assert_eq!(manager.len(), total_before);
}

#[test]
fn test_publish_completed_pending_merge_rejects_prefix_mismatch() {
    let mut manager = filled(test_config().with_capacity(3), MergePolicy::disabled(), 9);
    manager.flush(&coder(), &ratio).unwrap();

    assert_eq!(manager.frozen_count(), 3);
    let frozen_ids_before = manager.segment_ids();
    let source_ids =
        vec![manager.published.frozen[1].id(), manager.published.frozen[0].id()];
    let merged = merged_prefix(&mut manager, 2);

    let drained = manager.publish_completed_pending_merge(merged, &source_ids);
    assert_eq!(drained, None);
    assert_eq!(manager.segment_ids(), frozen_ids_before);
}

#[test]
fn test_merge_preserves_custom_slots() {
    let mut manager =
        SegmentManager::with_merge_policy(test_config().with_capacity(5), MergePolicy::disabled())
            .unwrap();

    for i in 0..10 {
        let vector = bits(&[i as f32, 0.0, 0.0, 0.0]);
        let slot = ((i + 1) * 100) as u32;
        manager.insert_with_slot(&vector, slot, &l2, &level, &coder(), &ratio).unwrap();
    }

    manager.flush(&coder(), &ratio).unwrap();

    assert_eq!(manager.frozen_count(), 2, "Should have 2 frozen segments");

    let results_before = search(&manager, 5.0, 1);
    assert_eq!(results_before.len(), 1);
    let slot_before = results_before[0].slot;
    assert_eq!(slot_before, 600, "Should find slot 600 (vector [5, 0, 0, 0])");

    let stats = merge_all(&mut manager);
    assert!(stats.is_some(), "Should return merge stats");

    assert_eq!(manager.frozen_count(), 1, "Should have 1 frozen after merge");

    let results_after = search(&manager, 5.0, 1);
    assert_eq!(results_after.len(), 1);
    let slot_after = results_after[0].slot;
    assert_eq!(
        slot_after, slot_before,
        "Slot should be preserved after merge: expected {}, got {}",
        slot_before, slot_after
    );

    for i in 0..10 {
        let r = search(&manager, i as f32, 1);
        assert_eq!(r.len(), 1);
        let expected_slot = ((i + 1) * 100) as u32;
        assert_eq!(
            r[0].slot, expected_slot,
            "Vector {} should have slot {}, got {}",
            i, expected_slot, r[0].slot
        );
    }
}

#[test]
fn test_save_load_roundtrip() {
    let mut manager = filled(test_config().with_capacity(5), MergePolicy::disabled(), 12);

    assert_eq!(manager.frozen_count(), 2);
    let total_before = manager.len();

    let loaded = load(save(&mut manager));

    assert_eq!(loaded.len(), total_before);
    assert_eq!(loaded.dimensions(), 4);
    assert_eq!(loaded.params().m, 8);

    let results = search(&loaded, 5.0, 3);
    assert_eq!(results.len(), 3);
    assert_eq!(results[0].slot, 5);
}

#[test]
fn mod_test_save_load_empty() {
    let mut manager = SegmentManager::new(test_config()).unwrap();

    let loaded = load(save(&mut manager));
    assert_eq!(loaded.len(), 0);
    assert!(loaded.is_empty());
}

#[test]
fn test_save_load_preserves_config() {
    let config = SegmentConfig::new(128)
        .with_params(HNSWParams { m: 32, ef_construction: 200, max_level: 10, ..Default::default() })
        .with_distance(Metric::Cosine)
        .with_capacity(50_000);

    let policy = MergePolicy {
        min_segments: 3,
        max_segments: 10,
        min_vectors: 500,
        size_ratio_threshold: 5.0f32.to_bits(),
        enabled: true,
    };

    let mut manager = SegmentManager::with_merge_policy(config, policy).unwrap();

    for i in 0..100 {
        let vector: Vec<f32> = (0..128).map(|j| (i * 128 + j) as f32 / 1000.0).collect();
        manager.insert(&bits(&vector), &l2, &level, &coder(), &ratio).unwrap();
    }

    let loaded = load(save(&mut manager));

    assert_eq!(loaded.dimensions(), 128);
    assert_eq!(loaded.params().m, 32);
    assert_eq!(loaded.params().ef_construction, 200);
    assert_eq!(loaded.config().segment_capacity, 50_000);

    assert_eq!(loaded.merge_policy().min_segments, 3);
    assert_eq!(loaded.merge_policy().max_segments, 10);
    assert!(loaded.merge_policy().enabled);
}

#[test]
fn test_save_load_search_consistency() {
    let mut manager = filled(test_config().with_capacity(10), MergePolicy::disabled(), 25);

    let results_before = search(&manager, 12.0, 5);

    let loaded = load(save(&mut manager));

    let results_after = search(&loaded, 12.0, 5);

    assert_eq!(results_before.len(), results_after.len());
    for (before, after) in results_before.iter().zip(results_after.iter()) {
        assert_eq!(before.id, after.id);
        assert!((distance(before) - distance(after)).abs() < 0.001);
    }
}

#[test]
fn test_segment_manager_filtered_search() {
    let manager = filled(test_config().with_capacity(10), MergePolicy::disabled(), 25);

    assert_eq!(manager.frozen_count(), 2);
    assert_eq!(manager.mutable_len(), 5);

    let fives = |slot: u32| slot % 5 == 0;
    let results = manager
        .search_with_filter(&bits(&[10.0, 0.0, 0.0, 0.0]), 3, 50, &l2, &fives)
        .unwrap();

    assert!(!results.is_empty());
    for r in &results {
        assert!(r.slot % 5 == 0, "slot {} should be multiple of 5", r.slot);
    }
    assert_eq!(results[0].slot, 10);
}

#[test]
fn test_segment_manager_filtered_search_across_segments() {
    let mut manager = filled(test_config().with_capacity(5), MergePolicy::disabled(), 15);
    manager.flush(&coder(), &ratio).unwrap();

    assert_eq!(manager.frozen_count(), 3);

    let low = |slot: u32| slot < 5;
    let results =
        manager.search_with_filter(&bits(&[2.0, 0.0, 0.0, 0.0]), 3, 50, &l2, &low).unwrap();

    assert_eq!(results.len(), 3);
    for r in &results {
        assert!(r.slot < 5, "slot {} should be < 5", r.slot);
    }
    assert_eq!(results[0].slot, 2);
}

#[test]
fn a_merge_in_the_background_takes_the_place_of_its_sources() {
    let policy = MergePolicy { min_segments: 2, min_vectors: 5, ..Default::default() };
    let mut manager = filled(test_config().with_capacity(3), policy, 8);
    let ids = manager.segment_ids();
    assert_eq!(ids.len(), 2);

    let job = manager.take_merge_job().unwrap();
    assert_eq!(job.source_segment_ids, ids);
    assert_eq!(job.total_vectors, 6);
    assert!(manager.take_merge_job().is_none());
    manager.try_start_background_merge(&ratio);
    assert!(manager.take_merge_job().is_none());
    let waiting = manager.complete_pending_merge(MergeProgress::NotReady);
    assert_eq!(waiting, Some(PendingMergeCompletion::NotReady));
    assert!(!manager.apply_pending_merge_if_ready(MergeProgress::NotReady));

    let merged = run_merge_job(&job, &l2, &level, &coder()).unwrap();
    assert_eq!(merged.id(), job.segment_id);
    assert!(manager.apply_pending_merge_if_ready(MergeProgress::Built(Arc::new(merged))));
    assert_eq!(manager.segment_ids(), vec![job.segment_id]);
    assert_eq!(manager.len(), 8);
    for i in 0..8 {
        assert_eq!(search(&manager, i as f32, 1)[0].slot, i);
    }
    assert_eq!(manager.complete_pending_merge(MergeProgress::Failed), None);
}

#[test]
fn freezing_starts_a_merge_when_it_is_time() {
    let policy = MergePolicy::default().with_min_segments(2).with_max_segments(2);
    let mut manager = filled(test_config().with_capacity(3), policy, 4);
    assert_eq!(manager.frozen_count(), 1);
    assert!(manager.pending_merge.is_none());
    manager.flush(&coder(), &ratio).unwrap();
    assert_eq!(manager.frozen_count(), 2);
    assert_eq!(manager.next_segment_id, 3);
    let job = manager.take_merge_job().unwrap();
    assert_eq!(job.segment_id, 2);
    assert_eq!(job.source_segment_ids, vec![0, 1]);
    assert_eq!(job.total_vectors, 4);
    assert!(manager.pending_merge.is_some());

    manager.drain_pending_merge(MergeProgress::Failed);
    let mut index = HNSWIndex::new_coded(4, HNSWParams::default(), Metric::L2);
    index.insert_vector(&bits(&[7.0, 0.0, 0.0, 0.0]), &l2, &level, &coder()).unwrap();
    manager.add_frozen_from_index(index, &[70], &ratio);
    assert_eq!(manager.frozen_count(), 3);
    assert_eq!(search(&manager, 7.0, 1)[0].slot, 70);
    assert_eq!(manager.take_merge_job().unwrap().source_segment_ids, vec![0, 1, 3]);
}

#[test]
fn a_merge_that_failed_leaves_the_segments() {
    let policy = MergePolicy { min_segments: 2, min_vectors: 5, ..Default::default() };
    let mut manager = filled(test_config().with_capacity(3), policy, 8);
    let ids = manager.segment_ids();
    assert!(manager.take_merge_job().is_some());
    manager.drain_pending_merge(MergeProgress::Failed);
    assert_eq!(manager.segment_ids(), ids);
    assert!(manager.take_merge_job().is_none());
    manager.try_start_background_merge(&ratio);
    assert!(manager.take_merge_job().is_some());
}

#[test]
fn nothing_is_merged_in_the_background_when_switched_off() {
    let mut manager = filled(test_config().with_capacity(3), MergePolicy::disabled(), 12);
    assert!(manager.pending_merge.is_none());
    manager.try_start_background_merge(&ratio);
    assert!(manager.take_merge_job().is_none());
}

#[test]
fn segments_to_merge_must_exist() {
    let mut manager = filled(test_config().with_capacity(3), MergePolicy::disabled(), 9);
    let ids = manager.segment_ids();
    assert!(manager.merge_segments(&[0, 9], &l2, &level, &coder()).is_err());
    assert_eq!(manager.merge_segments(&[], &l2, &level, &coder()), Ok(None));
    assert_eq!(manager.segment_ids(), ids);
    assert!(matches!(manager.check_and_merge(&l2, &level, &coder(), &ratio), Ok(None)));
}

#[test]
fn policies_are_adjusted() {
    let policy = MergePolicy::aggressive().with_min_segments(4).with_max_segments(9);
    assert_eq!(policy.min_segments, 4);
    assert_eq!(policy.max_segments, 9);
    assert!(policy.enabled);
    assert!(!policy.with_enabled(false).enabled);
    assert!(MergePolicy::conservative().enabled);
    assert_eq!(MergePolicy::default().size_ratio_threshold, 4.0f32.to_bits());
}

#[test]
fn vectors_of_another_length_do_not_enter() {
    let mut manager = SegmentManager::new(test_config()).unwrap();
    let r = manager.insert(&bits(&[1.0]), &l2, &level, &coder(), &ratio);
    assert_eq!(r, Err(HNSWError::DimensionMismatch { expected: 4, actual: 1 }));
    assert!(manager.is_empty());
}

#[test]
fn segments_are_named_by_their_ids() {
    let name = segment_name(7);
    assert_eq!(parse_segment_name(&name), Some(7));
    assert_eq!(parse_segment_name(b"notes.txt"), None);
    assert_eq!(file_action(&name, &[7, 8]), FileAction::Keep);
    assert_eq!(file_action(&name, &[8]), FileAction::RemoveOrphan);
    assert_eq!(file_action(b"notes.txt", &[]), FileAction::Keep);
}

#[test]
fn manifests_are_read_field_by_field() {
    assert!(read_manifest(b"{ not json").is_none());
    let text = br#"{"dimensions": 3, "params": {"m": 5}, "distance_fn": "Cosine",
        "segment_ids": [4, 9], "merge_policy": {"enabled": false, "min_segments": 6}}"#;
    let fields = read_manifest(text).unwrap();
    assert_eq!(fields.dimensions, Some(3));
    assert_eq!(fields.m, Some(5));
    assert_eq!(fields.ef_construction, None);
    assert_eq!(fields.distance_fn, Some("Cosine".to_string()));
    assert_eq!(fields.segment_ids, vec![4, 9]);
    assert_eq!(fields.use_quantization, None);
    let policy = fields.merge_policy.as_ref().unwrap();
    assert_eq!(policy.enabled, Some(false));
    assert_eq!(policy.min_segments, Some(6));
    assert_eq!(policy.max_segments, None);

    let config = SegmentManager::parse_config(&fields);
    assert_eq!(config.dimensions, 3);
    assert_eq!(config.params.m, 5);
    assert_eq!(config.distance_fn, Metric::Cosine);
    let merge = SegmentManager::parse_merge_policy(&fields, 2.0f32.to_bits());
    assert!(!merge.enabled);
    assert_eq!(merge.min_segments, 6);
    assert_eq!(merge.size_ratio_threshold, 2.0f32.to_bits());

    let bare = read_manifest(br#"{"use_quantization": true}"#).unwrap();
    assert!(bare.merge_policy.is_none());
    assert_eq!(bare.use_quantization, Some(true));
    assert!(bare.segment_ids.is_empty());
}

#[test]
fn a_merge_that_was_interrupted_is_recovered() {
    let mut manager = filled(test_config().with_capacity(3), MergePolicy::disabled(), 9);
    manager.flush(&coder(), &ratio).unwrap();
    let ids = manager.segment_ids();
    let merged = merged_prefix(&mut manager, 2);
    let text = format!(
        "{{\"source_ids\": [{}, {}], \"total_vectors\": 9, \"merged_segment_id\": {}}}",
        ids[0],
        ids[1],
        merged.id()
    );
    let meta = read_pending_meta(text.as_bytes()).unwrap();
    assert_eq!(meta.source_ids, vec![ids[0], ids[1]]);
    assert_eq!(meta.total_vectors, 9);
    assert_eq!(meta.merged_segment_id, merged.id());
    assert!(manager.merge_applies(&meta));
    let merged_id = merged.id();
    manager.apply_recovered_merge(&meta, Arc::try_unwrap(merged).unwrap());
    assert_eq!(manager.segment_ids(), vec![merged_id, ids[2]]);
    assert_eq!(manager.len(), 9);
    assert!(!manager.merge_applies(&meta));
    assert!(read_pending_meta(b"").is_none());
}

#[test]
fn vectors_are_built_in_one_go() {
    let vectors: Vec<Vec<u32>> = (0..6).map(|i| bits(&[i as f32, 0.0, 0.0, 0.0])).collect();
    let slots = [60, 61, 62, 63, 64, 65];
    let manager: Result<SegmentManager> =
        SegmentManager::build_parallel_with_slots(test_config(), vectors, &slots, &l2, &level, &coder());
    let manager = manager.unwrap();
    assert_eq!(manager.len(), 6);
    assert_eq!(search(&manager, 4.0, 1)[0].slot, 64);
}

#[test]
fn quantized_segments_take_the_default_number() {
    let config = test_config().with_capacity(3).with_quantization(true);
    let manager = filled(config, MergePolicy::disabled(), 10);
    assert!(manager.is_quantized());
    assert!(manager.mutable_segment().index().storage.is_sq8());
    assert_eq!(manager.frozen_count(), 0);
    assert_eq!(manager.mutable_len(), 10);
    let plain = filled(test_config().with_capacity(3), MergePolicy::disabled(), 10);
    assert!(!plain.mutable_segment().index().storage.is_sq8());
    assert_eq!(plain.frozen_count(), 3);
    assert_eq!(plain.mutable_len(), 1);
}

#[test]
fn quantized_segments_are_coded_and_merged() {
    let config = test_config().with_quantization(true);
    let mut manager = filled(config, MergePolicy::disabled(), 200);
    manager.flush(&coder(), &ratio).unwrap();
    for i in 200..400 {
        insert(&mut manager, i);
    }
    manager.flush(&coder(), &ratio).unwrap();
    assert_eq!(manager.frozen_count(), 2);
    for segment in manager.frozen_segments() {
        assert!(segment.storage().is_sq8() && segment.storage().is_trained());
    }
    assert_eq!(search(&manager, 123.0, 1)[0].slot, 123);
    assert_eq!(merge_all(&mut manager).unwrap().vectors_merged, 400);
    let merged = &manager.frozen_segments()[0];
    assert!(merged.storage().is_sq8() && merged.storage().is_trained());
    assert_eq!(merged.len(), 400);
    assert_eq!(search(&manager, 100.0, 1)[0].slot, 100);
    assert!(distance(&search(&manager, 100.0, 1)[0]) < 1.0);

    let loaded = load(save(&mut manager));
    assert!(loaded.is_quantized());
    assert!(loaded.frozen_segments()[0].index().is_sound());
    for x in [0.0, 99.0, 250.0] {
        assert_eq!(search(&loaded, x, 3), search(&manager, x, 3));
    }
}

#[test]
fn a_quantized_manager_can_be_built_at_once() {
    let config = test_config().with_quantization(true);
    let vectors = |n: usize| -> Vec<Vec<u32>> {
        (0..n).map(|i| bits(&[(i % 256) as f32, 0.0, 0.0, 0.0])).collect()
    };
    let manager = SegmentManager::build_parallel(config, vectors(300), &l2, &level, &coder());
    let manager = manager.unwrap();
    let storage = &manager.mutable_segment().index().storage;
    assert!(storage.is_sq8() && storage.is_trained());
    assert_eq!(storage.quantized_vector(255), [255, 0, 0, 0]);
    assert_eq!(search(&manager, 200.0, 1)[0].slot, 200);
    let few = SegmentManager::build_parallel(config, vectors(20), &l2, &level, &coder()).unwrap();
    assert!(!few.mutable_segment().index().storage.is_trained());
    assert_eq!(search(&few, 7.0, 1)[0].slot, 7);
}

#[test]
fn the_policy_alone_says_whether_to_merge() {
    let policy = MergePolicy::default().with_max_segments(1);
    let mut manager = filled(test_config(), policy, 5);
    assert!(!manager.should_merge(&ratio));
    manager.flush(&coder(), &ratio).unwrap();
    assert_eq!(manager.frozen_count(), 1);
    assert!(manager.should_merge(&ratio));
    assert_eq!(manager.check_and_merge(&l2, &level, &coder(), &ratio), Ok(None));
    manager.try_start_background_merge(&ratio);
    assert!(manager.take_merge_job().is_none());
    manager.set_merge_policy(MergePolicy::default().with_max_segments(0).with_enabled(false));
    assert!(!manager.should_merge(&ratio));
    let none = SegmentManager::with_merge_policy(
        test_config(),
        MergePolicy::default().with_max_segments(0),
    );
    assert!(none.unwrap().should_merge(&ratio));
}

#[test]
fn a_finished_merge_is_published_before_the_next_one_starts() {
    let policy = MergePolicy::default().with_min_segments(2).with_max_segments(2);
    let mut manager = filled(test_config().with_capacity(3), policy, 6);
    manager.flush(&coder(), &ratio).unwrap();
    assert_eq!(manager.frozen_count(), 2);
    let job = manager.take_merge_job().unwrap();
    assert_eq!(job.total_vectors, 6);
    let r = manager.finalize_published_frozen_change(MergeProgress::NotReady, &ratio);
    assert_eq!(r, Some(PendingMergeCompletion::NotReady));
    assert!(manager.take_merge_job().is_none());

    for i in 6..9 {
        insert(&mut manager, i);
    }
    manager.flush(&coder(), &ratio).unwrap();
    let merged = Arc::new(run_merge_job(&job, &l2, &level, &coder()).unwrap());
    let id = merged.id();
    let r = manager.finalize_published_frozen_change(MergeProgress::Built(merged), &ratio);
    assert_eq!(r, Some(PendingMergeCompletion::Finished(Some(2))));
    assert_eq!(manager.frozen_count(), 2);
    assert_eq!(manager.take_merge_job().unwrap().source_segment_ids[0], id);
    assert_eq!(manager.len(), 9);
}

#[test]
fn results_without_an_order_stay_where_they_are() {
    let at = |slot: u32, distance: f32| SegmentSearchResult {
        id: slot,
        distance: distance.to_bits(),
        slot,
    };
    let slots = |results: Vec<SegmentSearchResult>, k: usize| -> Vec<u32> {
        sort_and_cut(results, k).iter().map(|r| r.slot).collect()
    };
    assert_eq!(slots(vec![at(0, f32::NAN), at(1, 1.0)], 1), vec![0]);
    assert_eq!(slots(vec![at(0, 1.0), at(1, f32::NAN), at(2, 1.0)], 3), vec![0, 1, 2]);
    assert_eq!(slots(vec![at(0, 2.0), at(1, 1.0), at(2, 2.0), at(3, 1.0)], 3), vec![1, 3, 0]);
    assert_eq!(slots(vec![at(0, 0.0), at(1, -0.0), at(2, -1.0)], 9), vec![2, 0, 1]);
    assert_eq!(slots(vec![], 3), Vec::<u32>::new());
}

#[test]
fn a_vector_of_unknown_distance_is_not_displaced() {
    let measure = |a: &[u32], b: &[u32]| -> u32 {
        let odd = f32::from_bits(a[0]) == 9.0 || f32::from_bits(b[0]) == 9.0;
        if odd {
            f32::NAN.to_bits()
        } else {
            l2(a, b)
        }
    };
    let mut manager = filled(test_config().with_capacity(5), MergePolicy::disabled(), 1);
    manager.flush(&coder(), &ratio).unwrap();
    let odd = bits(&[9.0, 0.0, 0.0, 0.0]);
    manager.insert(&odd, &measure, &level, &coder(), &ratio).unwrap();
    let results = manager.search(&bits(&[1.0, 0.0, 0.0, 0.0]), 1, 50, &measure).unwrap();
    assert_eq!(results[0].slot, 1);
    let results = manager.search(&bits(&[1.0, 0.0, 0.0, 0.0]), 2, 50, &measure).unwrap();
    assert_eq!(results.iter().map(|r| r.slot).collect::<Vec<u32>>(), vec![1, 0]);
}
