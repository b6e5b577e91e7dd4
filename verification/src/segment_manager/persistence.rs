//! What is saved of the segments and how they are restored.
//!
//! A directory holds a manifest and one file for each frozen segment. Reading
//! and writing the files is up to the caller; here it is decided what they
//! hold, which of them are to go, and what comes out of them.

use std::sync::Arc;

use vstd::prelude::*;

use super::merge::{lemma_total_joined, ratio_ok, share, MergePolicy};
use super::{frozen_ids, frozen_total, frozen_wf, SegmentConfig, SegmentManager};
use crate::decimal::{
    digits, law_digits, law_number_back, number_of, parse_number, put_number,
};
use crate::error::Result;
use crate::json::{
    chars_of, flag_at, has_value, is_json, json_flag_at, json_has, json_is_valid, json_number_at,
    json_numbers_at, json_string_at, number_at, numbers_at, string_at,
};
use crate::node_storage::quantization::Coder;
use crate::segment::FrozenSegment;
use crate::types::{default_params, HNSWParams, Metric};

verus! {

// ---------------------------------------------------------------------------
// File names
// ---------------------------------------------------------------------------

/// `segment_`
pub open spec fn name_prefix() -> Seq<u8> {
    seq![115u8, 101, 103, 109, 101, 110, 116, 95]
}

/// `.bin`
pub open spec fn name_suffix() -> Seq<u8> {
    seq![46u8, 98, 105, 110]
}

/// `.bin.tmp`
pub open spec fn unfinished_segment() -> Seq<u8> {
    seq![46u8, 98, 105, 110, 46, 116, 109, 112]
}

/// `.json.tmp`
pub open spec fn unfinished_manifest() -> Seq<u8> {
    seq![46u8, 106, 115, 111, 110, 46, 116, 109, 112]
}

pub open spec fn begins_with(s: Seq<u8>, part: Seq<u8>) -> bool {
    part.len() <= s.len() && s.take(part.len() as int) == part
}

pub open spec fn ends_with(s: Seq<u8>, part: Seq<u8>) -> bool {
    part.len() <= s.len() && s.skip(s.len() - part.len()) == part
}

/// The name of the file of a segment.
pub open spec fn segment_name_of(id: u64) -> Seq<u8> {
    name_prefix() + digits(id as nat) + name_suffix()
}

/// The segment whose file has a name.
pub open spec fn segment_of_name(name: Seq<u8>) -> Option<u64> {
    if !begins_with(name, name_prefix()) {
        None
    } else {
        let rest = name.skip(8);
        if !ends_with(rest, name_suffix()) {
            None
        } else {
            number_of(rest.take(rest.len() - 4))
        }
    }
}

/// What is to be done with a file.
#[derive(Debug, Clone, Copy, PartialEq, Eq, Structural)]
pub enum FileAction {
    Keep,
    /// It was left behind by a save that was interrupted.
    RemoveTemporary,
    /// It belongs to a segment that is no longer there.
    RemoveOrphan,
}

pub open spec fn action_for(name: Seq<u8>, active: Seq<u64>) -> FileAction {
    if ends_with(name, unfinished_segment()) || ends_with(name, unfinished_manifest()) {
        FileAction::RemoveTemporary
    } else {
        match segment_of_name(name) {
            Some(id) => if active.contains(id) {
                FileAction::Keep
            } else {
                FileAction::RemoveOrphan
            },
            None => FileAction::Keep,
        }
    }
}

fn equal_at(s: &[u8], start: usize, part: &Vec<u8>) -> (r: bool)
    requires
        start + part@.len() <= s@.len(),
    ensures
        r == (s@.subrange(start as int, start + part@.len()) == part@),
{
    let total: usize = s.len();
    let mut i: usize = 0;
    while i < part.len()
        invariant
            i <= part@.len(),
            total == s@.len(),
            start + part@.len() <= total,
            forall|j: int| 0 <= j < i ==> s@[start + j] == #[trigger] part@[j],
        decreases part.len() - i,
    {
        if s[start + i] != part[i] {
            assert(s@.subrange(start as int, start + part@.len())[i as int] != part@[i as int]);
            return false;
        }
        i += 1;
    }
    assert(s@.subrange(start as int, start + part@.len()) =~= part@);
    true
}

fn has_prefix(s: &[u8], part: &Vec<u8>) -> (r: bool)
    ensures
        r == begins_with(s@, part@),
{
    if part.len() > s.len() {
        return false;
    }
    assert(s@.subrange(0, part@.len() as int) =~= s@.take(part@.len() as int));
    equal_at(s, 0, part)
}

fn has_suffix(s: &[u8], part: &Vec<u8>) -> (r: bool)
    ensures
        r == ends_with(s@, part@),
{
    if part.len() > s.len() {
        return false;
    }
    assert(s@.subrange(s@.len() - part@.len(), s@.len() as int) =~= s@.skip(
        s@.len() - part@.len(),
    ));
    equal_at(s, s.len() - part.len(), part)
}

/// The name of the file of a segment.
pub fn segment_name(id: u64) -> (name: Vec<u8>)
    ensures
        name@ == segment_name_of(id),
{
    let mut name: Vec<u8> = vec![115, 101, 103, 109, 101, 110, 116, 95];
    assert(name@ =~= name_prefix());
    put_number(&mut name, id);
    name.push(46);
    name.push(98);
    name.push(105);
    name.push(110);
    assert(name@ =~= segment_name_of(id));
    name
}

/// The segment whose file has a name.
pub fn parse_segment_name(name: &[u8]) -> (r: Option<u64>)
    ensures
        r == segment_of_name(name@),
{
    let prefix: Vec<u8> = vec![115, 101, 103, 109, 101, 110, 116, 95];
    let suffix: Vec<u8> = vec![46, 98, 105, 110];
    assert(prefix@ =~= name_prefix());
    assert(suffix@ =~= name_suffix());
    if !has_prefix(name, &prefix) {
        return None;
    }
    let rest: &[u8] = vstd::slice::slice_subrange(name, 8, name.len());
    assert(rest@ =~= name@.skip(8));
    if !has_suffix(rest, &suffix) {
        return None;
    }
    let middle: &[u8] = vstd::slice::slice_subrange(rest, 0, rest.len() - 4);
    assert(middle@ =~= rest@.take(rest@.len() - 4));
    parse_number(middle)
}

fn has_id(ids: &[u64], id: u64) -> (r: bool)
    ensures
        r == ids@.contains(id),
{
    let mut i: usize = 0;
    while i < ids.len()
        invariant
            i <= ids@.len(),
            forall|j: int| 0 <= j < i ==> #[trigger] ids@[j] != id,
        decreases ids.len() - i,
    {
        if ids[i] == id {
            assert(ids@[i as int] == id);
            return true;
        }
        i += 1;
    }
    false
}

/// What is to be done with a file after a save, when these segments were
/// saved.
pub fn file_action(name: &[u8], active: &[u64]) -> (r: FileAction)
    ensures
        r == action_for(name@, active@),
{
    let segment: Vec<u8> = vec![46, 98, 105, 110, 46, 116, 109, 112];
    let manifest: Vec<u8> = vec![46, 106, 115, 111, 110, 46, 116, 109, 112];
    assert(segment@ =~= unfinished_segment());
    assert(manifest@ =~= unfinished_manifest());
    if has_suffix(name, &segment) || has_suffix(name, &manifest) {
        return FileAction::RemoveTemporary;
    }
    match parse_segment_name(name) {
        Some(id) => if has_id(active, id) {
            FileAction::Keep
        } else {
            FileAction::RemoveOrphan
        },
        None => FileAction::Keep,
    }
}

/// The name of the file of a segment says which segment it is.
pub proof fn law_segment_name(id: u64)
    ensures
        segment_of_name(segment_name_of(id)) == Some(id),
{
    let name = segment_name_of(id);
    let body = digits(id as nat);
    law_digits(id as nat);
    law_number_back(id);
    assert(name.take(8) =~= name_prefix());
    let rest = name.skip(8);
    assert(rest =~= body + name_suffix());
    assert(rest.skip(rest.len() - 4) =~= name_suffix());
    assert(rest.take(rest.len() - 4) =~= body);
}

/// After a save, the file of a segment is kept exactly if the segment was
/// saved.
pub proof fn law_saved_segments_are_kept(id: u64, active: Seq<u64>)
    ensures
        action_for(segment_name_of(id), active) == (if active.contains(id) {
            FileAction::Keep
        } else {
            FileAction::RemoveOrphan
        }),
{
    let name = segment_name_of(id);
    law_segment_name(id);
    law_digits(id as nat);
    let n = name.len();
    assert(name.last() == 110);
    if ends_with(name, unfinished_segment()) {
        assert(name.skip(n - 8).last() == 112);
    }
    if ends_with(name, unfinished_manifest()) {
        assert(name.skip(n - 9).last() == 112);
    }
}

// ---------------------------------------------------------------------------
// The manifest
// ---------------------------------------------------------------------------

/// How a metric is called.
pub open spec fn name_of_metric(metric: Metric) -> Seq<char> {
    match metric {
        Metric::L2 => "L2"@,
        Metric::Cosine => "Cosine"@,
        Metric::InnerProduct => "InnerProduct"@,
    }
}

/// The metric that is called so; the Euclidean one where no other is meant.
pub open spec fn metric_of_name(name: Option<Seq<char>>) -> Metric {
    if name == Some("Cosine"@) {
        Metric::Cosine
    } else if name == Some("NegativeDotProduct"@) || name == Some("InnerProduct"@) {
        Metric::InnerProduct
    } else {
        Metric::L2
    }
}

pub fn metric_name(metric: Metric) -> (name: &'static str)
    ensures
        name@ == name_of_metric(metric),
{
    match metric {
        Metric::L2 => "L2",
        Metric::Cosine => "Cosine",
        Metric::InnerProduct => "InnerProduct",
    }
}

fn is_called(name: &Option<String>, word: &str) -> (r: bool)
    ensures
        r == (chars_of(*name) == Some(word@)),
{
    match name {
        Some(name) => *name == word.to_string(),
        None => false,
    }
}

fn parse_metric(name: &Option<String>) -> (metric: Metric)
    ensures
        metric == metric_of_name(chars_of(*name)),
{
    if is_called(name, "Cosine") {
        Metric::Cosine
    } else if is_called(name, "NegativeDotProduct") || is_called(name, "InnerProduct") {
        Metric::InnerProduct
    } else {
        Metric::L2
    }
}

/// A metric is found again by its name.
pub proof fn law_metric_name(metric: Metric)
    ensures
        metric_of_name(Some(name_of_metric(metric))) == metric,
{
    reveal_strlit("L2");
    reveal_strlit("Cosine");
    reveal_strlit("InnerProduct");
    reveal_strlit("NegativeDotProduct");
    assert("L2"@.len() == 2);
    assert("Cosine"@.len() == 6);
    assert("InnerProduct"@.len() == 12);
    assert("NegativeDotProduct"@.len() == 18);
}

/// The fields of a merge policy in a manifest, as far as they are there.
#[derive(Debug, Clone)]
pub struct PolicyFields {
    pub enabled: Option<bool>,
    pub min_segments: Option<u64>,
    pub max_segments: Option<u64>,
    pub min_vectors: Option<u64>,
}

/// The fields of a manifest, as far as they are there.
#[derive(Debug, Clone)]
pub struct ManifestFields {
    pub dimensions: Option<u64>,
    pub m: Option<u64>,
    pub ef_construction: Option<u64>,
    pub max_level: Option<u64>,
    pub distance_fn: Option<String>,
    pub segment_capacity: Option<u64>,
    pub quantization_mode: Option<String>,
    pub use_quantization: Option<bool>,
    pub next_segment_id: Option<u64>,
    pub generation: Option<u64>,
    pub segment_ids: Vec<u64>,
    pub merge_policy: Option<PolicyFields>,
}

/// A number that may be missing, or another one in its place.
pub open spec fn given_or(x: Option<u64>, other: u64) -> u64 {
    match x {
        Some(x) => x,
        None => other,
    }
}

pub open spec fn flag_or(x: Option<bool>, other: bool) -> bool {
    match x {
        Some(x) => x,
        None => other,
    }
}

fn number_or(x: Option<u64>, other: u64) -> (r: u64)
    ensures
        r == given_or(x, other),
{
    match x {
        Some(x) => x,
        None => other,
    }
}

fn truth_or(x: Option<bool>, other: bool) -> (r: bool)
    ensures
        r == flag_or(x, other),
{
    match x {
        Some(x) => x,
        None => other,
    }
}

/// The fields that a manifest holds.
pub open spec fn fields_of(f: ManifestFields, text: Seq<u8>) -> bool {
    &&& f.dimensions == json_number_at(text, "/dimensions"@)
    &&& f.m == json_number_at(text, "/params/m"@)
    &&& f.ef_construction == json_number_at(text, "/params/ef_construction"@)
    &&& f.max_level == json_number_at(text, "/params/max_level"@)
    &&& chars_of(f.distance_fn) == json_string_at(text, "/distance_fn"@)
    &&& f.segment_capacity == json_number_at(text, "/segment_capacity"@)
    &&& chars_of(f.quantization_mode) == json_string_at(text, "/quantization_mode"@)
    &&& f.use_quantization == json_flag_at(text, "/use_quantization"@)
    &&& f.next_segment_id == json_number_at(text, "/next_segment_id"@)
    &&& f.generation == json_number_at(text, "/generation"@)
    &&& f.segment_ids@ == json_numbers_at(text, "/segment_ids"@)
    &&& f.merge_policy == (if json_has(text, "/merge_policy"@) {
        Some(
            PolicyFields {
                enabled: json_flag_at(text, "/merge_policy/enabled"@),
                min_segments: json_number_at(text, "/merge_policy/min_segments"@),
                max_segments: json_number_at(text, "/merge_policy/max_segments"@),
                min_vectors: json_number_at(text, "/merge_policy/min_vectors"@),
            },
        )
    } else {
        None
    })
}

/// Reads the fields of a manifest. Nothing comes of a text that is not JSON.
pub fn read_manifest(text: &[u8]) -> (r: Option<ManifestFields>)
    ensures
        r is Some == json_is_valid(text@),
        r matches Some(fields) ==> fields_of(fields, text@),
{
    if !is_json(text) {
        return None;
    }
    let merge_policy: Option<PolicyFields> = if has_value(text, "/merge_policy") {
        Some(
            PolicyFields {
                enabled: flag_at(text, "/merge_policy/enabled"),
                min_segments: number_at(text, "/merge_policy/min_segments"),
                max_segments: number_at(text, "/merge_policy/max_segments"),
                min_vectors: number_at(text, "/merge_policy/min_vectors"),
            },
        )
    } else {
        None
    };
    Some(
        ManifestFields {
            dimensions: number_at(text, "/dimensions"),
            m: number_at(text, "/params/m"),
            ef_construction: number_at(text, "/params/ef_construction"),
            max_level: number_at(text, "/params/max_level"),
            distance_fn: string_at(text, "/distance_fn"),
            segment_capacity: number_at(text, "/segment_capacity"),
            quantization_mode: string_at(text, "/quantization_mode"),
            use_quantization: flag_at(text, "/use_quantization"),
            next_segment_id: number_at(text, "/next_segment_id"),
            generation: number_at(text, "/generation"),
            segment_ids: numbers_at(text, "/segment_ids"),
            merge_policy,
        },
    )
}

/// The configuration that the fields of a manifest stand for.
pub open spec fn config_of(f: ManifestFields) -> SegmentConfig {
    SegmentConfig {
        dimensions: given_or(f.dimensions, 128) as usize,
        params: HNSWParams {
            m: given_or(f.m, 16) as usize,
            ef_construction: given_or(f.ef_construction, 100) as usize,
            max_level: given_or(f.max_level, 8) as u8,
            ..default_params()
        },
        distance_fn: metric_of_name(chars_of(f.distance_fn)),
        segment_capacity: given_or(f.segment_capacity, 100_000) as usize,
        quantization: chars_of(f.quantization_mode) == Some("sq8"@) || flag_or(
            f.use_quantization,
            false,
        ),
    }
}

/// The merge policy that the fields of a manifest stand for. The ratio, which
/// is no whole number, is given by its bits.
pub open spec fn policy_of(f: ManifestFields, ratio: u32) -> MergePolicy {
    match f.merge_policy {
        Some(p) => MergePolicy {
            enabled: flag_or(p.enabled, true),
            min_segments: given_or(p.min_segments, 2) as usize,
            max_segments: given_or(p.max_segments, 8) as usize,
            min_vectors: given_or(p.min_vectors, 1000) as usize,
            size_ratio_threshold: ratio,
        },
        None => MergePolicy::standard(),
    }
}

impl SegmentManager {
    /// The configuration in a manifest.
    pub fn parse_config(fields: &ManifestFields) -> (config: SegmentConfig)
        ensures
            config == config_of(*fields),
    {
        let mut params: HNSWParams = HNSWParams::default();
        params.m = number_or(fields.m, 16) as usize;
        params.ef_construction = number_or(fields.ef_construction, 100) as usize;
        params.max_level = number_or(fields.max_level, 8) as u8;
        SegmentConfig {
            dimensions: number_or(fields.dimensions, 128) as usize,
            params,
            distance_fn: parse_metric(&fields.distance_fn),
            segment_capacity: number_or(fields.segment_capacity, 100_000) as usize,
            quantization: is_called(&fields.quantization_mode, "sq8") || truth_or(
                fields.use_quantization,
                false,
            ),
        }
    }

    /// The merge policy in a manifest, given the bits of its ratio.
    pub fn parse_merge_policy(fields: &ManifestFields, ratio: u32) -> (policy: MergePolicy)
        ensures
            policy == policy_of(*fields, ratio),
    {
        match &fields.merge_policy {
            Some(p) => MergePolicy {
                enabled: truth_or(p.enabled, true),
                min_segments: number_or(p.min_segments, 2) as usize,
                max_segments: number_or(p.max_segments, 8) as usize,
                min_vectors: number_or(p.min_vectors, 1000) as usize,
                size_ratio_threshold: ratio,
            },
            None => MergePolicy::default(),
        }
    }

    /// The fields that the manifest of a manager holds.
    pub open spec fn manifest_of(&self, f: ManifestFields, ids: Seq<u64>) -> bool {
        &&& f.dimensions == Some(self.config.dimensions as u64)
        &&& f.m == Some(self.config.params.m as u64)
        &&& f.ef_construction == Some(self.config.params.ef_construction as u64)
        &&& f.max_level == Some(self.config.params.max_level as u64)
        &&& chars_of(f.distance_fn) == Some(name_of_metric(self.config.distance_fn))
        &&& f.segment_capacity == Some(self.config.segment_capacity as u64)
        &&& chars_of(f.quantization_mode) == Some(
            if self.config.quantization {
                "sq8"@
            } else {
                "none"@
            },
        )
        &&& f.use_quantization == Some(self.config.quantization)
        &&& f.next_segment_id == Some(self.next_segment_id)
        &&& f.generation == Some(self.generation)
        &&& f.segment_ids@ == ids
        &&& f.merge_policy == Some(
            PolicyFields {
                enabled: Some(self.merge_policy.enabled),
                min_segments: Some(self.merge_policy.min_segments as u64),
                max_segments: Some(self.merge_policy.max_segments as u64),
                min_vectors: Some(self.merge_policy.min_vectors as u64),
            },
        )
    }

    /// The manifest to be saved with these segments.
    pub fn build_manifest(&self, segment_ids: Vec<u64>) -> (fields: ManifestFields)
        ensures
            self.manifest_of(fields, segment_ids@),
    {
        let mode: &str = if self.config.quantization { "sq8" } else { "none" };
        ManifestFields {
            dimensions: Some(self.config.dimensions as u64),
            m: Some(self.config.params.m as u64),
            ef_construction: Some(self.config.params.ef_construction as u64),
            max_level: Some(self.config.params.max_level as u64),
            distance_fn: Some(metric_name(self.config.distance_fn).to_string()),
            segment_capacity: Some(self.config.segment_capacity as u64),
            quantization_mode: Some(mode.to_string()),
            use_quantization: Some(self.config.quantization),
            next_segment_id: Some(self.next_segment_id),
            generation: Some(self.generation),
            segment_ids,
            merge_policy: Some(
                PolicyFields {
                    enabled: Some(self.merge_policy.enabled),
                    min_segments: Some(self.merge_policy.min_segments as u64),
                    max_segments: Some(self.merge_policy.max_segments as u64),
                    min_vectors: Some(self.merge_policy.min_vectors as u64),
                },
            ),
        }
    }

    /// The configuration and the merge policy are found again in the manifest,
    /// but for the seed and the level multiplier, which are not saved.
    pub proof fn law_manifest_roundtrip(&self, fields: ManifestFields, ids: Seq<u64>)
        requires
            self.manifest_of(fields, ids),
        ensures
            config_of(fields) == (SegmentConfig {
                params: HNSWParams {
                    m: self.config.params.m,
                    ef_construction: self.config.params.ef_construction,
                    max_level: self.config.params.max_level,
                    ..default_params()
                },
                ..self.config
            }),
            policy_of(fields, self.merge_policy.size_ratio_threshold) == self.merge_policy,
    {
        law_metric_name(self.config.distance_fn);
        reveal_strlit("sq8");
        reveal_strlit("none");
        assert("sq8"@.len() == 3);
        assert("none"@.len() == 4);
    }

    /// What comes before the files are written: the mutable segment is frozen
    /// unless it is empty, and the generation grows.
    pub fn prepare_save<C: Coder, R: Fn(usize, usize) -> u32>(&mut self, coder: &C, ratio: &R) -> (
        ids: Vec<u64>)
        requires
            old(self).wf(),
            old(self).can_freeze(),
            old(self).generation < u64::MAX,
            old(self).codes_with(*coder),
            ratio_ok(*ratio),
        ensures
            final(self).wf(),
            (SegmentManager { generation: old(self).generation, ..*final(self) }).flushed(
                old(self),
                *coder,
                *ratio,
            ),
            final(self).generation == old(self).generation + 1,
            final(self).published.total() == old(self).published.total(),
            ids@ == frozen_ids(final(self).published.frozen@),
    {
        let _ = self.flush(coder, ratio);
        self.generation = self.generation + 1;
        self.segment_ids()
    }

    /// The manager that a manifest and the files of its segments stand for.
    pub fn restore(fields: &ManifestFields, ratio: u32, frozen: Vec<Arc<FrozenSegment>>) -> (r:
        Result<Self>)
        requires
            config_of(*fields).usable(),
            frozen_wf(frozen@),
        ensures
            r matches Ok(m) && m.starts(
                config_of(*fields),
                frozen@,
                given_or(fields.next_segment_id, 0),
                policy_of(*fields, ratio),
                given_or(fields.generation, 0),
            ) && m.published.mutable.index.storage.len == 0,
    {
        Self::from_frozen(
            Self::parse_config(fields),
            frozen,
            number_or(fields.next_segment_id, 0),
            Self::parse_merge_policy(fields, ratio),
            number_or(fields.generation, 0),
        )
    }
}

// ---------------------------------------------------------------------------
// Merges that were completed before a crash
// ---------------------------------------------------------------------------

/// What was noted of a merge that was not yet saved with the others.
#[derive(Debug, Clone)]
pub struct PendingMeta {
    pub source_ids: Vec<u64>,
    pub total_vectors: u64,
    pub merged_segment_id: u64,
}

/// Reads what was noted of a merge. Nothing comes of a text that is not JSON.
pub fn read_pending_meta(text: &[u8]) -> (r: Option<PendingMeta>)
    ensures
        r is Some == json_is_valid(text@),
        r matches Some(meta) ==> {
            &&& meta.source_ids@ == json_numbers_at(text@, "/source_ids"@)
            &&& meta.total_vectors == given_or(json_number_at(text@, "/total_vectors"@), 0)
            &&& meta.merged_segment_id == given_or(
                json_number_at(text@, "/merged_segment_id"@),
                u64::MAX,
            )
        },
{
    if !is_json(text) {
        return None;
    }
    Some(
        PendingMeta {
            source_ids: numbers_at(text, "/source_ids"),
            total_vectors: number_or(number_at(text, "/total_vectors"), 0),
            merged_segment_id: number_or(number_at(text, "/merged_segment_id"), u64::MAX),
        },
    )
}

/// The segments that are not among the sources of a merge.
pub open spec fn others(frozen: Seq<Arc<FrozenSegment>>, sources: Seq<u64>) -> Seq<
    Arc<FrozenSegment>,
>
    decreases frozen.len(),
{
    if frozen.len() == 0 {
        Seq::empty()
    } else {
        let front = others(frozen.drop_last(), sources);
        if sources.contains(frozen.last().id) {
            front
        } else {
            front.push(frozen.last())
        }
    }
}

/// The segments with these ids.
pub open spec fn among(frozen: Seq<Arc<FrozenSegment>>, ids: Seq<u64>) -> Seq<Arc<FrozenSegment>>
    decreases frozen.len(),
{
    if frozen.len() == 0 {
        Seq::empty()
    } else {
        let front = among(frozen.drop_last(), ids);
        if ids.contains(frozen.last().id) {
            front.push(frozen.last())
        } else {
            front
        }
    }
}

proof fn lemma_total_parted(frozen: Seq<Arc<FrozenSegment>>, ids: Seq<u64>)
    ensures
        frozen_total(frozen) == frozen_total(among(frozen, ids)) + frozen_total(
            others(frozen, ids),
        ),
    decreases frozen.len(),
{
    if frozen.len() > 0 {
        let front = frozen.drop_last();
        lemma_total_parted(front, ids);
        if ids.contains(frozen.last().id) {
            assert(among(frozen, ids).drop_last() =~= among(front, ids));
        } else {
            assert(others(frozen, ids).drop_last() =~= others(front, ids));
        }
    }
}

impl SegmentManager {
    /// The sources of a merge are all there, and so are as many vectors as
    /// were there when it was noted.
    pub open spec fn matches_meta(&self, meta: PendingMeta) -> bool {
        &&& forall|i: int|
            0 <= i < meta.source_ids@.len() ==> frozen_ids(self.published.frozen@).contains(
                #[trigger] meta.source_ids@[i],
            )
        &&& frozen_total(self.published.frozen@) == meta.total_vectors
    }

    /// Whether a merge that was noted is about the segments that are there.
    pub fn merge_applies(&self, meta: &PendingMeta) -> (r: bool)
        requires
            self.wf(),
            frozen_total(self.published.frozen@) <= usize::MAX,
        ensures
            r == self.matches_meta(*meta),
    {
        let ids: Vec<u64> = self.segment_ids();
        let mut i: usize = 0;
        while i < meta.source_ids.len()
            invariant
                i <= meta.source_ids@.len(),
                ids@ == frozen_ids(self.published.frozen@),
                forall|j: int| 0 <= j < i ==> ids@.contains(#[trigger] meta.source_ids@[j]),
            decreases meta.source_ids.len() - i,
        {
            if !has_id(ids.as_slice(), meta.source_ids[i]) {
                assert(!ids@.contains(meta.source_ids@[i as int]));
                return false;
            }
            i += 1;
        }
        super::count_frozen(&self.published.frozen) as u64 == meta.total_vectors
    }

    /// A merge that was noted has been applied: the merged segment stands before
    /// those that it was not made from, and ids go on behind its own.
    pub open spec fn recovered(
        &self,
        before: &Self,
        meta: PendingMeta,
        merged: FrozenSegment,
    ) -> bool {
        let next = if meta.merged_segment_id == u64::MAX {
            u64::MAX
        } else {
            (meta.merged_segment_id + 1) as u64
        };
        &&& self.config == before.config
        &&& self.published.mutable == before.published.mutable
        &&& self.published.frozen@ == seq![Arc::new(merged)] + others(
            before.published.frozen@,
            meta.source_ids@,
        )
        &&& self.next_segment_id == (if before.next_segment_id > next {
            before.next_segment_id
        } else {
            next
        })
        &&& self.merge_policy == before.merge_policy
        &&& self.last_merge_stats == before.last_merge_stats
        &&& self.generation == before.generation
        &&& self.pending_merge == before.pending_merge
    }

    /// Recovery keeps the number of vectors, where the merged segment has those
    /// of its sources, and no segment will get the id of the merged one again.
    pub proof fn law_recovered_merge_keeps_total(
        &self,
        before: &Self,
        meta: PendingMeta,
        merged: FrozenSegment,
    )
        requires
            self.recovered(before, meta, merged),
            merged.index.storage.len == frozen_total(
                among(before.published.frozen@, meta.source_ids@),
            ),
        ensures
            self.published.total() == before.published.total(),
            meta.merged_segment_id < u64::MAX ==> self.next_segment_id > meta.merged_segment_id,
            self.next_segment_id >= before.next_segment_id,
    {
        let rest = others(before.published.frozen@, meta.source_ids@);
        lemma_total_parted(before.published.frozen@, meta.source_ids@);
        lemma_total_joined(seq![Arc::new(merged)], rest);
        reveal_with_fuel(frozen_total, 2);
        assert(frozen_total(seq![Arc::new(merged)]) == merged.index.storage.len);
    }

    /// Puts a merged segment in the place of its sources.
    pub fn apply_recovered_merge(&mut self, meta: &PendingMeta, merged: FrozenSegment)
        requires
            old(self).wf(),
            old(self).pending_merge is None,
            old(self).matches_meta(*meta),
            merged.wf(),
        ensures
            final(self).wf(),
            final(self).recovered(old(self), *meta, merged),
    {
        let ghost given = merged;
        let mut frozen: Vec<Arc<FrozenSegment>> = Vec::new();
        frozen.push(Arc::new(merged));
        let total: usize = self.published.frozen.len();
        let mut i: usize = 0;
        assert(self.published.frozen@.take(0) =~= Seq::<Arc<FrozenSegment>>::empty());
        assert(frozen@ =~= seq![Arc::new(given)] + others(
            self.published.frozen@.take(0),
            meta.source_ids@,
        ));
        while i < total
            invariant
                i <= total,
                total == self.published.frozen@.len(),
                *self == *old(self),
                self.wf(),
                given.wf(),
                frozen@ == seq![Arc::new(given)] + others(
                    self.published.frozen@.take(i as int),
                    meta.source_ids@,
                ),
                frozen_wf(frozen@),
            decreases total - i,
        {
            let ghost longer = self.published.frozen@.take(i + 1);
            assert(longer.drop_last() =~= self.published.frozen@.take(i as int));
            assert(self.published.frozen@[i as int].wf());
            if !has_id(meta.source_ids.as_slice(), self.published.frozen[i].id()) {
                frozen.push(share(&self.published.frozen[i]));
            }
            assert(frozen@ =~= seq![Arc::new(given)] + others(longer, meta.source_ids@));
            i += 1;
        }
        assert(self.published.frozen@.take(i as int) =~= self.published.frozen@);
        self.published.frozen = frozen;
        let next: u64 = if meta.merged_segment_id == u64::MAX {
            u64::MAX
        } else {
            meta.merged_segment_id + 1
        };
        if self.next_segment_id < next {
            self.next_segment_id = next;
        }
    }
}

} // verus!
