//! Parameters and small values shared by the graph algorithms.

use vstd::prelude::*;

use crate::distance::rank;

verus! {

/// How the distance between two vectors is measured.
#[derive(Debug, Clone, Copy, PartialEq, Eq, Structural)]
pub enum Metric {
    L2,
    Cosine,
    InnerProduct,
}

/// Construction parameters.
#[derive(Debug, Clone, Copy, PartialEq, Eq, Structural)]
pub struct HNSWParams {
    /// Links per node on the upper levels; level 0 holds twice as many.
    pub m: usize,
    /// Size of the candidate list during construction.
    pub ef_construction: usize,
    /// Bits of the level multiplier, `1 / ln(M)`.
    pub ml: u32,
    /// Seed of the level generator.
    pub seed: u64,
    /// Highest level that a node can have.
    pub max_level: u8,
}

/// `1 / ln(16)`, the level multiplier for 16 links per node.
pub const DEFAULT_ML: u32 = 0x3eb8_aa3b;

pub open spec fn default_params() -> HNSWParams {
    HNSWParams { m: 16, ef_construction: 100, ml: DEFAULT_ML, seed: 42, max_level: 8 }
}

impl Default for HNSWParams {
    fn default() -> (p: Self)
        ensures
            p == default_params(),
    {
        HNSWParams { m: 16, ef_construction: 100, ml: DEFAULT_ML, seed: 42, max_level: 8 }
    }
}

impl HNSWParams {
    /// Links that a node may have at a level.
    pub open spec fn links(&self, level: u8) -> nat {
        if level == 0 { (self.m * 2) as nat } else { self.m as nat }
    }

    /// Links that a node may have at a level: twice as many at level 0.
    pub fn m_for_level(&self, level: u8) -> (r: usize)
        requires
            self.m * 2 <= usize::MAX,
        ensures
            r == self.links(level),
    {
        if level == 0 { self.m * 2 } else { self.m }
    }
}

/// A node together with its distance to the query.
#[derive(Debug, Clone, Copy, PartialEq, Eq, Structural)]
pub struct Candidate {
    pub node_id: u32,
    /// Bits of the distance.
    pub distance: u32,
}

impl Candidate {
    pub fn new(node_id: u32, distance: u32) -> (c: Self)
        ensures
            c == (Candidate { node_id, distance }),
    {
        Candidate { node_id, distance }
    }

    /// Where the candidate stands in the order of distances.
    pub open spec fn rank(&self) -> int {
        rank(self.distance)
    }
}

/// A result of a search.
#[derive(Debug, Clone, Copy, PartialEq, Eq, Structural)]
pub struct SearchResult {
    pub slot: u32,
    /// Bits of the distance.
    pub distance: u32,
}

/// Where the graph of an index is kept.
#[derive(Debug, Clone, Copy, PartialEq, Eq, Structural)]
pub enum StorageMode {
    Memory,
    Hybrid,
    DiskHeavy,
}

impl StorageMode {
    /// Memory below ten million vectors, disk above a hundred million, and a
    /// mix of both in between.
    pub fn auto_select(num_vectors: usize) -> (mode: StorageMode)
        ensures
            mode == (if num_vectors < 10_000_000 {
                StorageMode::Memory
            } else if num_vectors <= 100_000_000 {
                StorageMode::Hybrid
            } else {
                StorageMode::DiskHeavy
            }),
    {
        if num_vectors < 10_000_000 {
            StorageMode::Memory
        } else if num_vectors <= 100_000_000 {
            StorageMode::Hybrid
        } else {
            StorageMode::DiskHeavy
        }
    }
}

} // verus!
