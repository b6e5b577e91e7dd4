//! Hierarchical navigable small world (HNSW) graphs for approximate nearest
//! neighbour search, with the graph algorithms, storage layouts and file
//! formats proved against their contracts.
//!
//! Vectors are held as the bit patterns of their `f32` components, and so are
//! distances: no arithmetic on floating-point numbers takes place in this
//! crate. Whoever calls a search or an insertion hands in the metric, a
//! function from two such vectors to a distance.

pub mod batch_builder;
pub mod batch_builder_laws;
pub mod bytes;
pub mod candidates;
pub mod decimal;
pub mod distance;
pub mod engine;
pub mod error;
pub mod extended_rabitq;
pub mod extended_rabitq_laws;
pub mod framing;
pub mod frozen_lists;
pub mod graph;
pub mod graph_storage;
pub mod graph_storage_laws;
pub mod index;
pub mod json;
pub mod neighbor_codes;
pub mod neighbor_lists;
pub mod node_storage;
pub mod query_buffers;
pub mod reorder;
pub mod reorder_laws;
pub mod segment;
pub mod segment_laws;
pub mod segment_manager;
pub mod segment_persistence;
pub mod storage;
pub mod types;
pub mod vector_storage;
pub mod visited;
