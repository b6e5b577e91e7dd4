//! What can go wrong.

use vstd::prelude::*;

verus! {

pub type Result<T> = core::result::Result<T, HNSWError>;

/// Why a stored byte sequence cannot be read back.
#[derive(Debug, Clone, PartialEq, Eq)]
#[allow(inconsistent_fields)]
pub enum FormatError {
    /// `need` bytes were asked for at `position`, and `available` is all there is.
    TooShort { need: usize, position: usize, available: usize },
    /// Shorter than the smallest header.
    HeaderTooShort,
    /// The file does not start with the magic bytes of its kind; what it starts
    /// with is given as a number.
    InvalidMagic { found: u64 },
    /// A format version that is not supported.
    UnsupportedVersion { found: u32 },
    /// A length field that exceeds its safety cap.
    CapExceeded { length: u64, cap: u64 },
    /// The product of two counts does not fit.
    SizeOverflow { count: u64, size: u64 },
    /// More bytes are declared than the data holds.
    ExceedsData { declared: u64, have: u64 },
    /// Product quantization is no longer supported.
    ProductQuantization,
    /// A storage mode byte that has no meaning.
    InvalidMode { found: u8 },
    /// Offsets of the node layout that do not lie inside a node.
    InvalidLayout { offset: usize, node_size: usize },
    /// Nodes exist, and the region of their upper neighbours does not.
    RegionMissing,
    /// The region of upper neighbours ends too early.
    RegionTruncated,
    /// The region of upper neighbours is about another number of nodes.
    NodeCountMismatch { expected: u64, found: u64 },
    /// A list of upper neighbours is longer than the graph allows.
    TooManyNeighbors { count: u64, max: u64 },
    /// A value could not be turned from bytes into a value of its type.
    Undecodable,
}

#[derive(Debug, Clone, PartialEq, Eq)]
pub enum HNSWError {
    DimensionMismatch { expected: usize, actual: usize },
    Serialization(String),
    InvalidVector,
    Io(String),
    InvalidParams(String),
    InvalidSearchParams { k: usize, ef: usize },
    Internal(String),
    Storage(String),
    Format(FormatError),
}

impl HNSWError {
    pub fn internal(msg: String) -> (e: Self)
        ensures
            e == HNSWError::Internal(msg),
    {
        HNSWError::Internal(msg)
    }

    pub fn storage(msg: String) -> (e: Self)
        ensures
            e == HNSWError::Storage(msg),
    {
        HNSWError::Storage(msg)
    }
}

} // verus!
