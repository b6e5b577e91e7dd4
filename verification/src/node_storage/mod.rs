//! Node storage that keeps vectors and neighbours together.
//!
//! Level 0 lies in one block of bytes with a fixed number of bytes per node:
//!
//! ```text
//! [neighbor_count: u16][pad: u16][neighbors: [u32; M*2]][vector][slot: u32][level: u8][padding]
//! ```
//!
//! The vector takes four bytes per component at full precision and one in SQ8
//! mode. The size of a node is rounded up to a cache line. Upper levels are
//! sparse, and kept apart.

pub mod code_laws;
pub mod compress;
pub mod neighbors;
pub mod quantization;
pub mod rabitq;
pub mod reorder;
pub mod roundtrip;
pub mod serialization;
pub mod upper_neighbors;
pub mod vectors;

use vstd::prelude::*;

use crate::bytes::{le, overwrite, put_u32, u32_at, u32_bytes};
use crate::graph::GraphStore;
use crate::index::insert::node_pushed;
use crate::storage::{lemma_row_bounds, lemma_rows_apart};
use quantization::{chunk, Quantization, CODES};
use upper_neighbors::{no_lists, word_at, words_at, UpperNeighborsStorage};
use vectors::{filled, put_norm, put_sum};

verus! {

/// Alignment of nodes.
pub const CACHE_LINE: usize = 64;

/// Nodes that fit after the first growth.
pub const FIRST_CAPACITY: usize = 64;

/// Parameters of the scalar quantization, `value = code * scale + offset`.
#[derive(Debug, Clone, Copy, PartialEq, Eq, Structural)]
pub struct ScalarParams {
    /// Bits of the scale.
    pub scale: u32,
    /// Bits of the offset.
    pub offset: u32,
    pub dimensions: usize,
}

/// Storage with vectors and neighbours of level 0 side by side.
#[derive(Debug)]
pub struct NodeStorage {
    /// The nodes at level 0.
    pub data: Vec<u8>,
    /// Number of nodes that fit into the data.
    pub capacity: usize,
    /// Number of nodes in use.
    pub len: usize,
    /// Bytes of each node.
    pub node_size: usize,
    /// Where the neighbours start in a node.
    pub neighbors_offset: usize,
    /// Where the vector starts in a node.
    pub vector_offset: usize,
    /// Where slot and level start in a node.
    pub metadata_offset: usize,
    pub dimensions: usize,
    /// Most neighbours at level 0.
    pub max_neighbors: usize,
    /// Most neighbours at upper levels.
    pub max_neighbors_upper: usize,
    /// Highest level.
    pub max_level: usize,
    pub upper_neighbors: UpperNeighborsStorage,
    /// Whether vectors are held in SQ8 mode.
    pub sq8: bool,
    pub sq8_params: Option<ScalarParams>,
    /// Bits of the squared norm of each vector.
    pub norms: Vec<u32>,
    /// Sum of the codes of each vector, in SQ8 mode.
    pub sq8_sums: Vec<i32>,
    /// Vectors that wait for the quantization to be trained.
    pub training_buffer: Vec<u32>,
    pub sq8_trained: bool,
    /// Bits of the value of each code, once the quantization is trained.
    pub code_values: Vec<u32>,
}

/// The parts of a node.
pub enum Field {
    Links,
    Vector,
    Slot,
    Level,
}

/// The values of codes.
pub open spec fn decoded(values: Seq<u32>, codes: Seq<u8>) -> Seq<u32> {
    Seq::new(codes.len(), |j: int| values[codes[j] as int])
}

/// Bytes of a vector in a node.
pub open spec fn vector_size(dimensions: nat, sq8: bool) -> nat {
    if sq8 { dimensions } else { dimensions * 4 }
}

/// The least multiple of the cache line that is not below `n`.
pub open spec fn round_up(n: int) -> int {
    (n + CACHE_LINE - 1) / (CACHE_LINE as int) * CACHE_LINE
}

/// Bytes that a node needs.
pub open spec fn raw_node_size(dimensions: nat, m: nat, sq8: bool) -> int {
    4int + m * 2 * 4 + vector_size(dimensions, sq8) + 5
}

/// A node takes up whole cache lines, and less than one more than it needs, so
/// that nodes which lie one behind the other all start at one.
pub proof fn law_nodes_are_aligned(n: int, id: int)
    requires
        n >= 0,
    ensures
        n <= round_up(n) < n + CACHE_LINE,
        round_up(n) % (CACHE_LINE as int) == 0,
        (id * round_up(n)) % (CACHE_LINE as int) == 0,
{
    let lines = (n + CACHE_LINE - 1) / (CACHE_LINE as int);
    assert(id * round_up(n) == (id * lines) * 64) by (nonlinear_arith)
        requires
            round_up(n) == lines * 64,
    ;
}

/// The parameters of a storage leave room for its counts.
pub open spec fn node_params_fit(dimensions: nat, m: nat) -> bool {
    m * 2 <= u16::MAX && raw_node_size(dimensions, m, false) + CACHE_LINE <= usize::MAX
}

impl NodeStorage {
    /// The parts of a node follow each other and fit into it.
    pub open spec fn layout_ok(&self) -> bool {
        &&& self.neighbors_offset >= 2
        &&& self.neighbors_offset + 4 * self.max_neighbors <= self.vector_offset
        &&& self.vector_offset + vector_size(self.dimensions as nat, self.sq8)
            <= self.metadata_offset
        &&& self.metadata_offset + 5 <= self.node_size
        &&& self.max_neighbors <= u16::MAX
    }

    pub open spec fn wf(&self) -> bool {
        &&& self.layout_ok()
        &&& self.len <= self.capacity
        &&& self.capacity * self.node_size <= self.data@.len()
        &&& self.len <= u32::MAX + 1
    }

    /// Where a node starts.
    pub open spec fn base(&self, id: int) -> int {
        id * self.node_size
    }

    /// The stored number of neighbours at level 0.
    pub open spec fn count0(&self, id: u32) -> nat {
        le(self.data@.subrange(self.base(id as int), self.base(id as int) + 2))
    }

    /// The neighbours at level 0.
    pub open spec fn links0(&self, id: u32) -> Seq<u32> {
        words_at(
            self.data@,
            (self.base(id as int) + self.neighbors_offset) as nat,
            if self.count0(id) <= self.max_neighbors {
                self.count0(id)
            } else {
                self.max_neighbors as nat
            },
        )
    }

    /// The vector of a node: as it is stored at full precision; in SQ8 mode as it
    /// was collected before training, and as its codes say after it.
    pub open spec fn vec(&self, id: u32) -> Seq<u32> {
        if !self.sq8 {
            self.words(id)
        } else if !self.sq8_trained {
            chunk(self.training_buffer@, id as int, self.dimensions as int)
        } else {
            decoded(self.code_values@, self.codes(id))
        }
    }

    /// What lies in a node at full precision.
    pub open spec fn words(&self, id: u32) -> Seq<u32> {
        words_at(
            self.data@,
            (self.base(id as int) + self.vector_offset) as nat,
            self.dimensions as nat,
        )
    }

    /// The codes of a node in SQ8 mode.
    pub open spec fn codes(&self, id: u32) -> Seq<u8> {
        self.data@.subrange(
            self.base(id as int) + self.vector_offset,
            self.base(id as int) + self.vector_offset + self.dimensions,
        )
    }

    pub open spec fn slot_of(&self, id: u32) -> u32 {
        word_at(self.data@, (self.base(id as int) + self.metadata_offset) as nat)
    }

    pub open spec fn node_level(&self, id: u32) -> u8 {
        self.data@[self.base(id as int) + self.metadata_offset + 4]
    }

    /// The neighbours at any level.
    pub open spec fn links(&self, id: u32, level: u8) -> Seq<u32> {
        if level == 0 {
            self.links0(id)
        } else {
            self.upper_neighbors.links(id, level)
        }
    }

    /// Where a part of a node starts.
    pub open spec fn field_start(&self, id: int, field: Field) -> int {
        self.base(id) + match field {
            Field::Links => 0,
            Field::Vector => self.vector_offset as int,
            Field::Slot => self.metadata_offset as int,
            Field::Level => self.metadata_offset + 4,
        }
    }

    /// Where a part of a node ends.
    pub open spec fn field_end(&self, id: int, field: Field) -> int {
        self.base(id) + match field {
            Field::Links => self.vector_offset as int,
            Field::Vector => self.vector_offset + vector_size(self.dimensions as nat, self.sq8),
            Field::Slot => self.metadata_offset + 4,
            Field::Level => self.metadata_offset + 5,
        }
    }

    /// All but the contents of the nodes is the same.
    pub open spec fn same_shape(&self, other: &Self) -> bool {
        &&& other.data@.len() == self.data@.len()
        &&& other.capacity == self.capacity
        &&& other.len == self.len
        &&& other.node_size == self.node_size
        &&& other.neighbors_offset == self.neighbors_offset
        &&& other.vector_offset == self.vector_offset
        &&& other.metadata_offset == self.metadata_offset
        &&& other.dimensions == self.dimensions
        &&& other.max_neighbors == self.max_neighbors
        &&& other.max_neighbors_upper == self.max_neighbors_upper
        &&& other.max_level == self.max_level
        &&& other.sq8 == self.sq8
    }

    /// What is kept beside the nodes is the same.
    pub open spec fn same_rest(&self, other: &Self) -> bool {
        &&& other.upper_neighbors == self.upper_neighbors
        &&& self.same_quantization(other)
    }

    /// Norms, sums and the state of the quantization are the same.
    pub open spec fn same_quantization(&self, other: &Self) -> bool {
        &&& other.sq8_params == self.sq8_params
        &&& other.norms == self.norms
        &&& other.sq8_sums == self.sq8_sums
        &&& other.training_buffer == self.training_buffer
        &&& other.sq8_trained == self.sq8_trained
        &&& other.code_values == self.code_values
    }

    /// Every part of every node is the same but one part of one node.
    pub open spec fn same_but(&self, other: &Self, id: u32, field: Field) -> bool {
        &&& forall|i: u32|
            i < self.len && (i != id || field !is Links) ==> #[trigger] other.links0(i)
                == self.links0(i)
        &&& forall|i: u32|
            i < self.len && (i != id || field !is Vector) && !self.sq8 ==> #[trigger] other.vec(i)
                == self.vec(i)
        &&& forall|i: u32|
            i < self.len && (i != id || field !is Vector) && self.sq8 ==> #[trigger] other.codes(i)
                == self.codes(i)
        &&& forall|i: u32|
            i < self.len && (i != id || field !is Slot) ==> #[trigger] other.slot_of(i)
                == self.slot_of(i)
        &&& forall|i: u32|
            i < self.len && (i != id || field !is Level) ==> #[trigger] other.node_level(i)
                == self.node_level(i)
    }

    /// A node lies within the data.
    pub proof fn lemma_node(&self, id: int)
        requires
            self.wf(),
            0 <= id < self.capacity,
        ensures
            0 <= self.base(id),
            self.base(id) + self.node_size <= self.data@.len(),
    {
        lemma_row_bounds(id, self.capacity as int, self.node_size as int);
    }

    /// Parts of different nodes, and different parts of one node, do not
    /// overlap.
    proof fn lemma_fields_apart(&self, id: int, field: Field, id2: int, field2: Field)
        requires
            self.wf(),
            0 <= id < self.capacity,
            0 <= id2 < self.capacity,
            id != id2 || field != field2,
        ensures
            self.field_end(id, field) <= self.field_start(id2, field2) || self.field_end(
                id2,
                field2,
            ) <= self.field_start(id, field),
    {
        if id < id2 {
            lemma_rows_apart(id, id2, self.node_size as int);
        } else if id2 < id {
            lemma_rows_apart(id2, id, self.node_size as int);
        }
    }

    /// A write within one part of one node leaves all other parts alone.
    pub proof fn lemma_same_but(&self, other: &Self, id: u32, field: Field)
        requires
            self.wf(),
            self.same_shape(other),
            id < self.len,
            forall|p: int|
                0 <= p < self.data@.len() && !(self.field_start(id as int, field) <= p
                    < self.field_end(id as int, field)) ==> #[trigger] other.data@[p]
                    == self.data@[p],
        ensures
            self.same_but(other, id, field),
    {
        assert forall|i: u32|
            i < self.len && (i != id || field !is Links) implies #[trigger] other.links0(i)
            == self.links0(i) by {
            self.lemma_node(i as int);
            self.lemma_fields_apart(id as int, field, i as int, Field::Links);
            let b = self.base(i as int);
            assert(other.data@.subrange(b, b + 2) =~= self.data@.subrange(b, b + 2));
            let start = (b + self.neighbors_offset) as nat;
            let n = self.links0(i).len();
            assert forall|j: int| 0 <= j < n implies word_at(
                other.data@,
                (start + 4 * j) as nat,
            ) == #[trigger] word_at(self.data@, (start + 4 * j) as nat) by {
                assert(other.data@.subrange(start + 4 * j, start + 4 * j + 4)
                    =~= self.data@.subrange(start + 4 * j, start + 4 * j + 4));
            }
            assert(other.links0(i) =~= self.links0(i));
        }
        assert forall|i: u32|
            i < self.len && (i != id || field !is Vector) && !self.sq8 implies #[trigger] other.vec(
            i,
        ) == self.vec(i) by {
            self.lemma_node(i as int);
            self.lemma_fields_apart(id as int, field, i as int, Field::Vector);
            let start = (self.base(i as int) + self.vector_offset) as nat;
            assert forall|j: int| 0 <= j < self.dimensions implies word_at(
                other.data@,
                (start + 4 * j) as nat,
            ) == #[trigger] word_at(self.data@, (start + 4 * j) as nat) by {
                assert(other.data@.subrange(start + 4 * j, start + 4 * j + 4)
                    =~= self.data@.subrange(start + 4 * j, start + 4 * j + 4));
            }
            assert(other.vec(i) =~= self.vec(i));
        }
        assert forall|i: u32|
            i < self.len && (i != id || field !is Vector) && self.sq8 implies #[trigger] other.codes(
            i,
        ) == self.codes(i) by {
            self.lemma_node(i as int);
            self.lemma_fields_apart(id as int, field, i as int, Field::Vector);
            assert(other.codes(i) =~= self.codes(i));
        }
        assert forall|i: u32|
            i < self.len && (i != id || field !is Slot) implies #[trigger] other.slot_of(i)
            == self.slot_of(i) by {
            self.lemma_node(i as int);
            self.lemma_fields_apart(id as int, field, i as int, Field::Slot);
            let p = self.base(i as int) + self.metadata_offset;
            assert(other.data@.subrange(p, p + 4) =~= self.data@.subrange(p, p + 4));
        }
        assert forall|i: u32|
            i < self.len && (i != id || field !is Level) implies #[trigger] other.node_level(i)
            == self.node_level(i) by {
            self.lemma_node(i as int);
            self.lemma_fields_apart(id as int, field, i as int, Field::Level);
        }
    }

    /// An empty storage at full precision.
    pub fn new(dimensions: usize, m: usize, max_levels: usize) -> (r: Self)
        requires
            node_params_fit(dimensions as nat, m as nat),
        ensures
            r.created(dimensions, m, max_levels, false),
    {
        Self::create(dimensions, m, max_levels, false)
    }

    /// An empty storage in SQ8 mode, which takes one byte per component.
    pub fn new_sq8(dimensions: usize, m: usize, max_levels: usize) -> (r: Self)
        requires
            node_params_fit(dimensions as nat, m as nat),
        ensures
            r.created(dimensions, m, max_levels, true),
    {
        Self::create(dimensions, m, max_levels, true)
    }

    /// What a new storage is like.
    pub open spec fn created(
        &self,
        dimensions: usize,
        m: usize,
        max_levels: usize,
        sq8: bool,
    ) -> bool {
        &&& self.wf()
        &&& self.len == 0
        &&& self.capacity == 0
        &&& self.data@.len() == 0
        &&& self.node_size == round_up(raw_node_size(dimensions as nat, m as nat, sq8))
        &&& self.neighbors_offset == 4
        &&& self.vector_offset == 4 + m * 2 * 4
        &&& self.metadata_offset == self.vector_offset + vector_size(dimensions as nat, sq8)
        &&& self.dimensions == dimensions
        &&& self.max_neighbors == m * 2
        &&& self.max_neighbors_upper == m
        &&& self.max_level == max_levels
        &&& self.upper_neighbors.map@ == no_lists()
        &&& self.sq8 == sq8
        &&& self.sq8_params is None
        &&& self.norms@.len() == 0
        &&& self.sq8_sums@.len() == 0
        &&& self.training_buffer@.len() == 0
        &&& !self.sq8_trained
        &&& self.code_values@.len() == 0
        &&& self.memory() == 0
    }

    fn create(dimensions: usize, m: usize, max_levels: usize, sq8: bool) -> (r: Self)
        requires
            node_params_fit(dimensions as nat, m as nat),
        ensures
            r.created(dimensions, m, max_levels, sq8),
    {
        let max_neighbors: usize = m * 2;
        let neighbors_offset: usize = 4;
        let vector_offset: usize = neighbors_offset + max_neighbors * 4;
        let vector_bytes: usize = if sq8 { dimensions } else { dimensions * 4 };
        let metadata_offset: usize = vector_offset + vector_bytes;
        let raw_size: usize = metadata_offset + 4 + 1;
        let node_size: usize = (raw_size + CACHE_LINE - 1) / CACHE_LINE * CACHE_LINE;
        let r = NodeStorage {
            data: Vec::new(),
            capacity: 0,
            len: 0,
            node_size,
            neighbors_offset,
            vector_offset,
            metadata_offset,
            dimensions,
            max_neighbors,
            max_neighbors_upper: m,
            max_level: max_levels,
            upper_neighbors: UpperNeighborsStorage::new(),
            sq8,
            sq8_params: None,
            norms: Vec::new(),
            sq8_sums: Vec::new(),
            training_buffer: Vec::new(),
            sq8_trained: false,
            code_values: Vec::new(),
        };
        proof {
            r.upper_neighbors.lemma_no_usage();
        }
        r
    }

    /// Bytes of each node.
    pub fn node_size(&self) -> (r: usize)
        ensures
            r == self.node_size,
    {
        self.node_size
    }

    pub fn dimensions(&self) -> (r: usize)
        ensures
            r == self.dimensions,
    {
        self.dimensions
    }

    /// Most neighbours at level 0.
    pub fn max_neighbors(&self) -> (r: usize)
        ensures
            r == self.max_neighbors,
    {
        self.max_neighbors
    }

    /// Most neighbours at upper levels.
    pub fn max_neighbors_upper(&self) -> (r: usize)
        ensures
            r == self.max_neighbors_upper,
    {
        self.max_neighbors_upper
    }

    /// Highest level.
    pub fn max_level(&self) -> (r: usize)
        ensures
            r == self.max_level,
    {
        self.max_level
    }

    /// Whether vectors are held in SQ8 mode.
    pub fn is_sq8(&self) -> (r: bool)
        ensures
            r == self.sq8,
    {
        self.sq8
    }

    /// Whether vectors can be stored as they should be: always at full
    /// precision, once the quantization is trained in SQ8 mode.
    pub fn is_trained(&self) -> (r: bool)
        ensures
            r == (!self.sq8 || self.sq8_trained),
    {
        !self.sq8 || self.sq8_trained
    }

    /// Number of nodes.
    pub fn len(&self) -> (r: usize)
        ensures
            r == self.len,
    {
        self.len
    }

    pub fn is_empty(&self) -> (r: bool)
        ensures
            r == (self.len == 0),
    {
        self.len == 0
    }

    /// Number of nodes that fit without growing.
    pub fn capacity(&self) -> (r: usize)
        ensures
            r == self.capacity,
    {
        self.capacity
    }

    /// Bytes of the nodes and of the auxiliary state.
    pub open spec fn plain_usage(&self) -> int {
        self.capacity * self.node_size + self.norms@.len() * 4 + self.sq8_sums@.len() * 4
            + self.training_buffer@.len() * 4
    }

    /// Bytes that the storage takes.
    pub open spec fn memory(&self) -> int {
        self.plain_usage() + self.upper_neighbors.usage()
    }

    /// Bytes that the storage takes.
    pub fn memory_usage(&self) -> (r: usize)
        requires
            self.wf(),
            self.memory() <= usize::MAX,
        ensures
            r == self.memory(),
    {
        proof {
            assert(self.capacity * self.node_size >= 0) by (nonlinear_arith)
                requires
                    self.capacity >= 0,
                    self.node_size >= 0,
            ;
        }
        let upper: usize = self.upper_neighbors.memory_usage();
        self.capacity * self.node_size + upper + (self.norms.len() * 4 + self.sq8_sums.len() * 4
            + self.training_buffer.len() * 4)
    }

    /// Where the neighbours start in a node.
    pub fn neighbors_offset(&self) -> (r: usize)
        ensures
            r == self.neighbors_offset,
    {
        self.neighbors_offset
    }

    /// Where the vector starts in a node.
    pub fn vector_offset(&self) -> (r: usize)
        ensures
            r == self.vector_offset,
    {
        self.vector_offset
    }

    /// Where slot and level start in a node.
    pub fn metadata_offset(&self) -> (r: usize)
        ensures
            r == self.metadata_offset,
    {
        self.metadata_offset
    }

    /// The capacity after growing.
    pub open spec fn grown_capacity(&self) -> int {
        if self.capacity == 0 { FIRST_CAPACITY as int } else { self.capacity * 2 }
    }

    /// Makes room for twice as many nodes, or for the first ones.
    fn grow(&mut self)
        requires
            old(self).wf(),
            old(self).grown_capacity() * old(self).node_size <= usize::MAX,
            old(self).grown_capacity() <= usize::MAX,
        ensures
            final(self).wf(),
            final(self).capacity == old(self).grown_capacity(),
            final(self).data@.len() == final(self).capacity * old(self).node_size,
            forall|p: int|
                0 <= p < final(self).data@.len() ==> #[trigger] final(self).data@[p] == (if p
                    < old(self).len * old(self).node_size {
                    old(self).data@[p]
                } else {
                    0u8
                }),
            final(self).len == old(self).len,
            final(self).node_size == old(self).node_size,
            final(self).neighbors_offset == old(self).neighbors_offset,
            final(self).vector_offset == old(self).vector_offset,
            final(self).metadata_offset == old(self).metadata_offset,
            final(self).dimensions == old(self).dimensions,
            final(self).max_neighbors == old(self).max_neighbors,
            final(self).max_neighbors_upper == old(self).max_neighbors_upper,
            final(self).max_level == old(self).max_level,
            final(self).sq8 == old(self).sq8,
            old(self).same_rest(final(self)),
    {
        let new_capacity: usize = if self.capacity == 0 {
            FIRST_CAPACITY
        } else {
            self.capacity * 2
        };
        let node_size: usize = self.node_size;
        proof {
            assert(0 <= self.len * node_size <= self.capacity * node_size <= new_capacity
                * node_size) by (nonlinear_arith)
                requires
                    self.len <= self.capacity <= new_capacity,
            ;
            assert(self.data@.len() == self.data.len());
        }
        let used: usize = self.len * node_size;
        let new_size: usize = new_capacity * node_size;
        let mut data: Vec<u8> = vec![0u8; new_size];
        let mut i: usize = 0;
        while i < used
            invariant
                i <= used <= new_size,
                used <= self.data@.len(),
                *self == *old(self),
                data@.len() == new_size,
                forall|p: int|
                    0 <= p < new_size ==> #[trigger] data@[p] == (if p < i {
                        self.data@[p]
                    } else {
                        0u8
                    }),
            decreases used - i,
        {
            data.set(i, self.data[i]);
            i += 1;
        }
        self.data = data;
        self.capacity = new_capacity;
    }

    /// Adds a node and returns its id. Its bytes are zero where the storage had
    /// to grow; nodes before it stay as they are.
    pub fn allocate_node(&mut self) -> (id: u32)
        requires
            old(self).wf(),
            old(self).len <= u32::MAX,
            old(self).len >= old(self).capacity ==> old(self).grown_capacity()
                * old(self).node_size <= usize::MAX && old(self).grown_capacity() <= usize::MAX,
        ensures
            final(self).wf(),
            id == old(self).len,
            final(self).len == old(self).len + 1,
            final(self).capacity == (if old(self).len >= old(self).capacity {
                old(self).grown_capacity()
            } else {
                old(self).capacity as int
            }),
            final(self).node_size == old(self).node_size,
            final(self).neighbors_offset == old(self).neighbors_offset,
            final(self).vector_offset == old(self).vector_offset,
            final(self).metadata_offset == old(self).metadata_offset,
            final(self).dimensions == old(self).dimensions,
            final(self).max_neighbors == old(self).max_neighbors,
            final(self).max_neighbors_upper == old(self).max_neighbors_upper,
            final(self).max_level == old(self).max_level,
            final(self).sq8 == old(self).sq8,
            old(self).same_rest(final(self)),
            forall|p: int|
                0 <= p < old(self).len * old(self).node_size ==> #[trigger] final(self).data@[p]
                    == old(self).data@[p],
            forall|p: int|
                old(self).len * old(self).node_size <= p < (old(self).len + 1)
                    * old(self).node_size ==> #[trigger] final(self).data@[p] == (if old(self).len
                    >= old(self).capacity {
                    0u8
                } else {
                    old(self).data@[p]
                }),
            old(self).len >= old(self).capacity ==> final(self).count0(id) == 0
                && final(self).links0(id) == Seq::<u32>::empty(),
            forall|i: u32| i < id ==> #[trigger] final(self).links0(i) == old(self).links0(i),
            forall|i: u32|
                i < id && !old(self).sq8 ==> #[trigger] final(self).vec(i) == old(self).vec(i),
            forall|i: u32|
                i < id && old(self).sq8 ==> #[trigger] final(self).codes(i) == old(self).codes(i),
            forall|i: u32| i < id ==> #[trigger] final(self).slot_of(i) == old(self).slot_of(i),
            forall|i: u32|
                i < id ==> #[trigger] final(self).node_level(i) == old(self).node_level(i),
    {
        if self.len >= self.capacity {
            self.grow();
        }
        let id: u32 = self.len as u32;
        self.len = self.len + 1;
        proof {
            lemma_row_bounds(old(self).len as int, self.capacity as int, self.node_size as int);
            let end = old(self).len * old(self).node_size;
            assert forall|i: u32| i < id implies self.base(i as int) + self.node_size <= end by {
                lemma_row_bounds(i as int, old(self).len as int, self.node_size as int);
            }
            old(self).lemma_prefix(self, id);
            if old(self).len >= old(self).capacity {
                let b = self.base(id as int);
                let head = self.data@.subrange(b, b + 2);
                assert(head[0] == 0 && head[1] == 0);
                reveal_with_fuel(le, 3);
                assert(self.count0(id) == 0);
                assert(self.links0(id) =~= Seq::<u32>::empty());
            }
        }
        id
    }

    /// Nodes whose bytes are the same hold the same.
    pub proof fn lemma_prefix(&self, other: &Self, n: u32)
        requires
            self.wf(),
            other.wf(),
            n <= self.len,
            n <= other.len,
            other.node_size == self.node_size,
            other.neighbors_offset == self.neighbors_offset,
            other.vector_offset == self.vector_offset,
            other.metadata_offset == self.metadata_offset,
            other.dimensions == self.dimensions,
            other.max_neighbors == self.max_neighbors,
            other.sq8 == self.sq8,
            forall|p: int|
                0 <= p < n * self.node_size ==> #[trigger] other.data@[p] == self.data@[p],
        ensures
            forall|i: u32| i < n ==> #[trigger] other.links0(i) == self.links0(i),
            forall|i: u32| i < n && !self.sq8 ==> #[trigger] other.vec(i) == self.vec(i),
            forall|i: u32| i < n && self.sq8 ==> #[trigger] other.codes(i) == self.codes(i),
            forall|i: u32| i < n ==> #[trigger] other.slot_of(i) == self.slot_of(i),
            forall|i: u32| i < n ==> #[trigger] other.node_level(i) == self.node_level(i),
    {
        let total = n * self.node_size;
        assert forall|i: u32| i < n implies self.base(i as int) >= 0 && #[trigger] self.base(
            i as int,
        ) + self.node_size <= total by {
            lemma_row_bounds(i as int, n as int, self.node_size as int);
        }
        assert(total <= self.data@.len() && total <= other.data@.len()) by {
            assert(n * self.node_size <= self.capacity * self.node_size) by (nonlinear_arith)
                requires
                    n <= self.capacity,
            ;
            assert(n * self.node_size <= other.capacity * self.node_size) by (nonlinear_arith)
                requires
                    n <= other.capacity,
            ;
        }
        assert forall|i: u32| i < n implies #[trigger] other.links0(i) == self.links0(i) by {
            let b = self.base(i as int);
            assert(other.data@.subrange(b, b + 2) =~= self.data@.subrange(b, b + 2));
            let start = (b + self.neighbors_offset) as nat;
            let k = self.links0(i).len();
            assert forall|j: int| 0 <= j < k implies word_at(other.data@, (start + 4 * j) as nat)
                == #[trigger] word_at(self.data@, (start + 4 * j) as nat) by {
                assert(other.data@.subrange(start + 4 * j, start + 4 * j + 4)
                    =~= self.data@.subrange(start + 4 * j, start + 4 * j + 4));
            }
            assert(other.links0(i) =~= self.links0(i));
        }
        assert forall|i: u32| i < n && !self.sq8 implies #[trigger] other.vec(i) == self.vec(i) by {
            let start = (self.base(i as int) + self.vector_offset) as nat;
            assert forall|j: int| 0 <= j < self.dimensions implies word_at(
                other.data@,
                (start + 4 * j) as nat,
            ) == #[trigger] word_at(self.data@, (start + 4 * j) as nat) by {
                assert(other.data@.subrange(start + 4 * j, start + 4 * j + 4)
                    =~= self.data@.subrange(start + 4 * j, start + 4 * j + 4));
            }
            assert(other.vec(i) =~= self.vec(i));
        }
        assert forall|i: u32| i < n && self.sq8 implies #[trigger] other.codes(i) == self.codes(
            i,
        ) by {
            let b = self.base(i as int);
            assert(other.codes(i) =~= self.codes(i));
        }
        assert forall|i: u32| i < n implies #[trigger] other.slot_of(i) == self.slot_of(i) by {
            let p = self.base(i as int) + self.metadata_offset;
            assert(other.data@.subrange(p, p + 4) =~= self.data@.subrange(p, p + 4));
        }
        assert forall|i: u32| i < n implies #[trigger] other.node_level(i) == self.node_level(
            i,
        ) by {
            let b = self.base(i as int);
        }
    }

    /// Where a node starts.
    fn node_start(&self, id: u32) -> (start: usize)
        requires
            self.wf(),
            id < self.len,
        ensures
            start == self.base(id as int),
            start + self.node_size <= self.data@.len(),
            self.data@.len() <= usize::MAX,
    {
        proof {
            self.lemma_node(id as int);
            assert(self.data@.len() == self.data.len());
        }
        id as usize * self.node_size
    }

    /// The slot of a node.
    pub fn slot(&self, id: u32) -> (slot: u32)
        requires
            self.wf(),
            id < self.len,
        ensures
            slot == self.slot_of(id),
    {
        let start: usize = self.node_start(id);
        u32_at(self.data.as_slice(), start + self.metadata_offset)
    }

    /// Sets the slot of a node.
    pub fn set_slot(&mut self, id: u32, slot: u32)
        requires
            old(self).wf(),
            id < old(self).len,
        ensures
            final(self).wf(),
            old(self).same_shape(final(self)),
            old(self).same_rest(final(self)),
            old(self).same_but(final(self), id, Field::Slot),
            final(self).slot_of(id) == slot,
    {
        let start: usize = self.node_start(id);
        let mut part: Vec<u8> = Vec::new();
        put_u32(&mut part, slot);
        assert(part@ =~= u32_bytes(slot));
        proof {
            crate::bytes::lemma_pow256();
            crate::bytes::law_le_of_le_bytes(slot as nat, 4);
        }
        overwrite(&mut self.data, start + self.metadata_offset, part.as_slice());
        proof {
            old(self).lemma_same_but(self, id, Field::Slot);
            let p = start + self.metadata_offset;
            assert(self.data@.subrange(p as int, p + 4) =~= part@);
        }
    }

    /// The level of a node.
    pub fn level(&self, id: u32) -> (level: u8)
        requires
            self.wf(),
            id < self.len,
        ensures
            level == self.node_level(id),
    {
        let start: usize = self.node_start(id);
        self.data[start + self.metadata_offset + 4]
    }

    /// Sets the level of a node.
    pub fn set_level(&mut self, id: u32, level: u8)
        requires
            old(self).wf(),
            id < old(self).len,
        ensures
            final(self).wf(),
            old(self).same_shape(final(self)),
            old(self).same_rest(final(self)),
            old(self).same_but(final(self), id, Field::Level),
            final(self).node_level(id) == level,
    {
        let start: usize = self.node_start(id);
        self.data.set(start + self.metadata_offset + 4, level);
        proof {
            old(self).lemma_same_but(self, id, Field::Level);
        }
    }

    /// Makes sure that a node has lists up to an upper level.
    pub fn allocate_upper_levels(&mut self, id: u32, level: u8)
        requires
            old(self).wf(),
        ensures
            final(self).wf(),
            old(self).same_shape(final(self)),
            final(self).data == old(self).data,
            final(self).sq8_params == old(self).sq8_params,
            final(self).norms == old(self).norms,
            final(self).sq8_sums == old(self).sq8_sums,
            final(self).training_buffer == old(self).training_buffer,
            final(self).sq8_trained == old(self).sq8_trained,
            final(self).code_values == old(self).code_values,
            level == 0 ==> final(self).upper_neighbors.map@ == old(self).upper_neighbors.map@,
            level > 0 ==> final(self).upper_neighbors.levels(id) == upper_neighbors::padded(
                old(self).upper_neighbors.levels(id),
                level as nat,
            ) && final(self).upper_neighbors.map@.dom() == old(self).upper_neighbors.map@.dom().insert(id),
            forall|i: u32|
                i != id ==> #[trigger] final(self).upper_neighbors.levels(i) == old(self).upper_neighbors.levels(i),
    {
        self.upper_neighbors.allocate_upper_levels(id, level);
    }
}

impl NodeStorage {
    /// Every vector is there: collected before the quantization is trained,
    /// with a value for each code after it.
    pub open spec fn vectors_ok(&self) -> bool {
        self.sq8 ==> {
            if self.sq8_trained {
                self.sq8_params is Some && self.code_values@.len() == CODES
            } else {
                self.training_buffer@.len() == self.len * self.dimensions
            }
        }
    }

    /// The nodes that there are and `n` more take no more space than can be
    /// addressed.
    pub open spec fn fits(&self, n: nat) -> bool {
        &&& self.len + n <= u32::MAX
        &&& (2 * (self.len + n) + FIRST_CAPACITY) * self.node_size <= usize::MAX
    }

    pub proof fn lemma_fits(&self, n: nat, fewer: nat)
        requires
            self.fits(n),
            fewer <= n,
        ensures
            self.fits(fewer),
    {
        let a = 2 * (self.len + n) + FIRST_CAPACITY;
        let b = 2 * (self.len + fewer) + FIRST_CAPACITY;
        let size = self.node_size;
        assert(b * size <= a * size) by (nonlinear_arith)
            requires
                b <= a,
        ;
    }

    /// `after` has one more node, without links, whose slot is its id. Of its
    /// vector nothing is said.
    pub open spec fn frame_pushed(&self, after: &Self, level: u8) -> bool {
        let id = self.len as u32;
        &&& after.wf()
        &&& after.len == self.len + 1
        &&& after.node_size == self.node_size
        &&& after.dimensions == self.dimensions
        &&& after.max_neighbors == self.max_neighbors
        &&& after.max_neighbors_upper == self.max_neighbors_upper
        &&& after.max_level == self.max_level
        &&& after.sq8 == self.sq8
        &&& self.same_quantization(after)
        &&& forall|i: u32| i < id && !self.sq8 ==> #[trigger] after.words(i) == self.words(i)
        &&& forall|i: u32| i < id && self.sq8 ==> #[trigger] after.codes(i) == self.codes(i)
        &&& after.node_level(id) == level
        &&& after.slot_of(id) == id
        &&& forall|i: u32| i < id ==> #[trigger] after.node_level(i) == self.node_level(i)
        &&& forall|i: u32| i < id ==> #[trigger] after.slot_of(i) == self.slot_of(i)
        &&& forall|i: u32, l: u8| i < id ==> #[trigger] after.links(i, l) == self.links(i, l)
        &&& forall|l: u8| #[trigger] after.links(id, l) == Seq::<u32>::empty()
        &&& forall|i: u32|
            i >= after.len ==> !(#[trigger] after.upper_neighbors.map@.contains_key(i))
    }

    /// Adds a node without links, and without a vector.
    fn push_frame(&mut self, level: u8) -> (id: u32)
        requires
            old(self).wf(),
            old(self).fits(1),
            forall|i: u32|
                i >= old(self).len ==> !(#[trigger] old(self).upper_neighbors.map@.contains_key(i)),
        ensures
            id == old(self).len,
            old(self).frame_pushed(final(self), level),
            forall|n: nat| old(self).fits(n + 1) ==> #[trigger] final(self).fits(n),
    {
        proof {
            let a = 2 * (self.len + 1) + FIRST_CAPACITY;
            let b = self.grown_capacity();
            let size = self.node_size as int;
            if self.len >= self.capacity {
                assert(b * size <= a * size) by (nonlinear_arith)
                    requires
                        b <= a,
                        size >= 0,
                ;
                assert(b <= b * size) by (nonlinear_arith)
                    requires
                        b >= 0,
                        size >= 1,
                ;
            }
        }
        let ghost start = *self;
        let id: u32 = self.allocate_node();
        let ghost s2 = *self;
        self.set_slot(id, id);
        let ghost s3 = *self;
        self.set_level(id, level);
        let ghost s4 = *self;
        let none: Vec<u32> = Vec::new();
        self.set_neighbors(id, none.as_slice());
        let ghost s5 = *self;
        self.allocate_upper_levels(id, level);
        proof {
            assert(start.upper_neighbors == s5.upper_neighbors);
            assert(!start.upper_neighbors.map@.contains_key(id));
            assert forall|i: u32| i >= self.len implies !(
            #[trigger] self.upper_neighbors.map@.contains_key(i)) by {
                assert(!start.upper_neighbors.map@.contains_key(i));
            }
            s5.lemma_same_data(self);
            assert forall|i: u32| i < id && !start.sq8 implies #[trigger] self.words(i)
                == start.words(i) by {
                assert(s2.vec(i) == start.vec(i));
                assert(s3.vec(i) == s2.vec(i));
                assert(s4.vec(i) == s3.vec(i));
                assert(s5.vec(i) == s4.vec(i));
            }
            assert forall|i: u32| i < id && start.sq8 implies #[trigger] self.codes(i)
                == start.codes(i) by {
                assert(s2.codes(i) == start.codes(i));
                assert(s3.codes(i) == s2.codes(i));
                assert(s4.codes(i) == s3.codes(i));
                assert(s5.codes(i) == s4.codes(i));
            }
            assert forall|i: u32| i < id implies #[trigger] self.node_level(i) == start.node_level(
                i,
            ) by {
                assert(s2.node_level(i) == start.node_level(i));
                assert(s3.node_level(i) == s2.node_level(i));
                assert(s4.node_level(i) == s3.node_level(i));
                assert(s5.node_level(i) == s4.node_level(i));
            }
            assert(self.node_level(id) == level) by {
                assert(s5.node_level(id) == s4.node_level(id));
            }
            assert forall|i: u32| i < id implies #[trigger] self.slot_of(i) == start.slot_of(i) by {
                assert(s2.slot_of(i) == start.slot_of(i));
                assert(s3.slot_of(i) == s2.slot_of(i));
                assert(s4.slot_of(i) == s3.slot_of(i));
                assert(s5.slot_of(i) == s4.slot_of(i));
            }
            assert(self.slot_of(id) == id) by {
                assert(s4.slot_of(id) == s3.slot_of(id));
                assert(s5.slot_of(id) == s4.slot_of(id));
            }
            assert forall|i: u32, l: u8| i < id implies #[trigger] self.links(i, l) == start.links(
                i,
                l,
            ) by {
                if l == 0 {
                    assert(s2.links0(i) == start.links0(i));
                    assert(s3.links0(i) == s2.links0(i));
                    assert(s4.links0(i) == s3.links0(i));
                    assert(s5.links0(i) == s4.links0(i));
                    assert(self.links0(i) == s5.links0(i));
                } else {
                    assert(self.upper_neighbors.levels(i) == s5.upper_neighbors.levels(i));
                }
            }
            assert forall|l: u8| #[trigger] self.links(id, l) == Seq::<u32>::empty() by {
                if l == 0 {
                    assert(s5.links0(id) =~= Seq::<u32>::empty());
                    assert(self.links0(id) == s5.links0(id));
                } else {
                    assert(s5.upper_neighbors.levels(id) == Seq::<Seq<u32>>::empty());
                    assert(self.links(id, l) =~= Seq::<u32>::empty());
                }
            }
        }
        id
    }

    /// Adds a node, in SQ8 mode and once the quantization is trained, whose
    /// vector is given by its codes, squared norm and sum.
    pub fn push_coded(&mut self, codes: &[u8], norm: u32, sum: i32, level: u8) -> (id: u32)
        requires
            old(self).store_wf(),
            old(self).sq8,
            old(self).sq8_trained,
            old(self).fits(1),
            codes@.len() == old(self).dimensions,
        ensures
            id == old(self).len,
            node_pushed(
                *old(self),
                *final(self),
                decoded(old(self).code_values@, codes@),
                level,
            ),
            final(self).coded_push(old(self), codes@, norm, sum),
            forall|n: nat| old(self).fits(n + 1) ==> #[trigger] final(self).fits(n),
    {
        let ghost start = *self;
        let id: u32 = self.push_frame(level);
        let ghost framed = *self;
        self.store_codes(id, codes);
        let ghost stored = *self;
        quantization_lists(&mut self.norms, &mut self.sq8_sums, id, norm, sum);
        proof {
            stored.lemma_same_data(self);
            assert forall|i: u32| i < id implies #[trigger] self.codes(i) == start.codes(i) by {
                assert(framed.codes(i) == start.codes(i));
                assert(stored.codes(i) == framed.codes(i));
            }
            assert forall|i: u32| i < id implies #[trigger] self.vec(i) == start.vec(i) by {
                assert(self.codes(i) == start.codes(i));
            }
            assert(self.codes(id) == codes@);
            assert forall|i: u32| i < framed.len implies #[trigger] self.links0(i)
                == framed.links0(i) by {
                assert(stored.links0(i) == framed.links0(i));
            }
            assert forall|i: u32| i < framed.len implies #[trigger] self.slot_of(i)
                == framed.slot_of(i) by {
                assert(stored.slot_of(i) == framed.slot_of(i));
            }
            assert forall|i: u32| i < framed.len implies #[trigger] self.node_level(i)
                == framed.node_level(i) by {
                assert(stored.node_level(i) == framed.node_level(i));
            }
            self.lemma_pushed(&start, &framed, level);
        }
        id
    }

    /// What a coded vector adds to codes, norms and sums.
    pub open spec fn coded_push(&self, before: &Self, codes: Seq<u8>, norm: u32, sum: i32) -> bool {
        let id = before.len as u32;
        &&& self.sq8 == before.sq8
        &&& self.sq8_trained == before.sq8_trained
        &&& self.sq8_params == before.sq8_params
        &&& self.code_values == before.code_values
        &&& self.training_buffer == before.training_buffer
        &&& self.node_size == before.node_size
        &&& self.codes(id) == codes
        &&& self.norms@ == filled(before.norms@, id as int, 0u32, norm)
        &&& self.sq8_sums@ == filled(before.sq8_sums@, id as int, 0i32, sum)
    }

    /// Once the vector is stored in a new node, the rest is as it was framed.
    proof fn lemma_pushed(&self, start: &Self, framed: &Self, level: u8)
        requires
            start.frame_pushed(framed, level),
            start.wf(),
            self.wf(),
            framed.same_shape(self),
            framed.upper_neighbors == self.upper_neighbors,
            forall|i: u32| i < framed.len ==> #[trigger] self.links0(i) == framed.links0(i),
            forall|i: u32| i < framed.len ==> #[trigger] self.slot_of(i) == framed.slot_of(i),
            forall|i: u32| i < framed.len ==> #[trigger] self.node_level(i) == framed.node_level(i),
        ensures
            self.level_at(start.len as u32) == level,
            self.slot_at(start.len as u32) == start.len as u32,
            forall|i: u32| i < start.len ==> #[trigger] self.level_at(i) == start.level_at(i),
            forall|i: u32| i < start.len ==> #[trigger] self.slot_at(i) == start.slot_at(i),
            forall|i: u32, l: u8|
                i < start.len ==> #[trigger] self.links_at(i, l) == start.links_at(i, l),
            forall|l: u8| #[trigger] self.links_at(start.len as u32, l) == Seq::<u32>::empty(),
    {
        let id = start.len as u32;
        assert forall|i: u32| i < start.len implies #[trigger] self.level_at(i)
            == start.level_at(i) by {
            assert(self.node_level(i) == framed.node_level(i));
        }
        assert forall|i: u32| i < start.len implies #[trigger] self.slot_at(i)
            == start.slot_at(i) by {
            assert(self.slot_of(i) == framed.slot_of(i));
        }
        assert forall|i: u32, l: u8| i < start.len implies #[trigger] self.links_at(i, l)
            == start.links_at(i, l) by {
            assert(framed.links(i, l) == start.links(i, l));
            if l == 0 {
                assert(self.links0(i) == framed.links0(i));
            }
        }
        assert forall|l: u8| #[trigger] self.links_at(id, l) == Seq::<u32>::empty() by {
            assert(framed.links(id, l) == Seq::<u32>::empty());
            if l == 0 {
                assert(self.links0(id) == framed.links0(id));
            }
        }
        assert(self.node_level(id) == framed.node_level(id));
        assert(self.slot_of(id) == framed.slot_of(id));
    }
}

fn quantization_lists(
    norms: &mut Vec<u32>,
    sums: &mut Vec<i32>,
    id: u32,
    norm: u32,
    sum: i32,
)
    requires
        id < usize::MAX,
    ensures
        final(norms)@ == filled(old(norms)@, id as int, 0u32, norm),
        final(sums)@ == filled(old(sums)@, id as int, 0i32, sum),
{
    put_norm(norms, id as usize, norm);
    put_sum(sums, id as usize, sum);
}

impl GraphStore for NodeStorage {
    open spec fn store_wf(&self) -> bool {
        &&& self.wf()
        &&& self.vectors_ok()
        &&& forall|id: u32|
            id >= self.len ==> !(#[trigger] self.upper_neighbors.map@.contains_key(id))
    }

    open spec fn node_count(&self) -> nat {
        self.len as nat
    }

    open spec fn dim(&self) -> nat {
        self.dimensions as nat
    }

    open spec fn vector_at(&self, id: u32) -> Seq<u32> {
        self.vec(id)
    }

    open spec fn quantization(&self) -> Quantization {
        Quantization {
            sq8: self.sq8,
            trained: self.sq8_trained,
            params: self.sq8_params,
            norms: self.norms@,
            sums: self.sq8_sums@,
            collected: self.training_buffer@,
            values: self.code_values@,
        }
    }

    open spec fn stride(&self) -> nat {
        self.node_size as nat
    }

    open spec fn level_at(&self, id: u32) -> u8 {
        self.node_level(id)
    }

    open spec fn slot_at(&self, id: u32) -> u32 {
        self.slot_of(id)
    }

    open spec fn links_at(&self, id: u32, level: u8) -> Seq<u32> {
        self.links(id, level)
    }

    open spec fn link_cap(&self, level: u8) -> nat {
        self.list_cap(level)
    }

    open spec fn top_level(&self) -> nat {
        u8::MAX as nat
    }

    proof fn lemma_store(&self) {
        assert forall|id: u32| id < self.node_count() implies #[trigger] self.vector_at(id).len()
            == self.dim() by {
            self.lemma_node(id as int);
            lemma_row_bounds(id as int, self.len as int, self.dimensions as int);
        }
    }

    fn count(&self) -> (n: usize) {
        self.len
    }

    fn vector_dim(&self) -> (n: usize) {
        self.dimensions
    }

    fn vector_of(&self, id: u32) -> (v: Vec<u32>) {
        self.current_vector(id)
    }

    fn level_of(&self, id: u32) -> (level: u8) {
        self.level(id)
    }

    fn links_of(&self, id: u32, level: u8) -> (links: Vec<u32>) {
        self.neighbors_at_level(id, level)
    }

    fn cap_of(&self, level: u8) -> (n: usize) {
        if level == 0 { self.max_neighbors } else { self.max_neighbors_upper }
    }

    fn top_of(&self) -> (n: usize) {
        255
    }

    fn highest_linked(&self, id: u32) -> (n: u8) {
        let count: usize = self.upper_neighbors.upper_level_count(id);
        if count <= 255 { count as u8 } else { 255 }
    }

    fn is_consistent(&self) -> (r: bool) {
        if !self.is_well_formed() || !self.has_vectors() {
            return false;
        }
        self.upper_neighbors.ids_below(self.len)
    }

    fn set_links(&mut self, id: u32, level: u8, links: &[u32]) {
        let list: Vec<u32> = crate::storage::slice_to_vec(links);
        self.set_neighbors_at_level(id, level, list);
        proof {
            assert(old(self).same_shape(self));
            assert forall|i: u32| i < old(self).len implies #[trigger] self.vec(i)
                == old(self).vec(i) by {
                if self.sq8 {
                    assert(self.codes(i) == old(self).codes(i));
                }
            }
            assert forall|n: nat| old(self).room(n) implies #[trigger] self.room(n) by {
                assert(self.len == old(self).len && self.node_size == old(self).node_size);
            }
        }
    }

    /// More nodes fit, and their vectors are kept as they are given.
    open spec fn room(&self, n: nat) -> bool {
        self.fits(n) && !(self.sq8 && self.sq8_trained)
    }

    proof fn lemma_room(&self, n: nat, fewer: nat) {
        self.lemma_fits(n, fewer);
    }

    fn push_node(&mut self, vector: &[u32], level: u8) -> (id: u32) {
        let ghost start = *self;
        let id: u32 = self.push_frame(level);
        let ghost framed = *self;
        if self.sq8 {
            let blank: Vec<u8> = vec![0u8; self.dimensions];
            self.store_codes(id, blank.as_slice());
            let ghost stored = *self;
            self.training_buffer.extend_from_slice(vector);
            proof {
                let d = self.dimensions as int;
                let n = start.len as int;
                assert(self.training_buffer@ =~= start.training_buffer@ + vector@);
                stored.lemma_same_data(self);
                assert forall|i: u32| i < framed.len implies #[trigger] self.links0(i)
                    == framed.links0(i) by {
                    assert(stored.links0(i) == framed.links0(i));
                }
                assert forall|i: u32| i < framed.len implies #[trigger] self.slot_of(i)
                    == framed.slot_of(i) by {
                    assert(stored.slot_of(i) == framed.slot_of(i));
                }
                assert forall|i: u32| i < framed.len implies #[trigger] self.node_level(i)
                    == framed.node_level(i) by {
                    assert(stored.node_level(i) == framed.node_level(i));
                }
                assert((n + 1) * d == n * d + d) by (nonlinear_arith);
                assert(self.vec(id) =~= vector@) by {
                    lemma_row_bounds(n, n + 1, d);
                }
                assert forall|i: u32| i < id implies #[trigger] self.vec(i) == start.vec(i) by {
                    lemma_row_bounds(i as int, n, d);
                    assert(chunk(self.training_buffer@, i as int, d) =~= chunk(
                        start.training_buffer@,
                        i as int,
                        d,
                    ));
                }
            }
        } else {
            self.store_components(id, vector);
            proof {
                assert forall|i: u32| i < id implies #[trigger] self.vec(i) == start.vec(i) by {
                    assert(framed.words(i) == start.words(i));
                    assert(self.vec(i) == framed.vec(i));
                }
            }
        }
        proof {
            self.lemma_pushed(&start, &framed, level);
            assert forall|n: nat| start.room(n + 1) implies #[trigger] self.room(n) by {
                assert(start.fits(n + 1));
                assert(framed.fits(n));
            }
        }
        id
    }
}

} // verus!
