//! Codes of the neighbours of each node, laid out for parallel lookups.

use vstd::prelude::*;

use crate::neighbor_lists::NeighborLists;
use crate::storage::{lemma_row_bounds, lemma_rows_apart};
use crate::vector_storage::VectorStorage;

verus! {

/// Neighbours that are looked up at once.
pub const FASTSCAN_BATCH_SIZE: usize = 32;

/// For each node a block with the codes of its neighbours: first the first byte
/// of each code, then the second of each, and so on.
#[derive(Debug, Clone)]
pub struct NeighborCodeStorage {
    pub codes: Vec<u8>,
    /// Where the block of each node starts.
    pub offsets: Vec<usize>,
    /// How many neighbours of each node have codes.
    pub neighbor_counts: Vec<usize>,
    /// Bytes of a code.
    pub code_size: usize,
    /// Bytes of a block.
    pub block_size: usize,
}

/// The block of a node with these neighbours. Where a code is missing, and
/// behind the last neighbour, it is zero.
pub open spec fn interleaved(neighbors: Seq<u32>, quantized: Seq<u8>, code_size: nat) -> Seq<u8> {
    Seq::new(
        code_size * 32,
        |p: int|
            {
                let n = p % 32;
                let at = neighbors[n] * code_size + p / 32;
                if n < neighbors.len() && at < quantized.len() {
                    quantized[at]
                } else {
                    0u8
                }
            },
    )
}

pub open spec fn zero_block(n: nat) -> Seq<u8> {
    Seq::new(n, |i: int| 0u8)
}

/// A block of some codes.
pub open spec fn block_in(codes: Seq<u8>, block_size: int, i: int) -> Seq<u8> {
    codes.subrange(i * block_size, i * block_size + block_size)
}

impl NeighborCodeStorage {
    /// The blocks stand one behind the other.
    pub open spec fn wf(&self) -> bool {
        &&& self.block_size == self.code_size * 32
        &&& self.codes@.len() == self.offsets@.len() * self.block_size
        &&& self.neighbor_counts@.len() == self.offsets@.len()
        &&& forall|i: int|
            0 <= i < self.offsets@.len() ==> #[trigger] self.offsets@[i] == i * self.block_size
    }

    pub open spec fn block(&self, i: int) -> Seq<u8> {
        block_in(self.codes@, self.block_size as int, i)
    }

    pub fn new(code_size: usize) -> (r: Self)
        requires
            code_size * 32 <= usize::MAX,
        ensures
            r.wf(),
            r.offsets@.len() == 0,
            r.code_size == code_size,
    {
        NeighborCodeStorage {
            codes: Vec::new(),
            offsets: Vec::new(),
            neighbor_counts: Vec::new(),
            code_size,
            block_size: code_size * FASTSCAN_BATCH_SIZE,
        }
    }

    pub fn is_empty(&self) -> (r: bool)
        ensures
            r == (self.offsets@.len() == 0),
    {
        self.offsets.len() == 0
    }

    pub fn len(&self) -> (n: usize)
        ensures
            n == self.offsets@.len(),
    {
        self.offsets.len()
    }

    /// The block of a node.
    pub fn get_block(&self, vertex_id: u32) -> (r: Option<&[u8]>)
        requires
            self.wf(),
        ensures
            vertex_id < self.offsets@.len() ==> (r matches Some(b) && b@ == self.block(
                vertex_id as int,
            )),
            vertex_id >= self.offsets@.len() ==> r is None,
    {
        let i: usize = vertex_id as usize;
        if i >= self.offsets.len() {
            return None;
        }
        proof {
            lemma_row_bounds(i as int, self.offsets@.len() as int, self.block_size as int);
            assert((i + 1) * self.block_size == i * self.block_size + self.block_size)
                by (nonlinear_arith);
            assert(self.codes@.len() == self.codes.len());
        }
        let start: usize = self.offsets[i];
        let end: usize = start + self.block_size;
        Some(vstd::slice::slice_subrange(self.codes.as_slice(), start, end))
    }

    /// How many neighbours of a node have codes.
    pub fn get_neighbor_count(&self, vertex_id: u32) -> (n: usize)
        ensures
            n == (if vertex_id < self.neighbor_counts@.len() {
                self.neighbor_counts@[vertex_id as int]
            } else {
                0
            }),
    {
        let i: usize = vertex_id as usize;
        if i >= self.neighbor_counts.len() {
            return 0;
        }
        self.neighbor_counts[i]
    }

    /// The codes of all neighbours at a level, taken from a storage. None, since
    /// no storage holds codes in a form that can be looked up in parallel.
    pub fn build_from_storage(_vectors: &VectorStorage, _neighbors: &NeighborLists, _level: u8) -> (r:
        Option<Self>)
        ensures
            r is None,
    {
        None
    }

    /// Adds blocks of zeros until there are more than `idx`.
    fn ensure_vertex(&mut self, idx: usize)
        requires
            old(self).wf(),
            (idx + 1) * old(self).block_size <= usize::MAX,
            idx < usize::MAX,
        ensures
            final(self).wf(),
            final(self).code_size == old(self).code_size,
            final(self).offsets@.len() == (if idx < old(self).offsets@.len() {
                old(self).offsets@.len() as int
            } else {
                idx + 1
            }),
            forall|i: int|
                0 <= i < old(self).offsets@.len() ==> #[trigger] final(self).block(i) == old(self).block(i),
            forall|i: int|
                old(self).offsets@.len() <= i < final(self).offsets@.len() ==> #[trigger] final(self).block(i) == zero_block(old(self).block_size as nat),
            forall|i: int|
                0 <= i < old(self).offsets@.len() ==> #[trigger] final(self).neighbor_counts@[i]
                    == old(self).neighbor_counts@[i],
            forall|i: int|
                old(self).offsets@.len() <= i < final(self).offsets@.len() ==> #[trigger] final(self).neighbor_counts@[i] == 0,
    {
        while self.offsets.len() <= idx
            invariant
                self.wf(),
                self.code_size == old(self).code_size,
                self.block_size == old(self).block_size,
                (idx + 1) * self.block_size <= usize::MAX,
                idx < usize::MAX,
                old(self).offsets@.len() <= self.offsets@.len(),
                self.offsets@.len() <= idx + 1 || self.offsets@.len() == old(self).offsets@.len(),
                forall|i: int|
                    0 <= i < old(self).offsets@.len() ==> #[trigger] self.block(i) == old(self).block(i),
                forall|i: int|
                    old(self).offsets@.len() <= i < self.offsets@.len() ==> #[trigger] self.block(i)
                        == zero_block(old(self).block_size as nat),
                forall|i: int|
                    0 <= i < old(self).offsets@.len() ==> #[trigger] self.neighbor_counts@[i]
                        == old(self).neighbor_counts@[i],
                forall|i: int|
                    old(self).offsets@.len() <= i < self.offsets@.len()
                        ==> #[trigger] self.neighbor_counts@[i] == 0,
            decreases idx + 1 - self.offsets.len(),
        {
            let ghost before = *self;
            let ghost n = self.offsets@.len() as int;
            let size: usize = self.block_size;
            self.offsets.push(self.codes.len());
            self.neighbor_counts.push(0);
            let mut k: usize = 0;
            let ghost codes = self.codes@;
            while k < size
                invariant
                    k <= size,
                    self.codes@ == codes + zero_block(k as nat),
                    self.offsets@ == before.offsets@.push(codes.len() as usize),
                    self.neighbor_counts@ == before.neighbor_counts@.push(0),
                    self.code_size == before.code_size,
                    self.block_size == before.block_size,
                decreases size - k,
            {
                self.codes.push(0);
                assert(self.codes@ =~= codes + zero_block((k + 1) as nat));
                k += 1;
            }
            proof {
                let b = size as int;
                assert((n + 1) * b == n * b + b) by (nonlinear_arith);
                assert forall|i: int| 0 <= i < n + 1 implies #[trigger] self.block(i) == (if i < n {
                    before.block(i)
                } else {
                    zero_block(size as nat)
                }) by {
                    if i < n {
                        lemma_row_bounds(i, n, b);
                        assert((i + 1) * b == i * b + b) by (nonlinear_arith);
                    }
                    assert(self.block(i) =~= (if i < n {
                        before.block(i)
                    } else {
                        zero_block(size as nat)
                    }));
                }
            }
        }
    }

    /// Lays out the codes of the neighbours of a node, no more than fit into a
    /// block. Codes of all nodes stand one behind the other in `quantized_data`.
    pub fn update_vertex(&mut self, vertex_id: u32, new_neighbors: &[u32], quantized_data: &[u8])
        requires
            old(self).wf(),
            (vertex_id + 1) * old(self).block_size <= usize::MAX,
            vertex_id < usize::MAX,
        ensures
            final(self).wf(),
            final(self).code_size == old(self).code_size,
            final(self).offsets@.len() == (if vertex_id < old(self).offsets@.len() {
                old(self).offsets@.len() as int
            } else {
                vertex_id + 1
            }),
            final(self).block(vertex_id as int) == interleaved(
                new_neighbors@,
                quantized_data@,
                old(self).code_size as nat,
            ),
            final(self).neighbor_counts@[vertex_id as int] == (if new_neighbors@.len() < 32 {
                new_neighbors@.len() as int
            } else {
                32
            }),
            forall|i: int|
                0 <= i < final(self).offsets@.len() && i != vertex_id ==> #[trigger] final(self).block(i) == (if i < old(self).offsets@.len() {
                    old(self).block(i)
                } else {
                    zero_block(old(self).block_size as nat)
                }),
            forall|i: int|
                0 <= i < final(self).offsets@.len() && i != vertex_id ==> #[trigger] final(self).neighbor_counts@[i] == (if i < old(self).offsets@.len() {
                    old(self).neighbor_counts@[i]
                } else {
                    0
                }),
    {
        let idx: usize = vertex_id as usize;
        self.ensure_vertex(idx);
        let ghost mid = *self;
        let count: usize = if new_neighbors.len() < FASTSCAN_BATCH_SIZE {
            new_neighbors.len()
        } else {
            FASTSCAN_BATCH_SIZE
        };
        self.neighbor_counts.set(idx, count);
        let start: usize = self.offsets[idx];
        let size: usize = self.block_size;
        let ghost total = self.offsets@.len() as int;
        let ghost target = interleaved(new_neighbors@, quantized_data@, self.code_size as nat);
        proof {
            lemma_row_bounds(idx as int, total, size as int);
            assert((idx + 1) * size == idx * size + size) by (nonlinear_arith);
            assert(self.codes@.len() == self.codes.len());
        }
        let mut p: usize = 0;
        while p < size
            invariant
                p <= size,
                start == idx * size,
                start + size <= self.codes@.len(),
                self.codes@.len() == mid.codes@.len(),
                self.codes@.len() <= usize::MAX,
                self.offsets == mid.offsets,
                self.neighbor_counts@ == mid.neighbor_counts@.update(idx as int, count),
                self.code_size == mid.code_size,
                self.block_size == mid.block_size,
                size == self.code_size * 32,
                count == (if new_neighbors@.len() < 32 {
                    new_neighbors@.len() as int
                } else {
                    32
                }),
                target == interleaved(new_neighbors@, quantized_data@, self.code_size as nat),
                forall|k: int| 0 <= k < p ==> self.codes@[start + k] == #[trigger] target[k],
                forall|k: int|
                    0 <= k < self.codes@.len() && !(start <= k < start + size)
                        ==> #[trigger] self.codes@[k] == mid.codes@[k],
            decreases size - p,
        {
            let n: usize = p % FASTSCAN_BATCH_SIZE;
            let sq: usize = p / FASTSCAN_BATCH_SIZE;
            let mut code: u8 = 0;
            if n < count {
                let id: usize = new_neighbors[n] as usize;
                let c: usize = self.code_size;
                proof {
                    let have = quantized_data@.len() as int;
                    assert(id <= have / c as int ==> id * c <= have) by (nonlinear_arith)
                        requires
                            c > 0,
                            id >= 0,
                            have >= 0,
                    ;
                    assert(id > have / c as int ==> id * c > have) by (nonlinear_arith)
                        requires
                            c > 0,
                            id >= 0,
                            have >= 0,
                    ;
                }
                if id <= quantized_data.len() / c {
                    let at: usize = id * c;
                    if sq < quantized_data.len() - at {
                        code = quantized_data[at + sq];
                    }
                }
            }
            assert(code == target[p as int]);
            self.codes.set(start + p, code);
            p += 1;
        }
        proof {
            let b = size as int;
            assert forall|i: int| 0 <= i < total implies #[trigger] self.block(i) == (if i == idx {
                target
            } else {
                mid.block(i)
            }) by {
                lemma_row_bounds(i, total, b);
                assert((i + 1) * b == i * b + b) by (nonlinear_arith);
                if i != idx {
                    if i < idx {
                        lemma_rows_apart(i, idx as int, b);
                    } else {
                        lemma_rows_apart(idx as int, i, b);
                    }
                }
                assert(self.block(i) =~= (if i == idx {
                    target
                } else {
                    mid.block(i)
                }));
            }
        }
    }

    /// Bytes that the codes and the tables take.
    pub open spec fn memory(&self) -> nat {
        self.codes@.len() + self.offsets@.len() * vstd::layout::size_of::<usize>()
            + self.neighbor_counts@.len() * vstd::layout::size_of::<usize>()
    }

    pub fn memory_usage(&self) -> (r: usize)
        requires
            self.memory() <= usize::MAX,
        ensures
            r == self.memory(),
    {
        let word: usize = core::mem::size_of::<usize>();
        proof {
            let a = self.offsets@.len() as int;
            let b = self.neighbor_counts@.len() as int;
            let w = word as int;
            assert(a * w >= 0 && b * w >= 0) by (nonlinear_arith)
                requires
                    a >= 0,
                    b >= 0,
                    w >= 0,
            ;
        }
        self.codes.len() + self.offsets.len() * word + self.neighbor_counts.len() * word
    }
}

/// In the block of a node, byte `k` of the codes of all neighbours stands
/// together: that of neighbour `n` at place `n` of group `k`.
pub proof fn law_codes_are_interleaved(
    neighbors: Seq<u32>,
    quantized: Seq<u8>,
    code_size: nat,
    n: int,
    k: int,
)
    requires
        0 <= n < 32,
        0 <= k < code_size,
    ensures
        interleaved(neighbors, quantized, code_size)[k * 32 + n] == (if n < neighbors.len()
            && neighbors[n] * code_size + k < quantized.len() {
            quantized[neighbors[n] * code_size + k]
        } else {
            0u8
        }),
{
    let p = k * 32 + n;
    assert(p % 32 == n && p / 32 == k);
    assert(p < code_size * 32);
}

} // verus!
