//! Vectors of nodes.
//!
//! At full precision a vector lies in its node. In SQ8 mode its codes do; until
//! the quantization is trained, vectors are collected in a buffer.

use vstd::prelude::*;

use super::upper_neighbors::{
    lemma_words_back, lemma_words_len, put_words, words_at, words_bytes,
};
use super::quantization::CODES;
use super::{decoded, Field, NodeStorage};
use crate::bytes::{overwrite, u32_at};
use crate::storage::{lemma_row_bounds, slice_to_vec};

verus! {

/// A list after one element is set: it grows as far as needed, and what is new
/// before the element is zero.
pub open spec fn filled<T>(s: Seq<T>, at: int, zero: T, x: T) -> Seq<T> {
    if at < s.len() {
        s.update(at, x)
    } else {
        Seq::new(
            (at + 1) as nat,
            |i: int|
                if i < s.len() {
                    s[i]
                } else if i < at {
                    zero
                } else {
                    x
                },
        )
    }
}

pub fn put_norm(v: &mut Vec<u32>, at: usize, x: u32)
    requires
        at < usize::MAX,
    ensures
        final(v)@ == filled(old(v)@, at as int, 0u32, x),
{
    while v.len() <= at
        invariant
            at < usize::MAX,
            old(v)@.len() <= v@.len(),
            v@.len() <= at + 1 || v@.len() == old(v)@.len(),
            forall|i: int|
                0 <= i < v@.len() ==> #[trigger] v@[i] == (if i < old(v)@.len() {
                    old(v)@[i]
                } else {
                    0u32
                }),
        decreases at + 1 - v.len(),
    {
        v.push(0);
    }
    v.set(at, x);
    assert(v@ =~= filled(old(v)@, at as int, 0u32, x));
}

pub fn put_sum(v: &mut Vec<i32>, at: usize, x: i32)
    requires
        at < usize::MAX,
    ensures
        final(v)@ == filled(old(v)@, at as int, 0i32, x),
{
    while v.len() <= at
        invariant
            at < usize::MAX,
            old(v)@.len() <= v@.len(),
            v@.len() <= at + 1 || v@.len() == old(v)@.len(),
            forall|i: int|
                0 <= i < v@.len() ==> #[trigger] v@[i] == (if i < old(v)@.len() {
                    old(v)@[i]
                } else {
                    0i32
                }),
        decreases at + 1 - v.len(),
    {
        v.push(0);
    }
    v.set(at, x);
    assert(v@ =~= filled(old(v)@, at as int, 0i32, x));
}

impl NodeStorage {
    /// The vector of a node, at full precision.
    pub fn vector(&self, id: u32) -> (v: Vec<u32>)
        requires
            self.wf(),
            !self.sq8,
            id < self.len,
        ensures
            v@ == self.vec(id),
            v@.len() == self.dimensions,
    {
        let start: usize = self.node_start(id);
        let first: usize = start + self.vector_offset;
        let n: usize = self.dimensions;
        let mut v: Vec<u32> = Vec::new();
        let mut i: usize = 0;
        while i < n
            invariant
                self.wf(),
                !self.sq8,
                i <= n,
                n == self.dimensions,
                start + self.node_size <= self.data@.len(),
                self.data@.len() <= usize::MAX,
                first == start + self.vector_offset,
                v@ == words_at(self.data@, first as nat, i as nat),
            decreases n - i,
        {
            v.push(u32_at(self.data.as_slice(), first + 4 * i));
            assert(v@ =~= words_at(self.data@, first as nat, (i + 1) as nat));
            i += 1;
        }
        v
    }

    /// The vector of a node, at full precision.
    pub fn get_vector_ref(&self, id: u32) -> (v: Vec<u32>)
        requires
            self.wf(),
            !self.sq8,
            id < self.len,
        ensures
            v@ == self.vec(id),
            v@.len() == self.dimensions,
    {
        self.vector(id)
    }

    /// The vector of a node in any mode: as it is stored or collected, or as its
    /// codes say.
    pub fn current_vector(&self, id: u32) -> (v: Vec<u32>)
        requires
            self.wf(),
            self.vectors_ok(),
            id < self.len,
        ensures
            v@ == self.vec(id),
            v@.len() == self.dimensions,
    {
        if !self.sq8 {
            return self.vector(id);
        }
        let n: usize = self.dimensions;
        if !self.sq8_trained {
            proof {
                lemma_row_bounds(id as int, self.len as int, n as int);
                assert(self.training_buffer@.len() == self.training_buffer.len());
            }
            let start: usize = id as usize * n;
            let part: &[u32] = vstd::slice::slice_subrange(
                self.training_buffer.as_slice(),
                start,
                start + n,
            );
            assert((id + 1) * n == id * n + n) by (nonlinear_arith);
            let v: Vec<u32> = slice_to_vec(part);
            assert(v@ =~= self.vec(id));
            return v;
        }
        let codes: &[u8] = self.quantized_vector(id);
        let mut v: Vec<u32> = Vec::new();
        let mut i: usize = 0;
        while i < n
            invariant
                i <= n,
                n == self.dimensions,
                self.code_values@.len() == CODES,
                codes@ == self.codes(id),
                codes@.len() == n,
                v@ == decoded(self.code_values@, codes@).take(i as int),
            decreases n - i,
        {
            v.push(self.code_values[codes[i] as usize]);
            assert(v@ =~= decoded(self.code_values@, codes@).take(i + 1));
            i += 1;
        }
        assert(v@ =~= decoded(self.code_values@, codes@));
        v
    }

    /// Whether every vector is there.
    pub fn has_vectors(&self) -> (r: bool)
        requires
            self.wf(),
        ensures
            r == self.vectors_ok(),
    {
        if !self.sq8 {
            return true;
        }
        if self.sq8_trained {
            return self.sq8_params.is_some() && self.code_values.len() == CODES;
        }
        proof {
            let n = self.len as int;
            let d = self.dimensions as int;
            let size = self.node_size as int;
            self.lemma_used();
            assert(0 <= n * d <= n * size) by (nonlinear_arith)
                requires
                    n >= 0,
                    0 <= d <= size,
            ;
            assert(self.data@.len() == self.data.len());
        }
        self.training_buffer.len() == self.len * self.dimensions
    }

    /// The codes of a node, in SQ8 mode.
    pub fn quantized_vector(&self, id: u32) -> (codes: &[u8])
        requires
            self.wf(),
            self.sq8,
            id < self.len,
        ensures
            codes@ == self.codes(id),
            codes@.len() == self.dimensions,
    {
        let start: usize = self.node_start(id);
        let first: usize = start + self.vector_offset;
        vstd::slice::slice_subrange(self.data.as_slice(), first, first + self.dimensions)
    }

    /// Bits of the squared norm of a vector.
    pub fn get_norm(&self, id: u32) -> (r: Option<u32>)
        ensures
            r == (if id < self.norms@.len() {
                Some(self.norms@[id as int])
            } else {
                None
            }),
    {
        if (id as usize) < self.norms.len() {
            Some(self.norms[id as usize])
        } else {
            None
        }
    }

    /// Writes the components of a vector into its node.
    pub fn store_components(&mut self, id: u32, vector: &[u32])
        requires
            old(self).wf(),
            !old(self).sq8,
            id < old(self).len,
            vector@.len() == old(self).dimensions,
        ensures
            final(self).wf(),
            old(self).same_shape(final(self)),
            old(self).same_rest(final(self)),
            old(self).same_but(final(self), id, Field::Vector),
            final(self).vec(id) == vector@,
    {
        let start: usize = self.node_start(id);
        let mut body: Vec<u8> = Vec::new();
        put_words(&mut body, vector);
        proof {
            assert(body@ =~= words_bytes(vector@));
            lemma_words_len(vector@);
        }
        overwrite(&mut self.data, start + self.vector_offset, body.as_slice());
        proof {
            old(self).lemma_same_but(self, id, Field::Vector);
            let first = (start + self.vector_offset) as nat;
            assert(self.data@.subrange(first as int, (first + body@.len()) as int) =~= body@);
            lemma_words_back(self.data@, first, vector@);
        }
    }

    /// Writes codes into a node.
    pub fn store_codes(&mut self, id: u32, codes: &[u8])
        requires
            old(self).wf(),
            old(self).sq8,
            id < old(self).len,
            codes@.len() == old(self).dimensions,
        ensures
            final(self).wf(),
            old(self).same_shape(final(self)),
            old(self).same_rest(final(self)),
            old(self).same_but(final(self), id, Field::Vector),
            final(self).codes(id) == codes@,
    {
        let start: usize = self.node_start(id);
        overwrite(&mut self.data, start + self.vector_offset, codes);
        proof {
            old(self).lemma_same_but(self, id, Field::Vector);
            assert(self.codes(id) =~= codes@);
        }
    }

    /// Sets the squared norm of a vector.
    pub fn set_norm(&mut self, id: u32, norm: u32)
        requires
            old(self).wf(),
            id < old(self).len,
        ensures
            final(self).wf(),
            old(self).same_shape(final(self)),
            final(self).data == old(self).data,
            final(self).norms@ == filled(old(self).norms@, id as int, 0u32, norm),
            final(self).upper_neighbors == old(self).upper_neighbors,
            final(self).sq8_params == old(self).sq8_params,
            final(self).sq8_sums == old(self).sq8_sums,
            final(self).training_buffer == old(self).training_buffer,
            final(self).sq8_trained == old(self).sq8_trained,
            final(self).code_values == old(self).code_values,
    {
        put_norm(&mut self.norms, id as usize, norm);
    }
}

} // verus!
