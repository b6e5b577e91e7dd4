//! What is read back of a storage that was written.

use vstd::prelude::*;

use super::quantization::{chunk, Coder, TRAINING_VECTORS};
use super::serialization::{
    all_signed, all_twos, aux_bytes, binary_block, counted_words, mode_bytes, params_bytes,
    parse_aux, parse_binary_block, parse_blob, parse_counted_skip, parse_counted_words,
    parse_header, parse_image, parse_mode, parse_optional_blob, parse_params, parse_product_block,
    parse_raw, parse_short_lists, parse_sizes, parse_upper, parse_upper_node, parse_upper_nodes,
    product_block, short_list_bytes, short_lists_bytes, sizes_bytes, upper_node_bytes, AuxImage,
    NodeImage, MAX_AUX_ELEMENTS, MAX_NODES,
};
use super::upper_neighbors::{lemma_words_back, no_lists, words_bytes};
use super::NodeStorage;
use crate::bytes::{
    law_read_back, law_read_back_bytes, lemma_stands_split, stands_at, u16_bytes, u32_bytes,
    u64_bytes,
};
use crate::error::FormatError;
use crate::storage::lemma_row_bounds;

verus! {

/// A whole stands at its start.
pub proof fn lemma_stands_whole(s: Seq<u8>)
    ensures
        stands_at(s, 0, s),
{
    assert(s.subrange(0, s.len() as int) =~= s);
}

proof fn lemma_counted_back(s: Seq<u8>, pos: nat, words: Seq<u32>)
    requires
        stands_at(s, pos, counted_words(words)),
        words.len() <= MAX_AUX_ELEMENTS,
    ensures
        parse_counted_words(s, pos) == Ok::<(Seq<u32>, nat), FormatError>(
            (words, pos + counted_words(words).len()),
        ),
        counted_words(words).len() == 8 + 4 * words.len(),
{
    let head = u64_bytes(words.len() as u64);
    law_read_back(s, pos, 0, 0, 0, words.len() as u64, 0);
    lemma_stands_split(s, pos, head, words_bytes(words));
    lemma_words_back(s, pos + 8, words);
}

proof fn lemma_params_back(s: Seq<u8>, pos: nat, params: Option<(u32, u32)>)
    requires
        stands_at(s, pos, params_bytes(params)),
    ensures
        parse_params(s, pos) == Ok::<(Option<(u32, u32)>, nat), FormatError>(
            (params, pos + params_bytes(params).len()),
        ),
{
    match params {
        None => {
            law_read_back(s, pos, 0, 0, 0, 0, 0);
        },
        Some((scale, offset)) => {
            law_read_back(s, pos, 1, 0, 0, 0, 0);
            law_read_back(s, pos + 1, 0, 0, scale, 0, 0);
            law_read_back(s, pos + 5, 0, 0, offset, 0, 0);
            lemma_stands_split(s, pos, seq![1u8], u32_bytes(scale) + u32_bytes(offset));
            lemma_stands_split(s, pos + 1, u32_bytes(scale), u32_bytes(offset));
        },
    }
}

proof fn lemma_blocks_back(s: Seq<u8>, pos: nat, originals: Seq<u32>)
    requires
        stands_at(s, pos, product_block() + binary_block(originals)),
        originals.len() <= MAX_AUX_ELEMENTS,
    ensures
        product_block().len() == 10,
        binary_block(originals).len() == 26 + 4 * originals.len(),
        parse_product_block(s, pos) == Ok::<((), nat), FormatError>(((), pos + 10)),
        parse_binary_block(s, pos + 10) == Ok::<(Seq<u32>, nat), FormatError>(
            (originals, pos + 36 + 4 * originals.len()),
        ),
{
    let last = counted_words(originals);
    let zero = seq![0u8];
    let none = u64_bytes(0);
    law_read_back(s, pos, 0, 0, 0, 0, 0);
    law_read_back(s, pos + 1, 0, 0, 0, 0, 0);
    law_read_back(s, pos + 2, 0, 0, 0, 0, 0);
    lemma_stands_split(s, pos, product_block(), binary_block(originals));
    lemma_stands_split(s, pos, zero, zero + none);
    lemma_stands_split(s, pos + 1, zero, none);
    assert(parse_optional_blob(s, pos + 1) == Ok::<((), nat), FormatError>(((), pos + 2)));
    assert(parse_blob(s, pos + 2) is Ok);
    let b = pos + 10;
    law_read_back(s, b, 0, 0, 0, 0, 0);
    law_read_back(s, b + 1, 0, 0, 0, 0, 0);
    law_read_back(s, b + 2, 0, 0, 0, 0, 0);
    law_read_back(s, b + 10, 0, 0, 0, 0, 0);
    lemma_stands_split(s, b, zero, zero + (none + (none + last)));
    lemma_stands_split(s, b + 1, zero, none + (none + last));
    lemma_stands_split(s, b + 2, none, none + last);
    lemma_stands_split(s, b + 10, none, last);
    lemma_counted_back(s, b + 18, originals);
    assert(parse_optional_blob(s, b + 1) == Ok::<((), nat), FormatError>(((), b + 2)));
    assert(parse_counted_skip(s, b + 2) == Ok::<((), nat), FormatError>(((), b + 10)));
    assert(parse_counted_words(s, b + 10)->Ok_0.1 == b + 18);
}

/// The auxiliary state is read back as it was written.
pub proof fn law_aux_roundtrip(s: Seq<u8>, pos: nat, aux: AuxImage)
    requires
        stands_at(s, pos, aux_bytes(aux)),
        aux.norms.len() <= MAX_AUX_ELEMENTS,
        aux.sums.len() <= MAX_AUX_ELEMENTS,
        aux.originals.len() <= MAX_AUX_ELEMENTS,
    ensures
        parse_aux(s, pos) == Ok::<(AuxImage, nat), FormatError>(
            (aux, pos + aux_bytes(aux).len()),
        ),
{
    reveal(parse_aux);
    let a = params_bytes(aux.params);
    let b = counted_words(aux.norms);
    let words = all_twos(aux.sums);
    let c = counted_words(words);
    let d = product_block() + binary_block(aux.originals);
    lemma_stands_split(s, pos, a, b + (c + d));
    lemma_stands_split(s, pos + a.len(), b, c + d);
    lemma_stands_split(s, pos + a.len() + b.len(), c, d);
    lemma_params_back(s, pos, aux.params);
    lemma_counted_back(s, pos + a.len(), aux.norms);
    lemma_counted_back(s, pos + a.len() + b.len(), words);
    lemma_blocks_back(s, pos + a.len() + b.len() + c.len(), aux.originals);
    assert(all_signed(words) =~= aux.sums);
}

proof fn lemma_short_lists_back(s: Seq<u8>, pos: nat, lists: Seq<Seq<u32>>)
    requires
        stands_at(s, pos, short_lists_bytes(lists)),
        forall|l: int| 0 <= l < lists.len() ==> (#[trigger] lists[l]).len() <= u16::MAX,
    ensures
        parse_short_lists(s, pos, lists.len()) == Ok::<(Seq<Seq<u32>>, nat), FormatError>(
            (lists, pos + short_lists_bytes(lists).len()),
        ),
    decreases lists.len(),
{
    if lists.len() > 0 {
        let front = lists.drop_last();
        let list = lists.last();
        let a = short_lists_bytes(front);
        let next = pos + a.len();
        lemma_stands_split(s, pos, a, short_list_bytes(list));
        lemma_short_lists_back(s, pos, front);
        assert(lists[lists.len() - 1].len() <= u16::MAX);
        law_read_back(s, next, 0, list.len() as u16, 0, 0, 0);
        lemma_stands_split(s, next, u16_bytes(list.len() as u16), words_bytes(list));
        lemma_words_back(s, next + 2, list);
        assert(front.push(list) =~= lists);
    } else {
        assert(lists =~= Seq::<Seq<u32>>::empty());
    }
}

impl NodeStorage {
    proof fn lemma_upper_nodes_back(&self, s: Seq<u8>, pos: nat, n: nat)
        requires
            stands_at(s, pos, self.upper_nodes_bytes(n)),
            self.upper_fits(),
            n <= u32::MAX,
        ensures
            self.upper_neighbors.stored_below(n).dom().finite(),
            parse_upper_nodes(s, pos, self.upper_neighbors.stored_below(n).dom().len()) == Ok::<
                (Map<u32, Seq<Seq<u32>>>, nat),
                FormatError,
            >((self.upper_neighbors.stored_below(n), pos + self.upper_nodes_bytes(n).len())),
        decreases n,
    {
        let stored = self.upper_neighbors.stored_below(n);
        if n == 0 {
            assert(stored =~= Map::<u32, Seq<Seq<u32>>>::empty());
            assert(stored.dom() =~= Set::<u32>::empty());
        } else {
            let k = (n - 1) as nat;
            let id = k as u32;
            let lists = self.upper_neighbors.levels(id);
            let before = self.upper_neighbors.stored_below(k);
            let a = self.upper_nodes_bytes(k);
            let next = pos + a.len();
            lemma_stands_split(s, pos, a, upper_node_bytes(id, lists));
            self.lemma_upper_nodes_back(s, pos, k);
            if lists.len() == 0 {
                assert(stored =~= before);
            } else {
                assert(stored =~= before.insert(id, lists));
                assert(stored.dom() =~= before.dom().insert(id));
                assert(!before.dom().contains(id));
                let count = lists.len() as u8;
                law_read_back(s, next, 0, 0, id, 0, 0);
                law_read_back(s, next + 4, count, 0, 0, 0, 0);
                lemma_stands_split(
                    s,
                    next,
                    u32_bytes(id),
                    seq![count] + short_lists_bytes(lists),
                );
                lemma_stands_split(s, next + 4, seq![count], short_lists_bytes(lists));
                assert forall|l: int| 0 <= l < lists.len() implies (#[trigger] lists[l]).len()
                    <= u16::MAX by {
                    assert(self.upper_neighbors.levels(id)[l].len() <= u16::MAX);
                }
                lemma_short_lists_back(s, next + 5, lists);
                assert(parse_upper_node(s, next) == Ok::<((u32, Seq<Seq<u32>>), nat), FormatError>(
                    ((id, lists), next + 5 + short_lists_bytes(lists).len()),
                ));
            }
        }
    }

    /// Only nodes that exist have lists on upper levels, and each that is in
    /// the map has some.
    pub open spec fn upper_tidy(&self) -> bool {
        self.upper_neighbors.map@.dom() == self.upper_neighbors.stored_below(self.len as nat).dom()
    }

    /// The upper neighbours are read back as they were written.
    pub proof fn law_upper_roundtrip(&self, s: Seq<u8>, pos: nat)
        requires
            stands_at(s, pos, self.upper_bytes()),
            self.upper_fits(),
            self.upper_tidy(),
            self.len <= u32::MAX,
        ensures
            parse_upper(s, pos) == Ok::<(Map<u32, Seq<Seq<u32>>>, nat), FormatError>(
                (
                    self.upper_neighbors.stored_below(self.len as nat),
                    pos + self.upper_bytes().len(),
                ),
            ),
    {
        reveal(parse_upper);
        let n = self.upper_neighbors.map@.dom().len();
        lemma_stands_split(
            s,
            pos,
            u64_bytes(n as u64),
            self.upper_nodes_bytes(self.len as nat),
        );
        law_read_back(s, pos, 0, 0, 0, n as u64, 0);
        self.lemma_upper_nodes_back(s, pos + 8, self.len as nat);
        lemma_count_below(self.upper_neighbors.map@.dom(), self.len as nat);
    }

    /// The auxiliary state is read back as it was written, without and with the
    /// upper neighbours.
    pub proof fn law_auxiliary_roundtrip(&self)
        requires
            self.upper_fits(),
            self.upper_tidy(),
            self.len <= u32::MAX,
            self.norms@.len() <= MAX_AUX_ELEMENTS,
            self.sq8_sums@.len() <= MAX_AUX_ELEMENTS,
            self.training_buffer@.len() <= MAX_AUX_ELEMENTS,
        ensures
            ({
                let aux = aux_bytes(self.aux_image());
                let s = mode_bytes(self.sq8, self.sq8_trained) + aux;
                let t = mode_bytes(self.sq8, self.sq8_trained) + (aux + self.upper_bytes());
                let mode = (self.sq8, self.sq8_trained);
                &&& parse_mode(s, 0) == Ok::<((bool, bool), nat), FormatError>((mode, 2))
                &&& parse_mode(t, 0) == Ok::<((bool, bool), nat), FormatError>((mode, 2))
                &&& parse_aux(s, 2) == Ok::<(AuxImage, nat), FormatError>(
                    (self.aux_image(), 2 + aux.len()),
                )
                &&& parse_aux(t, 2) == Ok::<(AuxImage, nat), FormatError>(
                    (self.aux_image(), 2 + aux.len()),
                )
                &&& parse_upper(t, 2 + aux.len()) == Ok::<
                    (Map<u32, Seq<Seq<u32>>>, nat),
                    FormatError,
                >((self.upper_neighbors.stored_below(self.len as nat), t.len()))
            }),
    {
        let mode = mode_bytes(self.sq8, self.sq8_trained);
        let aux = aux_bytes(self.aux_image());
        let s = mode + aux;
        let t = mode + (aux + self.upper_bytes());
        lemma_stands_whole(s);
        lemma_stands_whole(t);
        lemma_stands_split(s, 0, mode, aux);
        lemma_stands_split(t, 0, mode, aux + self.upper_bytes());
        lemma_stands_split(t, 2, aux, self.upper_bytes());
        lemma_mode_back(s, 0, self.sq8, self.sq8_trained);
        lemma_mode_back(t, 0, self.sq8, self.sq8_trained);
        law_aux_roundtrip(s, 2, self.aux_image());
        law_aux_roundtrip(t, 2, self.aux_image());
        self.law_upper_roundtrip(t, 2 + aux.len());
    }

    /// The auxiliary state without the upper neighbours is read back as it was
    /// written.
    pub proof fn lemma_segment_aux_back(&self)
        requires
            self.norms@.len() <= MAX_AUX_ELEMENTS,
            self.sq8_sums@.len() <= MAX_AUX_ELEMENTS,
            self.training_buffer@.len() <= MAX_AUX_ELEMENTS,
        ensures
            ({
                let s = mode_bytes(self.sq8, self.sq8_trained) + aux_bytes(self.aux_image());
                &&& mode_bytes(self.sq8, self.sq8_trained).len() == 2
                &&& parse_mode(s, 0) == Ok::<((bool, bool), nat), FormatError>(
                    ((self.sq8, self.sq8_trained), 2),
                )
                &&& parse_aux(s, 2) == Ok::<(AuxImage, nat), FormatError>(
                    (self.aux_image(), s.len()),
                )
            }),
    {
        let mode = mode_bytes(self.sq8, self.sq8_trained);
        let aux = aux_bytes(self.aux_image());
        let s = mode + aux;
        lemma_stands_whole(s);
        lemma_stands_split(s, 0, mode, aux);
        lemma_mode_back(s, 0, self.sq8, self.sq8_trained);
        law_aux_roundtrip(s, 2, self.aux_image());
    }

    /// What the image of a storage says.
    pub open spec fn image(&self) -> NodeImage {
        NodeImage {
            sizes: self.header_sizes(),
            sq8: self.sq8,
            trained: self.sq8_trained,
            raw: self.node_bytes(),
            aux: self.aux_image(),
            upper: self.upper_neighbors.stored_below(self.len as nat),
        }
    }

    /// The image of a storage is read back as it was written.
    pub proof fn law_image_roundtrip(&self)
        requires
            self.wf(),
            self.upper_fits(),
            self.upper_tidy(),
            self.len <= MAX_NODES,
            self.norms@.len() <= MAX_AUX_ELEMENTS,
            self.sq8_sums@.len() <= MAX_AUX_ELEMENTS,
            self.training_buffer@.len() <= MAX_AUX_ELEMENTS,
        ensures
            parse_image(self.image_bytes()) == Ok::<NodeImage, FormatError>(self.image()),
    {
        let s = self.image_bytes();
        let sizes = self.header_sizes();
        let a = sizes_bytes(sizes);
        let b = mode_bytes(self.sq8, self.sq8_trained);
        let raw = self.node_bytes();
        let c = u64_bytes(raw.len() as u64) + raw;
        let d = aux_bytes(self.aux_image());
        let e = self.upper_bytes();
        lemma_stands_whole(s);
        lemma_stands_split(s, 0, a, b + (c + (d + e)));
        lemma_stands_split(s, a.len(), b, c + (d + e));
        lemma_stands_split(s, a.len() + b.len(), c, d + e);
        lemma_stands_split(s, a.len() + b.len() + c.len(), d, e);
        lemma_sizes_back(s, 0, sizes);
        assert(self.data@.len() == self.data.len());
        assert(0 <= self.len * self.node_size <= self.capacity * self.node_size)
            by (nonlinear_arith)
            requires
                self.len <= self.capacity,
        ;
        law_read_back(s, a.len() + b.len(), 0, 0, 0, raw.len() as u64, 0);
        assert(parse_header(s) == Ok::<(Seq<usize>, nat), FormatError>((sizes, 56))) by {
            reveal(parse_header);
        }
        lemma_mode_back(s, a.len(), self.sq8, self.sq8_trained);
        assert(parse_raw(s, 58) == Ok::<(Seq<u8>, nat), FormatError>((raw, 58 + c.len()))) by {
            reveal(parse_raw);
            lemma_stands_split(s, 58, u64_bytes(raw.len() as u64), raw);
            law_read_back_bytes(s, 66, raw);
        }
        law_aux_roundtrip(s, 58 + c.len(), self.aux_image());
        self.law_upper_roundtrip(s, 58 + c.len() + d.len());
    }

    /// A storage that is restored from the image of another one has the same
    /// nodes: vectors, neighbours on all levels, slots and levels; and the same
    /// quantization, with the vectors that wait for its training.
    pub proof fn law_restored_nodes(&self, other: &Self)
        requires
            self.wf(),
            self.upper_tidy(),
            self.len <= u32::MAX,
            other.restores(self.image()),
        ensures
            other.wf(),
            other.len == self.len,
            other.dimensions == self.dimensions,
            other.sq8 == self.sq8,
            other.sq8_trained == self.sq8_trained,
            other.params_bits() == self.params_bits(),
            other.norms@ == self.norms@,
            other.sq8_sums@ == self.sq8_sums@,
            self.sq8 && !self.sq8_trained ==> other.training_buffer@ == self.training_buffer@,
            forall|id: u32, level: u8|
                id < self.len ==> #[trigger] other.links(id, level) == self.links(id, level),
            forall|id: u32| id < self.len && !self.sq8 ==> #[trigger] other.vec(id) == self.vec(id),
            forall|id: u32|
                id < self.len && self.sq8 ==> #[trigger] other.codes(id) == self.codes(id),
            forall|id: u32| id < self.len ==> #[trigger] other.slot_of(id) == self.slot_of(id),
            forall|id: u32|
                id < self.len ==> #[trigger] other.node_level(id) == self.node_level(id),
    {
        let sizes = self.header_sizes();
        assert(other.header_sizes() == sizes);
        assert(other.header_sizes()[0] == sizes[0] && other.header_sizes()[1] == sizes[1]
            && other.header_sizes()[2] == sizes[2] && other.header_sizes()[3] == sizes[3]
            && other.header_sizes()[4] == sizes[4] && other.header_sizes()[5] == sizes[5]
            && other.header_sizes()[6] == sizes[6]);
        let raw = self.node_bytes();
        let n = self.node_size as int;
        let len = self.len as int;
        assert(0 <= len * n <= self.capacity * n) by (nonlinear_arith)
            requires
                0 <= len <= self.capacity,
                n >= 0,
        ;
        assert(raw.len() == len * n);
        assert((len * n) / n == len) by (nonlinear_arith)
            requires
                n > 0,
                len >= 0,
        ;
        assert(other.capacity == self.len);
        self.lemma_prefix(other, self.len as u32);
        assert forall|id: u32, level: u8| id < self.len implies #[trigger] other.links(id, level)
            == self.links(id, level) by {
            if level == 0 {
                assert(other.links0(id) == self.links0(id));
            } else {
                let stored = self.upper_neighbors.stored_below(self.len as nat);
                assert(other.upper_neighbors.map@.contains_key(id) == stored.contains_key(id));
                if stored.contains_key(id) {
                    assert(other.upper_neighbors.levels(id) == stored[id]);
                } else {
                    assert(!self.upper_neighbors.map@.dom().contains(id));
                }
            }
        }
    }
}

/// A set of numbers below `n` has at most `n` of them.
proof fn lemma_count_below(ids: Set<u32>, n: nat)
    requires
        forall|id: u32| ids.contains(id) ==> id < n,
        n <= u32::MAX,
    ensures
        ids.finite(),
        ids.len() <= n,
    decreases n,
{
    if n == 0 {
        assert(ids =~= Set::<u32>::empty());
    } else {
        let last = (n - 1) as u32;
        let rest = ids.remove(last);
        lemma_count_below(rest, (n - 1) as nat);
        if ids.contains(last) {
            assert(ids =~= rest.insert(last));
        } else {
            assert(ids =~= rest);
        }
    }
}

proof fn lemma_mode_back(s: Seq<u8>, pos: nat, sq8: bool, trained: bool)
    requires
        stands_at(s, pos, mode_bytes(sq8, trained)),
    ensures
        parse_mode(s, pos) == Ok::<((bool, bool), nat), FormatError>(((sq8, trained), pos + 2)),
        mode_bytes(sq8, trained).len() == 2,
{
    reveal(parse_mode);
    let a = if sq8 { 1u8 } else { 0u8 };
    let b = if trained { 1u8 } else { 0u8 };
    lemma_stands_split(s, pos, seq![a], seq![b]);
    law_read_back(s, pos, a, 0, 0, 0, 0);
    law_read_back(s, pos + 1, b, 0, 0, 0, 0);
}

proof fn lemma_sizes_back(s: Seq<u8>, pos: nat, sizes: Seq<usize>)
    requires
        stands_at(s, pos, sizes_bytes(sizes)),
    ensures
        sizes_bytes(sizes).len() == 8 * sizes.len(),
        parse_sizes(s, pos, sizes.len()) == Ok::<(Seq<usize>, nat), FormatError>(
            (sizes, pos + 8 * sizes.len()),
        ),
    decreases sizes.len(),
{
    if sizes.len() > 0 {
        let front = sizes.drop_last();
        let last = sizes.last();
        let a = sizes_bytes(front);
        lemma_stands_split(s, pos, a, u64_bytes(last as u64));
        lemma_sizes_back(s, pos, front);
        law_read_back(s, pos + a.len(), 0, 0, 0, last as u64, 0);
        assert(front.push(last) =~= sizes);
    } else {
        assert(sizes =~= Seq::<usize>::empty());
    }
}

// ---------------------------------------------------------------------------
// A storage that is not trained yet
// ---------------------------------------------------------------------------

/// Vectors one behind the other.
pub open spec fn end_to_end(vectors: Seq<Seq<u32>>) -> Seq<u32>
    decreases vectors.len(),
{
    if vectors.len() == 0 {
        Seq::empty()
    } else {
        end_to_end(vectors.drop_last()) + vectors.last()
    }
}

/// A node was allocated.
pub open spec fn node_allocated(before: NodeStorage, after: NodeStorage) -> bool {
    &&& after.wf()
    &&& after.len == before.len + 1
    &&& after.dimensions == before.dimensions
    &&& after.sq8 == before.sq8
    &&& before.same_rest(&after)
}

/// A vector was stored in SQ8 mode.
pub open spec fn vector_stored<C: Coder>(
    before: NodeStorage,
    after: NodeStorage,
    id: u32,
    vector: Seq<u32>,
    coder: C,
) -> bool {
    &&& after.wf()
    &&& before.same_but_vectors(&after)
    &&& after.sq8_stored(&before, id, vector, coder, true)
}

/// A node was allocated, or the next of some vectors was stored; `n` and `more`
/// of them are stored before and after.
pub open spec fn filled_on<C: Coder>(
    before: NodeStorage,
    after: NodeStorage,
    n: nat,
    more: nat,
    vectors: Seq<Seq<u32>>,
    coder: C,
) -> bool {
    ||| node_allocated(before, after) && more == n
    ||| {
        &&& n < vectors.len()
        &&& vector_stored(before, after, n as u32, vectors[n as int], coder)
        &&& more == n + 1
    }
}

/// What a new storage in SQ8 mode becomes as nodes are allocated and, in the
/// order of their ids, get their vectors. `stored` tells how many vectors have
/// been stored at each step.
pub open spec fn filled_in_turn<C: Coder>(
    steps: Seq<NodeStorage>,
    stored: Seq<nat>,
    dimensions: usize,
    m: usize,
    max_levels: usize,
    vectors: Seq<Seq<u32>>,
    coder: C,
) -> bool {
    &&& steps.len() > 0
    &&& stored.len() == steps.len()
    &&& steps[0].created(dimensions, m, max_levels, true)
    &&& stored[0] == 0
    &&& forall|i: int|
        0 <= i < steps.len() - 1 ==> #[trigger] filled_on(
            steps[i],
            steps[i + 1],
            stored[i],
            stored[i + 1],
            vectors,
            coder,
        )
    &&& forall|i: int| 0 <= i < vectors.len() ==> (#[trigger] vectors[i]).len() == dimensions
}

proof fn lemma_end_to_end(vectors: Seq<Seq<u32>>, dimensions: int)
    requires
        forall|i: int| 0 <= i < vectors.len() ==> (#[trigger] vectors[i]).len() == dimensions,
    ensures
        end_to_end(vectors).len() == vectors.len() * dimensions,
    decreases vectors.len(),
{
    if vectors.len() > 0 {
        let n = vectors.len() as int;
        let front = vectors.drop_last();
        assert forall|i: int| 0 <= i < front.len() implies (#[trigger] front[i]).len()
            == dimensions by {
            assert(front[i] == vectors[i]);
        }
        lemma_end_to_end(front, dimensions);
        assert(n * dimensions == (n - 1) * dimensions + dimensions) by (nonlinear_arith);
    }
}

proof fn lemma_chunk_of(vectors: Seq<Seq<u32>>, dimensions: int, i: int)
    requires
        forall|j: int| 0 <= j < vectors.len() ==> (#[trigger] vectors[j]).len() == dimensions,
        0 <= i < vectors.len(),
    ensures
        0 <= i * dimensions <= (i + 1) * dimensions <= end_to_end(vectors).len(),
        chunk(end_to_end(vectors), i, dimensions) == vectors[i],
    decreases vectors.len(),
{
    let n = vectors.len() as int;
    let front = vectors.drop_last();
    assert(vectors[i].len() == dimensions);
    assert forall|j: int| 0 <= j < front.len() implies (#[trigger] front[j]).len()
        == dimensions by {
        assert(front[j] == vectors[j]);
    }
    lemma_end_to_end(vectors, dimensions);
    lemma_end_to_end(front, dimensions);
    lemma_row_bounds(i, n, dimensions);
    if i < n - 1 {
        lemma_chunk_of(front, dimensions, i);
        assert(front[i] == vectors[i]);
        assert(chunk(end_to_end(vectors), i, dimensions) =~= chunk(
            end_to_end(front),
            i,
            dimensions,
        ));
    } else {
        assert(chunk(end_to_end(vectors), i, dimensions) =~= vectors[i]);
    }
}

impl NodeStorage {
    /// The storage is not trained yet, and these vectors wait in it.
    pub open spec fn waits_with(&self, vectors: Seq<Seq<u32>>) -> bool {
        &&& self.wf()
        &&& self.sq8
        &&& !self.sq8_trained
        &&& self.training_buffer@ == end_to_end(vectors)
        &&& self.norms@.len() == 0
        &&& self.sq8_sums@.len() == 0
        &&& self.upper_neighbors.map@ == no_lists()
    }

    proof fn lemma_waiting(&self, other: &Self, vectors: Seq<Seq<u32>>)
        requires
            self.waits_with(vectors),
            self.len == vectors.len(),
            self.len < TRAINING_VECTORS,
            forall|i: int|
                0 <= i < vectors.len() ==> (#[trigger] vectors[i]).len() == self.dimensions,
            vectors.len() * self.dimensions <= MAX_AUX_ELEMENTS,
            other.restores(self.image()),
        ensures
            parse_image(self.image_bytes()) == Ok::<NodeImage, FormatError>(self.image()),
            other.wf(),
            other.len == self.len,
            other.sq8,
            !other.sq8_trained,
            other.dimensions == self.dimensions,
            forall|id: u32|
                id < vectors.len() ==> #[trigger] other.vec(id) == vectors[id as int],
            forall|id: u32| id < vectors.len() ==> #[trigger] other.has_waiting(id),
    {
        lemma_end_to_end(vectors, self.dimensions as int);
        assert(self.upper_neighbors.map@.dom() =~= self.upper_neighbors.stored_below(
            self.len as nat,
        ).dom());
        self.law_image_roundtrip();
        self.law_restored_nodes(other);
        assert forall|id: u32| id < vectors.len() implies #[trigger] other.vec(id)
            == vectors[id as int] by {
            lemma_chunk_of(vectors, self.dimensions as int, id as int);
        }
        assert forall|id: u32| id < vectors.len() implies #[trigger] other.has_waiting(id) by {
            lemma_chunk_of(vectors, self.dimensions as int, id as int);
        }
    }
}

proof fn lemma_filled<C: Coder>(
    steps: Seq<NodeStorage>,
    stored: Seq<nat>,
    dimensions: usize,
    m: usize,
    max_levels: usize,
    vectors: Seq<Seq<u32>>,
    coder: C,
    i: int,
)
    requires
        filled_in_turn(steps, stored, dimensions, m, max_levels, vectors, coder),
        dimensions > 0,
        vectors.len() < TRAINING_VECTORS,
        0 <= i < steps.len(),
    ensures
        stored[i] <= vectors.len(),
        steps[i].waits_with(vectors.take(stored[i] as int)),
        steps[i].dimensions == dimensions,
    decreases i,
{
    if i == 0 {
        assert(vectors.take(0) =~= Seq::<Seq<u32>>::empty());
        assert(steps[0].training_buffer@ =~= end_to_end(vectors.take(0)));
    } else {
        lemma_filled(steps, stored, dimensions, m, max_levels, vectors, coder, i - 1);
        let before = steps[i - 1];
        let after = steps[i];
        let n = stored[i - 1];
        assert(filled_on(
            steps[i - 1],
            steps[i - 1 + 1],
            stored[i - 1],
            stored[i - 1 + 1],
            vectors,
            coder,
        ));
        if !(node_allocated(before, after) && stored[i] == n) {
            assert(vector_stored(before, after, n as u32, vectors[n as int], coder));
            let some = vectors.take(n as int);
            let more = vectors.take(n as int + 1);
            assert forall|j: int| 0 <= j < some.len() implies (#[trigger] some[j]).len()
                == dimensions by {
                assert(some[j] == vectors[j]);
            }
            lemma_end_to_end(some, dimensions as int);
            assert((n * dimensions) / dimensions as int == n) by (nonlinear_arith)
                requires
                    dimensions > 0,
            ;
            assert(before.collected() == n);
            assert(more.drop_last() =~= some);
            assert(more.last() == vectors[n as int]);
            assert(after.training_buffer@ == before.training_buffer@ + vectors[n as int]);
        }
    }
}

/// A storage that is not trained yet survives a file: fewer vectors than are
/// collected before training, stored one after the other in a new storage, are
/// all there in what is read back, which is still not trained.
pub proof fn law_untrained_storage_comes_back<C: Coder>(
    steps: Seq<NodeStorage>,
    stored: Seq<nat>,
    dimensions: usize,
    m: usize,
    max_levels: usize,
    vectors: Seq<Seq<u32>>,
    coder: C,
    other: NodeStorage,
)
    requires
        filled_in_turn(steps, stored, dimensions, m, max_levels, vectors, coder),
        dimensions > 0,
        vectors.len() < TRAINING_VECTORS,
        vectors.len() * dimensions <= MAX_AUX_ELEMENTS,
        stored.last() == vectors.len(),
        steps.last().len == vectors.len(),
        other.restores(steps.last().image()),
    ensures
        parse_image(steps.last().image_bytes()) == Ok::<NodeImage, FormatError>(
            steps.last().image(),
        ),
        other.wf(),
        other.len == vectors.len(),
        other.sq8,
        !other.sq8_trained,
        other.dimensions == dimensions,
        forall|id: u32|
            id < vectors.len() ==> #[trigger] other.vec(id) == vectors[id as int],
        forall|id: u32| id < vectors.len() ==> #[trigger] other.has_waiting(id),
{
    let last = steps.last();
    lemma_filled(
        steps,
        stored,
        dimensions,
        m,
        max_levels,
        vectors,
        coder,
        steps.len() - 1,
    );
    assert(vectors.take(vectors.len() as int) =~= vectors);
    last.lemma_waiting(&other, vectors);
}

} // verus!
