use vstd::prelude::*;
use crate::block_index::{
    BLOCK_INDEX_MAGIC,
    DEFAULT_CHUNK_SIZE,
    lemma_block_index_roundtrip,
    lemma_subrange_concat,
    spec_block_index,
    spec_read_offsets,
    spec_skip_block_index,
    spec_skip_varints,
};
use crate::cursor::Cursor;
use crate::error::DecodeError;
use crate::primitive::FixedLayout;
use crate::seq_roundtrip::{
    lemma_block_offsets_count,
    lemma_element_in_data,
    lemma_read_written_element,
    spec_elem_pos,
};
use crate::seq_serializer::{
    lemma_block_offsets_sorted,
    lemma_element_bytes_facts,
    spec_block_offsets,
    spec_elements_bytes,
    spec_index_section,
    spec_seq_stream,
};
use crate::strategy::{FixedSequenceStrategy, spec_collect_elements, spec_sequence_items};

verus! {

/// A decoded archived sequence: its elements, read in order.
pub struct ArchivedVec<T> {
    items: Vec<T>,
}

impl<T> View for ArchivedVec<T> {
    type V = Seq<T>;

    closed spec fn view(&self) -> Seq<T> {
        self.items@
    }
}

impl<T: FixedLayout> ArchivedVec<T> {
    /// The sequence holding `items`.
    pub fn new(items: Vec<T>) -> (r: ArchivedVec<T>)
        ensures
            r@ == items@,
    {
        ArchivedVec { items }
    }

    pub fn len(&self) -> (r: usize)
        ensures
            r == self@.len(),
    {
        self.items.len()
    }

    pub fn is_empty(&self) -> (r: bool)
        ensures
            r == (self@.len() == 0),
    {
        self.items.len() == 0
    }

    /// The elements, in order.
    pub fn as_slice(&self) -> (r: &[T])
        ensures
            r@ == self@,
    {
        self.items.as_slice()
    }

    /// The elements, in order.
    pub fn iter(&self) -> (r: &[T])
        ensures
            r@ == self@,
    {
        self.items.as_slice()
    }

    /// Reads a sequence of fixed-size elements at the cursor, stepping over its block
    /// index.
    pub fn decode(cursor: &mut Cursor) -> (r: Result<ArchivedVec<T>, DecodeError>)
        ensures
            final(cursor).data() == old(cursor).data(),
            match spec_sequence_items::<T>(old(cursor).data(), old(cursor).at(), true) {
                Ok((items, end)) => r matches Ok(v) && v@ == items && final(cursor).at() == end,
                Err(e) => r matches Err(e2) && e2 == e,
            },
    {
        let items = FixedSequenceStrategy::access_sequence::<T>(cursor)?;
        Ok(ArchivedVec { items })
    }

    /// Checks a sequence of fixed-size elements at the cursor.
    pub fn validate(cursor: &mut Cursor) -> (r: Result<(), DecodeError>)
        ensures
            final(cursor).data() == old(cursor).data(),
            match spec_sequence_items::<T>(old(cursor).data(), old(cursor).at(), true) {
                Ok((_, end)) => r is Ok && final(cursor).at() == end,
                Err(e) => r == Err::<(), DecodeError>(e),
            },
    {
        FixedSequenceStrategy::validate_sequence::<T>(cursor)
    }

    /// The elements as an owned vector.
    pub fn restore(&self) -> (r: Vec<T>)
        ensures
            r@ == self@,
    {
        let mut out: Vec<T> = Vec::new();
        let mut i: usize = 0;
        while i < self.items.len()
            invariant
                i <= self.items@.len(),
                out@ == self.items@.take(i as int),
            decreases self.items@.len() - i,
        {
            out.push(self.items[i]);
            i = i + 1;
            proof {
                assert(out@ =~= self.items@.take(i as int));
            }
        }
        proof {
            assert(self.items@.take(self.items@.len() as int) =~= self.items@);
        }
        out
    }
}

/// Reading delta-encoded offsets that read without error steps over exactly their
/// bytes.
pub proof fn lemma_skip_read_offsets(data: Seq<u8>, pos: int, n: nat, acc: int)
    requires
        spec_read_offsets(data, pos, n, acc) is Ok,
    ensures
        spec_skip_varints(data, pos, n) == Ok::<int, DecodeError>(spec_read_offsets(data, pos, n, acc)->Ok_0.1),
    decreases n,
{
    if n > 0 {
        let (d, k) = crate::varint::spec_read_varint::<usize>(data, pos)->Ok_0;
        lemma_skip_read_offsets(data, pos + k, (n - 1) as nat, acc + d);
    }
}

/// Stepping over a block index that reads without error ends where reading it ends.
pub proof fn lemma_skip_read_block_index(data: Seq<u8>, pos: int, len: nat)
    requires
        spec_block_index(data, pos, len) is Ok,
    ensures
        spec_skip_block_index(data, pos) == Ok::<int, DecodeError>(
            match spec_block_index(data, pos, len)->Ok_0 {
                Some((_, _, end)) => end,
                None => pos,
            },
        ),
{
    if pos < data.len() && data[pos] == BLOCK_INDEX_MAGIC {
        let (c, k1) = crate::varint::spec_read_varint::<usize>(data, pos + 1)->Ok_0;
        let (nb, k2) = crate::varint::spec_read_varint::<usize>(data, pos + 1 + k1)->Ok_0;
        lemma_skip_read_offsets(data, pos + 1 + k1 + k2, nb as nat, 0);
    }
}

/// Every written element takes at least its marker byte.
pub proof fn lemma_elements_len_bound<T: FixedLayout>(items: Seq<T>, p: int)
    ensures
        spec_elements_bytes(items, p).len() >= items.len(),
    decreases items.len(),
{
    if items.len() > 0 {
        T::lemma_alignment_positive();
        let prev = spec_elements_bytes(items.drop_last(), p);
        lemma_element_bytes_facts(items.last(), p + prev.len());
        lemma_elements_len_bound(items.drop_last(), p);
    }
}

/// Collecting from element `j` of a sequence written from `p` gives the elements from
/// `j` on and the position after the terminator.
pub proof fn lemma_collect_written<T: FixedLayout>(data: Seq<u8>, items: Seq<T>, p: int, j: int)
    requires
        0 <= p,
        0 <= j <= items.len(),
        p + spec_elements_bytes(items, p).len() + 1 <= data.len(),
        data.subrange(p, p + spec_elements_bytes(items, p).len()) == spec_elements_bytes(items, p),
        data[p + spec_elements_bytes(items, p).len()] == 0,
    ensures
        spec_collect_elements::<T>(data, spec_elem_pos(items, p, j), true) == Ok::<(Seq<T>, int), DecodeError>(
            (items.subrange(j, items.len() as int), p + spec_elements_bytes(items, p).len() + 1),
        ),
    decreases items.len() - j,
{
    if j == items.len() {
        assert(items.take(j) =~= items);
        assert(items.subrange(j, items.len() as int) =~= Seq::<T>::empty());
    } else {
        lemma_element_in_data(data, items, p, j);
        let q = spec_elem_pos(items, p, j);
        lemma_read_written_element(data, q, items[j], "");
        lemma_collect_written(data, items, p, j + 1);
        assert(seq![items[j]] + items.subrange(j + 1, items.len() as int) =~= items.subrange(j, items.len() as int));
    }
}

/// A finished sequence written from `p` reads back, through the fixed-size strategy,
/// as the elements written, in order, ending where the written bytes end; provided no
/// block index magic byte follows an unindexed sequence.
pub proof fn lemma_read_written_items<T: FixedLayout>(data: Seq<u8>, items: Seq<T>, p: int, indexed: bool)
    requires
        0 <= p,
        p + spec_seq_stream(items, p, true, indexed).len() <= data.len(),
        data.len() <= usize::MAX,
        data.subrange(p, p + spec_seq_stream(items, p, true, indexed).len()) == spec_seq_stream(
            items,
            p,
            true,
            indexed,
        ),
        !(indexed && items.len() > DEFAULT_CHUNK_SIZE) ==> p + spec_seq_stream(items, p, true, indexed).len()
            == data.len() || data[p + spec_seq_stream(items, p, true, indexed).len()] != BLOCK_INDEX_MAGIC,
    ensures
        spec_sequence_items::<T>(data, p, true) == Ok::<(Seq<T>, int), DecodeError>(
            (items, p + spec_seq_stream(items, p, true, indexed).len()),
        ),
{
    let e = spec_elements_bytes(items, p);
    let sec = spec_index_section(items, p, indexed);
    let st = spec_seq_stream(items, p, true, indexed);
    assert(st == e + seq![0u8] + sec);
    lemma_subrange_concat(data, p, e + seq![0u8], sec);
    lemma_subrange_concat(data, p, e, seq![0u8]);
    assert(data[p + e.len()] == data.subrange(p + e.len(), p + e.len() + 1)[0]);
    assert(items.take(0) =~= Seq::<T>::empty());
    lemma_collect_written(data, items, p, 0);
    assert(items.subrange(0, items.len() as int) =~= items);
    let after = p + e.len() + 1;
    lemma_elements_len_bound(items, p);
    if indexed && items.len() > DEFAULT_CHUNK_SIZE {
        let offs = spec_block_offsets(items, p);
        lemma_block_offsets_sorted(items, p);
        lemma_block_offsets_count(items, p);
        lemma_block_index_roundtrip(data, after, items.len() as usize, DEFAULT_CHUNK_SIZE, offs);
        lemma_skip_read_block_index(data, after, items.len());
    } else {
        assert(sec.len() == 0);
    }
}

} // verus!
