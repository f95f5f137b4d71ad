use vstd::prelude::*;
use crate::block_index::{
    BLOCK_INDEX_MAGIC,
    DEFAULT_CHUNK_SIZE,
    MAX_SEQUENCE_LEN,
    lemma_block_index_roundtrip,
    lemma_subrange_concat,
    spec_block_index,
    spec_block_index_bytes,
    spec_div_ceil,
};
use crate::error::DecodeError;
use crate::iter::{
    info_chunk,
    info_offsets,
    spec_access_sequence,
    spec_element_body,
    spec_get,
    spec_read_element,
    spec_scan_body,
    spec_skip_elements,
};
use crate::primitive::FixedLayout;
use crate::seq_serializer::{
    lemma_block_offsets_sorted,
    lemma_element_bytes_facts,
    spec_block_offsets,
    spec_element_bytes,
    spec_elements_bytes,
    spec_index_section,
    spec_seq_stream,
};
use crate::utils::{lemma_padding_bounds, spec_padding};

verus! {

/// Archive position of the marker of element `k` of `items` written from `p`.
pub open spec fn spec_elem_pos<T: FixedLayout>(items: Seq<T>, p: int, k: int) -> int {
    p + spec_elements_bytes(items.take(k), p).len()
}

/// The block index a reader finds after `items` written from `p`.
pub open spec fn spec_written_index_info<T: FixedLayout>(items: Seq<T>, p: int, indexed: bool) -> Option<(usize, Seq<usize>)> {
    if indexed && items.len() > DEFAULT_CHUNK_SIZE {
        Some((DEFAULT_CHUNK_SIZE, spec_block_offsets(items, p)))
    } else {
        None
    }
}

/// The bytes of the first `k` elements start the bytes of all of them.
pub proof fn lemma_elements_prefix<T: FixedLayout>(items: Seq<T>, p: int, k: int)
    requires
        0 <= k <= items.len(),
    ensures
        spec_elements_bytes(items.take(k), p).len() <= spec_elements_bytes(items, p).len(),
        spec_elements_bytes(items, p).subrange(0, spec_elements_bytes(items.take(k), p).len() as int)
            == spec_elements_bytes(items.take(k), p),
    decreases items.len(),
{
    if k == items.len() {
        assert(items.take(k) =~= items);
        assert(spec_elements_bytes(items, p).subrange(0, spec_elements_bytes(items, p).len() as int)
            =~= spec_elements_bytes(items, p));
    } else {
        let d = items.drop_last();
        lemma_elements_prefix(d, p, k);
        assert(d.take(k) =~= items.take(k));
        let e = spec_elements_bytes(items, p);
        let ed = spec_elements_bytes(d, p);
        let ek = spec_elements_bytes(items.take(k), p);
        assert(e == ed + spec_element_bytes(items.last(), p + ed.len()));
        assert(e.subrange(0, ek.len() as int) =~= ed.subrange(0, ek.len() as int));
    }
}

/// The bytes of the first `k + 1` elements are those of the first `k` followed by
/// element `k`.
pub proof fn lemma_elements_step<T: FixedLayout>(items: Seq<T>, p: int, k: int)
    requires
        0 <= k < items.len(),
    ensures
        spec_elements_bytes(items.take(k + 1), p) == spec_elements_bytes(items.take(k), p) + spec_element_bytes(
            items[k],
            spec_elem_pos(items, p, k),
        ),
        spec_elem_pos(items, p, k + 1) == spec_elem_pos(items, p, k) + spec_element_bytes(
            items[k],
            spec_elem_pos(items, p, k),
        ).len(),
{
    let t = items.take(k + 1);
    assert(t.drop_last() =~= items.take(k));
    assert(t.last() == items[k]);
}

/// Element `k` lies in the data at its position.
pub proof fn lemma_element_in_data<T: FixedLayout>(data: Seq<u8>, items: Seq<T>, p: int, k: int)
    requires
        0 <= p,
        0 <= k < items.len(),
        p + spec_elements_bytes(items, p).len() <= data.len(),
        data.subrange(p, p + spec_elements_bytes(items, p).len()) == spec_elements_bytes(items, p),
    ensures
        data.subrange(
            spec_elem_pos(items, p, k),
            spec_elem_pos(items, p, k + 1),
        ) == spec_element_bytes(items[k], spec_elem_pos(items, p, k)),
        spec_elem_pos(items, p, k + 1) == spec_elem_pos(items, p, k) + spec_element_bytes(
            items[k],
            spec_elem_pos(items, p, k),
        ).len(),
        p <= spec_elem_pos(items, p, k),
        spec_elem_pos(items, p, k + 1) <= p + spec_elements_bytes(items, p).len(),
{
    lemma_elements_step(items, p, k);
    lemma_elements_prefix(items, p, k + 1);
    let e = spec_elements_bytes(items, p);
    let a = spec_elements_bytes(items.take(k), p);
    let b = spec_element_bytes(items[k], spec_elem_pos(items, p, k));
    assert(data.subrange(p, p + (a + b).len()) =~= e.subrange(0, (a + b).len() as int));
    lemma_subrange_concat(data, p, a, b);
}

/// An element written at `q` reads back as its value.
pub proof fn lemma_read_written_element<T: FixedLayout>(data: Seq<u8>, q: int, v: T, msg: &'static str)
    requires
        0 <= q,
        q + spec_element_bytes(v, q).len() <= data.len(),
        data.subrange(q, q + spec_element_bytes(v, q).len()) == spec_element_bytes(v, q),
    ensures
        spec_read_element::<T>(data, q, msg) == Ok::<(T, int), DecodeError>((v, q + spec_element_bytes(v, q).len())),
        spec_element_body::<T>(data, q + 1) == Ok::<(T, int), DecodeError>((v, q + spec_element_bytes(v, q).len())),
        data[q] == 1,
{
    T::lemma_alignment_positive();
    lemma_element_bytes_facts(v, q);
    let eb = spec_element_bytes(v, q);
    let pad = spec_padding(q + 1, T::spec_alignment() as int);
    lemma_padding_bounds(q + 1, T::spec_alignment() as int);
    T::lemma_roundtrip(v, q + 1 + pad);
    assert(data[q] == eb[0]);
    let s = T::spec_size();
    assert(data.subrange(q + 1 + pad, q + 1 + pad + s) =~= eb.subrange(1 + pad, 1 + pad + s));
    assert(eb.subrange(1 + pad + 0, 1 + pad + s) == T::spec_to_bytes(v).subrange(0, s as int));
    assert(T::spec_to_bytes(v).subrange(0, s as int) =~= T::spec_to_bytes(v));
}

/// Skipping `k` elements from the position of element `j` leads to element `j + k`.
pub proof fn lemma_skip_written<T: FixedLayout>(data: Seq<u8>, items: Seq<T>, p: int, j: int, k: nat, msg: &'static str)
    requires
        0 <= p,
        0 <= j,
        j + k <= items.len(),
        p + spec_elements_bytes(items, p).len() <= data.len(),
        data.subrange(p, p + spec_elements_bytes(items, p).len()) == spec_elements_bytes(items, p),
    ensures
        spec_skip_elements::<T>(data, spec_elem_pos(items, p, j), k, msg) == Ok::<int, DecodeError>(
            spec_elem_pos(items, p, j + k),
        ),
    decreases k,
{
    if k > 0 {
        lemma_element_in_data(data, items, p, j);
        let q = spec_elem_pos(items, p, j);
        lemma_read_written_element(data, q, items[j], msg);
        lemma_skip_written(data, items, p, j + 1, (k - 1) as nat, msg);
        assert(j + 1 + (k - 1) == j + k);
    }
}

/// Scanning from element `j`, with `j` elements counted, finds all of them and the
/// terminator.
pub proof fn lemma_scan_written<T: FixedLayout>(data: Seq<u8>, items: Seq<T>, p: int, j: int)
    requires
        0 <= p,
        0 <= j <= items.len(),
        items.len() <= MAX_SEQUENCE_LEN,
        p + spec_elements_bytes(items, p).len() + 1 <= data.len(),
        data.subrange(p, p + spec_elements_bytes(items, p).len()) == spec_elements_bytes(items, p),
        data[p + spec_elements_bytes(items, p).len()] == 0,
    ensures
        spec_scan_body::<T>(data, spec_elem_pos(items, p, j), j as nat) == Ok::<(nat, int), DecodeError>(
            (items.len(), p + spec_elements_bytes(items, p).len() + 1),
        ),
    decreases items.len() - j,
{
    if j == items.len() {
        assert(items.take(j) =~= items);
    } else {
        lemma_element_in_data(data, items, p, j);
        let q = spec_elem_pos(items, p, j);
        lemma_read_written_element(data, q, items[j], "");
        lemma_scan_written(data, items, p, j + 1);
    }
}

/// A sequence of `n` elements has one block offset per started chunk.
pub proof fn lemma_block_offsets_count<T: FixedLayout>(items: Seq<T>, p: int)
    ensures
        spec_block_offsets(items, p).len() == spec_div_ceil(items.len() as int, DEFAULT_CHUNK_SIZE as int),
    decreases items.len(),
{
    if items.len() > 0 {
        lemma_block_offsets_count(items.drop_last(), p);
        let m = items.len() - 1;
        assert(spec_div_ceil(m + 1, 64) == spec_div_ceil(m, 64) + (if m % 64 == 0 { 1int } else { 0int }));
    }
}

/// Block offset `b` is the position of element `64 * b`, relative to the start.
pub proof fn lemma_block_offsets_values<T: FixedLayout>(items: Seq<T>, p: int, b: int)
    requires
        0 <= b < spec_block_offsets(items, p).len(),
        spec_elements_bytes(items, p).len() <= usize::MAX,
    ensures
        b * 64 < items.len(),
        spec_block_offsets(items, p)[b] == spec_elements_bytes(items.take(b * 64), p).len(),
    decreases items.len(),
{
    lemma_block_offsets_count(items, p);
    if items.len() > 0 {
        let d = items.drop_last();
        let m = d.len() as int;
        lemma_block_offsets_count(d, p);
        lemma_elements_prefix(items, p, m);
        assert(items.take(m) =~= d);
        if b < spec_block_offsets(d, p).len() {
            lemma_block_offsets_values(d, p, b);
            assert(d.take(b * 64) =~= items.take(b * 64));
        } else {
            assert(m % 64 == 0);
            assert(b * 64 == m) by (nonlinear_arith)
                requires
                    b == spec_div_ceil(m, 64),
                    m % 64 == 0,
                    m >= 0,
            ;
        }
    }
}

/// Reading a finished sequence written from `p` gives back its length, its block
/// index (chunk size and offsets, when one was written) and its end, provided no block
/// index magic byte follows an unindexed sequence.
pub proof fn lemma_access_written_sequence<T: FixedLayout>(data: Seq<u8>, items: Seq<T>, p: int, indexed: bool)
    requires
        0 <= p,
        items.len() <= MAX_SEQUENCE_LEN,
        p + spec_seq_stream(items, p, true, indexed).len() <= data.len(),
        data.len() <= usize::MAX,
        data.subrange(p, p + spec_seq_stream(items, p, true, indexed).len()) == spec_seq_stream(
            items,
            p,
            true,
            indexed,
        ),
        !(indexed && items.len() > DEFAULT_CHUNK_SIZE) ==> p + spec_seq_stream(items, p, true, indexed).len()
            == data.len() || data[p + spec_seq_stream(items, p, true, indexed).len()] != BLOCK_INDEX_MAGIC,
    ensures
        spec_access_sequence::<T>(data, p) == Ok::<(nat, Option<(usize, Seq<usize>)>, int), DecodeError>(
            (
                items.len(),
                spec_written_index_info(items, p, indexed),
                p + spec_seq_stream(items, p, true, indexed).len(),
            ),
        ),
{
    let e = spec_elements_bytes(items, p);
    let sec = spec_index_section(items, p, indexed);
    let st = spec_seq_stream(items, p, true, indexed);
    assert(st == e + seq![0u8] + sec);
    lemma_subrange_concat(data, p, e + seq![0u8], sec);
    lemma_subrange_concat(data, p, e, seq![0u8]);
    assert(data[p + e.len()] == data.subrange(p + e.len(), p + e.len() + 1)[0]);
    assert(items.take(0) =~= Seq::<T>::empty());
    lemma_scan_written(data, items, p, 0);
    let after = p + e.len() + 1;
    if indexed && items.len() > DEFAULT_CHUNK_SIZE {
        let offs = spec_block_offsets(items, p);
        lemma_block_offsets_sorted(items, p);
        lemma_block_offsets_count(items, p);
        lemma_block_index_roundtrip(data, after, items.len() as usize, DEFAULT_CHUNK_SIZE, offs);
    } else {
        assert(sec.len() == 0);
    }
}

/// Every element of a finished sequence written from `p` reads back through `get`,
/// with or without the block index, provided the sequence fits in the address space.
pub proof fn lemma_get_written_element<T: FixedLayout>(data: Seq<u8>, items: Seq<T>, p: usize, indexed: bool, i: usize)
    requires
        i < items.len(),
        items.len() <= usize::MAX,
        p + spec_elements_bytes(items, p as int).len() <= data.len(),
        data.len() <= usize::MAX,
        data.subrange(p as int, p + spec_elements_bytes(items, p as int).len()) == spec_elements_bytes(
            items,
            p as int,
        ),
    ensures
        spec_get::<T>(data, p, items.len() as usize, spec_written_index_info(items, p as int, indexed), i) == Ok::<
            T,
            DecodeError,
        >(items[i as int]),
{
    let info = spec_written_index_info(items, p as int, indexed);
    let n = items.len() as usize;
    if info is Some && info_chunk(info) > 0 && (i / info_chunk(info)) < info_offsets(info).len() {
        let b = (i / 64) as int;
        lemma_block_offsets_values(items, p as int, b);
        let start_elem = b * 64;
        assert(start_elem + (i % 64) == i);
        lemma_skip_written(data, items, p as int, start_elem, (i % 64) as nat, "Invalid sequence marker during indexed access");
        lemma_element_in_data(data, items, p as int, i as int);
        lemma_elements_prefix(items, p as int, start_elem);
        lemma_read_written_element(
            data,
            spec_elem_pos(items, p as int, i as int),
            items[i as int],
            "Invalid sequence marker during indexed access",
        );
    } else {
        assert(items.take(0) =~= Seq::<T>::empty());
        lemma_skip_written(data, items, p as int, 0, i as nat, "Invalid sequence marker");
        lemma_element_in_data(data, items, p as int, i as int);
        lemma_read_written_element(data, spec_elem_pos(items, p as int, i as int), items[i as int], "Invalid sequence marker");
    }
}

} // verus!
