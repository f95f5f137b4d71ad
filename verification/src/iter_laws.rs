use vstd::prelude::*;
use crate::error::DecodeError;
use crate::iter::{
    info_chunk,
    info_offsets,
    scan_marker_message,
    lemma_iter_item_shift,
    spec_get,
    spec_iter_from_at,
    spec_iter_item,
    spec_iter_pos,
    spec_iter_results,
    spec_yields_from,
    spec_lenient_skip,
    spec_lenient_step,
    spec_next_step,
    spec_read_element,
    spec_skip_elements,
};
use crate::primitive::FixedLayout;
use crate::seq_roundtrip::{
    lemma_block_offsets_values,
    lemma_get_written_element,
    lemma_skip_written,
    spec_written_index_info,
};
use crate::seq_serializer::{spec_block_offsets, spec_elements_bytes};
use crate::utils::lemma_padding_bounds;

verus! {

/// The block index (chunk size `c`, offsets `offs`) of a sequence at `start` points each
/// block at the element that starts it.
pub open spec fn spec_index_accurate<A: FixedLayout>(data: Seq<u8>, start: int, c: nat, offs: Seq<usize>) -> bool {
    forall|b: int| 0 <= b < offs.len() ==> start + #[trigger] offs[b] == spec_iter_pos::<A>(data, start, (b * c) as nat)
}

/// The value part of reading an element.
pub open spec fn spec_value_of<A>(r: Result<(A, int), DecodeError>) -> Result<A, DecodeError> {
    match r {
        Ok((v, _)) => Ok(v),
        Err(e) => Err(e),
    }
}

/// `a` steps and then `b` more are `a + b` steps.
pub proof fn lemma_iter_pos_add<A: FixedLayout>(data: Seq<u8>, pos: int, a: nat, b: nat)
    ensures
        spec_iter_pos::<A>(data, pos, a + b) == spec_iter_pos::<A>(data, spec_iter_pos::<A>(data, pos, a), b),
    decreases a,
{
    if a > 0 {
        let next = spec_next_step::<A>(data, pos).1;
        lemma_iter_pos_add::<A>(data, next, (a - 1) as nat, b);
        assert((a + b - 1) as nat == ((a - 1) as nat + b) as nat);
    }
}

/// The iterator never steps past the end of the data, and never moves once past it.
pub proof fn lemma_iter_pos_bound<A: FixedLayout>(data: Seq<u8>, pos: int, k: nat)
    requires
        0 <= pos,
    ensures
        pos <= spec_iter_pos::<A>(data, pos, k),
        pos <= data.len() ==> spec_iter_pos::<A>(data, pos, k) <= data.len(),
        pos > data.len() ==> spec_iter_pos::<A>(data, pos, k) == pos,
    decreases k,
{
    if k > 0 {
        A::lemma_alignment_positive();
        lemma_padding_bounds(pos + 1, A::spec_alignment() as int);
        lemma_iter_pos_bound::<A>(data, spec_next_step::<A>(data, pos).1, (k - 1) as nat);
    }
}

/// Reading an element succeeds exactly where an iterator step does, with the same value
/// and end; read with the iterator's message, it fails with the same error too.
pub proof fn lemma_read_element_is_step<A: FixedLayout>(data: Seq<u8>, pos: int, msg: &'static str)
    ensures
        spec_next_step::<A>(data, pos).0 is Ok ==> spec_read_element::<A>(data, pos, msg) == Ok::<(A, int), DecodeError>(
            (spec_next_step::<A>(data, pos).0->Ok_0, spec_next_step::<A>(data, pos).1),
        ),
        spec_next_step::<A>(data, pos).0 is Err ==> spec_read_element::<A>(data, pos, msg) is Err,
        msg == scan_marker_message() ==> spec_value_of(spec_read_element::<A>(data, pos, msg)) == spec_next_step::<A>(
            data,
            pos,
        ).0,
{
}

/// Skipping `k` elements, when the iterator's first `k` results are values, lands where
/// the iterator stands after `k` steps.
pub proof fn lemma_skip_is_iteration<A: FixedLayout>(data: Seq<u8>, pos: int, k: nat, msg: &'static str)
    requires
        forall|j: nat| j < k ==> #[trigger] spec_iter_item::<A>(data, pos, j) is Ok,
    ensures
        spec_skip_elements::<A>(data, pos, k, msg) == Ok::<int, DecodeError>(spec_iter_pos::<A>(data, pos, k)),
    decreases k,
{
    if k > 0 {
        assert(spec_iter_item::<A>(data, pos, 0) is Ok);
        lemma_read_element_is_step::<A>(data, pos, msg);
        let next = spec_next_step::<A>(data, pos).1;
        assert forall|j: nat| j < (k - 1) as nat implies #[trigger] spec_iter_item::<A>(data, next, j) is Ok by {
            lemma_iter_item_shift::<A>(data, pos, j);
            assert(spec_iter_item::<A>(data, pos, j + 1) is Ok);
        }
        lemma_skip_is_iteration::<A>(data, next, (k - 1) as nat, msg);
    }
}

/// Iteration and `get` agree: once the iterator over a sequence has produced values for
/// elements 0 to k - 1, its next result, for element k, is what `get(k)` gives. With a
/// block index that points each block at its first element, a value read by iteration
/// is the value that `get` reads through the index, and an error of the one is an error
/// of the other.
pub proof fn lemma_iteration_yields_get<A: FixedLayout>(
    data: Seq<u8>,
    start: usize,
    len: usize,
    index_info: Option<(usize, Seq<usize>)>,
    k: usize,
)
    requires
        k < len,
        data.len() <= usize::MAX,
        forall|j: nat| j < k ==> #[trigger] spec_iter_item::<A>(data, start as int, j) is Ok,
        spec_index_accurate::<A>(data, start as int, info_chunk(index_info) as nat, info_offsets(index_info)),
    ensures
        spec_iter_item::<A>(data, start as int, k as nat) is Ok ==> spec_get::<A>(data, start, len, index_info, k)
            == spec_iter_item::<A>(data, start as int, k as nat),
        spec_iter_item::<A>(data, start as int, k as nat) is Err ==> spec_get::<A>(data, start, len, index_info, k) is Err,
        index_info is None ==> spec_get::<A>(data, start, len, index_info, k) == spec_iter_item::<A>(
            data,
            start as int,
            k as nat,
        ),
{
    let c = info_chunk(index_info);
    let offs = info_offsets(index_info);
    if index_info is Some && c > 0 && (k / c) < offs.len() {
        let b = k / c;
        let r = k % c;
        let p0 = spec_iter_pos::<A>(data, start as int, (b * c) as nat);
        assert(start + offs[b as int] == p0);
        lemma_iter_pos_bound::<A>(data, start as int, (b * c) as nat);
        assert(b * c + r == k) by {
            vstd::arithmetic::div_mod::lemma_fundamental_div_mod(k as int, c as int);
        }
        assert(r < c) by {
            vstd::arithmetic::div_mod::lemma_mod_bound(k as int, c as int);
        }
        assert forall|j: nat| j < r implies #[trigger] spec_iter_item::<A>(data, p0, j) is Ok by {
            lemma_iter_pos_add::<A>(data, start as int, (b * c) as nat, j);
            assert(spec_iter_item::<A>(data, start as int, ((b * c) as nat + j) as nat) is Ok);
        }
        lemma_skip_is_iteration::<A>(data, p0, r as nat, crate::iter::indexed_marker_message());
        lemma_iter_pos_add::<A>(data, start as int, (b * c) as nat, r as nat);
        assert(((b * c) as nat + r as nat) as nat == k as nat);
        lemma_read_element_is_step::<A>(
            data,
            spec_iter_pos::<A>(data, start as int, k as nat),
            crate::iter::indexed_marker_message(),
        );
    } else {
        lemma_skip_is_iteration::<A>(data, start as int, k as nat, scan_marker_message());
        lemma_read_element_is_step::<A>(data, spec_iter_pos::<A>(data, start as int, k as nat), scan_marker_message());
    }
}

/// One lenient step is one iterator step: an element whose padding does not fit has no
/// room for its value either, its size being a whole number of alignments.
proof fn lemma_lenient_step_is_step<A: FixedLayout>(data: Seq<u8>, pos: int)
    ensures
        spec_lenient_step::<A>(data, pos) == spec_next_step::<A>(data, pos).1,
{
    A::lemma_alignment_positive();
    A::lemma_size_aligned();
    lemma_padding_bounds(pos + 1, A::spec_alignment() as int);
    if 0 < A::spec_size() < A::spec_alignment() {
        vstd::arithmetic::div_mod::lemma_small_mod(A::spec_size(), A::spec_alignment());
    }
}

/// Skipping elements while ignoring errors steps exactly as the iterator does.
pub proof fn lemma_lenient_skip_is_iteration<A: FixedLayout>(data: Seq<u8>, pos: int, k: nat)
    ensures
        spec_lenient_skip::<A>(data, pos, k) == spec_iter_pos::<A>(data, pos, k),
    decreases k,
{
    if k > 0 {
        lemma_lenient_step_is_step::<A>(data, pos);
        lemma_lenient_skip_is_iteration::<A>(data, spec_next_step::<A>(data, pos).1, (k - 1) as nat);
    }
}

/// Where `iter_from(s)` places the iterator is where `iter()` stands after `s` steps,
/// without a block index and with one that points each block at its first element.
pub proof fn lemma_iter_from_at_is_skip<A: FixedLayout>(
    data: Seq<u8>,
    start: usize,
    index_info: Option<(usize, Seq<usize>)>,
    s: usize,
)
    requires
        spec_index_accurate::<A>(data, start as int, info_chunk(index_info) as nat, info_offsets(index_info)),
    ensures
        spec_iter_from_at::<A>(data, start, index_info, s) == spec_iter_pos::<A>(data, start as int, s as nat),
{
    let c = info_chunk(index_info);
    let offs = info_offsets(index_info);
    if index_info is Some && c > 0 && (s / c) < offs.len() && start + offs[(s / c) as int] <= usize::MAX {
        let b = s / c;
        let r = s % c;
        let p0 = spec_iter_pos::<A>(data, start as int, (b * c) as nat);
        assert(start + offs[b as int] == p0);
        assert(b * c + r == s) by {
            vstd::arithmetic::div_mod::lemma_fundamental_div_mod(s as int, c as int);
        }
        lemma_lenient_skip_is_iteration::<A>(data, p0, r as nat);
        lemma_iter_pos_add::<A>(data, start as int, (b * c) as nat, r as nat);
        assert(((b * c) as nat + r as nat) as nat == s as nat);
    } else {
        lemma_lenient_skip_is_iteration::<A>(data, start as int, s as nat);
    }
}

/// `iter_from(s)` yields what `iter()` yields with the first `s` results skipped (nothing
/// when `s` is not below the length), without a block index and with one that points
/// each block at its first element. This holds of `ArchivedIterView` and of the decoded
/// `ArchivedIter` alike: both state their `iter` and `iter_from` over these functions.
pub proof fn lemma_iter_from_is_skip<A: FixedLayout>(
    data: Seq<u8>,
    start: usize,
    len: usize,
    index_info: Option<(usize, Seq<usize>)>,
    s: usize,
)
    requires
        spec_index_accurate::<A>(data, start as int, info_chunk(index_info) as nat, info_offsets(index_info)),
    ensures
        spec_yields_from::<A>(data, start, len, index_info, s) == (if s < len {
            spec_iter_results::<A>(data, start as int, len as nat).subrange(s as int, len as int)
        } else {
            Seq::<Result<A, DecodeError>>::empty()
        }),
{
    if s < len {
        lemma_iter_from_at_is_skip::<A>(data, start, index_info, s);
        let at = spec_iter_pos::<A>(data, start as int, s as nat);
        let from = spec_iter_results::<A>(data, at, (len - s) as nat);
        let all = spec_iter_results::<A>(data, start as int, len as nat);
        assert forall|j: int| 0 <= j < len - s implies #[trigger] from[j] == all.subrange(s as int, len as int)[j] by {
            lemma_iter_pos_add::<A>(data, start as int, s as nat, j as nat);
            assert((s as nat + j as nat) as nat == (s + j) as nat);
        }
        assert(from =~= all.subrange(s as int, len as int));
    }
}

/// Iterating over a sequence yields exactly its length in results, and each result that
/// follows only values is what `get` gives for that element (see
/// `lemma_iteration_yields_get`); this restates it over what `iter()` yields.
pub proof fn lemma_iter_yields_get<A: FixedLayout>(
    data: Seq<u8>,
    start: usize,
    len: usize,
    index_info: Option<(usize, Seq<usize>)>,
    k: usize,
)
    requires
        k < len,
        data.len() <= usize::MAX,
        forall|j: int| 0 <= j < k ==> (#[trigger] spec_iter_results::<A>(data, start as int, len as nat)[j]) is Ok,
        spec_index_accurate::<A>(data, start as int, info_chunk(index_info) as nat, info_offsets(index_info)),
    ensures
        spec_iter_results::<A>(data, start as int, len as nat).len() == len,
        spec_iter_results::<A>(data, start as int, len as nat)[k as int] is Ok ==> spec_get::<A>(
            data,
            start,
            len,
            index_info,
            k,
        ) == spec_iter_results::<A>(data, start as int, len as nat)[k as int],
        spec_iter_results::<A>(data, start as int, len as nat)[k as int] is Err ==> spec_get::<A>(
            data,
            start,
            len,
            index_info,
            k,
        ) is Err,
        index_info is None ==> spec_get::<A>(data, start, len, index_info, k) == spec_iter_results::<A>(
            data,
            start as int,
            len as nat,
        )[k as int],
{
    let all = spec_iter_results::<A>(data, start as int, len as nat);
    assert forall|j: nat| j < k implies #[trigger] spec_iter_item::<A>(data, start as int, j) is Ok by {
        assert(all[j as int] is Ok);
    }
    lemma_iteration_yields_get::<A>(data, start, len, index_info, k);
}

/// The iterator over the elements of a sequence written from `p` yields the written
/// values in order.
pub proof fn lemma_iterate_written<T: FixedLayout>(data: Seq<u8>, items: Seq<T>, p: usize, i: usize)
    requires
        i < items.len(),
        items.len() <= usize::MAX,
        p + spec_elements_bytes(items, p as int).len() <= data.len(),
        data.len() <= usize::MAX,
        data.subrange(p as int, p + spec_elements_bytes(items, p as int).len()) == spec_elements_bytes(
            items,
            p as int,
        ),
    ensures
        spec_iter_item::<T>(data, p as int, i as nat) == Ok::<T, DecodeError>(items[i as int]),
    decreases i,
{
    assert forall|j: nat| j < i implies #[trigger] spec_iter_item::<T>(data, p as int, j) is Ok by {
        lemma_iterate_written::<T>(data, items, p, j as usize);
    }
    lemma_get_written_element::<T>(data, items, p, false, i);
    lemma_iteration_yields_get::<T>(data, p, items.len() as usize, None, i);
}

/// The block index written after a sequence points each block at the element that
/// starts it.
pub proof fn lemma_written_index_accurate<T: FixedLayout>(data: Seq<u8>, items: Seq<T>, p: usize, indexed: bool)
    requires
        items.len() <= usize::MAX,
        p + spec_elements_bytes(items, p as int).len() <= data.len(),
        data.len() <= usize::MAX,
        data.subrange(p as int, p + spec_elements_bytes(items, p as int).len()) == spec_elements_bytes(
            items,
            p as int,
        ),
    ensures
        spec_index_accurate::<T>(
            data,
            p as int,
            info_chunk(spec_written_index_info(items, p as int, indexed)) as nat,
            info_offsets(spec_written_index_info(items, p as int, indexed)),
        ),
{
    let info = spec_written_index_info(items, p as int, indexed);
    if info is Some {
        let offs = spec_block_offsets(items, p as int);
        assert forall|b: int| 0 <= b < offs.len() implies p + #[trigger] offs[b] == spec_iter_pos::<T>(
            data,
            p as int,
            (b * 64) as nat,
        ) by {
            lemma_block_offsets_values(items, p as int, b);
            let k = (b * 64) as nat;
            assert(items.take(0) =~= Seq::<T>::empty());
            lemma_skip_written(data, items, p as int, 0, k, scan_marker_message());
            assert forall|j: nat| j < k implies #[trigger] spec_iter_item::<T>(data, p as int, j) is Ok by {
                lemma_iterate_written::<T>(data, items, p, j as usize);
            }
            lemma_skip_is_iteration::<T>(data, p as int, k, scan_marker_message());
        }
    }
}

} // verus!
