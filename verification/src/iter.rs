use vstd::prelude::*;
use crate::block_index::{
    BlockIndex,
    MAX_SEQUENCE_LEN,
    deserialize_block_index,
    spec_block_index,
};
use crate::cursor::{Cursor, range_error};
use crate::error::DecodeError;
use crate::primitive::FixedLayout;
use crate::utils::spec_padding;

verus! {

broadcast use vstd::slice::group_slice_axioms;

/// Marker byte in front of every element of a sequence.
pub const SEQUENCE_ELEMENT_MARKER: u8 = 1;

/// Byte that ends a sequence.
pub const SEQUENCE_TERMINATOR: u8 = 0;

/// Error message for a bad marker met while scanning from the start of a sequence.
pub open spec fn scan_marker_message() -> &'static str {
    "Invalid sequence marker"
}

/// Error message for a bad marker met while scanning from a block of the index.
pub open spec fn indexed_marker_message() -> &'static str {
    "Invalid sequence marker during indexed access"
}

/// Reading the body of an element whose marker ends at `p`: the padding up to the
/// element's alignment, then the value; gives the value and the position after it.
pub open spec fn spec_element_body<A: FixedLayout>(data: Seq<u8>, p: int) -> Result<(A, int), DecodeError> {
    let pad = spec_padding(p, A::spec_alignment() as int);
    if p + pad > data.len() {
        Err(range_error(p as usize, pad as usize))
    } else {
        let q = p + pad;
        if q + A::spec_size() > data.len() {
            Err(range_error(q as usize, A::spec_size() as usize))
        } else {
            match A::spec_decode(data.subrange(q, q + A::spec_size()), q) {
                Ok(v) => Ok((v, q + A::spec_size())),
                Err(e) => Err(e),
            }
        }
    }
}

/// Reading one element at `pos`: its marker, which must be 1 (else an error with
/// message `msg` at `pos`), then its body.
pub open spec fn spec_read_element<A: FixedLayout>(data: Seq<u8>, pos: int, msg: &'static str) -> Result<(A, int), DecodeError> {
    if pos + 1 > data.len() {
        Err(range_error(pos as usize, 1))
    } else if data[pos] != SEQUENCE_ELEMENT_MARKER {
        Err(DecodeError::ValidationError { message: msg, pos: pos as usize })
    } else {
        spec_element_body::<A>(data, pos + 1)
    }
}

/// Skipping `k` elements at `pos`: the position after them.
pub open spec fn spec_skip_elements<A: FixedLayout>(data: Seq<u8>, pos: int, k: nat, msg: &'static str) -> Result<int, DecodeError>
    decreases k,
{
    if k == 0 {
        Ok(pos)
    } else {
        match spec_read_element::<A>(data, pos, msg) {
            Err(e) => Err(e),
            Ok((_, next)) => spec_skip_elements::<A>(data, next, (k - 1) as nat, msg),
        }
    }
}

/// Scanning a sequence body at `pos` with `count` elements already seen: the number of
/// elements and the position after the terminator.
pub open spec fn spec_scan_body<A: FixedLayout>(data: Seq<u8>, pos: int, count: nat) -> Result<(nat, int), DecodeError>
    decreases MAX_SEQUENCE_LEN - count,
{
    if pos + 1 > data.len() {
        Err(range_error(pos as usize, 1))
    } else if data[pos] == SEQUENCE_TERMINATOR {
        Ok((count, pos + 1))
    } else if data[pos] != SEQUENCE_ELEMENT_MARKER {
        Err(DecodeError::ValidationError { message: "Invalid sequence marker", pos: pos as usize })
    } else if count >= MAX_SEQUENCE_LEN {
        Err(DecodeError::ValidationError { message: "Sequence length exceeds safety limit", pos: pos as usize })
    } else {
        match spec_element_body::<A>(data, pos + 1) {
            Err(e) => Err(e),
            Ok((_, next)) => spec_scan_body::<A>(data, next, count + 1),
        }
    }
}

/// Reading a whole sequence at `pos`: its length, its block index if any (chunk size
/// and offsets) and the position after it.
pub open spec fn spec_access_sequence<A: FixedLayout>(data: Seq<u8>, pos: int) -> Result<(nat, Option<(usize, Seq<usize>)>, int), DecodeError> {
    match spec_scan_body::<A>(data, pos, 0) {
        Err(e) => Err(e),
        Ok((len, p)) => match spec_block_index(data, p, len) {
            Err(e) => Err(e),
            Ok(None) => Ok((len, None, p)),
            Ok(Some((c, offs, end))) => Ok((len, Some((c, offs)), end)),
        },
    }
}

/// Chunk size of an optional block index (zero when there is none).
pub open spec fn info_chunk(info: Option<(usize, Seq<usize>)>) -> usize {
    match info {
        Some((c, _)) => c,
        None => 0,
    }
}

/// Offsets of an optional block index (none when there is no index).
pub open spec fn info_offsets(info: Option<(usize, Seq<usize>)>) -> Seq<usize> {
    match info {
        Some((_, o)) => o,
        None => Seq::empty(),
    }
}

/// Element `index` of a sequence of `len` elements at `start` with the given block
/// index: found from its block when the index has that block, else by a scan from the
/// start.
pub open spec fn spec_get<A: FixedLayout>(
    data: Seq<u8>,
    start: usize,
    len: usize,
    index_info: Option<(usize, Seq<usize>)>,
    index: usize,
) -> Result<A, DecodeError> {
    if index >= len {
        Err(DecodeError::ValidationError { message: "ArchivedIter::get index out of bounds", pos: start })
    } else if index_info is Some && info_chunk(index_info) > 0 && (index / info_chunk(index_info)) < info_offsets(index_info).len() {
        let c = info_chunk(index_info);
        let abs = start + info_offsets(index_info)[(index / c) as int];
        if abs > usize::MAX {
            Err(DecodeError::ValidationError { message: "Block offset overflow", pos: start })
        } else {
            match spec_skip_elements::<A>(data, abs, (index % c) as nat, indexed_marker_message()) {
                Err(e) => Err(e),
                Ok(p) => match spec_read_element::<A>(data, p, indexed_marker_message()) {
                    Err(e) => Err(e),
                    Ok((v, _)) => Ok(v),
                },
            }
        }
    } else {
        match spec_skip_elements::<A>(data, start as int, index as nat, scan_marker_message()) {
            Err(e) => Err(e),
            Ok(p) => match spec_read_element::<A>(data, p, scan_marker_message()) {
                Err(e) => Err(e),
                Ok((v, _)) => Ok(v),
            },
        }
    }
}

/// Where one step of skipping an element at `pos` leaves the cursor when errors are
/// ignored: every part of the element (marker, padding, value) that fits is stepped over,
/// the padding and value only when the marker is 1.
pub open spec fn spec_lenient_step<A: FixedLayout>(data: Seq<u8>, pos: int) -> int {
    if pos + 1 > data.len() {
        pos
    } else if data[pos] != SEQUENCE_ELEMENT_MARKER {
        pos + 1
    } else {
        let p = pos + 1;
        let pad = spec_padding(p, A::spec_alignment() as int);
        let q = if p + pad > data.len() { p } else { p + pad };
        if q + A::spec_size() > data.len() {
            q
        } else {
            q + A::spec_size()
        }
    }
}

/// Skipping `k` elements at `pos`, ignoring errors.
pub open spec fn spec_lenient_skip<A: FixedLayout>(data: Seq<u8>, pos: int, k: nat) -> int
    decreases k,
{
    if k == 0 {
        pos
    } else {
        spec_lenient_skip::<A>(data, spec_lenient_step::<A>(data, pos), (k - 1) as nat)
    }
}

/// One step of the element iterator at `pos`: the result and the new position.
pub open spec fn spec_next_step<A: FixedLayout>(data: Seq<u8>, pos: int) -> (Result<A, DecodeError>, int) {
    if pos + 1 > data.len() {
        (Err(range_error(pos as usize, 1)), pos)
    } else if data[pos] != SEQUENCE_ELEMENT_MARKER {
        (Err(DecodeError::ValidationError { message: "Invalid sequence marker", pos: pos as usize }), pos + 1)
    } else {
        let p = pos + 1;
        let pad = spec_padding(p, A::spec_alignment() as int);
        if p + pad > data.len() {
            (Err(range_error(p as usize, pad as usize)), p)
        } else {
            let q = p + pad;
            if q + A::spec_size() > data.len() {
                (Err(range_error(q as usize, A::spec_size() as usize)), q)
            } else {
                (A::spec_decode(data.subrange(q, q + A::spec_size()), q), q + A::spec_size())
            }
        }
    }
}

/// Where the element iterator stands after `k` steps from `pos`.
pub open spec fn spec_iter_pos<A: FixedLayout>(data: Seq<u8>, pos: int, k: nat) -> int
    decreases k,
{
    if k == 0 {
        pos
    } else {
        spec_iter_pos::<A>(data, spec_next_step::<A>(data, pos).1, (k - 1) as nat)
    }
}

/// The `k`-th result of the element iterator started at `pos` (counting from 0).
pub open spec fn spec_iter_item<A: FixedLayout>(data: Seq<u8>, pos: int, k: nat) -> Result<A, DecodeError> {
    spec_next_step::<A>(data, spec_iter_pos::<A>(data, pos, k)).0
}

/// The first `n` results of the element iterator started at `pos`.
pub open spec fn spec_iter_results<A: FixedLayout>(data: Seq<u8>, pos: int, n: nat) -> Seq<Result<A, DecodeError>> {
    Seq::new(n, |j: int| spec_iter_item::<A>(data, pos, j as nat))
}

/// Where `iter_from(s)` places the iterator over a sequence at `start` with the given
/// block index: through the index when it has the block, else by skipping from the
/// start, stepping over elements that cannot be read.
pub open spec fn spec_iter_from_at<A: FixedLayout>(
    data: Seq<u8>,
    start: usize,
    index_info: Option<(usize, Seq<usize>)>,
    s: usize,
) -> int {
    if index_info is Some && info_chunk(index_info) > 0 && (s / info_chunk(index_info)) < info_offsets(index_info).len()
        && start + info_offsets(index_info)[(s / info_chunk(index_info)) as int] <= usize::MAX {
        spec_lenient_skip::<A>(
            data,
            start + info_offsets(index_info)[(s / info_chunk(index_info)) as int],
            (s % info_chunk(index_info)) as nat,
        )
    } else {
        spec_lenient_skip::<A>(data, start as int, s as nat)
    }
}

/// Everything `iter_from(s)` yields over a sequence of `len` elements at `start`.
pub open spec fn spec_yields_from<A: FixedLayout>(
    data: Seq<u8>,
    start: usize,
    len: usize,
    index_info: Option<(usize, Seq<usize>)>,
    s: usize,
) -> Seq<Result<A, DecodeError>> {
    if s < len {
        spec_iter_results::<A>(data, spec_iter_from_at::<A>(data, start, index_info, s), (len - s) as nat)
    } else {
        Seq::empty()
    }
}

/// The results after the first one, of an iterator started at `pos`, are those of an
/// iterator started one step further.
pub proof fn lemma_iter_item_shift<A: FixedLayout>(data: Seq<u8>, pos: int, j: nat)
    ensures
        spec_iter_item::<A>(data, pos, j + 1) == spec_iter_item::<A>(data, spec_next_step::<A>(data, pos).1, j),
{
    assert((j + 1 - 1) as nat == j);
}

/// Reads the padding and value of an element whose marker has been read.
pub fn read_element_body<A: FixedLayout>(cursor: &mut Cursor) -> (r: Result<A, DecodeError>)
    ensures
        final(cursor).data() == old(cursor).data(),
        match spec_element_body::<A>(old(cursor).data(), old(cursor).at()) {
            Ok((v, end)) => r == Ok::<A, DecodeError>(v) && final(cursor).at() == end,
            Err(e) => r == Err::<A, DecodeError>(e),
        },
{
    proof {
        cursor.lemma_len_bound();
    }
    let alignment = A::alignment();
    cursor.align(alignment)?;
    A::access(cursor)
}

/// Reads one element (marker, padding, value) at the cursor.
pub fn read_element<A: FixedLayout>(cursor: &mut Cursor, msg: &'static str) -> (r: Result<A, DecodeError>)
    ensures
        final(cursor).data() == old(cursor).data(),
        match spec_read_element::<A>(old(cursor).data(), old(cursor).at(), msg) {
            Ok((v, end)) => r == Ok::<A, DecodeError>(v) && final(cursor).at() == end,
            Err(e) => r == Err::<A, DecodeError>(e),
        },
{
    proof {
        cursor.lemma_len_bound();
    }
    let marker = cursor.read_u8()?;
    if marker != SEQUENCE_ELEMENT_MARKER {
        return Err(DecodeError::ValidationError { message: msg, pos: cursor.pos() - 1 });
    }
    read_element_body::<A>(cursor)
}

/// Skips `k` elements at the cursor.
pub fn skip_elements<A: FixedLayout>(cursor: &mut Cursor, k: usize, msg: &'static str) -> (r: Result<(), DecodeError>)
    ensures
        final(cursor).data() == old(cursor).data(),
        match spec_skip_elements::<A>(old(cursor).data(), old(cursor).at(), k as nat, msg) {
            Ok(end) => r is Ok && final(cursor).at() == end,
            Err(e) => r == Err::<(), DecodeError>(e),
        },
{
    let mut i: usize = 0;
    while i < k
        invariant
            i <= k,
            cursor.data() == old(cursor).data(),
            spec_skip_elements::<A>(old(cursor).data(), old(cursor).at(), k as nat, msg)
                == spec_skip_elements::<A>(cursor.data(), cursor.at(), (k - i) as nat, msg),
        decreases k - i,
    {
        let _ = read_element::<A>(cursor, msg)?;
        i = i + 1;
    }
    Ok(())
}

/// Skips `k` elements at the cursor, ignoring what cannot be read.
pub fn skip_elements_lenient<A: FixedLayout>(cursor: &mut Cursor, k: usize)
    ensures
        final(cursor).data() == old(cursor).data(),
        final(cursor).at() == spec_lenient_skip::<A>(old(cursor).data(), old(cursor).at(), k as nat),
{
    let mut i: usize = 0;
    while i < k
        invariant
            i <= k,
            cursor.data() == old(cursor).data(),
            spec_lenient_skip::<A>(old(cursor).data(), old(cursor).at(), k as nat) == spec_lenient_skip::<A>(
                cursor.data(),
                cursor.at(),
                (k - i) as nat,
            ),
        decreases k - i,
    {
        proof {
            cursor.lemma_len_bound();
        }
        if let Ok(marker) = cursor.read_u8() {
            if marker == SEQUENCE_ELEMENT_MARKER {
                let alignment = A::alignment();
                let _ = cursor.align(alignment);
                let _ = A::access(cursor);
            }
        }
        i = i + 1;
    }
}

/// Wrapper that archives the items of a collection as a sequence.
#[derive(Debug)]
pub struct IterArchive<I, T> {
    pub inner: I,
    pub _marker: core::marker::PhantomData<T>,
}

impl<I, T> IterArchive<I, T> {
    pub fn new(inner: I) -> (r: IterArchive<I, T>)
        ensures
            r.inner == inner,
    {
        IterArchive { inner, _marker: core::marker::PhantomData }
    }

    pub fn into_inner(self) -> (r: I)
        ensures
            r == self.inner,
    {
        self.inner
    }
}

/// Marker type for the archived form of a sequence of `A`.
pub struct ArchivedIter<A> {
    _marker: core::marker::PhantomData<A>,
}

/// Read view over an archived sequence.
pub struct ArchivedIterView<'a, A> {
    source: &'a [u8],
    start_pos: usize,
    len: usize,
    block_index: Option<BlockIndex>,
    _marker: core::marker::PhantomData<A>,
}

/// Lazy iterator over the elements of an archived sequence.
pub struct ArchivedIterIter<'a, A> {
    cursor: Cursor<'a>,
    remaining: usize,
    _marker: core::marker::PhantomData<A>,
}

/// The chunk size and offsets of an optional block index.
pub open spec fn spec_index_info(bi: Option<BlockIndex>) -> Option<(usize, Seq<usize>)> {
    match bi {
        Some(b) => Some((b.chunk_size, b.offsets@)),
        None => None,
    }
}

impl<'a, A: FixedLayout> ArchivedIterView<'a, A> {
    pub closed spec fn data(&self) -> Seq<u8> {
        self.source@
    }

    /// The bytes fit in the address space.
    pub proof fn lemma_data_len(&self)
        ensures
            self.data().len() <= usize::MAX,
    {
        assert(vstd::slice::spec_slice_len(self.source) == self.source@.len());
    }

    pub closed spec fn start(&self) -> usize {
        self.start_pos
    }

    pub closed spec fn spec_len(&self) -> usize {
        self.len
    }

    /// Chunk size and offsets of the block index, if the view has one.
    pub closed spec fn index_info(&self) -> Option<(usize, Seq<usize>)> {
        spec_index_info(self.block_index)
    }

    /// A view over `len` elements stored at `start_pos` of `source`.
    pub fn new(source: &'a [u8], start_pos: usize, len: usize, block_index: Option<BlockIndex>) -> (r: ArchivedIterView<'a, A>)
        ensures
            r.data() == source@,
            r.start() == start_pos,
            r.spec_len() == len,
            r.index_info() == spec_index_info(block_index),
    {
        ArchivedIterView { source, start_pos, len, block_index, _marker: core::marker::PhantomData }
    }

    pub fn len(&self) -> (r: usize)
        ensures
            r == self.spec_len(),
    {
        self.len
    }

    pub fn is_empty(&self) -> (r: bool)
        ensures
            r == (self.spec_len() == 0),
    {
        self.len == 0
    }

    /// Iterator over all elements from the first.
    pub fn iter(&self) -> (r: ArchivedIterIter<'a, A>)
        ensures
            r.data() == self.data(),
            r.at() == self.start(),
            r.remaining() == self.spec_len(),
            r.yields() == spec_iter_results::<A>(self.data(), self.start() as int, self.spec_len() as nat),
    {
        ArchivedIterIter { cursor: Cursor::new(self.source, self.start_pos), remaining: self.len, _marker: core::marker::PhantomData }
    }

    /// Element `index`, found through the block index when it has the block, else by a
    /// scan from the first element.
    pub fn get(&self, index: usize) -> (r: Result<A, DecodeError>)
        ensures
            r == spec_get::<A>(self.data(), self.start(), self.spec_len(), self.index_info(), index),
    {
        if index >= self.len {
            return Err(DecodeError::ValidationError { message: "ArchivedIter::get index out of bounds", pos: self.start_pos });
        }
        if let Some(bi) = &self.block_index {
            if bi.chunk_size > 0 {
                let block_idx = index / bi.chunk_size;
                let intra = index % bi.chunk_size;
                if let Some(offset) = bi.block_offset(block_idx) {
                    let abs_pos = match self.start_pos.checked_add(offset) {
                        Some(p) => p,
                        None => {
                            return Err(DecodeError::ValidationError { message: "Block offset overflow", pos: self.start_pos });
                        },
                    };
                    let mut cursor = Cursor::new(self.source, abs_pos);
                    skip_elements::<A>(&mut cursor, intra, "Invalid sequence marker during indexed access")?;
                    return read_element::<A>(&mut cursor, "Invalid sequence marker during indexed access");
                }
            }
        }
        let mut cursor = Cursor::new(self.source, self.start_pos);
        skip_elements::<A>(&mut cursor, index, "Invalid sequence marker")?;
        read_element::<A>(&mut cursor, "Invalid sequence marker")
    }

    /// Iterator over the elements from `start` on, placed through the block index when
    /// it has the block; elements that cannot be read are stepped over while placing it.
    pub fn iter_from(&self, start: usize) -> (r: ArchivedIterIter<'a, A>)
        ensures
            r.data() == self.data(),
            start >= self.spec_len() ==> r.remaining() == 0 && r.at() == self.start(),
            start < self.spec_len() ==> r.remaining() == self.spec_len() - start,
            start < self.spec_len() ==> r.at() == spec_iter_from_at::<A>(
                self.data(),
                self.start(),
                self.index_info(),
                start,
            ),
            r.yields() == spec_yields_from::<A>(self.data(), self.start(), self.spec_len(), self.index_info(), start),
    {
        if start >= self.len {
            return ArchivedIterIter { cursor: Cursor::new(self.source, self.start_pos), remaining: 0, _marker: core::marker::PhantomData };
        }
        let remaining = self.len - start;
        if let Some(bi) = &self.block_index {
            if bi.chunk_size > 0 {
                let block_idx = start / bi.chunk_size;
                let intra = start % bi.chunk_size;
                if let Some(offset) = bi.block_offset(block_idx) {
                    if let Some(abs_pos) = self.start_pos.checked_add(offset) {
                        let mut cursor = Cursor::new(self.source, abs_pos);
                        skip_elements_lenient::<A>(&mut cursor, intra);
                        return ArchivedIterIter { cursor, remaining, _marker: core::marker::PhantomData };
                    }
                }
            }
        }
        let mut cursor = Cursor::new(self.source, self.start_pos);
        skip_elements_lenient::<A>(&mut cursor, start);
        ArchivedIterIter { cursor, remaining, _marker: core::marker::PhantomData }
    }
}

impl<'a, A: FixedLayout> ArchivedIterIter<'a, A> {
    pub closed spec fn data(&self) -> Seq<u8> {
        self.cursor.data()
    }

    pub closed spec fn at(&self) -> int {
        self.cursor.at()
    }

    pub closed spec fn remaining(&self) -> nat {
        self.remaining as nat
    }

    /// Everything the iterator is still to yield.
    pub open spec fn yields(&self) -> Seq<Result<A, DecodeError>> {
        spec_iter_results::<A>(self.data(), self.at(), self.remaining())
    }

    /// Number of elements still to come.
    pub fn remaining_len(&self) -> (r: usize)
        ensures
            r == self.remaining(),
    {
        self.remaining
    }

    /// The next element, or nothing when all have been produced.
    pub fn next(&mut self) -> (r: Option<Result<A, DecodeError>>)
        ensures
            final(self).data() == old(self).data(),
            old(self).remaining() == 0 ==> r is None && final(self).at() == old(self).at()
                && final(self).remaining() == 0,
            old(self).remaining() > 0 ==> r == Some(spec_next_step::<A>(old(self).data(), old(self).at()).0)
                && final(self).at() == spec_next_step::<A>(old(self).data(), old(self).at()).1
                && final(self).remaining() == old(self).remaining() - 1,
            old(self).remaining() > 0 ==> r == Some(old(self).yields()[0]) && final(self).yields() == old(
                self,
            ).yields().drop_first(),
    {
        proof {
            if self.remaining() > 0 {
                let d = self.data();
                let p = self.at();
                let q = spec_next_step::<A>(d, p).1;
                let n = self.remaining();
                assert forall|j: int| 0 <= j < n - 1 implies #[trigger] spec_iter_results::<A>(d, q, (n - 1) as nat)[j]
                    == spec_iter_results::<A>(d, p, n)[j + 1] by {
                    lemma_iter_item_shift::<A>(d, p, j as nat);
                }
                assert(spec_iter_results::<A>(d, q, (n - 1) as nat) =~= spec_iter_results::<A>(d, p, n).drop_first());
            }
        }
        if self.remaining == 0 {
            return None;
        }
        self.remaining = self.remaining - 1;
        proof {
            self.cursor.lemma_len_bound();
        }
        match self.cursor.read_u8() {
            Ok(marker) => {
                if marker == SEQUENCE_ELEMENT_MARKER {
                    let alignment = A::alignment();
                    if let Err(e) = self.cursor.align(alignment) {
                        return Some(Err(e));
                    }
                    Some(A::access(&mut self.cursor))
                } else {
                    Some(Err(DecodeError::ValidationError { message: "Invalid sequence marker", pos: self.cursor.pos() - 1 }))
                }
            },
            Err(e) => Some(Err(e)),
        }
    }
}

impl<A: FixedLayout> ArchivedIter<A> {
    /// Checks the elements of a sequence body and reads its terminator; gives the number
    /// of elements.
    pub fn access_sequence_body(cursor: &mut Cursor) -> (r: Result<usize, DecodeError>)
        ensures
            final(cursor).data() == old(cursor).data(),
            match spec_scan_body::<A>(old(cursor).data(), old(cursor).at(), 0) {
                Ok((len, end)) => len <= MAX_SEQUENCE_LEN && r == Ok::<usize, DecodeError>(len as usize)
                    && final(cursor).at() == end,
                Err(e) => r == Err::<usize, DecodeError>(e),
            },
    {
        let mut len: usize = 0;
        loop
            invariant
                cursor.data() == old(cursor).data(),
                len <= MAX_SEQUENCE_LEN,
                spec_scan_body::<A>(old(cursor).data(), old(cursor).at(), 0) == spec_scan_body::<A>(
                    cursor.data(),
                    cursor.at(),
                    len as nat,
                ),
            decreases MAX_SEQUENCE_LEN - len,
        {
            proof {
                cursor.lemma_len_bound();
            }
            let marker = cursor.read_u8()?;
            if marker == SEQUENCE_TERMINATOR {
                return Ok(len);
            } else if marker != SEQUENCE_ELEMENT_MARKER {
                return Err(DecodeError::ValidationError { message: "Invalid sequence marker", pos: cursor.pos() - 1 });
            }
            if len >= MAX_SEQUENCE_LEN {
                return Err(DecodeError::ValidationError { message: "Sequence length exceeds safety limit", pos: cursor.pos() - 1 });
            }
            let _ = read_element_body::<A>(cursor)?;
            len = len + 1;
        }
    }

    /// Reads a sequence at the cursor: checks its elements and reads its block index.
    pub fn access<'a>(cursor: &mut Cursor<'a>) -> (r: Result<ArchivedIterView<'a, A>, DecodeError>)
        ensures
            final(cursor).data() == old(cursor).data(),
            match spec_access_sequence::<A>(old(cursor).data(), old(cursor).at()) {
                Ok((len, info, end)) => r matches Ok(v) && v.data() == old(cursor).data() && v.start() == old(
                    cursor,
                ).at() && v.spec_len() == len && v.index_info() == info && final(cursor).at() == end,
                Err(e) => r matches Err(e2) && e2 == e,
            },
    {
        let start_pos = cursor.pos();
        let len = Self::access_sequence_body(cursor)?;
        let block_index = deserialize_block_index(cursor, len)?;
        Ok(ArchivedIterView { source: cursor.source(), start_pos, len, block_index, _marker: core::marker::PhantomData })
    }

    /// Checks a sequence at the cursor, its block index included.
    pub fn validate(cursor: &mut Cursor) -> (r: Result<(), DecodeError>)
        ensures
            final(cursor).data() == old(cursor).data(),
            match spec_access_sequence::<A>(old(cursor).data(), old(cursor).at()) {
                Ok((_, _, end)) => r is Ok && final(cursor).at() == end,
                Err(e) => r == Err::<(), DecodeError>(e),
            },
    {
        let len = Self::access_sequence_body(cursor)?;
        let _ = deserialize_block_index(cursor, len)?;
        Ok(())
    }
}

} // verus!
