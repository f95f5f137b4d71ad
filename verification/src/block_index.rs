use vstd::prelude::*;
use crate::cursor::Cursor;
use crate::error::{DecodeError, ZebinError};
use crate::varint::{
    VarIntNumber,
    deserialize_u64,
    lemma_read_varint_roundtrip,
    lemma_varint_bytes_shape,
    serialize_u64,
    serialized_len_u64,
    spec_read_varint,
    spec_varint_bytes,
    spec_varint_len,
};

verus! {

broadcast use vstd::slice::group_slice_axioms;

/// Largest number of elements accepted in one sequence while decoding.
pub const MAX_SEQUENCE_LEN: usize = 268435456;

/// Number of elements per block of the sparse index.
pub const DEFAULT_CHUNK_SIZE: usize = 64;

/// Byte that announces a block index after a sequence terminator.
pub const BLOCK_INDEX_MAGIC: u8 = 0x42;

/// `a / b` rounded up.
pub open spec fn spec_div_ceil(a: int, b: int) -> int {
    if a % b == 0 { a / b } else { a / b + 1 }
}

/// The error for a running offset that no longer fits in a `usize`.
pub open spec fn offset_overflow_error(pos: int) -> DecodeError {
    DecodeError::ValidationError { message: "Block index offset overflow", pos: pos as usize }
}

/// Reading `n` delta varints at `pos`, each added to the running total `acc`: the
/// absolute offsets and the position after the last delta.
pub open spec fn spec_read_offsets(data: Seq<u8>, pos: int, n: nat, acc: int) -> Result<(Seq<usize>, int), DecodeError>
    decreases n,
{
    if n == 0 {
        Ok((Seq::empty(), pos))
    } else {
        match spec_read_varint::<usize>(data, pos) {
            Err(e) => Err(e),
            Ok((d, k)) => {
                let a = acc + d;
                if a > usize::MAX {
                    Err(offset_overflow_error(pos + k))
                } else {
                    match spec_read_offsets(data, pos + k, (n - 1) as nat, a) {
                        Err(e) => Err(e),
                        Ok((rest, end)) => Ok((seq![a as usize] + rest, end)),
                    }
                }
            }
        }
    }
}

/// `r` with `pre` put in front of its offsets.
pub open spec fn spec_prefix_offsets(pre: Seq<usize>, r: Result<(Seq<usize>, int), DecodeError>) -> Result<(Seq<usize>, int), DecodeError> {
    match r {
        Err(e) => Err(e),
        Ok((s, end)) => Ok((pre + s, end)),
    }
}

/// What reading a block index at `pos` after a sequence of `len` elements gives:
/// nothing when no magic byte is there, else the chunk size, the absolute block
/// offsets and the position after the index.
pub open spec fn spec_block_index(data: Seq<u8>, pos: int, len: nat) -> Result<Option<(usize, Seq<usize>, int)>, DecodeError> {
    if pos >= data.len() {
        Ok(None)
    } else if data[pos] != BLOCK_INDEX_MAGIC {
        Ok(None)
    } else {
        match spec_read_varint::<usize>(data, pos + 1) {
            Err(e) => Err(e),
            Ok((c, k1)) => {
                if c == 0 {
                    Err(DecodeError::ValidationError { message: "Block index chunk_size must be > 0", pos: (pos + 1 + k1) as usize })
                } else {
                    match spec_read_varint::<usize>(data, pos + 1 + k1) {
                        Err(e) => Err(e),
                        Ok((nb, k2)) => {
                            let p = pos + 1 + k1 + k2;
                            if nb != spec_div_ceil(len as int, c as int) {
                                Err(DecodeError::ValidationError { message: "Block index num_blocks mismatch", pos: p as usize })
                            } else {
                                match spec_read_offsets(data, p, nb as nat, 0) {
                                    Err(e) => Err(e),
                                    Ok((offs, end)) => Ok(Some((c, offs, end))),
                                }
                            }
                        }
                    }
                }
            }
        }
    }
}

/// Skipping `n` varints at `pos`: the position after them.
pub open spec fn spec_skip_varints(data: Seq<u8>, pos: int, n: nat) -> Result<int, DecodeError>
    decreases n,
{
    if n == 0 {
        Ok(pos)
    } else {
        match spec_read_varint::<usize>(data, pos) {
            Err(e) => Err(e),
            Ok((_, k)) => spec_skip_varints(data, pos + k, (n - 1) as nat),
        }
    }
}

/// Skipping a block index at `pos`, if one is there: the position after it.
pub open spec fn spec_skip_block_index(data: Seq<u8>, pos: int) -> Result<int, DecodeError> {
    if pos >= data.len() {
        Ok(pos)
    } else if data[pos] != BLOCK_INDEX_MAGIC {
        Ok(pos)
    } else {
        match spec_read_varint::<usize>(data, pos + 1) {
            Err(e) => Err(e),
            Ok((_, k1)) => match spec_read_varint::<usize>(data, pos + 1 + k1) {
                Err(e) => Err(e),
                Ok((nb, k2)) => spec_skip_varints(data, pos + 1 + k1 + k2, nb as nat),
            },
        }
    }
}

/// Delta encoding of `offsets`, each delta taken from the previous offset (`prev` for
/// the first one).
pub open spec fn spec_offset_deltas_bytes(offsets: Seq<usize>, prev: int) -> Seq<u8>
    decreases offsets.len(),
{
    if offsets.len() == 0 {
        Seq::empty()
    } else {
        spec_varint_bytes((offsets[0] - prev) as u64) + spec_offset_deltas_bytes(offsets.drop_first(), offsets[0] as int)
    }
}

/// The bytes of a block index: the magic byte, the chunk size, the number of blocks
/// and the delta-encoded block offsets.
pub open spec fn spec_block_index_bytes(chunk_size: usize, offsets: Seq<usize>) -> Seq<u8> {
    seq![BLOCK_INDEX_MAGIC] + spec_varint_bytes(chunk_size as u64) + spec_varint_bytes(offsets.len() as u64)
        + spec_offset_deltas_bytes(offsets, 0)
}

/// Offsets that never decrease.
pub open spec fn offsets_sorted(offsets: Seq<usize>) -> bool {
    forall|i: int, j: int| 0 <= i <= j < offsets.len() ==> offsets[i] <= offsets[j]
}

/// Sparse block index over a sequence: for every block of `chunk_size` elements, the
/// byte offset of its first element marker from the start of the sequence.
#[derive(Debug, Clone)]
pub struct BlockIndex {
    pub chunk_size: usize,
    pub offsets: Vec<usize>,
}

/// Block index kept as the position of its raw deltas, read again on each lookup.
#[derive(Debug, Clone, Copy)]
pub struct BlockIndexNoAllocState {
    pub num_blocks: usize,
    pub raw_delta_start: usize,
}

impl BlockIndex {
    /// Offset of block `block_idx`, if there is such a block.
    pub fn block_offset(&self, block_idx: usize) -> (r: Option<usize>)
        ensures
            r == (if block_idx < self.offsets@.len() {
                Some(self.offsets@[block_idx as int])
            } else {
                None
            }),
    {
        if block_idx < self.offsets.len() {
            Some(self.offsets[block_idx])
        } else {
            None
        }
    }
}

/// Offset of block `idx` read from the deltas at `start`, or nothing when there is no
/// such block or the deltas cannot be read.
pub open spec fn spec_offset_from_bytes(data: Seq<u8>, start: int, num_blocks: nat, idx: nat) -> Option<usize> {
    if idx >= num_blocks {
        None
    } else {
        match spec_read_offsets(data, start, idx + 1, 0) {
            Ok((offs, _)) => Some(offs[idx as int]),
            Err(_) => None,
        }
    }
}

impl BlockIndexNoAllocState {
    /// Offset of block `block_idx`, decoded from the deltas in `bytes`.
    pub fn block_offset_from_bytes(&self, bytes: &[u8], block_idx: usize) -> (r: Option<usize>)
        ensures
            r == spec_offset_from_bytes(bytes@, self.raw_delta_start as int, self.num_blocks as nat, block_idx as nat),
    {
        if block_idx >= self.num_blocks {
            return None;
        }
        let mut cursor = Cursor::new(bytes, self.raw_delta_start);
        match read_block_offsets(&mut cursor, block_idx + 1) {
            Ok(offsets) => Some(offsets[block_idx]),
            Err(_) => None,
        }
    }
}

/// Reads `n` delta varints at the cursor and returns the running totals.
pub fn read_block_offsets(cursor: &mut Cursor, n: usize) -> (r: Result<Vec<usize>, DecodeError>)
    ensures
        final(cursor).data() == old(cursor).data(),
        match spec_read_offsets(old(cursor).data(), old(cursor).at(), n as nat, 0) {
            Ok((offs, end)) => r matches Ok(v) && v@ == offs && final(cursor).at() == end,
            Err(e) => r == Err::<Vec<usize>, DecodeError>(e),
        },
        r matches Ok(v) ==> v@.len() == n,
{
    let ghost data = cursor.data();
    let ghost start = cursor.at();
    let mut offsets: Vec<usize> = Vec::new();
    let mut abs: usize = 0;
    let mut i: usize = 0;
    while i < n
        invariant
            i <= n,
            cursor.data() == data,
            data == old(cursor).data(),
            start == old(cursor).at(),
            offsets@.len() == i,
            spec_read_offsets(data, start, n as nat, 0) == spec_prefix_offsets(
                offsets@,
                spec_read_offsets(data, cursor.at(), (n - i) as nat, abs as int),
            ),
        decreases n - i,
    {
        let ghost before = cursor.at();
        let delta: usize = deserialize_u64::<usize>(cursor)?;
        let next = match abs.checked_add(delta) {
            Some(v) => v,
            None => {
                return Err(DecodeError::ValidationError { message: "Block index offset overflow", pos: cursor.pos() });
            },
        };
        let ghost old_offsets = offsets@;
        offsets.push(next);
        proof {
            let rest = spec_read_offsets(data, cursor.at(), (n - i - 1) as nat, next as int);
            match rest {
                Ok((s, end)) => {
                    assert(old_offsets + (seq![next] + s) =~= offsets@ + s);
                },
                Err(_) => {},
            }
        }
        abs = next;
        i = i + 1;
    }
    proof {
        assert(offsets@ + Seq::<usize>::empty() =~= offsets@);
    }
    Ok(offsets)
}

/// Reads the block index after a sequence of `len` elements, if one is there.
pub fn deserialize_block_index(cursor: &mut Cursor, len: usize) -> (r: Result<Option<BlockIndex>, DecodeError>)
    ensures
        final(cursor).data() == old(cursor).data(),
        match spec_block_index(old(cursor).data(), old(cursor).at(), len as nat) {
            Ok(None) => r matches Ok(None) && final(cursor).at() == old(cursor).at(),
            Ok(Some((c, offs, end))) => r matches Ok(Some(bi)) && bi.chunk_size == c && bi.offsets@ == offs
                && final(cursor).at() == end,
            Err(e) => r == Err::<Option<BlockIndex>, DecodeError>(e),
        },
{
    if cursor.remaining() == 0 {
        return Ok(None);
    }
    let peeked = cursor.peek_exact(1)?;
    proof {
        cursor.lemma_len_bound();
        assert(peeked@ == cursor.data().subrange(cursor.at(), cursor.at() + 1));
        assert(peeked@.len() == 1);
    }
    if peeked[0] != BLOCK_INDEX_MAGIC {
        return Ok(None);
    }
    cursor.advance(1)?;
    let chunk_size: usize = deserialize_u64::<usize>(cursor)?;
    if chunk_size == 0 {
        return Err(DecodeError::ValidationError { message: "Block index chunk_size must be > 0", pos: cursor.pos() });
    }
    let num_blocks: usize = deserialize_u64::<usize>(cursor)?;
    proof {
        assert(chunk_size >= 2 ==> len / chunk_size < usize::MAX) by (nonlinear_arith)
            requires
                chunk_size > 0,
        ;
    }
    let expected_blocks = len / chunk_size + if len % chunk_size == 0 { 0 } else { 1 };
    if num_blocks != expected_blocks {
        return Err(DecodeError::ValidationError { message: "Block index num_blocks mismatch", pos: cursor.pos() });
    }
    let offsets = read_block_offsets(cursor, num_blocks)?;
    Ok(Some(BlockIndex { chunk_size, offsets }))
}

/// Skips `n` varints at the cursor.
pub fn skip_varints(cursor: &mut Cursor, n: usize) -> (r: Result<(), DecodeError>)
    ensures
        final(cursor).data() == old(cursor).data(),
        match spec_skip_varints(old(cursor).data(), old(cursor).at(), n as nat) {
            Ok(end) => r is Ok && final(cursor).at() == end,
            Err(e) => r == Err::<(), DecodeError>(e),
        },
{
    let mut i: usize = 0;
    while i < n
        invariant
            i <= n,
            cursor.data() == old(cursor).data(),
            spec_skip_varints(old(cursor).data(), old(cursor).at(), n as nat) == spec_skip_varints(
                cursor.data(),
                cursor.at(),
                (n - i) as nat,
            ),
        decreases n - i,
    {
        let _delta: usize = deserialize_u64::<usize>(cursor)?;
        i = i + 1;
    }
    Ok(())
}

/// Skips a block index at the cursor without keeping it.
pub fn skip_block_index(cursor: &mut Cursor) -> (r: Result<(), DecodeError>)
    ensures
        final(cursor).data() == old(cursor).data(),
        match spec_skip_block_index(old(cursor).data(), old(cursor).at()) {
            Ok(end) => r is Ok && final(cursor).at() == end,
            Err(e) => r == Err::<(), DecodeError>(e),
        },
{
    if cursor.remaining() == 0 {
        return Ok(());
    }
    let peeked = cursor.peek_exact(1)?;
    proof {
        cursor.lemma_len_bound();
        assert(peeked@ == cursor.data().subrange(cursor.at(), cursor.at() + 1));
        assert(peeked@.len() == 1);
    }
    if peeked[0] != BLOCK_INDEX_MAGIC {
        return Ok(());
    }
    cursor.advance(1)?;
    let _chunk_size: usize = deserialize_u64::<usize>(cursor)?;
    let num_blocks: usize = deserialize_u64::<usize>(cursor)?;
    skip_varints(cursor, num_blocks)
}

/// The block index section for `offsets`, grouped by `chunk_size`.
pub fn build_block_index_bytes(chunk_size: usize, offsets: &[usize]) -> (r: Vec<u8>)
    requires
        offsets_sorted(offsets@),
    ensures
        r@ == spec_block_index_bytes(chunk_size, offsets@),
{
    let mut buf: Vec<u8> = Vec::new();
    buf.push(BLOCK_INDEX_MAGIC);
    serialize_u64(chunk_size as u64, &mut buf);
    serialize_u64(offsets.len() as u64, &mut buf);
    let ghost header = buf@;
    let mut prev: usize = 0;
    let mut i: usize = 0;
    proof {
        assert(offsets@.skip(0) =~= offsets@);
    }
    while i < offsets.len()
        invariant
            i <= offsets@.len(),
            offsets_sorted(offsets@),
            i > 0 ==> prev == offsets@[i - 1],
            i == 0 ==> prev == 0,
            header == seq![BLOCK_INDEX_MAGIC] + spec_varint_bytes(chunk_size as u64) + spec_varint_bytes(
                offsets@.len() as u64,
            ),
            buf@ + spec_offset_deltas_bytes(offsets@.skip(i as int), prev as int) == header
                + spec_offset_deltas_bytes(offsets@, 0),
        decreases offsets@.len() - i,
    {
        let offset = offsets[i];
        let delta = offset - prev;
        let ghost old_buf = buf@;
        proof {
            let s = offsets@.skip(i as int);
            assert(s[0] == offset);
            assert(s.drop_first() =~= offsets@.skip(i + 1));
        }
        serialize_u64(delta as u64, &mut buf);
        proof {
            let s = offsets@.skip(i as int);
            assert(buf@ + spec_offset_deltas_bytes(offsets@.skip(i + 1), offset as int) =~= old_buf
                + spec_offset_deltas_bytes(s, prev as int));
        }
        prev = offset;
        i = i + 1;
    }
    proof {
        assert(offsets@.skip(i as int).len() == 0);
        assert(buf@ + Seq::<u8>::empty() =~= buf@);
    }
    buf
}

/// Upper bound on the bytes of a block index over `element_count` elements whose body
/// takes `seq_body_len` bytes: every delta is counted at the size of the whole body.
pub open spec fn spec_block_index_overhead(element_count: int, seq_body_len: int) -> int {
    let num_blocks = spec_div_ceil(element_count, DEFAULT_CHUNK_SIZE as int);
    1 + spec_varint_len(DEFAULT_CHUNK_SIZE as u64) + spec_varint_len(num_blocks as u64) + num_blocks
        * spec_varint_len(seq_body_len as u64)
}

/// Estimated size of the block index written after a sequence.
pub fn measure_block_index_overhead(element_count: usize, seq_body_len: usize) -> (r: Result<usize, ZebinError>)
    ensures
        r == Ok::<usize, ZebinError>(spec_block_index_overhead(element_count as int, seq_body_len as int) as usize),
        spec_block_index_overhead(element_count as int, seq_body_len as int) <= usize::MAX,
{
    let chunk_size = DEFAULT_CHUNK_SIZE;
    let num_blocks = element_count / chunk_size + if element_count % chunk_size == 0 { 0 } else { 1 };
    let chunk_len = serialized_len_u64(chunk_size as u64);
    let blocks_len = serialized_len_u64(num_blocks as u64);
    let delta_len = serialized_len_u64(seq_body_len as u64);
    proof {
        assert(num_blocks * delta_len <= num_blocks * 10) by (nonlinear_arith)
            requires
                delta_len <= 10,
        ;
        assert(num_blocks <= usize::MAX / 64 + 1);
    }
    let overhead = 1 + chunk_len + blocks_len + num_blocks * delta_len;
    Ok(overhead)
}

/// `data` holds `a + b` at `pos` exactly when it holds `a` there and `b` right after.
pub proof fn lemma_subrange_concat(data: Seq<u8>, pos: int, a: Seq<u8>, b: Seq<u8>)
    requires
        0 <= pos,
        pos + a.len() + b.len() <= data.len(),
        data.subrange(pos, pos + a.len() + b.len()) == a + b,
    ensures
        data.subrange(pos, pos + a.len()) == a,
        data.subrange(pos + a.len(), pos + a.len() + b.len()) == b,
{
    assert(data.subrange(pos, pos + a.len()) =~= (a + b).subrange(0, a.len() as int));
    assert(data.subrange(pos + a.len(), pos + a.len() + b.len()) =~= (a + b).subrange(
        a.len() as int,
        (a.len() + b.len()) as int,
    ));
}

/// Reading back the delta encoding of sorted offsets gives the offsets.
pub proof fn lemma_read_offsets_roundtrip(data: Seq<u8>, pos: int, offsets: Seq<usize>, prev: usize)
    requires
        0 <= pos,
        offsets_sorted(offsets),
        offsets.len() > 0 ==> prev <= offsets[0],
        pos + spec_offset_deltas_bytes(offsets, prev as int).len() <= data.len(),
        data.subrange(pos, pos + spec_offset_deltas_bytes(offsets, prev as int).len())
            == spec_offset_deltas_bytes(offsets, prev as int),
    ensures
        spec_read_offsets(data, pos, offsets.len(), prev as int) == Ok::<(Seq<usize>, int), DecodeError>(
            (offsets, pos + spec_offset_deltas_bytes(offsets, prev as int).len()),
        ),
    decreases offsets.len(),
{
    if offsets.len() > 0 {
        let d = (offsets[0] - prev) as usize;
        let head = spec_varint_bytes(d as u64);
        let tail = spec_offset_deltas_bytes(offsets.drop_first(), offsets[0] as int);
        assert(((offsets[0] - prev) as u64) == d as u64);
        lemma_varint_bytes_shape(d as u64);
        lemma_subrange_concat(data, pos, head, tail);
        lemma_read_varint_roundtrip::<usize>(data, pos, d);
        assert(offsets.drop_first().len() > 0 ==> offsets[0] <= offsets.drop_first()[0]);
        assert(offsets_sorted(offsets.drop_first())) by {
            assert forall|i: int, j: int| 0 <= i <= j < offsets.drop_first().len() implies offsets.drop_first()[i]
                <= offsets.drop_first()[j] by {
                assert(offsets.drop_first()[i] == offsets[i + 1]);
                assert(offsets.drop_first()[j] == offsets[j + 1]);
            }
        }
        assert(spec_offset_deltas_bytes(offsets, prev as int) == head + tail);
        lemma_read_offsets_roundtrip(data, pos + head.len(), offsets.drop_first(), offsets[0]);
        assert(seq![offsets[0]] + offsets.drop_first() =~= offsets);
        assert(spec_read_varint::<usize>(data, pos) == Ok::<(usize, nat), DecodeError>((d, head.len())));
        assert(prev + d == offsets[0]);
        let n = offsets.len();
        assert(((n - 1) as nat) == offsets.drop_first().len());
        assert(pos + head.len() + tail.len() == pos + spec_offset_deltas_bytes(offsets, prev as int).len());
    } else {
        assert(offsets =~= Seq::<usize>::empty());
    }
}

/// Reading back a block index section written for sorted offsets gives its chunk size,
/// its offsets and its end, when the number of offsets is the one the sequence length
/// calls for.
pub proof fn lemma_block_index_roundtrip(data: Seq<u8>, pos: int, len: usize, chunk_size: usize, offsets: Seq<usize>)
    requires
        0 <= pos,
        chunk_size > 0,
        offsets_sorted(offsets),
        offsets.len() == spec_div_ceil(len as int, chunk_size as int),
        pos + spec_block_index_bytes(chunk_size, offsets).len() <= data.len(),
        data.subrange(pos, pos + spec_block_index_bytes(chunk_size, offsets).len()) == spec_block_index_bytes(
            chunk_size,
            offsets,
        ),
    ensures
        spec_block_index(data, pos, len as nat) == Ok::<Option<(usize, Seq<usize>, int)>, DecodeError>(
            Some((chunk_size, offsets, pos + spec_block_index_bytes(chunk_size, offsets).len())),
        ),
{
    let magic = seq![BLOCK_INDEX_MAGIC];
    let cb = spec_varint_bytes(chunk_size as u64);
    let nbb = spec_varint_bytes(offsets.len() as u64);
    let deltas = spec_offset_deltas_bytes(offsets, 0);
    let all = spec_block_index_bytes(chunk_size, offsets);
    assert(all == magic + cb + nbb + deltas);
    lemma_varint_bytes_shape(chunk_size as u64);
    lemma_varint_bytes_shape(offsets.len() as u64);
    lemma_subrange_concat(data, pos, magic + cb + nbb, deltas);
    lemma_subrange_concat(data, pos, magic + cb, nbb);
    lemma_subrange_concat(data, pos, magic, cb);
    assert(data[pos] == data.subrange(pos, pos + 1)[0]);
    assert(offsets.len() <= usize::MAX) by {
        assert(spec_div_ceil(len as int, chunk_size as int) <= len) by (nonlinear_arith)
            requires
                chunk_size > 0,
                len >= 0,
        {
            if (len as int) % (chunk_size as int) != 0 {
                assert(len as int / chunk_size as int * chunk_size as int + (len as int) % (chunk_size as int)
                    == len);
            }
        }
    }
    let nb = offsets.len() as usize;
    assert(nb as u64 == offsets.len() as u64);
    lemma_read_varint_roundtrip::<usize>(data, pos + 1, chunk_size);
    lemma_read_varint_roundtrip::<usize>(data, pos + 1 + cb.len(), nb);
    lemma_read_offsets_roundtrip(data, pos + 1 + cb.len() + nbb.len(), offsets, 0);
}

} // verus!
