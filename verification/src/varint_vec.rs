use vstd::prelude::*;
use vstd::bytes::*;
use crate::block_index::lemma_subrange_concat;
use crate::cursor::{Cursor, range_error};
use crate::error::{DecodeError, ZebinError};
use crate::sink::{CursorMut, Poll, flush_bytes, is_full, room};
use crate::varint::{
    VarIntNumber,
    deserialize_u64,
    encode_u64,
    lemma_read_varint_roundtrip,
    lemma_varint_bytes_shape,
    spec_read_varint,
    spec_varint_bytes,
};

verus! {

broadcast use vstd::slice::group_slice_axioms;

/// Reading `n` varints of type `T` at `pos`: the values and the position after them.
pub open spec fn spec_read_varints<T: VarIntNumber>(data: Seq<u8>, pos: int, n: nat) -> Result<(Seq<T>, int), DecodeError>
    decreases n,
{
    if n == 0 {
        Ok((Seq::empty(), pos))
    } else {
        match spec_read_varint::<T>(data, pos) {
            Err(e) => Err(e),
            Ok((v, k)) => match spec_read_varints::<T>(data, pos + k, (n - 1) as nat) {
                Err(e) => Err(e),
                Ok((rest, end)) => Ok((seq![v] + rest, end)),
            },
        }
    }
}

/// What reading a varint vector at `pos` gives: a 32-bit count, then that many varints.
pub open spec fn spec_varint_vec_access<T: VarIntNumber>(data: Seq<u8>, pos: int) -> Result<(Seq<T>, int), DecodeError> {
    if pos + 4 > data.len() {
        Err(range_error(pos as usize, 4))
    } else {
        spec_read_varints::<T>(data, pos + 4, spec_u32_from_le_bytes(data.subrange(pos, pos + 4)) as nat)
    }
}

/// The varint encodings of `values`, one after the other.
pub open spec fn spec_varints_bytes<T: VarIntNumber>(values: Seq<T>) -> Seq<u8>
    decreases values.len(),
{
    if values.len() == 0 {
        Seq::empty()
    } else {
        spec_varint_bytes(T::spec_to_u64(values[0])) + spec_varints_bytes(values.drop_first())
    }
}

/// The bytes of a varint vector: the count as 4 little-endian bytes, then the varints.
pub open spec fn spec_varint_vec_bytes<T: VarIntNumber>(values: Seq<T>) -> Seq<u8> {
    spec_u32_to_le_bytes(values.len() as u32) + spec_varints_bytes(values)
}

/// Values to be written as a varint vector.
pub struct VarIntVec<T> {
    pub values: Vec<T>,
}

impl<T> VarIntVec<T> {
    pub fn new(values: Vec<T>) -> (r: VarIntVec<T>)
        ensures
            r.values@ == values@,
    {
        VarIntVec { values }
    }
}

/// Borrowed values to be written as a varint vector.
pub struct PackedVarIntSlice<'a, T> {
    pub values: &'a [T],
}

impl<'a, T> PackedVarIntSlice<'a, T> {
    pub fn new(values: &'a [T]) -> (r: PackedVarIntSlice<'a, T>)
        ensures
            r.values@ == values@,
    {
        PackedVarIntSlice { values }
    }
}

/// A varint vector, read back.
pub struct ArchivedVarIntVec<T> {
    values: Vec<T>,
}

impl<T: VarIntNumber> ArchivedVarIntVec<T> {
    pub closed spec fn spec_values(&self) -> Seq<T> {
        self.values@
    }

    pub fn len(&self) -> (r: usize)
        ensures
            r == self.spec_values().len(),
    {
        self.values.len()
    }

    pub fn is_empty(&self) -> (r: bool)
        ensures
            r == (self.spec_values().len() == 0),
    {
        self.values.len() == 0
    }

    /// Value `index`, or nothing past the end.
    pub fn get(&self, index: usize) -> (r: Option<T>)
        ensures
            r == (if index < self.spec_values().len() {
                Some(self.spec_values()[index as int])
            } else {
                None
            }),
    {
        if index < self.values.len() {
            Some(self.values[index])
        } else {
            None
        }
    }

    /// All values, in order.
    pub fn iter(&self) -> (r: Vec<T>)
        ensures
            r@ == self.spec_values(),
    {
        let mut out: Vec<T> = Vec::new();
        let mut i: usize = 0;
        while i < self.values.len()
            invariant
                i <= self.values@.len(),
                out@ == self.values@.take(i as int),
            decreases self.values@.len() - i,
        {
            out.push(self.values[i]);
            proof {
                assert(self.values@.take(i + 1) =~= self.values@.take(i as int).push(self.values@[i as int]));
            }
            i = i + 1;
        }
        proof {
            assert(self.values@.take(i as int) =~= self.values@);
        }
        out
    }

    /// Reads a varint vector at the cursor.
    pub fn access(cursor: &mut Cursor) -> (r: Result<ArchivedVarIntVec<T>, DecodeError>)
        ensures
            final(cursor).data() == old(cursor).data(),
            match spec_varint_vec_access::<T>(old(cursor).data(), old(cursor).at()) {
                Ok((values, end)) => r matches Ok(v) && v.spec_values() == values && final(cursor).at() == end,
                Err(e) => r matches Err(e2) && e2 == e,
            },
    {
        proof {
            cursor.lemma_len_bound();
        }
        let len = cursor.read_u32()? as usize;
        let values = read_varints::<T>(cursor, len)?;
        Ok(ArchivedVarIntVec { values })
    }

    /// Checks a varint vector at the cursor.
    pub fn validate(cursor: &mut Cursor) -> (r: Result<(), DecodeError>)
        ensures
            final(cursor).data() == old(cursor).data(),
            match spec_varint_vec_access::<T>(old(cursor).data(), old(cursor).at()) {
                Ok((_, end)) => r is Ok && final(cursor).at() == end,
                Err(e) => r == Err::<(), DecodeError>(e),
            },
    {
        let _ = Self::access(cursor)?;
        Ok(())
    }
}

/// `r` with `pre` put in front of its values.
pub open spec fn spec_prefix_values<T>(pre: Seq<T>, r: Result<(Seq<T>, int), DecodeError>) -> Result<(Seq<T>, int), DecodeError> {
    match r {
        Err(e) => Err(e),
        Ok((s, end)) => Ok((pre + s, end)),
    }
}

/// Reads `n` varints of type `T` at the cursor.
pub fn read_varints<T: VarIntNumber>(cursor: &mut Cursor, n: usize) -> (r: Result<Vec<T>, DecodeError>)
    ensures
        final(cursor).data() == old(cursor).data(),
        match spec_read_varints::<T>(old(cursor).data(), old(cursor).at(), n as nat) {
            Ok((values, end)) => r matches Ok(v) && v@ == values && final(cursor).at() == end,
            Err(e) => r matches Err(e2) && e2 == e,
        },
{
    let ghost data = cursor.data();
    let ghost start = cursor.at();
    let mut values: Vec<T> = Vec::new();
    let mut i: usize = 0;
    while i < n
        invariant
            i <= n,
            cursor.data() == data,
            data == old(cursor).data(),
            start == old(cursor).at(),
            spec_read_varints::<T>(data, start, n as nat) == spec_prefix_values(
                values@,
                spec_read_varints::<T>(data, cursor.at(), (n - i) as nat),
            ),
        decreases n - i,
    {
        let v = deserialize_u64::<T>(cursor)?;
        let ghost old_values = values@;
        values.push(v);
        proof {
            match spec_read_varints::<T>(data, cursor.at(), (n - i - 1) as nat) {
                Ok((s, end)) => {
                    assert(old_values + (seq![v] + s) =~= values@ + s);
                },
                Err(_) => {},
            }
        }
        i = i + 1;
    }
    proof {
        assert(values@ + Seq::<T>::empty() =~= values@);
    }
    Ok(values)
}

/// Resumable writer of a varint vector: the count, then each value's varint.
pub struct VarIntSeqWriter<T> {
    values: Vec<T>,
    len_prefix: Vec<u8>,
    prefix_cursor: usize,
    index: usize,
    cursor: usize,
    current_val_buf: Vec<u8>,
    current_val_len: usize,
    emitted: Ghost<Seq<u8>>,
}

impl<T: VarIntNumber> VarIntSeqWriter<T> {
    pub closed spec fn spec_values(&self) -> Seq<T> {
        self.values@
    }

    /// Everything the writer writes for its values.
    pub open spec fn stream(&self) -> Seq<u8> {
        spec_u32_to_le_bytes(self.spec_values().len() as u32) + spec_varints_bytes(self.spec_values())
    }

    /// What has been written of it.
    pub closed spec fn emitted(&self) -> Seq<u8> {
        self.emitted@
    }

    pub closed spec fn wf(&self) -> bool {
        let vals = self.values@;
        let pre = spec_u32_to_le_bytes(vals.len() as u32);
        &&& self.len_prefix@ == pre
        &&& self.prefix_cursor <= 4
        &&& self.index <= vals.len()
        &&& if self.prefix_cursor < 4 {
            &&& self.index == 0
            &&& self.current_val_len == 0
            &&& self.emitted@ == pre.subrange(0, self.prefix_cursor as int)
        } else {
            &&& (self.current_val_len > 0 ==> self.index < vals.len() && self.current_val_buf@ == spec_varint_bytes(
                T::spec_to_u64(vals[self.index as int]),
            ) && self.current_val_len == self.current_val_buf@.len() && self.cursor < self.current_val_len)
            &&& self.emitted@ == pre + spec_varints_bytes(vals.take(self.index as int)) + (if self.current_val_len > 0 {
                self.current_val_buf@.subrange(0, self.cursor as int)
            } else {
                Seq::empty()
            })
        }
    }

    pub fn new() -> (r: VarIntSeqWriter<T>)
        ensures
            r.wf(),
            r.spec_values() == Seq::<T>::empty(),
            r.emitted() == Seq::<u8>::empty(),
    {
        let len_prefix = u32_to_le_bytes(0);
        let r = VarIntSeqWriter {
            values: Vec::new(),
            len_prefix,
            prefix_cursor: 0,
            index: 0,
            cursor: 0,
            current_val_buf: Vec::new(),
            current_val_len: 0,
            emitted: Ghost(Seq::empty()),
        };
        proof {
            assert(r.len_prefix@.subrange(0, 0) =~= Seq::<u8>::empty());
        }
        r
    }

    /// Takes the values and writes as much as the sink takes.
    pub fn input<S: CursorMut>(&mut self, values: Vec<T>, sink: &mut S) -> (r: Result<Poll, ZebinError>)
        requires
            old(sink).inv(),
        ensures
            final(sink).inv(),
            final(sink).limit() == old(sink).limit(),
            r == Ok::<Poll, ZebinError>(Poll::Pending) ==> is_full(*final(sink)),
            final(self).spec_values() == values@,
            final(self).emitted().len() <= final(self).stream().len(),
            final(self).stream().subrange(0, final(self).emitted().len() as int) == final(self).emitted(),
            final(sink).written() == old(sink).written() + final(self).emitted(),
            r is Ok ==> final(self).wf(),
            r matches Ok(p) ==> (p == Poll::Ready <==> final(self).emitted() == final(self).stream()),
            r is Err ==> final(self).stream().len() > room(*old(sink)) && !S::never_refuses(),
    {
        let len = values.len() as u32;
        self.values = values;
        self.len_prefix = u32_to_le_bytes(len);
        self.prefix_cursor = 0;
        self.index = 0;
        self.cursor = 0;
        self.current_val_len = 0;
        self.emitted = Ghost(Seq::empty());
        proof {
            assert(self.len_prefix@.subrange(0, 0) =~= Seq::<u8>::empty());
            assert(old(sink).written() + Seq::<u8>::empty() =~= old(sink).written());
            self.lemma_wf_prefix();
        }
        let r = self.poll_pending(sink);
        proof {
            assert(self.emitted@.subrange(0, 0) =~= Seq::<u8>::empty());
            assert(self.emitted@.subrange(0, self.emitted@.len() as int) =~= self.emitted@);
        }
        r
    }

    /// What a well-formed writer has written is the start of its stream.
    pub proof fn lemma_wf_prefix(&self)
        requires
            self.wf(),
        ensures
            self.emitted().len() <= self.stream().len(),
            self.stream().subrange(0, self.emitted().len() as int) == self.emitted(),
    {
        let vals = self.values@;
        let pre = spec_u32_to_le_bytes(vals.len() as u32);
        lemma_auto_spec_u32_to_from_le_bytes();
        if self.prefix_cursor < 4 {
            assert(self.stream().subrange(0, self.emitted@.len() as int) =~= self.emitted@);
        } else {
            lemma_varints_prefix(vals, self.index as int);
            let a = spec_varints_bytes(vals.take(self.index as int));
            let all = spec_varints_bytes(vals);
            if self.current_val_len > 0 {
                lemma_varints_prefix(vals, self.index + 1);
                lemma_varints_step(vals, self.index as int);
                let b = spec_varints_bytes(vals.take(self.index + 1));
                let c = self.cursor as int;
                assert(b.subrange(0, a.len() + c) =~= a + self.current_val_buf@.subrange(0, c));
                assert(all.subrange(0, a.len() + c) =~= b.subrange(0, a.len() + c));
                assert(self.stream().subrange(0, self.emitted@.len() as int) =~= pre + all.subrange(0, a.len() + c));
            } else {
                assert(self.stream().subrange(0, self.emitted@.len() as int) =~= pre + all.subrange(0, a.len() as int));
            }
            assert(self.stream().subrange(0, self.emitted@.len() as int) =~= self.emitted@);
        }
    }

    /// Writes as much of the count and the varints as the sink takes.
    pub fn poll_pending<S: CursorMut>(&mut self, sink: &mut S) -> (r: Result<Poll, ZebinError>)
        requires
            old(sink).inv(),
            old(self).wf(),
        ensures
            final(sink).inv(),
            final(sink).limit() == old(sink).limit(),
            r == Ok::<Poll, ZebinError>(Poll::Pending) ==> is_full(*final(sink)),
            final(self).spec_values() == old(self).spec_values(),
            old(self).emitted().len() <= final(self).emitted().len() <= final(self).stream().len(),
            final(self).emitted().subrange(0, old(self).emitted().len() as int) == old(self).emitted(),
            final(self).stream().subrange(0, final(self).emitted().len() as int) == final(self).emitted(),
            final(sink).written() == old(sink).written() + final(self).emitted().subrange(
                old(self).emitted().len() as int,
                final(self).emitted().len() as int,
            ),
            r is Ok ==> final(self).wf(),
            r matches Ok(p) ==> (p == Poll::Ready <==> final(self).emitted() == final(self).stream()),
            r is Err ==> old(self).stream().len() - old(self).emitted().len() > room(*old(sink)) && !S::never_refuses(),
    {
        let ghost e0 = self.emitted@;
        let ghost w0 = sink.written();
        let ghost vals = self.values@;
        let ghost pre = spec_u32_to_le_bytes(vals.len() as u32);
        proof {
            lemma_auto_spec_u32_to_from_le_bytes();
            self.lemma_wf_prefix();
        }
        if self.prefix_cursor < 4 {
            let ghost c0 = self.prefix_cursor;
            let res = flush_bytes(sink, self.len_prefix.as_slice(), &mut self.prefix_cursor);
            self.emitted = Ghost(pre.subrange(0, self.prefix_cursor as int));
            proof {
                assert(self.emitted@ =~= e0 + pre.subrange(c0 as int, self.prefix_cursor as int));
                assert(self.emitted@.subrange(0, e0.len() as int) =~= e0);
                assert(self.emitted@.subrange(e0.len() as int, self.emitted@.len() as int) =~= pre.subrange(
                    c0 as int,
                    self.prefix_cursor as int,
                ));
                if self.prefix_cursor == 4 {
                    assert(vals.take(0) =~= Seq::<T>::empty());
                    assert(self.emitted@ =~= pre + spec_varints_bytes(vals.take(0)) + Seq::<u8>::empty());
                }
                self.lemma_wf_prefix();
            }
            match res? {
                Poll::Pending => {
                    return Ok(Poll::Pending);
                },
                Poll::Ready => {},
            }
        }
        while self.index < self.values.len()
            invariant
                self.wf(),
                self.prefix_cursor == 4,
                self.values@ == vals,
                pre == spec_u32_to_le_bytes(vals.len() as u32),
                sink.inv(),
                sink.limit() == old(sink).limit(),
                e0.len() <= self.emitted@.len(),
                self.emitted@.subrange(0, e0.len() as int) == e0,
                sink.written() == w0 + self.emitted@.subrange(e0.len() as int, self.emitted@.len() as int),
                w0 == old(sink).written(),
                e0 == old(self).emitted@,
                vals == old(self).values@,
            decreases vals.len() - self.index, (if self.current_val_len == 0 { 1int } else { 0int }),
        {
            if self.current_val_len == 0 {
                let val = self.values[self.index].to_u64();
                self.current_val_buf = encode_u64(val);
                self.current_val_len = self.current_val_buf.len();
                self.cursor = 0;
                proof {
                    lemma_varint_bytes_shape(val);
                    assert(self.current_val_buf@.subrange(0, 0) =~= Seq::<u8>::empty());
                    assert(self.emitted@ =~= pre + spec_varints_bytes(vals.take(self.index as int))
                        + self.current_val_buf@.subrange(0, 0));
                }
            }
            let ghost e1 = self.emitted@;
            let ghost c0 = self.cursor;
            let ghost buf = self.current_val_buf@;
            let res = flush_bytes(sink, self.current_val_buf.as_slice(), &mut self.cursor);
            self.emitted = Ghost(e1 + buf.subrange(c0 as int, self.cursor as int));
            proof {
                let a = spec_varints_bytes(vals.take(self.index as int));
                assert(self.emitted@ =~= pre + a + buf.subrange(0, self.cursor as int));
                assert(self.emitted@.subrange(0, e0.len() as int) =~= e0);
                assert(self.emitted@.subrange(e0.len() as int, self.emitted@.len() as int) =~= e1.subrange(
                    e0.len() as int,
                    e1.len() as int,
                ) + buf.subrange(c0 as int, self.cursor as int));
                assert(buf.subrange(0, c0 as int) + buf.subrange(c0 as int, self.cursor as int) =~= buf.subrange(
                    0,
                    self.cursor as int,
                ));
            }
            let p = match res {
                Ok(p) => p,
                Err(e) => {
                    proof {
                        self.lemma_wf_prefix();
                        lemma_varints_prefix(vals, self.index + 1);
                        lemma_varints_step(vals, self.index as int);
                        lemma_varints_prefix_len(vals, self.index + 1);
                    }
                    return Err(e);
                },
            };
            match p {
                Poll::Pending => {
                    proof {
                        self.lemma_wf_prefix();
                        lemma_varints_prefix(vals, self.index + 1);
                        lemma_varints_step(vals, self.index as int);
                        lemma_varints_prefix_len(vals, self.index + 1);
                    }
                    return Ok(Poll::Pending);
                },
                Poll::Ready => {},
            }
            proof {
                lemma_varints_step(vals, self.index as int);
                assert(buf.subrange(0, self.cursor as int) =~= buf);
                assert(self.emitted@ =~= pre + spec_varints_bytes(vals.take(self.index + 1)) + Seq::<u8>::empty());
            }
            self.current_val_len = 0;
            self.index = self.index + 1;
        }
        proof {
            assert(vals.take(self.index as int) =~= vals);
            self.lemma_wf_prefix();
        }
        Ok(Poll::Ready)
    }

    pub fn finish<S: CursorMut>(self, sink: &mut S) -> (r: Result<Poll, ZebinError>)
        ensures
            r == Ok::<Poll, ZebinError>(Poll::Ready),
            *final(sink) == *old(sink),
    {
        Ok(Poll::Ready)
    }
}

/// The varints of the first `k` values start those of all of them.
pub proof fn lemma_varints_prefix<T: VarIntNumber>(values: Seq<T>, k: int)
    requires
        0 <= k <= values.len(),
    ensures
        spec_varints_bytes(values.take(k)).len() <= spec_varints_bytes(values).len(),
        spec_varints_bytes(values).subrange(0, spec_varints_bytes(values.take(k)).len() as int) == spec_varints_bytes(
            values.take(k),
        ),
    decreases k,
{
    if k == 0 {
        assert(values.take(0) =~= Seq::<T>::empty());
        assert(spec_varints_bytes(values).subrange(0, 0) =~= Seq::<u8>::empty());
    } else {
        let t = values.drop_first();
        lemma_varints_prefix(t, k - 1);
        assert(values.take(k).drop_first() =~= t.take(k - 1));
        assert(values.take(k)[0] == values[0]);
        let h = spec_varint_bytes(T::spec_to_u64(values[0]));
        assert(spec_varints_bytes(values) == h + spec_varints_bytes(t));
        assert(spec_varints_bytes(values.take(k)) == h + spec_varints_bytes(t.take(k - 1)));
        assert(spec_varints_bytes(values).subrange(0, spec_varints_bytes(values.take(k)).len() as int)
            =~= h + spec_varints_bytes(t).subrange(0, spec_varints_bytes(t.take(k - 1)).len() as int));
    }
}

/// The varints of the first `k + 1` values are those of the first `k`, then value `k`'s.
pub proof fn lemma_varints_step<T: VarIntNumber>(values: Seq<T>, k: int)
    requires
        0 <= k < values.len(),
    ensures
        spec_varints_bytes(values.take(k + 1)) == spec_varints_bytes(values.take(k)) + spec_varint_bytes(
            T::spec_to_u64(values[k]),
        ),
    decreases k,
{
    if k == 0 {
        assert(values.take(1).drop_first() =~= Seq::<T>::empty());
        assert(values.take(0) =~= Seq::<T>::empty());
        assert(values.take(1)[0] == values[0]);
        let h = spec_varint_bytes(T::spec_to_u64(values[0]));
        assert(spec_varints_bytes(values.take(1)) == h + spec_varints_bytes(values.take(1).drop_first()));
        assert(h + Seq::<u8>::empty() =~= h);
        assert(spec_varints_bytes(values.take(1)) =~= h);
        assert(spec_varints_bytes(values.take(0)) =~= Seq::<u8>::empty());
        assert(Seq::<u8>::empty() + h =~= h);
    } else {
        let t = values.drop_first();
        lemma_varints_step(t, k - 1);
        assert(values.take(k + 1).drop_first() =~= t.take(k));
        assert(values.take(k).drop_first() =~= t.take(k - 1));
        assert(values.take(k)[0] == values[0]);
        assert(values.take(k + 1)[0] == values[0]);
        assert(t[k - 1] == values[k]);
        let h = spec_varint_bytes(T::spec_to_u64(values[0]));
        assert(spec_varints_bytes(values.take(k + 1)) =~= h + spec_varints_bytes(t.take(k)));
        assert(spec_varints_bytes(values.take(k)) =~= h + spec_varints_bytes(t.take(k - 1)));
    }
}

/// A value's varint is never empty, so a prefix of the values is strictly shorter.
pub proof fn lemma_varints_prefix_len<T: VarIntNumber>(values: Seq<T>, k: int)
    requires
        0 < k <= values.len(),
    ensures
        spec_varints_bytes(values.take(k - 1)).len() < spec_varints_bytes(values.take(k)).len(),
{
    lemma_varints_step(values, k - 1);
    lemma_varint_bytes_shape(T::spec_to_u64(values[k - 1]));
}

/// Reading back the varints written for `values` gives the values.
pub proof fn lemma_read_varints_roundtrip<T: VarIntNumber>(data: Seq<u8>, pos: int, values: Seq<T>)
    requires
        0 <= pos,
        pos + spec_varints_bytes(values).len() <= data.len(),
        data.subrange(pos, pos + spec_varints_bytes(values).len()) == spec_varints_bytes(values),
    ensures
        spec_read_varints::<T>(data, pos, values.len()) == Ok::<(Seq<T>, int), DecodeError>(
            (values, pos + spec_varints_bytes(values).len()),
        ),
    decreases values.len(),
{
    if values.len() > 0 {
        let h = spec_varint_bytes(T::spec_to_u64(values[0]));
        let t = values.drop_first();
        lemma_varint_bytes_shape(T::spec_to_u64(values[0]));
        lemma_subrange_concat(data, pos, h, spec_varints_bytes(t));
        lemma_read_varint_roundtrip::<T>(data, pos, values[0]);
        lemma_read_varints_roundtrip(data, pos + h.len(), t);
        assert(seq![values[0]] + t =~= values);
    } else {
        assert(values =~= Seq::<T>::empty());
    }
}

/// Reading back a varint vector of fewer than 2^32 values gives the values.
pub proof fn lemma_varint_vec_roundtrip<T: VarIntNumber>(data: Seq<u8>, pos: int, values: Seq<T>)
    requires
        0 <= pos,
        values.len() <= u32::MAX,
        pos + spec_varint_vec_bytes(values).len() <= data.len(),
        data.subrange(pos, pos + spec_varint_vec_bytes(values).len()) == spec_varint_vec_bytes(values),
    ensures
        spec_varint_vec_access::<T>(data, pos) == Ok::<(Seq<T>, int), DecodeError>(
            (values, pos + spec_varint_vec_bytes(values).len()),
        ),
{
    lemma_auto_spec_u32_to_from_le_bytes();
    let pre = spec_u32_to_le_bytes(values.len() as u32);
    lemma_subrange_concat(data, pos, pre, spec_varints_bytes(values));
    lemma_read_varints_roundtrip::<T>(data, pos + 4, values);
}

/// Resumable serializer of owned values as a varint vector.
pub struct OwnedVarIntVecSerializer<T> {
    writer: VarIntSeqWriter<T>,
    _source: core::marker::PhantomData<T>,
}

impl<T: VarIntNumber> OwnedVarIntVecSerializer<T> {
    pub closed spec fn writer(&self) -> VarIntSeqWriter<T> {
        self.writer
    }

    pub fn new() -> (r: OwnedVarIntVecSerializer<T>)
        ensures
            r.writer().wf(),
            r.writer().emitted() == Seq::<u8>::empty(),
    {
        OwnedVarIntVecSerializer { writer: VarIntSeqWriter::new(), _source: core::marker::PhantomData }
    }

    /// Writes the count, then each value's varint, as far as the sink takes them.
    pub fn input<S: CursorMut>(&mut self, item: VarIntVec<T>, sink: &mut S) -> (r: Result<Poll, ZebinError>)
        requires
            old(sink).inv(),
        ensures
            final(sink).inv(),
            final(sink).limit() == old(sink).limit(),
            r == Ok::<Poll, ZebinError>(Poll::Pending) ==> is_full(*final(sink)),
            final(self).writer().spec_values() == item.values@,
            final(self).writer().stream() == spec_varint_vec_bytes(item.values@),
            final(self).writer().emitted().len() <= final(self).writer().stream().len(),
            final(self).writer().stream().subrange(0, final(self).writer().emitted().len() as int) == final(self).writer().emitted(),
            final(sink).written() == old(sink).written() + final(self).writer().emitted(),
            r is Ok ==> final(self).writer().wf(),
            r matches Ok(p) ==> (p == Poll::Ready <==> final(self).writer().emitted() == final(self).writer().stream()),
            r is Err ==> final(self).writer().stream().len() > room(*old(sink)) && !S::never_refuses(),
    {
        let values = item.values;
        self.writer.input(values, sink)
    }

    pub fn poll_pending<S: CursorMut>(&mut self, sink: &mut S) -> (r: Result<Poll, ZebinError>)
        requires
            old(sink).inv(),
            old(self).writer().wf(),
        ensures
            final(sink).inv(),
            final(sink).limit() == old(sink).limit(),
            r == Ok::<Poll, ZebinError>(Poll::Pending) ==> is_full(*final(sink)),
            final(self).writer().spec_values() == old(self).writer().spec_values(),
            old(self).writer().emitted().len() <= final(self).writer().emitted().len(),
            final(self).writer().emitted().subrange(0, old(self).writer().emitted().len() as int) == old(self).writer().emitted(),
            final(self).writer().stream().subrange(0, final(self).writer().emitted().len() as int) == final(self).writer().emitted(),
            final(sink).written() == old(sink).written() + final(self).writer().emitted().subrange(
                old(self).writer().emitted().len() as int,
                final(self).writer().emitted().len() as int,
            ),
            r is Ok ==> final(self).writer().wf(),
            r matches Ok(p) ==> (p == Poll::Ready <==> final(self).writer().emitted() == final(self).writer().stream()),
            r is Err ==> old(self).writer().stream().len() - old(self).writer().emitted().len() > room(*old(sink)) && !S::never_refuses(),
    {
        self.writer.poll_pending(sink)
    }

    pub fn finish<S: CursorMut>(self, sink: &mut S) -> (r: Result<Poll, ZebinError>)
        ensures
            r == Ok::<Poll, ZebinError>(Poll::Ready),
            *final(sink) == *old(sink),
    {
        self.writer.finish(sink)
    }
}

/// Resumable serializer of a varint vector read back as a varint vector.
pub struct OwnedArchivedVarIntVecSerializer<T> {
    writer: VarIntSeqWriter<T>,
    _source: core::marker::PhantomData<T>,
}

impl<T: VarIntNumber> OwnedArchivedVarIntVecSerializer<T> {
    pub closed spec fn writer(&self) -> VarIntSeqWriter<T> {
        self.writer
    }

    pub fn new() -> (r: OwnedArchivedVarIntVecSerializer<T>)
        ensures
            r.writer().wf(),
            r.writer().emitted() == Seq::<u8>::empty(),
    {
        OwnedArchivedVarIntVecSerializer { writer: VarIntSeqWriter::new(), _source: core::marker::PhantomData }
    }

    /// Writes the count, then each value's varint, as far as the sink takes them.
    pub fn input<S: CursorMut>(&mut self, item: ArchivedVarIntVec<T>, sink: &mut S) -> (r: Result<Poll, ZebinError>)
        requires
            old(sink).inv(),
        ensures
            final(sink).inv(),
            final(sink).limit() == old(sink).limit(),
            r == Ok::<Poll, ZebinError>(Poll::Pending) ==> is_full(*final(sink)),
            final(self).writer().spec_values() == item.spec_values(),
            final(self).writer().stream() == spec_varint_vec_bytes(item.spec_values()),
            final(self).writer().emitted().len() <= final(self).writer().stream().len(),
            final(self).writer().stream().subrange(0, final(self).writer().emitted().len() as int) == final(self).writer().emitted(),
            final(sink).written() == old(sink).written() + final(self).writer().emitted(),
            r is Ok ==> final(self).writer().wf(),
            r matches Ok(p) ==> (p == Poll::Ready <==> final(self).writer().emitted() == final(self).writer().stream()),
            r is Err ==> final(self).writer().stream().len() > room(*old(sink)) && !S::never_refuses(),
    {
        let values = item.values;
        self.writer.input(values, sink)
    }

    pub fn poll_pending<S: CursorMut>(&mut self, sink: &mut S) -> (r: Result<Poll, ZebinError>)
        requires
            old(sink).inv(),
            old(self).writer().wf(),
        ensures
            final(sink).inv(),
            final(sink).limit() == old(sink).limit(),
            r == Ok::<Poll, ZebinError>(Poll::Pending) ==> is_full(*final(sink)),
            final(self).writer().spec_values() == old(self).writer().spec_values(),
            old(self).writer().emitted().len() <= final(self).writer().emitted().len(),
            final(self).writer().emitted().subrange(0, old(self).writer().emitted().len() as int) == old(self).writer().emitted(),
            final(self).writer().stream().subrange(0, final(self).writer().emitted().len() as int) == final(self).writer().emitted(),
            final(sink).written() == old(sink).written() + final(self).writer().emitted().subrange(
                old(self).writer().emitted().len() as int,
                final(self).writer().emitted().len() as int,
            ),
            r is Ok ==> final(self).writer().wf(),
            r matches Ok(p) ==> (p == Poll::Ready <==> final(self).writer().emitted() == final(self).writer().stream()),
            r is Err ==> old(self).writer().stream().len() - old(self).writer().emitted().len() > room(*old(sink)) && !S::never_refuses(),
    {
        self.writer.poll_pending(sink)
    }

    pub fn finish<S: CursorMut>(self, sink: &mut S) -> (r: Result<Poll, ZebinError>)
        ensures
            r == Ok::<Poll, ZebinError>(Poll::Ready),
            *final(sink) == *old(sink),
    {
        self.writer.finish(sink)
    }
}

/// Resumable serializer of borrowed values as a varint vector.
pub struct PackedVarIntSliceSerializer<'a, T> {
    writer: VarIntSeqWriter<T>,
    _source: core::marker::PhantomData<&'a [T]>,
}

impl<'a, T: VarIntNumber> PackedVarIntSliceSerializer<'a, T> {
    pub closed spec fn writer(&self) -> VarIntSeqWriter<T> {
        self.writer
    }

    pub fn new() -> (r: PackedVarIntSliceSerializer<'a, T>)
        ensures
            r.writer().wf(),
            r.writer().emitted() == Seq::<u8>::empty(),
    {
        PackedVarIntSliceSerializer { writer: VarIntSeqWriter::new(), _source: core::marker::PhantomData }
    }

    /// Writes the count, then each value's varint, as far as the sink takes them.
    pub fn input<S: CursorMut>(&mut self, item: PackedVarIntSlice<'a, T>, sink: &mut S) -> (r: Result<Poll, ZebinError>)
        requires
            old(sink).inv(),
        ensures
            final(sink).inv(),
            final(sink).limit() == old(sink).limit(),
            r == Ok::<Poll, ZebinError>(Poll::Pending) ==> is_full(*final(sink)),
            final(self).writer().spec_values() == item.values@,
            final(self).writer().stream() == spec_varint_vec_bytes(item.values@),
            final(self).writer().emitted().len() <= final(self).writer().stream().len(),
            final(self).writer().stream().subrange(0, final(self).writer().emitted().len() as int) == final(self).writer().emitted(),
            final(sink).written() == old(sink).written() + final(self).writer().emitted(),
            r is Ok ==> final(self).writer().wf(),
            r matches Ok(p) ==> (p == Poll::Ready <==> final(self).writer().emitted() == final(self).writer().stream()),
            r is Err ==> final(self).writer().stream().len() > room(*old(sink)) && !S::never_refuses(),
    {
        let values = copy_values(item.values);
        self.writer.input(values, sink)
    }

    pub fn poll_pending<S: CursorMut>(&mut self, sink: &mut S) -> (r: Result<Poll, ZebinError>)
        requires
            old(sink).inv(),
            old(self).writer().wf(),
        ensures
            final(sink).inv(),
            final(sink).limit() == old(sink).limit(),
            r == Ok::<Poll, ZebinError>(Poll::Pending) ==> is_full(*final(sink)),
            final(self).writer().spec_values() == old(self).writer().spec_values(),
            old(self).writer().emitted().len() <= final(self).writer().emitted().len(),
            final(self).writer().emitted().subrange(0, old(self).writer().emitted().len() as int) == old(self).writer().emitted(),
            final(self).writer().stream().subrange(0, final(self).writer().emitted().len() as int) == final(self).writer().emitted(),
            final(sink).written() == old(sink).written() + final(self).writer().emitted().subrange(
                old(self).writer().emitted().len() as int,
                final(self).writer().emitted().len() as int,
            ),
            r is Ok ==> final(self).writer().wf(),
            r matches Ok(p) ==> (p == Poll::Ready <==> final(self).writer().emitted() == final(self).writer().stream()),
            r is Err ==> old(self).writer().stream().len() - old(self).writer().emitted().len() > room(*old(sink)) && !S::never_refuses(),
    {
        self.writer.poll_pending(sink)
    }

    pub fn finish<S: CursorMut>(self, sink: &mut S) -> (r: Result<Poll, ZebinError>)
        ensures
            r == Ok::<Poll, ZebinError>(Poll::Ready),
            *final(sink) == *old(sink),
    {
        self.writer.finish(sink)
    }
}

/// A copy of the values of a slice.
fn copy_values<T: Copy>(values: &[T]) -> (r: Vec<T>)
    ensures
        r@ == values@,
{
    let mut out: Vec<T> = Vec::new();
    let mut i: usize = 0;
    while i < values.len()
        invariant
            i <= values@.len(),
            out@ == values@.take(i as int),
        decreases values@.len() - i,
    {
        out.push(values[i]);
        proof {
            assert(values@.take(i + 1) =~= values@.take(i as int).push(values@[i as int]));
        }
        i = i + 1;
    }
    proof {
        assert(values@.take(i as int) =~= values@);
    }
    out
}

} // verus!
