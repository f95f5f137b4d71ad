use vstd::prelude::*;
use vstd::slice::slice_subrange;
use crate::error::ZebinError;
use crate::utils::{padding_for_alignment, spec_padding};

verus! {

broadcast use vstd::slice::group_slice_axioms;

/// Outcome of one step of a resumable serializer.
#[derive(Debug, Clone, Copy, PartialEq, Eq, Structural)]
pub enum Poll {
    /// The current input has been written completely.
    Ready,
    /// The sink is full; call again with more room.
    Pending,
}

impl Poll {
    pub fn is_ready(&self) -> (r: bool)
        ensures
            r == (*self == Poll::Ready),
    {
        match self {
            Poll::Ready => true,
            Poll::Pending => false,
        }
    }

    pub fn is_pending(&self) -> (r: bool)
        ensures
            r == (*self == Poll::Pending),
    {
        match self {
            Poll::Ready => false,
            Poll::Pending => true,
        }
    }
}

/// How much of a write request a sink accepted.
#[derive(Debug, Clone, Copy, PartialEq, Eq, Structural)]
pub enum SinkProgress {
    /// Everything was accepted.
    Complete,
    /// Only this many bytes (never zero) were accepted.
    Partial(usize),
    /// Nothing was accepted.
    Blocked,
}

/// Number of bytes a progress report stands for, out of `requested`.
pub open spec fn spec_accepted_for(p: SinkProgress, requested: int) -> int {
    match p {
        SinkProgress::Complete => requested,
        SinkProgress::Partial(n) => n as int,
        SinkProgress::Blocked => 0,
    }
}

/// The progress report for `accepted` of `requested` bytes.
pub open spec fn spec_from_accepted(requested: int, accepted: int) -> SinkProgress {
    if accepted == requested {
        SinkProgress::Complete
    } else if accepted != 0 {
        SinkProgress::Partial(accepted as usize)
    } else {
        SinkProgress::Blocked
    }
}

/// `n` zero bytes.
pub open spec fn zeros(n: nat) -> Seq<u8> {
    Seq::new(n, |i: int| 0u8)
}

impl SinkProgress {
    pub fn from_accepted(requested: usize, accepted: usize) -> (r: SinkProgress)
        requires
            accepted <= requested,
        ensures
            r == spec_from_accepted(requested as int, accepted as int),
            spec_accepted_for(r, requested as int) == accepted,
    {
        if accepted == requested {
            SinkProgress::Complete
        } else if accepted != 0 {
            SinkProgress::Partial(accepted)
        } else {
            SinkProgress::Blocked
        }
    }

    pub fn accepted_for(self, requested: usize) -> (r: usize)
        ensures
            r == spec_accepted_for(self, requested as int),
    {
        match self {
            SinkProgress::Complete => requested,
            SinkProgress::Partial(accepted) => accepted,
            SinkProgress::Blocked => 0,
        }
    }

    pub fn is_complete(self) -> (r: bool)
        ensures
            r == (self == SinkProgress::Complete),
    {
        match self {
            SinkProgress::Complete => true,
            _ => false,
        }
    }

    /// Moves `cursor` past the accepted bytes; ready when the whole request went through.
    pub fn advance_cursor(self, cursor: &mut usize, requested: usize) -> (r: Poll)
        requires
            *old(cursor) + spec_accepted_for(self, requested as int) <= usize::MAX,
        ensures
            *final(cursor) == *old(cursor) + spec_accepted_for(self, requested as int),
            r == (if self == SinkProgress::Complete { Poll::Ready } else { Poll::Pending }),
    {
        *cursor = *cursor + self.accepted_for(requested);
        if self.is_complete() {
            Poll::Ready
        } else {
            Poll::Pending
        }
    }
}

/// Writable cursor over an archive being produced chunk by chunk.
///
/// `written` is everything the cursor has accepted so far, in order; `spec_pos` is
/// the archive position of the next byte.
pub trait CursorMut {
    spec fn spec_pos(&self) -> int;

    spec fn written(&self) -> Seq<u8>;

    /// How many bytes the cursor takes in all, those written so far included.
    spec fn limit(&self) -> int;

    spec fn inv(&self) -> bool;

    /// Whether the cursor never refuses a write: it takes the bytes that fit and leaves
    /// the rest to a later call.
    spec fn never_refuses() -> bool;

    /// A cursor never holds more than it takes.
    proof fn lemma_within_limit(&self)
        requires
            self.inv(),
        ensures
            self.written().len() <= self.limit(),
    ;

    fn pos(&self) -> (r: usize)
        requires
            self.inv(),
        ensures
            r == self.spec_pos(),
    ;

    /// Accepts as many bytes as fit: all of them when there is room for them, else as
    /// many as there is room for, or (for a cursor that refuses a write it cannot take
    /// whole) none with an error.
    fn write(&mut self, bytes: &[u8]) -> (r: Result<SinkProgress, ZebinError>)
        requires
            old(self).inv(),
        ensures
            final(self).inv(),
            final(self).limit() == old(self).limit(),
            r matches Ok(p) ==> {
                let n = spec_accepted_for(p, bytes@.len() as int);
                &&& 0 <= n <= bytes@.len()
                &&& n == vstd::math::min(bytes@.len() as int, (old(self).limit() - old(self).written().len()))
                &&& (p == SinkProgress::Complete <==> n == bytes@.len())
                &&& final(self).written() == old(self).written() + bytes@.subrange(0, n)
                &&& final(self).spec_pos() == old(self).spec_pos() + n
            },
            r is Err ==> bytes@.len() > (old(self).limit() - old(self).written().len()) && !Self::never_refuses() && final(self).written() == old(self).written()
                && final(self).spec_pos() == old(self).spec_pos(),
    ;

    /// Accepts as many zero bytes of `len` as fit, in the same way as `write`.
    fn skip(&mut self, len: usize) -> (r: Result<SinkProgress, ZebinError>)
        requires
            old(self).inv(),
        ensures
            final(self).inv(),
            final(self).limit() == old(self).limit(),
            r matches Ok(p) ==> {
                let n = spec_accepted_for(p, len as int);
                &&& 0 <= n <= len
                &&& n == vstd::math::min(len as int, (old(self).limit() - old(self).written().len()))
                &&& (p == SinkProgress::Complete <==> n == len)
                &&& final(self).written() == old(self).written() + zeros(n as nat)
                &&& final(self).spec_pos() == old(self).spec_pos() + n
            },
            r is Err ==> len > (old(self).limit() - old(self).written().len()) && !Self::never_refuses() && final(self).written() == old(self).written()
                && final(self).spec_pos() == old(self).spec_pos(),
    ;
}

/// How many more bytes the cursor takes.
pub open spec fn room<S: CursorMut>(s: S) -> int {
    s.limit() - s.written().len()
}

/// The cursor takes no more bytes.
pub open spec fn is_full<S: CursorMut>(s: S) -> bool {
    room(s) <= 0
}

/// Writes the zero padding that brings the sink position to a multiple of `alignment`.
pub fn align_sink<S: CursorMut>(sink: &mut S, alignment: usize) -> (r: Result<SinkProgress, ZebinError>)
    requires
        old(sink).inv(),
        alignment > 0,
    ensures
        final(sink).inv(),
        final(sink).limit() == old(sink).limit(),
        r matches Ok(p) ==> {
            let pad = spec_padding(old(sink).spec_pos(), alignment as int);
            let n = spec_accepted_for(p, pad);
            &&& 0 <= n <= pad
            &&& n == vstd::math::min(pad, room(*old(sink)))
            &&& (p == SinkProgress::Complete <==> n == pad)
            &&& final(sink).written() == old(sink).written() + zeros(n as nat)
            &&& final(sink).spec_pos() == old(sink).spec_pos() + n
        },
        r is Err ==> final(sink).written() == old(sink).written() && final(sink).spec_pos() == old(
            sink,
        ).spec_pos(),
        r is Err ==> spec_padding(old(sink).spec_pos(), alignment as int) > room(*old(sink)) && !S::never_refuses(),
{
    let pos = sink.pos();
    let padding = padding_for_alignment(pos, alignment);
    sink.skip(padding)
}

/// Sends `bytes[*cursor..]` to the sink and moves `*cursor` past what was accepted.
pub fn flush_bytes<S: CursorMut>(sink: &mut S, bytes: &[u8], cursor: &mut usize) -> (r: Result<Poll, ZebinError>)
    requires
        old(sink).inv(),
        *old(cursor) <= bytes@.len(),
    ensures
        final(sink).inv(),
        *old(cursor) <= *final(cursor) <= bytes@.len(),
        final(sink).written() == old(sink).written() + bytes@.subrange(*old(cursor) as int, *final(cursor) as int),
        final(sink).spec_pos() == old(sink).spec_pos() + (*final(cursor) - *old(cursor)),
        final(sink).limit() == old(sink).limit(),
        r matches Ok(p) ==> (p == Poll::Ready <==> *final(cursor) == bytes@.len()),
        r == Ok::<Poll, ZebinError>(Poll::Pending) ==> is_full(*final(sink)),
        r is Err ==> *final(cursor) == *old(cursor),
        r is Err ==> bytes@.len() - *old(cursor) > room(*old(sink)) && !S::never_refuses(),
{
    let start = *cursor;
    let len = bytes.len();
    let remaining = len - start;
    let rest = slice_subrange(bytes, start, len);
    let progress = sink.write(rest)?;
    proof {
        assert(rest@.subrange(0, spec_accepted_for(progress, remaining as int)) =~= bytes@.subrange(
            start as int,
            start + spec_accepted_for(progress, remaining as int),
        ));
    }
    let r = progress.advance_cursor(cursor, remaining);
    Ok(r)
}

/// Serializer that writes into a caller-provided buffer of fixed size.
pub struct SliceSerializer<'a> {
    buf: &'a mut [u8],
    written: usize,
    archive_pos: usize,
    write_pos: usize,
}

impl<'a> SliceSerializer<'a> {
    /// The bytes accepted so far, from the front of the buffer.
    pub closed spec fn accepted(&self) -> Seq<u8> {
        self.buf@.subrange(0, self.write_pos as int)
    }

    /// The whole buffer.
    pub closed spec fn buffer(&self) -> Seq<u8> {
        self.buf@
    }

    /// Capacity of the buffer: its whole length.
    pub open spec fn capacity(&self) -> nat {
        self.buffer().len()
    }

    pub closed spec fn at(&self) -> int {
        self.archive_pos as int
    }

    pub closed spec fn wf(&self) -> bool {
        &&& self.write_pos <= self.buf@.len()
        &&& self.written == self.write_pos
        &&& self.archive_pos + (self.buf@.len() - self.write_pos) <= usize::MAX
    }

    /// What was accepted is the front of the buffer, and never more than it holds.
    pub proof fn lemma_accepted_in_buffer(&self)
        requires
            self.wf(),
        ensures
            self.accepted().len() <= self.capacity(),
            self.accepted() == self.buffer().subrange(0, self.accepted().len() as int),
    {
    }

    /// A serializer writing into `buf`, whose first byte sits at `archive_pos`.
    pub fn new(buf: &'a mut [u8], archive_pos: usize) -> (s: SliceSerializer<'a>)
        requires
            archive_pos + old(buf)@.len() <= usize::MAX,
        ensures
            s.wf(),
            s.accepted() == Seq::<u8>::empty(),
            s.buffer() == old(buf)@,
            s.at() == archive_pos,
    {
        SliceSerializer { buf, written: 0, archive_pos, write_pos: 0 }
    }

    /// A writable cursor over this serializer.
    pub fn into_cursor_mut<'b>(&'b mut self) -> (r: SerializerCursor<'b, SliceSerializer<'a>>)
        ensures
            r.inner() == *old(self),
    {
        SerializerCursor::new(self)
    }

    /// Number of bytes written into the buffer so far.
    pub fn written(&self) -> (r: usize)
        requires
            self.wf(),
        ensures
            r == self.accepted().len(),
    {
        self.written
    }

    pub fn pos(&self) -> (r: usize)
        ensures
            r == self.at(),
    {
        self.archive_pos
    }

    /// Length of the writable window for a request of `len` bytes.
    pub fn peek_buf_mut(&self, len: usize) -> (r: usize)
        requires
            self.wf(),
        ensures
            r == vstd::math::min(len as int, self.capacity() - self.accepted().len()),
    {
        let remaining = self.buf.len() - self.write_pos;
        if remaining < len {
            remaining
        } else {
            len
        }
    }

    /// Moves past up to `len` bytes of the window without writing them.
    pub fn advance(&mut self, len: usize)
        requires
            old(self).wf(),
        ensures
            final(self).wf(),
            final(self).buffer() == old(self).buffer(),
            ({
                let n = vstd::math::min(len as int, old(self).capacity() - old(self).accepted().len());
                &&& final(self).accepted() == old(self).buffer().subrange(0, old(self).accepted().len() + n)
                &&& final(self).at() == old(self).at() + n
            }),
    {
        let count = self.peek_buf_mut(len);
        let _n = self.buf.len();
        self.archive_pos = self.archive_pos + count;
        self.write_pos = self.write_pos + count;
        self.written = self.write_pos;
    }

    /// Copies as many of `bytes` as fit into the buffer; returns how many.
    fn copy_in(&mut self, bytes: &[u8]) -> (n: usize)
        requires
            old(self).wf(),
        ensures
            final(self).wf(),
            final(self).capacity() == old(self).capacity(),
            n == vstd::math::min(bytes@.len() as int, old(self).capacity() - old(self).accepted().len()),
            final(self).accepted() == old(self).accepted() + bytes@.subrange(0, n as int),
            final(self).at() == old(self).at() + n,
    {
        let count = self.peek_buf_mut(bytes.len());
        let start = self.write_pos;
        let ap = self.archive_pos;
        let _n = self.buf.len();
        let ghost before = self.buf@;
        let mut i: usize = 0;
        while i < count
            invariant
                i <= count,
                start + count <= self.buf@.len(),
                count <= bytes@.len(),
                self.buf@.len() == before.len(),
                self.write_pos == start,
                self.archive_pos == ap,
                self.written == start,
                ap + (before.len() - start) <= usize::MAX,
                count <= before.len() - start,
                before.len() <= usize::MAX,
                forall|k: int| 0 <= k < start ==> self.buf@[k] == before[k],
                forall|k: int| start <= k < start + i ==> #[trigger] self.buf@[k] == bytes@[k - start],
            decreases count - i,
        {
            self.buf[start + i] = bytes[i];
            i = i + 1;
        }
        self.archive_pos = self.archive_pos + count;
        self.write_pos = self.write_pos + count;
        self.written = self.write_pos;
        proof {
            assert(self.buf@.subrange(0, self.write_pos as int) =~= before.subrange(0, start as int)
                + bytes@.subrange(0, count as int));
        }
        count
    }

    /// Writes as many zero bytes of `len` as fit; returns how many.
    fn zero_fill(&mut self, len: usize) -> (n: usize)
        requires
            old(self).wf(),
        ensures
            final(self).wf(),
            final(self).capacity() == old(self).capacity(),
            n == vstd::math::min(len as int, old(self).capacity() - old(self).accepted().len()),
            final(self).accepted() == old(self).accepted() + zeros(n as nat),
            final(self).at() == old(self).at() + n,
    {
        let count = self.peek_buf_mut(len);
        let start = self.write_pos;
        let ap = self.archive_pos;
        let _n = self.buf.len();
        let ghost before = self.buf@;
        let mut i: usize = 0;
        while i < count
            invariant
                i <= count,
                start + count <= self.buf@.len(),
                self.buf@.len() == before.len(),
                self.write_pos == start,
                self.archive_pos == ap,
                self.written == start,
                ap + (before.len() - start) <= usize::MAX,
                count <= before.len() - start,
                before.len() <= usize::MAX,
                forall|k: int| 0 <= k < start ==> self.buf@[k] == before[k],
                forall|k: int| start <= k < start + i ==> #[trigger] self.buf@[k] == 0u8,
            decreases count - i,
        {
            self.buf[start + i] = 0u8;
            i = i + 1;
        }
        self.archive_pos = self.archive_pos + count;
        self.write_pos = self.write_pos + count;
        self.written = self.write_pos;
        proof {
            assert(self.buf@.subrange(0, self.write_pos as int) =~= before.subrange(0, start as int)
                + zeros(count as nat));
        }
        count
    }
}

impl<'a> CursorMut for SliceSerializer<'a> {
    open spec fn spec_pos(&self) -> int {
        self.at()
    }

    open spec fn written(&self) -> Seq<u8> {
        self.accepted()
    }

    open spec fn limit(&self) -> int {
        self.capacity() as int
    }

    open spec fn inv(&self) -> bool {
        self.wf()
    }

    /// A write that does not fit is cut short, never refused.
    open spec fn never_refuses() -> bool {
        true
    }

    proof fn lemma_within_limit(&self) {
    }

    fn pos(&self) -> (r: usize) {
        self.archive_pos
    }

    fn write(&mut self, bytes: &[u8]) -> (r: Result<SinkProgress, ZebinError>) {
        if bytes.len() == 0 {
            return Ok(SinkProgress::Complete);
        }
        let accepted = self.copy_in(bytes);
        Ok(SinkProgress::from_accepted(bytes.len(), accepted))
    }

    fn skip(&mut self, len: usize) -> (r: Result<SinkProgress, ZebinError>) {
        if len == 0 {
            proof {
                assert(self.accepted() + zeros(0) =~= self.accepted());
            }
            return Ok(SinkProgress::Complete);
        }
        let accepted = self.zero_fill(len);
        Ok(SinkProgress::from_accepted(len, accepted))
    }
}

/// Serializer that writes into a growing vector.
pub struct VecSerializer {
    buf: Vec<u8>,
    archive_pos: usize,
    origin: Ghost<usize>,
}

impl VecSerializer {
    /// The bytes written since the serializer was created.
    pub closed spec fn accepted(&self) -> Seq<u8> {
        if self.buf@.len() >= self.origin@ {
            self.buf@.subrange(self.origin@ as int, self.buf@.len() as int)
        } else {
            Seq::empty()
        }
    }

    pub closed spec fn at(&self) -> int {
        self.archive_pos as int
    }

    /// Position of the first byte written.
    pub closed spec fn start(&self) -> int {
        self.origin@ as int
    }

    /// Every byte written so far lies between the start and the position.
    pub proof fn lemma_room(&self)
        requires
            self.wf(),
        ensures
            self.accepted().len() == self.at() - self.start(),
            self.start() <= self.at(),
    {
    }

    /// The vector, zero-filled up to the start position.
    pub closed spec fn contents(&self) -> Seq<u8> {
        self.buf@
    }

    pub closed spec fn wf(&self) -> bool {
        ||| self.buf@.len() == self.archive_pos && self.archive_pos >= self.origin@
        ||| self.buf@.len() == 0 && self.archive_pos == self.origin@
    }

    /// An empty serializer whose first byte lands at `archive_pos`.
    pub fn new(archive_pos: usize) -> (s: VecSerializer)
        ensures
            s.wf(),
            s.accepted() == Seq::<u8>::empty(),
            s.contents() == Seq::<u8>::empty(),
            s.at() == archive_pos,
            s.start() == archive_pos,
    {
        VecSerializer { buf: Vec::new(), archive_pos, origin: Ghost(archive_pos) }
    }

    /// A writable cursor over this serializer.
    pub fn into_cursor_mut<'b>(&'b mut self) -> (r: SerializerCursor<'b, VecSerializer>)
        ensures
            r.inner() == *old(self),
    {
        SerializerCursor::new(self)
    }

    /// The vector written so far, zero-filled before the start position.
    pub fn into_inner(self) -> (r: Vec<u8>)
        ensures
            r@ == self.contents(),
    {
        self.buf
    }

    pub fn pos(&self) -> (r: usize)
        ensures
            r == self.at(),
    {
        self.archive_pos
    }

    /// Grows the vector with zeros so that `len` bytes are writable at the position.
    pub fn peek_buf_mut(&mut self, len: usize) -> (r: Result<usize, ZebinError>)
        requires
            old(self).wf(),
        ensures
            final(self).at() == old(self).at(),
            old(self).at() + len > usize::MAX ==> r == Err::<usize, ZebinError>(
                ZebinError::ArithmeticOverflow { pos: old(self).at() as usize },
            ) && *final(self) == *old(self),
            old(self).at() + len <= usize::MAX ==> r == Ok::<usize, ZebinError>(len)
                && final(self).contents().len() == vstd::math::max(old(self).contents().len() as int, old(self).at() + len)
                && final(self).contents().subrange(0, old(self).contents().len() as int) == old(self).contents()
                && (forall|k: int|
                old(self).contents().len() <= k < final(self).contents().len() ==> #[trigger] final(self).contents()[k]
                    == 0u8),
    {
        let pos = self.archive_pos;
        let end = match pos.checked_add(len) {
            Some(e) => e,
            None => {
                return Err(ZebinError::ArithmeticOverflow { pos });
            },
        };
        let ghost before = self.buf@;
        while self.buf.len() < end
            invariant
                self.buf@.len() <= end || self.buf@.len() == before.len(),
                self.buf@.len() >= before.len(),
                self.buf@.subrange(0, before.len() as int) == before,
                forall|k: int| before.len() <= k < self.buf@.len() ==> #[trigger] self.buf@[k] == 0u8,
                self.archive_pos == pos,
                self.origin == old(self).origin,
            decreases end - self.buf@.len(),
        {
            self.buf.push(0u8);
        }
        Ok(len)
    }

    /// Moves the position forward by `len` bytes.
    pub fn advance(&mut self, len: usize)
        requires
            old(self).at() + len <= usize::MAX,
        ensures
            final(self).at() == old(self).at() + len,
            final(self).contents() == old(self).contents(),
    {
        self.archive_pos = self.archive_pos + len;
    }

    fn append_bytes(&mut self, bytes: &[u8]) -> (r: Result<SinkProgress, ZebinError>)
        requires
            old(self).wf(),
        ensures
            final(self).wf(),
            final(self).start() == old(self).start(),
            r matches Ok(p) ==> p == SinkProgress::Complete && final(self).accepted() == old(self).accepted()
                + bytes@ && final(self).at() == old(self).at() + bytes@.len(),
            r is Err ==> *final(self) == *old(self) && old(self).at() + bytes@.len() > usize::MAX,
    {
        let pos = self.archive_pos;
        match pos.checked_add(bytes.len()) {
            None => {
                return Err(ZebinError::ArithmeticOverflow { pos });
            },
            Some(_) => {},
        }
        let ghost before = self.buf@;
        let ghost old_accepted = self.accepted();
        if self.buf.len() < pos {
            while self.buf.len() < pos
                invariant
                    self.buf@.len() <= pos,
                    forall|k: int| 0 <= k < self.buf@.len() ==> self.buf@[k] == 0u8,
                    before.len() == 0,
                    self.archive_pos == pos,
                    pos == self.origin@,
                    self.origin == old(self).origin,
                decreases pos - self.buf@.len(),
            {
                self.buf.push(0u8);
            }
        }
        let ghost prefix = self.buf@;
        let mut i: usize = 0;
        while i < bytes.len()
            invariant
                prefix.len() == pos,
                self.buf@.len() == pos + i,
                i <= bytes@.len(),
                self.buf@ == prefix + bytes@.subrange(0, i as int),
                self.archive_pos == pos,
                self.origin == old(self).origin,
                pos + bytes@.len() <= usize::MAX,
            decreases bytes@.len() - i,
        {
            let ghost b = self.buf@;
            self.buf.push(bytes[i]);
            i = i + 1;
            proof {
                assert(self.buf@ =~= prefix + bytes@.subrange(0, i as int));
            }
        }
        self.archive_pos = pos + bytes.len();
        proof {
            assert(bytes@.subrange(0, bytes@.len() as int) =~= bytes@);
            assert(self.accepted() =~= old_accepted + bytes@);
        }
        Ok(SinkProgress::Complete)
    }
}

impl CursorMut for VecSerializer {
    open spec fn spec_pos(&self) -> int {
        self.at()
    }

    open spec fn written(&self) -> Seq<u8> {
        self.accepted()
    }

    /// Bytes are taken until the position would pass `usize::MAX`.
    open spec fn limit(&self) -> int {
        usize::MAX - self.start()
    }

    open spec fn inv(&self) -> bool {
        self.wf()
    }

    /// A write that would carry the position past `usize::MAX` is refused.
    open spec fn never_refuses() -> bool {
        false
    }

    proof fn lemma_within_limit(&self) {
        self.lemma_room();
    }

    fn pos(&self) -> (r: usize) {
        self.archive_pos
    }

    fn write(&mut self, bytes: &[u8]) -> (r: Result<SinkProgress, ZebinError>) {
        proof {
            self.lemma_room();
        }
        let r = self.append_bytes(bytes);
        proof {
            assert(bytes@.subrange(0, bytes@.len() as int) =~= bytes@);
        }
        r
    }

    fn skip(&mut self, len: usize) -> (r: Result<SinkProgress, ZebinError>) {
        let mut pad: Vec<u8> = Vec::new();
        let mut i: usize = 0;
        while i < len
            invariant
                i <= len,
                pad@ == zeros(i as nat),
            decreases len - i,
        {
            pad.push(0u8);
            i = i + 1;
            proof {
                assert(pad@ =~= zeros(i as nat));
            }
        }
        proof {
            self.lemma_room();
        }
        let r = self.append_bytes(pad.as_slice());
        r
    }
}

/// Writable cursor over a borrowed serializer: each call goes to the serializer.
pub struct SerializerCursor<'a, S> {
    serializer: &'a mut S,
}

impl<'a, S: CursorMut> SerializerCursor<'a, S> {
    /// The serializer underneath.
    pub closed spec fn inner(&self) -> S {
        *self.serializer
    }

    pub fn new(serializer: &'a mut S) -> (r: SerializerCursor<'a, S>)
        ensures
            r.inner() == *old(serializer),
    {
        SerializerCursor { serializer }
    }

    pub fn into_inner(self) -> (r: &'a mut S)
        ensures
            *r == self.inner(),
    {
        self.serializer
    }
}

impl<'a, S: CursorMut> CursorMut for SerializerCursor<'a, S> {
    open spec fn spec_pos(&self) -> int {
        self.inner().spec_pos()
    }

    open spec fn written(&self) -> Seq<u8> {
        self.inner().written()
    }

    open spec fn limit(&self) -> int {
        self.inner().limit()
    }

    open spec fn inv(&self) -> bool {
        self.inner().inv()
    }

    open spec fn never_refuses() -> bool {
        S::never_refuses()
    }

    proof fn lemma_within_limit(&self) {
        self.inner().lemma_within_limit();
    }

    fn pos(&self) -> (r: usize) {
        self.serializer.pos()
    }

    fn write(&mut self, bytes: &[u8]) -> (r: Result<SinkProgress, ZebinError>) {
        self.serializer.write(bytes)
    }

    fn skip(&mut self, len: usize) -> (r: Result<SinkProgress, ZebinError>) {
        self.serializer.skip(len)
    }
}

} // verus!
