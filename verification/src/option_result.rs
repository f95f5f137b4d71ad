use vstd::prelude::*;
use crate::block_index::lemma_subrange_concat;
use crate::cursor::{Cursor, range_error};
use crate::error::{DecodeError, ZebinError};
use crate::primitive::{ByteSerializer, FixedLayout, ToBytes};
use crate::sink::{CursorMut, Poll, flush_bytes, is_full, room};

verus! {

broadcast use vstd::slice::group_slice_axioms;

/// Archived form of an optional value, read back.
#[derive(Debug, Clone, Copy, PartialEq, Eq)]
pub enum ArchivedOption<T> {
    Absent,
    Present(T),
}

impl<T> ArchivedOption<T> {
    pub fn is_some(&self) -> (r: bool)
        ensures
            r == (self is Present),
    {
        match self {
            ArchivedOption::Present(_) => true,
            ArchivedOption::Absent => false,
        }
    }

    pub fn is_none(&self) -> (r: bool)
        ensures
            r == (self is Absent),
    {
        match self {
            ArchivedOption::Present(_) => false,
            ArchivedOption::Absent => true,
        }
    }

    /// The value, if there is one.
    pub fn as_ref(&self) -> (r: Option<&T>)
        ensures
            r == (match self {
                ArchivedOption::Present(v) => Some(v),
                ArchivedOption::Absent => None::<&T>,
            }),
    {
        match self {
            ArchivedOption::Present(value) => Some(value),
            ArchivedOption::Absent => None,
        }
    }
}

/// Decoding `size` bytes at `pos` as a value of `A`, with the position after it.
pub open spec fn spec_read_value<A: FixedLayout>(data: Seq<u8>, pos: int) -> Result<(A, int), DecodeError> {
    if pos + A::spec_size() > data.len() {
        Err(range_error(pos as usize, A::spec_size() as usize))
    } else {
        match A::spec_decode(data.subrange(pos, pos + A::spec_size()), pos) {
            Ok(v) => Ok((v, pos + A::spec_size())),
            Err(e) => Err(e),
        }
    }
}

/// What reading an optional value at `pos` gives: a tag byte (0 for none, 1 for a
/// value that follows) and the position after it.
pub open spec fn spec_option_access<A: FixedLayout>(data: Seq<u8>, pos: int) -> Result<(ArchivedOption<A>, int), DecodeError> {
    if pos + 1 > data.len() {
        Err(range_error(pos as usize, 1))
    } else if data[pos] == 0 {
        Ok((ArchivedOption::Absent, pos + 1))
    } else if data[pos] == 1 {
        match spec_read_value::<A>(data, pos + 1) {
            Ok((v, end)) => Ok((ArchivedOption::Present(v), end)),
            Err(e) => Err(e),
        }
    } else {
        Err(DecodeError::ValidationError { message: "Invalid Option discriminant", pos: pos as usize })
    }
}

/// The bytes written for an optional value.
pub open spec fn spec_option_bytes<T: FixedLayout>(v: Option<T>) -> Seq<u8> {
    match v {
        Some(x) => seq![1u8] + T::spec_to_bytes(x),
        None => seq![0u8],
    }
}

impl<A: FixedLayout> ArchivedOption<A> {
    /// Reads an optional value at the cursor.
    pub fn access(cursor: &mut Cursor) -> (r: Result<ArchivedOption<A>, DecodeError>)
        ensures
            final(cursor).data() == old(cursor).data(),
            match spec_option_access::<A>(old(cursor).data(), old(cursor).at()) {
                Ok((v, end)) => r == Ok::<ArchivedOption<A>, DecodeError>(v) && final(cursor).at() == end,
                Err(e) => r == Err::<ArchivedOption<A>, DecodeError>(e),
            },
    {
        proof {
            cursor.lemma_len_bound();
        }
        let pos = cursor.pos();
        let tag = cursor.read_u8()?;
        if tag == 0 {
            Ok(ArchivedOption::Absent)
        } else if tag == 1 {
            let v = A::access(cursor)?;
            Ok(ArchivedOption::Present(v))
        } else {
            Err(DecodeError::ValidationError { message: "Invalid Option discriminant", pos })
        }
    }

    /// Checks an optional value at the cursor.
    pub fn validate(cursor: &mut Cursor) -> (r: Result<(), DecodeError>)
        ensures
            final(cursor).data() == old(cursor).data(),
            match spec_option_access::<A>(old(cursor).data(), old(cursor).at()) {
                Ok((_, end)) => r is Ok && final(cursor).at() == end,
                Err(e) => r == Err::<(), DecodeError>(e),
            },
    {
        let _ = Self::access(cursor)?;
        Ok(())
    }

    /// The value as an `Option`.
    pub fn deserialize(&self) -> (r: Result<Option<A>, ZebinError>)
        ensures
            r == Ok::<Option<A>, ZebinError>(
                match self {
                    ArchivedOption::Present(v) => Some(*v),
                    ArchivedOption::Absent => None,
                },
            ),
    {
        match self {
            ArchivedOption::Present(value) => Ok(Some(*value)),
            ArchivedOption::Absent => Ok(None),
        }
    }
}

/// Serialized size of an optional value: a tag byte, plus the value when there is one.
pub fn measure_option_body<T: FixedLayout>(value: &Option<T>) -> (r: Result<usize, ZebinError>)
    ensures
        value is None ==> r == Ok::<usize, ZebinError>(1),
        value is Some && T::spec_size() + 1 <= usize::MAX ==> r == Ok::<usize, ZebinError>(
            (1 + T::spec_size()) as usize,
        ),
        value is Some && T::spec_size() + 1 > usize::MAX ==> r == Err::<usize, ZebinError>(
            ZebinError::ArithmeticOverflow { pos: 0 },
        ),
{
    match value {
        Some(_) => match 1usize.checked_add(T::size()) {
            Some(n) => Ok(n),
            None => Err(ZebinError::ArithmeticOverflow { pos: 0 }),
        },
        None => Ok(1),
    }
}

/// Resumable serializer of an optional value: a tag byte, then the value's bytes.
pub struct OptionSerializer<T> {
    value: Option<T>,
    prefix: u8,
    prefix_cursor: usize,
    inner: ByteSerializer<T>,
    inner_started: bool,
    has_inner: bool,
    planned: Ghost<Seq<u8>>,
    payload: Ghost<Option<T>>,
    emitted: Ghost<Seq<u8>>,
}

impl<T: FixedLayout> OptionSerializer<T> {
    /// Everything to be written for the current input.
    pub closed spec fn stream(&self) -> Seq<u8> {
        self.planned@
    }

    /// What has been written of it.
    pub closed spec fn emitted(&self) -> Seq<u8> {
        self.emitted@
    }

    pub closed spec fn wf(&self) -> bool {
        let planned = self.planned@;
        let emitted = self.emitted@;
        &&& self.prefix_cursor <= 1
        &&& self.inner.wf()
        &&& emitted.len() <= planned.len()
        &&& planned.subrange(0, emitted.len() as int) == emitted
        &&& if self.has_inner {
            &&& self.payload@ is Some
            &&& planned == spec_option_bytes(self.payload@)
            &&& self.prefix == 1
            &&& if !self.inner_started {
                &&& self.value == self.payload@
                &&& emitted.len() == self.prefix_cursor
            } else {
                &&& self.value is None
                &&& self.prefix_cursor == 1
                &&& self.inner.encoding() == T::spec_to_bytes(self.payload@->0)
                &&& emitted.len() == 1 + self.inner.sent()
            }
        } else {
            &&& self.value is None
            &&& (self.prefix_cursor == 0 ==> emitted.len() == 0 && planned == seq![self.prefix])
            &&& (self.prefix_cursor == 1 ==> emitted == planned)
        }
    }

    pub fn new_empty() -> (r: OptionSerializer<T>)
        ensures
            r.wf(),
            r.stream() == Seq::<u8>::empty(),
            r.emitted() == Seq::<u8>::empty(),
    {
        let r = OptionSerializer {
            value: None,
            prefix: 0,
            prefix_cursor: 1,
            inner: ByteSerializer::new(),
            inner_started: false,
            has_inner: false,
            planned: Ghost(Seq::empty()),
            payload: Ghost(None),
            emitted: Ghost(Seq::empty()),
        };
        proof {
            assert(r.planned@.subrange(0, 0) =~= r.emitted@);
        }
        r
    }

    /// Starts writing `item`: its tag, then its value when there is one.
    pub fn input<S: CursorMut>(&mut self, item: Option<T>, sink: &mut S) -> (r: Result<Poll, ZebinError>)
        requires
            old(sink).inv(),
            old(self).wf(),
        ensures
            final(sink).inv(),
            final(sink).limit() == old(sink).limit(),
            r == Ok::<Poll, ZebinError>(Poll::Pending) ==> is_full(*final(sink)),
            final(self).stream() == spec_option_bytes(item),
            final(self).emitted().len() <= final(self).stream().len(),
            final(sink).written() == old(sink).written() + final(self).emitted(),
            r is Ok ==> final(self).wf(),
            r matches Ok(p) ==> (p == Poll::Ready <==> final(self).emitted() == final(self).stream()),
            r is Err ==> spec_option_bytes(item).len() > room(*old(sink)) && !S::never_refuses(),
    {
        match item {
            Some(inner) => {
                self.value = Some(inner);
                self.prefix = 1;
                self.prefix_cursor = 0;
                self.has_inner = true;
                self.inner_started = false;
            },
            None => {
                self.value = None;
                self.prefix = 0;
                self.prefix_cursor = 0;
                self.has_inner = false;
                self.inner_started = false;
            },
        }
        self.planned = Ghost(spec_option_bytes(item));
        self.payload = Ghost(item);
        self.emitted = Ghost(Seq::empty());
        proof {
            assert(self.planned@.subrange(0, 0) =~= Seq::<u8>::empty());
            assert(old(sink).written() + Seq::<u8>::empty() =~= old(sink).written());
        }
        let ghost s0 = *sink;
        let r = self.poll_pending(sink);
        proof {
            assert(self.emitted@.subrange(0, 0) =~= Seq::<u8>::empty());
            assert(self.emitted@ =~= self.emitted@.subrange(0, self.emitted@.len() as int));
        }
        r
    }

    /// Writes as much of the tag and value as the sink takes.
    pub fn poll_pending<S: CursorMut>(&mut self, sink: &mut S) -> (r: Result<Poll, ZebinError>)
        requires
            old(sink).inv(),
            old(self).wf(),
        ensures
            final(sink).inv(),
            final(sink).limit() == old(sink).limit(),
            r == Ok::<Poll, ZebinError>(Poll::Pending) ==> is_full(*final(sink)),
            final(self).stream() == old(self).stream(),
            old(self).emitted().len() <= final(self).emitted().len() <= final(self).stream().len(),
            final(self).emitted().subrange(0, old(self).emitted().len() as int) == old(self).emitted(),
            final(sink).written() == old(sink).written() + final(self).emitted().subrange(
                old(self).emitted().len() as int,
                final(self).emitted().len() as int,
            ),
            r is Ok ==> final(self).wf(),
            r matches Ok(p) ==> (p == Poll::Ready <==> final(self).emitted() == final(self).stream()),
            r is Err ==> old(self).stream().len() - old(self).emitted().len() > room(*old(sink)) && !S::never_refuses(),
    {
        let ghost e0 = self.emitted@;
        let ghost planned = self.planned@;
        if self.prefix_cursor < 1 {
            let mut buf: Vec<u8> = Vec::new();
            buf.push(self.prefix);
            let progress = match sink.write(buf.as_slice()) {
                Ok(p) => p,
                Err(e) => {
                    proof {
                        assert(e0.subrange(0, e0.len() as int) =~= e0);
                        assert(sink.written() =~= old(sink).written() + e0.subrange(e0.len() as int, e0.len() as int));
                    }
                    return Err(e);
                },
            };
            let accepted = progress.accepted_for(1);
            if accepted == 1 {
                self.prefix_cursor = 1;
                self.emitted = Ghost(self.emitted@ + seq![self.prefix]);
                proof {
                    assert(buf@.subrange(0, 1) =~= seq![self.prefix]);
                    assert(planned.subrange(0, 1) =~= seq![self.prefix]);
                    assert(self.emitted@ =~= planned.subrange(0, 1));
                    if !self.has_inner {
                        assert(self.emitted@ =~= planned);
                    }
                }
            } else {
                proof {
                    assert(buf@.subrange(0, 0) =~= Seq::<u8>::empty());
                    assert(sink.written() =~= old(sink).written());
                    assert(e0.subrange(0, e0.len() as int) =~= e0);
                    assert(sink.written() =~= old(sink).written() + e0.subrange(e0.len() as int, e0.len() as int));
                }
                return Ok(Poll::Pending);
            }
        }
        let ghost e1 = self.emitted@;
        let ghost w1 = sink.written();
        proof {
            assert(e1.subrange(0, e0.len() as int) =~= e0);
            assert(w1 =~= old(sink).written() + e1.subrange(e0.len() as int, e1.len() as int));
        }
        if self.has_inner {
            let progress = if !self.inner_started {
                let item = match self.value.take() {
                    Some(v) => v,
                    None => {
                        return Ok(Poll::Ready);
                    },
                };
                self.inner_started = true;
                let res = self.inner.input(item, sink);
                self.emitted = Ghost(e1 + self.inner.encoding().subrange(0, self.inner.sent() as int));
                res
            } else {
                let ghost sent0 = self.inner.sent();
                let res = self.inner.poll_pending(sink);
                self.emitted = Ghost(e1 + self.inner.encoding().subrange(sent0 as int, self.inner.sent() as int));
                res
            };
            proof {
                let enc = T::spec_to_bytes(self.payload@->0);
                self.inner.lemma_sent_bound();
                assert(planned == seq![1u8] + enc);
                assert(self.emitted@ =~= planned.subrange(0, (1 + self.inner.sent()) as int));
                assert(self.emitted@.subrange(0, e0.len() as int) =~= e0);
                assert(self.emitted@.subrange(0, e1.len() as int) =~= e1);
                assert(e1.subrange(e0.len() as int, e1.len() as int) + self.emitted@.subrange(
                    e1.len() as int,
                    self.emitted@.len() as int,
                ) =~= self.emitted@.subrange(e0.len() as int, self.emitted@.len() as int));
            }
            match progress? {
                Poll::Pending => Ok(Poll::Pending),
                Poll::Ready => {
                    self.has_inner = false;
                    proof {
                        assert(self.emitted@ =~= planned);
                    }
                    Ok(Poll::Ready)
                },
            }
        } else {
            Ok(Poll::Ready)
        }
    }

    pub fn finish<S: CursorMut>(self, sink: &mut S) -> (r: Result<Poll, ZebinError>)
        ensures
            r == Ok::<Poll, ZebinError>(Poll::Ready),
            *final(sink) == *old(sink),
    {
        self.inner.finish(sink)
    }
}

/// Reading back what was written for an optional value gives it back.
pub proof fn lemma_option_roundtrip<T: FixedLayout>(data: Seq<u8>, pos: int, v: Option<T>)
    requires
        0 <= pos,
        pos + spec_option_bytes(v).len() <= data.len(),
        data.subrange(pos, pos + spec_option_bytes(v).len()) == spec_option_bytes(v),
    ensures
        spec_option_access::<T>(data, pos) == Ok::<(ArchivedOption<T>, int), DecodeError>(
            (
                match v {
                    Some(x) => ArchivedOption::Present(x),
                    None => ArchivedOption::Absent,
                },
                pos + spec_option_bytes(v).len(),
            ),
        ),
{
    assert(data[pos] == spec_option_bytes(v)[0]);
    if let Some(x) = v {
        T::lemma_roundtrip(x, pos + 1);
        lemma_subrange_concat(data, pos, seq![1u8], T::spec_to_bytes(x));
    }
}

/// Archived form of a result, read back.
#[derive(Debug, Clone, Copy, PartialEq, Eq)]
pub enum ArchivedResult<T, E> {
    Success(T),
    Failure(E),
}

impl<T, E> ArchivedResult<T, E> {
    pub fn is_ok(&self) -> (r: bool)
        ensures
            r == (self is Success),
    {
        match self {
            ArchivedResult::Success(_) => true,
            ArchivedResult::Failure(_) => false,
        }
    }

    pub fn is_err(&self) -> (r: bool)
        ensures
            r == (self is Failure),
    {
        match self {
            ArchivedResult::Success(_) => false,
            ArchivedResult::Failure(_) => true,
        }
    }

    /// The success value, if this is one.
    pub fn as_ok(&self) -> (r: Option<&T>)
        ensures
            r == (match self {
                ArchivedResult::Success(v) => Some(v),
                ArchivedResult::Failure(_) => None::<&T>,
            }),
    {
        match self {
            ArchivedResult::Success(value) => Some(value),
            ArchivedResult::Failure(_) => None,
        }
    }

    /// The error value, if this is one.
    pub fn as_err(&self) -> (r: Option<&E>)
        ensures
            r == (match self {
                ArchivedResult::Success(_) => None::<&E>,
                ArchivedResult::Failure(v) => Some(v),
            }),
    {
        match self {
            ArchivedResult::Success(_) => None,
            ArchivedResult::Failure(value) => Some(value),
        }
    }
}

/// What reading a result at `pos` gives: a tag byte (0 for success, 1 for error), the
/// value, and the position after it.
pub open spec fn spec_result_access<A: FixedLayout, B: FixedLayout>(data: Seq<u8>, pos: int) -> Result<(ArchivedResult<A, B>, int), DecodeError> {
    if pos + 1 > data.len() {
        Err(range_error(pos as usize, 1))
    } else if data[pos] == 0 {
        match spec_read_value::<A>(data, pos + 1) {
            Ok((v, end)) => Ok((ArchivedResult::Success(v), end)),
            Err(e) => Err(e),
        }
    } else if data[pos] == 1 {
        match spec_read_value::<B>(data, pos + 1) {
            Ok((v, end)) => Ok((ArchivedResult::Failure(v), end)),
            Err(e) => Err(e),
        }
    } else {
        Err(DecodeError::ValidationError { message: "Invalid Result discriminant", pos: pos as usize })
    }
}

/// The bytes written for a result.
pub open spec fn spec_result_bytes<T: FixedLayout, E: FixedLayout>(v: Result<T, E>) -> Seq<u8> {
    match v {
        Ok(x) => seq![0u8] + T::spec_to_bytes(x),
        Err(x) => seq![1u8] + E::spec_to_bytes(x),
    }
}

impl<A: FixedLayout, B: FixedLayout> ArchivedResult<A, B> {
    /// Reads a result at the cursor.
    pub fn access(cursor: &mut Cursor) -> (r: Result<ArchivedResult<A, B>, DecodeError>)
        ensures
            final(cursor).data() == old(cursor).data(),
            match spec_result_access::<A, B>(old(cursor).data(), old(cursor).at()) {
                Ok((v, end)) => r == Ok::<ArchivedResult<A, B>, DecodeError>(v) && final(cursor).at() == end,
                Err(e) => r == Err::<ArchivedResult<A, B>, DecodeError>(e),
            },
    {
        proof {
            cursor.lemma_len_bound();
        }
        let pos = cursor.pos();
        let tag = cursor.read_u8()?;
        if tag == 0 {
            let v = A::access(cursor)?;
            Ok(ArchivedResult::Success(v))
        } else if tag == 1 {
            let v = B::access(cursor)?;
            Ok(ArchivedResult::Failure(v))
        } else {
            Err(DecodeError::ValidationError { message: "Invalid Result discriminant", pos })
        }
    }

    /// Checks a result at the cursor.
    pub fn validate(cursor: &mut Cursor) -> (r: Result<(), DecodeError>)
        ensures
            final(cursor).data() == old(cursor).data(),
            match spec_result_access::<A, B>(old(cursor).data(), old(cursor).at()) {
                Ok((_, end)) => r is Ok && final(cursor).at() == end,
                Err(e) => r == Err::<(), DecodeError>(e),
            },
    {
        let _ = Self::access(cursor)?;
        Ok(())
    }

    /// The value as a `Result`.
    pub fn deserialize(&self) -> (r: Result<Result<A, B>, ZebinError>)
        ensures
            r == Ok::<Result<A, B>, ZebinError>(
                match self {
                    ArchivedResult::Success(v) => Ok(*v),
                    ArchivedResult::Failure(v) => Err(*v),
                },
            ),
    {
        match self {
            ArchivedResult::Success(value) => Ok(Ok(*value)),
            ArchivedResult::Failure(value) => Ok(Err(*value)),
        }
    }
}

/// Serialized size of a result: a tag byte and the value.
pub fn measure_result_body<T: FixedLayout, E: FixedLayout>(value: &Result<T, E>) -> (r: Result<usize, ZebinError>)
    ensures
        ({
            let inner = match value {
                Ok(_) => T::spec_size(),
                Err(_) => E::spec_size(),
            };
            &&& inner + 1 <= usize::MAX ==> r == Ok::<usize, ZebinError>((inner + 1) as usize)
            &&& inner + 1 > usize::MAX ==> r == Err::<usize, ZebinError>(ZebinError::ArithmeticOverflow { pos: 0 })
        }),
{
    let inner = match value {
        Ok(_) => T::size(),
        Err(_) => E::size(),
    };
    match 1usize.checked_add(inner) {
        Some(n) => Ok(n),
        None => Err(ZebinError::ArithmeticOverflow { pos: 0 }),
    }
}

/// Reading back what was written for a result gives it back.
pub proof fn lemma_result_roundtrip<T: FixedLayout, E: FixedLayout>(data: Seq<u8>, pos: int, v: Result<T, E>)
    requires
        0 <= pos,
        pos + spec_result_bytes(v).len() <= data.len(),
        data.subrange(pos, pos + spec_result_bytes(v).len()) == spec_result_bytes(v),
    ensures
        spec_result_access::<T, E>(data, pos) == Ok::<(ArchivedResult<T, E>, int), DecodeError>(
            (
                match v {
                    Ok(x) => ArchivedResult::Success(x),
                    Err(x) => ArchivedResult::Failure(x),
                },
                pos + spec_result_bytes(v).len(),
            ),
        ),
{
    assert(data[pos] == spec_result_bytes(v)[0]);
    match v {
        Ok(x) => {
            T::lemma_roundtrip(x, pos + 1);
            lemma_subrange_concat(data, pos, seq![0u8], T::spec_to_bytes(x));
        },
        Err(x) => {
            E::lemma_roundtrip(x, pos + 1);
            lemma_subrange_concat(data, pos, seq![1u8], E::spec_to_bytes(x));
        },
    }
}

/// Resumable writer of a one-byte tag followed by the bytes of a value.
struct TaggedWriter<U> {
    tag: u8,
    value: Option<U>,
    prefix_cursor: usize,
    started: bool,
    inner: ByteSerializer<U>,
}

impl<U: FixedLayout> TaggedWriter<U> {
    /// The tag, then the bytes of `payload`.
    spec fn bytes(&self, payload: U) -> Seq<u8> {
        seq![self.tag] + U::spec_to_bytes(payload)
    }

    /// How many of those bytes have been written.
    spec fn sent(&self) -> nat {
        if !self.started {
            self.prefix_cursor as nat
        } else {
            1 + self.inner.sent()
        }
    }

    /// The writer is writing `payload`.
    spec fn wf_for(&self, payload: U) -> bool {
        &&& self.prefix_cursor <= 1
        &&& self.inner.wf()
        &&& !self.started ==> self.value == Some(payload)
        &&& self.started ==> self.prefix_cursor == 1 && self.inner.encoding() == U::spec_to_bytes(payload)
    }

    fn new() -> (r: TaggedWriter<U>)
        ensures
            r.tag == 0,
            r.value is None,
            !r.started,
            r.sent() == 0,
            r.inner.wf(),
            r.inner.encoding() == Seq::<u8>::empty(),
    {
        TaggedWriter { tag: 0, value: None, prefix_cursor: 0, started: false, inner: ByteSerializer::new() }
    }

    fn start(&mut self, tag: u8, payload: U)
        ensures
            final(self).wf_for(payload),
            final(self).tag == tag,
            final(self).sent() == 0,
    {
        self.tag = tag;
        self.value = Some(payload);
        self.prefix_cursor = 0;
        self.started = false;
        self.inner = ByteSerializer::new();
    }

    /// Writes as much of the tag and value as the sink takes.
    fn poll<S: CursorMut>(&mut self, sink: &mut S, Ghost(payload): Ghost<U>) -> (r: Result<Poll, ZebinError>)
        requires
            old(sink).inv(),
            old(self).wf_for(payload),
        ensures
            final(sink).inv(),
            final(sink).limit() == old(sink).limit(),
            r == Ok::<Poll, ZebinError>(Poll::Pending) ==> is_full(*final(sink)),
            final(self).wf_for(payload),
            final(self).tag == old(self).tag,
            old(self).sent() <= final(self).sent() <= final(self).bytes(payload).len(),
            final(sink).written() == old(sink).written() + old(self).bytes(payload).subrange(
                old(self).sent() as int,
                final(self).sent() as int,
            ),
            r matches Ok(p) ==> (p == Poll::Ready <==> final(self).sent() == final(self).bytes(payload).len()),
            r is Err ==> old(self).bytes(payload).len() - old(self).sent() > room(*old(sink)) && !S::never_refuses(),
    {
        let ghost all = self.bytes(payload);
        proof {
            U::lemma_roundtrip(payload, 0);
        }
        if self.prefix_cursor == 0 {
            let mut buf: Vec<u8> = Vec::new();
            buf.push(self.tag);
            let res = flush_bytes(sink, buf.as_slice(), &mut self.prefix_cursor);
            proof {
                assert(buf@.subrange(0, self.prefix_cursor as int) =~= all.subrange(0, self.prefix_cursor as int));
            }
            match res {
                Err(e) => {
                    return Err(e);
                },
                Ok(Poll::Pending) => {
                    return Ok(Poll::Pending);
                },
                Ok(Poll::Ready) => {},
            }
        }
        let ghost s1 = self.sent();
        let ghost w1 = sink.written();
        if !self.started {
            let v = match self.value.take() {
                Some(v) => v,
                None => {
                    return Err(ZebinError::SerializationError { pos: sink.pos(), message: "ResultSerializer lost value" });
                },
            };
            self.started = true;
            let res = self.inner.input(v, sink);
            proof {
                self.inner.lemma_sent_bound();
                assert(self.inner.encoding().subrange(0, self.inner.sent() as int) =~= all.subrange(
                    1,
                    (1 + self.inner.sent()) as int,
                ));
                assert(all.subrange(old(self).sent() as int, 1) + all.subrange(1, self.sent() as int) =~= all.subrange(
                    old(self).sent() as int,
                    self.sent() as int,
                ));
            }
            res
        } else {
            let ghost c0 = self.inner.sent();
            let res = self.inner.poll_pending(sink);
            proof {
                self.inner.lemma_sent_bound();
                assert(self.inner.encoding().subrange(c0 as int, self.inner.sent() as int) =~= all.subrange(
                    (1 + c0) as int,
                    (1 + self.inner.sent()) as int,
                ));
            }
            res
        }
    }
}

/// Which variant a result serializer is writing.
enum ResultStage {
    Uninitialized,
    Success,
    Failure,
}

/// Resumable serializer of a result: the tag (0 for a success, 1 for a failure), then
/// the value's bytes.
pub struct ResultSerializer<T, E> {
    stage: ResultStage,
    ok_writer: TaggedWriter<T>,
    err_writer: TaggedWriter<E>,
    payload: Ghost<Option<Result<T, E>>>,
}

impl<T: FixedLayout, E: FixedLayout> ResultSerializer<T, E> {
    /// Everything to be written for the current input.
    pub closed spec fn stream(&self) -> Seq<u8> {
        match self.payload@ {
            None => Seq::empty(),
            Some(v) => spec_result_bytes(v),
        }
    }

    /// How many bytes of it have been written.
    pub closed spec fn sent(&self) -> nat {
        match self.stage {
            ResultStage::Uninitialized => 0,
            ResultStage::Success => self.ok_writer.sent(),
            ResultStage::Failure => self.err_writer.sent(),
        }
    }

    pub closed spec fn wf(&self) -> bool {
        match self.stage {
            ResultStage::Uninitialized => self.payload@ is None,
            ResultStage::Success => self.payload@ matches Some(Ok(x)) && self.ok_writer.wf_for(x)
                && self.ok_writer.tag == 0,
            ResultStage::Failure => self.payload@ matches Some(Err(x)) && self.err_writer.wf_for(x)
                && self.err_writer.tag == 1,
        }
    }

    /// A serializer with nothing to write yet.
    pub fn new_empty() -> (r: ResultSerializer<T, E>)
        ensures
            r.wf(),
            r.stream() == Seq::<u8>::empty(),
            r.sent() == 0,
    {
        ResultSerializer {
            stage: ResultStage::Uninitialized,
            ok_writer: TaggedWriter::new(),
            err_writer: TaggedWriter::new(),
            payload: Ghost(None),
        }
    }

    /// Writes as much of the tag and value as the sink takes; with no input yet there is
    /// nothing to write.
    pub fn poll_pending<S: CursorMut>(&mut self, sink: &mut S) -> (r: Result<Poll, ZebinError>)
        requires
            old(sink).inv(),
            old(self).wf(),
        ensures
            final(sink).inv(),
            final(sink).limit() == old(sink).limit(),
            r == Ok::<Poll, ZebinError>(Poll::Pending) ==> is_full(*final(sink)),
            final(self).wf(),
            final(self).stream() == old(self).stream(),
            old(self).sent() <= final(self).sent() <= final(self).stream().len(),
            final(sink).written() == old(sink).written() + old(self).stream().subrange(
                old(self).sent() as int,
                final(self).sent() as int,
            ),
            r matches Ok(p) ==> (p == Poll::Ready <==> final(self).sent() == final(self).stream().len()),
            r is Err ==> old(self).stream().len() - old(self).sent() > room(*old(sink)) && !S::never_refuses(),
    {
        match self.stage {
            ResultStage::Uninitialized => {
                proof {
                    assert(old(sink).written() + Seq::<u8>::empty().subrange(0, 0) =~= old(sink).written());
                }
                Ok(Poll::Ready)
            },
            ResultStage::Success => {
                let ghost x = self.payload@->0->Ok_0;
                self.ok_writer.poll(sink, Ghost(x))
            },
            ResultStage::Failure => {
                let ghost x = self.payload@->0->Err_0;
                self.err_writer.poll(sink, Ghost(x))
            },
        }
    }

    /// Starts writing `item` and writes as much as the sink takes.
    pub fn input<S: CursorMut>(&mut self, item: Result<T, E>, sink: &mut S) -> (r: Result<Poll, ZebinError>)
        requires
            old(sink).inv(),
        ensures
            final(sink).inv(),
            final(sink).limit() == old(sink).limit(),
            r == Ok::<Poll, ZebinError>(Poll::Pending) ==> is_full(*final(sink)),
            final(self).wf(),
            final(self).stream() == spec_result_bytes(item),
            final(self).sent() <= final(self).stream().len(),
            final(sink).written() == old(sink).written() + final(self).stream().subrange(0, final(self).sent() as int),
            r matches Ok(p) ==> (p == Poll::Ready <==> final(self).sent() == final(self).stream().len()),
            r is Err ==> spec_result_bytes(item).len() > room(*old(sink)) && !S::never_refuses(),
    {
        match item {
            Ok(x) => {
                self.stage = ResultStage::Success;
                self.ok_writer.start(0, x);
            },
            Err(x) => {
                self.stage = ResultStage::Failure;
                self.err_writer.start(1, x);
            },
        }
        self.payload = Ghost(Some(item));
        self.poll_pending(sink)
    }

    /// Nothing is left to write after the value.
    pub fn finish<S: CursorMut>(self, sink: &mut S) -> (r: Result<Poll, ZebinError>)
        ensures
            r == Ok::<Poll, ZebinError>(Poll::Ready),
            *final(sink) == *old(sink),
    {
        Ok(Poll::Ready)
    }
}

} // verus!
