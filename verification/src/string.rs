use vstd::prelude::*;
use vstd::bytes::*;
use vstd::utf8::{decode_utf8, encode_utf8, encode_utf8_decode_utf8, encode_utf8_valid_utf8, valid_utf8};
use vstd::string::StringSliceAdditionalSpecFns;
use crate::block_index::lemma_subrange_concat;
use crate::cursor::{Cursor, range_error};
use crate::error::{DecodeError, ZebinError};
use crate::sink::{CursorMut, Poll, flush_bytes, is_full, room};

verus! {

broadcast use vstd::slice::group_slice_axioms;

/// `core::str::from_utf8`: the string when `bytes` are valid UTF-8, nothing otherwise.
/// Claimed: it succeeds exactly on the byte sequences that vstd's `valid_utf8`
/// accepts, and the string it gives has exactly those bytes.
#[verifier::external_body]
fn str_from_utf8<'a>(bytes: &'a [u8]) -> (r: Option<&'a str>)
    ensures
        r is Some <==> valid_utf8(bytes@),
        r matches Some(s) ==> s.spec_bytes() == bytes@,
{
    core::str::from_utf8(bytes).ok()
}

/// The error for bytes that are not UTF-8.
pub open spec fn utf8_error(pos: int) -> DecodeError {
    DecodeError::ValidationError { message: "Invalid UTF-8 sequence", pos: pos as usize }
}

/// What reading a string at `pos` gives: its characters and the position after it.
pub open spec fn spec_string_access(data: Seq<u8>, pos: int) -> Result<(Seq<char>, int), DecodeError> {
    if pos + 4 > data.len() {
        Err(range_error(pos as usize, 4))
    } else {
        let len = spec_u32_from_le_bytes(data.subrange(pos, pos + 4)) as int;
        if pos + 4 + len > data.len() {
            Err(range_error((pos + 4) as usize, len as usize))
        } else {
            let bytes = data.subrange(pos + 4, pos + 4 + len);
            if valid_utf8(bytes) {
                Ok((decode_utf8(bytes), pos + 4 + len))
            } else {
                Err(utf8_error(pos))
            }
        }
    }
}

/// The bytes of a string: its UTF-8 length as 4 little-endian bytes, then its UTF-8
/// encoding.
pub open spec fn spec_string_bytes(chars: Seq<char>) -> Seq<u8> {
    spec_u32_to_le_bytes(encode_utf8(chars).len() as u32) + encode_utf8(chars)
}

/// Marker type for the archived form of a string.
#[derive(Debug, Clone, Copy, PartialEq, Eq, Hash)]
pub struct ArchivedString;

/// Read view over an archived string.
#[derive(Debug, Clone, Copy)]
pub struct ArchivedStringView<'a> {
    value: &'a str,
}

impl<'a> ArchivedStringView<'a> {
    pub closed spec fn chars(&self) -> Seq<char> {
        self.value@
    }

    /// The string.
    pub fn as_str(&self) -> (r: &'a str)
        ensures
            r@ == self.chars(),
    {
        self.value
    }

    /// An owned copy of the string.
    pub fn deserialize(&self) -> (r: Result<String, ZebinError>)
        ensures
            r matches Ok(s) && s@ == self.chars(),
    {
        Ok(self.value.to_owned())
    }
}

impl ArchivedString {
    /// Reads a string at the cursor: a 32-bit length, then that many UTF-8 bytes.
    pub fn access<'a>(cursor: &mut Cursor<'a>) -> (r: Result<ArchivedStringView<'a>, DecodeError>)
        ensures
            final(cursor).data() == old(cursor).data(),
            match spec_string_access(old(cursor).data(), old(cursor).at()) {
                Ok((chars, end)) => r matches Ok(v) && v.chars() == chars && final(cursor).at() == end,
                Err(e) => r matches Err(e2) && e2 == e,
            },
    {
        proof {
            cursor.lemma_len_bound();
        }
        let pos = cursor.pos();
        let len = cursor.read_u32()? as usize;
        let bytes = cursor.read_exact(len)?;
        match str_from_utf8(bytes) {
            Some(value) => {
                proof {
                    vstd::utf8::decode_utf8_encode_utf8(bytes@);
                    encode_utf8_decode_utf8(value@);
                }
                Ok(ArchivedStringView { value })
            },
            None => Err(DecodeError::ValidationError { message: "Invalid UTF-8 sequence", pos }),
        }
    }

    /// Checks a string at the cursor.
    pub fn validate(cursor: &mut Cursor) -> (r: Result<(), DecodeError>)
        ensures
            final(cursor).data() == old(cursor).data(),
            match spec_string_access(old(cursor).data(), old(cursor).at()) {
                Ok((_, end)) => r is Ok && final(cursor).at() == end,
                Err(e) => r == Err::<(), DecodeError>(e),
            },
    {
        let _ = Self::access(cursor)?;
        Ok(())
    }
}

/// Serialized size of a string: 4 length bytes and its UTF-8 bytes, or an overflow error.
pub fn measure_str_body(s: &str) -> (r: Result<usize, ZebinError>)
    ensures
        4 + s.spec_bytes().len() <= usize::MAX ==> r == Ok::<usize, ZebinError>((4 + s.spec_bytes().len()) as usize),
        4 + s.spec_bytes().len() > usize::MAX ==> r == Err::<usize, ZebinError>(ZebinError::ArithmeticOverflow { pos: 0 }),
{
    let b = s.as_bytes();
    proof {
        assert(vstd::slice::spec_slice_len(b) == b@.len());
    }
    match 4usize.checked_add(b.len()) {
        Some(n) => Ok(n),
        None => Err(ZebinError::ArithmeticOverflow { pos: 0 }),
    }
}

/// The text a string serializer writes: none yet, borrowed, or owned.
pub enum StringBytes<'a> {
    Empty,
    Borrowed(&'a str),
    OwnedString(String),
}

impl<'a> StringBytes<'a> {
    pub closed spec fn chars(&self) -> Seq<char> {
        match self {
            StringBytes::Empty => Seq::empty(),
            StringBytes::Borrowed(s) => s@,
            StringBytes::OwnedString(s) => s@,
        }
    }

    pub fn as_str(&self) -> (r: &str)
        ensures
            r@ == self.chars(),
    {
        match self {
            StringBytes::Empty => {
                proof {
                    reveal_strlit("");
                }
                ""
            },
            StringBytes::Borrowed(s) => s,
            StringBytes::OwnedString(s) => s.as_str(),
        }
    }
}

/// Resumable writer of a string: its length prefix, then its bytes.
pub struct StringBytesSerializer<'a> {
    bytes: StringBytes<'a>,
    len_prefix: Vec<u8>,
    prefix_cursor: usize,
    cursor: usize,
}

impl<'a> StringBytesSerializer<'a> {
    /// The characters being written.
    pub closed spec fn chars(&self) -> Seq<char> {
        self.bytes.chars()
    }

    /// Everything the serializer writes for them.
    pub closed spec fn stream(&self) -> Seq<u8> {
        self.len_prefix@ + encode_utf8(self.bytes.chars())
    }

    pub closed spec fn sent(&self) -> nat {
        (self.prefix_cursor + self.cursor) as nat
    }

    pub closed spec fn wf(&self) -> bool {
        &&& self.len_prefix@.len() == 4
        &&& self.prefix_cursor <= 4
        &&& self.cursor <= encode_utf8(self.bytes.chars()).len()
        &&& self.cursor > 0 ==> self.prefix_cursor == 4
    }

    pub fn new_empty() -> (r: StringBytesSerializer<'a>)
        ensures
            r.wf(),
            r.sent() == 0,
    {
        StringBytesSerializer { bytes: StringBytes::Empty, len_prefix: vec![0u8, 0u8, 0u8, 0u8], prefix_cursor: 0, cursor: 0 }
    }

    /// Takes the text and writes as much as the sink takes.
    pub fn input<S: CursorMut>(&mut self, bytes: StringBytes<'a>, sink: &mut S) -> (r: Result<Poll, ZebinError>)
        requires
            old(sink).inv(),
        ensures
            final(sink).inv(),
            final(sink).limit() == old(sink).limit(),
            r == Ok::<Poll, ZebinError>(Poll::Pending) ==> is_full(*final(sink)),
            final(self).wf(),
            final(self).chars() == bytes.chars(),
            final(self).stream() == spec_u32_to_le_bytes(encode_utf8(bytes.chars()).len() as u32) + encode_utf8(
                bytes.chars(),
            ),
            final(self).sent() <= final(self).stream().len(),
            final(sink).written() == old(sink).written() + final(self).stream().subrange(0, final(self).sent() as int),
            r matches Ok(p) ==> (p == Poll::Ready <==> final(self).sent() == final(self).stream().len()),
            r is Err ==> final(self).stream().len() > room(*old(sink)) && !S::never_refuses(),
    {
        let b = bytes.as_str().as_bytes();
        proof {
            assert(vstd::slice::spec_slice_len(b) == b@.len());
        }
        let len = b.len() as u32;
        self.bytes = bytes;
        self.len_prefix = u32_to_le_bytes(len);
        self.prefix_cursor = 0;
        self.cursor = 0;
        proof {
            assert(self.stream().subrange(0, 0) =~= Seq::<u8>::empty());
            assert(old(sink).written() + Seq::<u8>::empty() =~= old(sink).written());
        }
        self.poll_pending(sink)
    }

    /// Writes as much of the length and bytes as the sink takes.
    pub fn poll_pending<S: CursorMut>(&mut self, sink: &mut S) -> (r: Result<Poll, ZebinError>)
        requires
            old(sink).inv(),
            old(self).wf(),
        ensures
            final(sink).inv(),
            final(sink).limit() == old(sink).limit(),
            r == Ok::<Poll, ZebinError>(Poll::Pending) ==> is_full(*final(sink)),
            final(self).wf(),
            final(self).chars() == old(self).chars(),
            final(self).stream() == old(self).stream(),
            old(self).sent() <= final(self).sent() <= final(self).stream().len(),
            final(sink).written() == old(sink).written() + old(self).stream().subrange(
                old(self).sent() as int,
                final(self).sent() as int,
            ),
            r matches Ok(p) ==> (p == Poll::Ready <==> final(self).sent() == final(self).stream().len()),
            r is Err ==> old(self).stream().len() - old(self).sent() > room(*old(sink)) && !S::never_refuses(),
    {
        let ghost st = self.stream();
        if self.prefix_cursor < 4 {
            let ghost c0 = self.prefix_cursor;
            let res = flush_bytes(sink, self.len_prefix.as_slice(), &mut self.prefix_cursor);
            proof {
                assert(self.len_prefix@.subrange(c0 as int, self.prefix_cursor as int) =~= st.subrange(
                    c0 as int,
                    self.prefix_cursor as int,
                ));
            }
            match res? {
                Poll::Pending => {
                    return Ok(Poll::Pending);
                },
                Poll::Ready => {},
            }
        }
        let ghost sent1 = self.sent();
        let ghost c0 = self.cursor;
        let body = self.bytes.as_str().as_bytes();
        let res = flush_bytes(sink, body, &mut self.cursor);
        proof {
            assert(body@.subrange(c0 as int, self.cursor as int) =~= st.subrange(4 + c0, 4 + self.cursor));
            assert(old(self).stream().subrange(old(self).sent() as int, sent1 as int) + st.subrange(
                sent1 as int,
                self.sent() as int,
            ) =~= old(self).stream().subrange(old(self).sent() as int, self.sent() as int));
        }
        res
    }

    pub fn finish<S: CursorMut>(self, sink: &mut S) -> (r: Result<Poll, ZebinError>)
        ensures
            r == Ok::<Poll, ZebinError>(Poll::Ready),
            *final(sink) == *old(sink),
    {
        Ok(Poll::Ready)
    }
}

/// Serializer of an owned string.
pub struct StringSerializer {
    inner: StringBytesSerializer<'static>,
}

impl StringSerializer {
    pub closed spec fn inner(&self) -> StringBytesSerializer<'static> {
        self.inner
    }

    pub fn new_empty() -> (r: StringSerializer)
        ensures
            r.inner().wf(),
            r.inner().sent() == 0,
    {
        StringSerializer { inner: StringBytesSerializer::new_empty() }
    }

    /// Writes `item` as a string: its length prefix, then its UTF-8 bytes.
    pub fn input<S: CursorMut>(&mut self, item: String, sink: &mut S) -> (r: Result<Poll, ZebinError>)
        requires
            old(sink).inv(),
        ensures
            final(sink).inv(),
            final(sink).limit() == old(sink).limit(),
            r == Ok::<Poll, ZebinError>(Poll::Pending) ==> is_full(*final(sink)),
            final(self).inner().wf(),
            final(self).inner().stream() == spec_string_bytes(item@),
            final(self).inner().sent() <= final(self).inner().stream().len(),
            final(sink).written() == old(sink).written() + final(self).inner().stream().subrange(
                0,
                final(self).inner().sent() as int,
            ),
            r matches Ok(p) ==> (p == Poll::Ready <==> final(self).inner().sent() == final(self).inner().stream().len()),
            r is Err ==> spec_string_bytes(item@).len() > room(*old(sink)) && !S::never_refuses(),
    {
        self.inner.input(StringBytes::OwnedString(item), sink)
    }

    pub fn poll_pending<S: CursorMut>(&mut self, sink: &mut S) -> (r: Result<Poll, ZebinError>)
        requires
            old(sink).inv(),
            old(self).inner().wf(),
        ensures
            final(sink).inv(),
            final(sink).limit() == old(sink).limit(),
            r == Ok::<Poll, ZebinError>(Poll::Pending) ==> is_full(*final(sink)),
            final(self).inner().wf(),
            final(self).inner().stream() == old(self).inner().stream(),
            old(self).inner().sent() <= final(self).inner().sent() <= final(self).inner().stream().len(),
            final(sink).written() == old(sink).written() + old(self).inner().stream().subrange(
                old(self).inner().sent() as int,
                final(self).inner().sent() as int,
            ),
            r matches Ok(p) ==> (p == Poll::Ready <==> final(self).inner().sent() == final(self).inner().stream().len()),
            r is Err ==> old(self).inner().stream().len() - old(self).inner().sent() > room(*old(sink)) && !S::never_refuses(),
    {
        self.inner.poll_pending(sink)
    }

    pub fn finish<S: CursorMut>(self, sink: &mut S) -> (r: Result<Poll, ZebinError>)
        ensures
            r == Ok::<Poll, ZebinError>(Poll::Ready),
            *final(sink) == *old(sink),
    {
        self.inner.finish(sink)
    }
}

/// `str::into_string`: the boxed string's characters, now in a `String`.
#[verifier::external_body]
fn box_str_into_string(item: Box<str>) -> (r: String)
    ensures
        r@ == item@,
{
    item.into_string()
}

/// Serializer of a boxed string: written as the string itself would be.
pub struct BoxStrSerializer {
    inner: StringSerializer,
}

impl BoxStrSerializer {
    /// The serializer of the string.
    pub closed spec fn inner(&self) -> StringSerializer {
        self.inner
    }

    pub fn new() -> (r: BoxStrSerializer)
        ensures
            r.inner().inner().wf(),
            r.inner().inner().sent() == 0,
    {
        BoxStrSerializer { inner: StringSerializer::new_empty() }
    }

    /// Writes the string in `item`: its length prefix, then its UTF-8 bytes.
    pub fn input<S: CursorMut>(&mut self, item: Box<str>, sink: &mut S) -> (r: Result<Poll, ZebinError>)
        requires
            old(sink).inv(),
        ensures
            final(sink).inv(),
            final(sink).limit() == old(sink).limit(),
            r == Ok::<Poll, ZebinError>(Poll::Pending) ==> is_full(*final(sink)),
            final(self).inner().inner().wf(),
            final(self).inner().inner().stream() == spec_string_bytes(item@),
            final(self).inner().inner().sent() <= final(self).inner().inner().stream().len(),
            final(sink).written() == old(sink).written() + final(self).inner().inner().stream().subrange(
                0,
                final(self).inner().inner().sent() as int,
            ),
            r matches Ok(p) ==> (p == Poll::Ready <==> final(self).inner().inner().sent()
                == final(self).inner().inner().stream().len()),
            r is Err ==> spec_string_bytes(item@).len() > room(*old(sink)) && !S::never_refuses(),
    {
        let owned = box_str_into_string(item);
        self.inner.input(owned, sink)
    }

    pub fn poll_pending<S: CursorMut>(&mut self, sink: &mut S) -> (r: Result<Poll, ZebinError>)
        requires
            old(sink).inv(),
            old(self).inner().inner().wf(),
        ensures
            final(sink).inv(),
            final(sink).limit() == old(sink).limit(),
            r == Ok::<Poll, ZebinError>(Poll::Pending) ==> is_full(*final(sink)),
            final(self).inner().inner().wf(),
            final(self).inner().inner().stream() == old(self).inner().inner().stream(),
            old(self).inner().inner().sent() <= final(self).inner().inner().sent(),
            final(self).inner().inner().sent() <= final(self).inner().inner().stream().len(),
            final(sink).written() == old(sink).written() + old(self).inner().inner().stream().subrange(
                old(self).inner().inner().sent() as int,
                final(self).inner().inner().sent() as int,
            ),
            r matches Ok(p) ==> (p == Poll::Ready <==> final(self).inner().inner().sent()
                == final(self).inner().inner().stream().len()),
            r is Err ==> old(self).inner().inner().stream().len() - old(self).inner().inner().sent() > room(
                *old(sink),
            ) && !S::never_refuses(),
    {
        self.inner.poll_pending(sink)
    }

    pub fn finish<S: CursorMut>(self, sink: &mut S) -> (r: Result<Poll, ZebinError>)
        ensures
            r == Ok::<Poll, ZebinError>(Poll::Ready),
            *final(sink) == *old(sink),
    {
        self.inner.finish(sink)
    }
}

/// Serializer of a borrowed string.
pub struct StrRefSerializer<'a> {
    inner: StringBytesSerializer<'a>,
}

impl<'a> StrRefSerializer<'a> {
    pub closed spec fn inner(&self) -> StringBytesSerializer<'a> {
        self.inner
    }

    pub fn new() -> (r: StrRefSerializer<'a>)
        ensures
            r.inner().wf(),
            r.inner().sent() == 0,
    {
        StrRefSerializer { inner: StringBytesSerializer::new_empty() }
    }

    /// Writes `item` as a string: its length prefix, then its UTF-8 bytes.
    pub fn input<S: CursorMut>(&mut self, item: &'a str, sink: &mut S) -> (r: Result<Poll, ZebinError>)
        requires
            old(sink).inv(),
        ensures
            final(sink).inv(),
            final(sink).limit() == old(sink).limit(),
            r == Ok::<Poll, ZebinError>(Poll::Pending) ==> is_full(*final(sink)),
            final(self).inner().wf(),
            final(self).inner().stream() == spec_string_bytes(item@),
            final(self).inner().sent() <= final(self).inner().stream().len(),
            final(sink).written() == old(sink).written() + final(self).inner().stream().subrange(
                0,
                final(self).inner().sent() as int,
            ),
            r matches Ok(p) ==> (p == Poll::Ready <==> final(self).inner().sent() == final(self).inner().stream().len()),
            r is Err ==> spec_string_bytes(item@).len() > room(*old(sink)) && !S::never_refuses(),
    {
        self.inner.input(StringBytes::Borrowed(item), sink)
    }

    pub fn poll_pending<S: CursorMut>(&mut self, sink: &mut S) -> (r: Result<Poll, ZebinError>)
        requires
            old(sink).inv(),
            old(self).inner().wf(),
        ensures
            final(sink).inv(),
            final(sink).limit() == old(sink).limit(),
            r == Ok::<Poll, ZebinError>(Poll::Pending) ==> is_full(*final(sink)),
            final(self).inner().wf(),
            final(self).inner().stream() == old(self).inner().stream(),
            old(self).inner().sent() <= final(self).inner().sent() <= final(self).inner().stream().len(),
            final(sink).written() == old(sink).written() + old(self).inner().stream().subrange(
                old(self).inner().sent() as int,
                final(self).inner().sent() as int,
            ),
            r matches Ok(p) ==> (p == Poll::Ready <==> final(self).inner().sent() == final(self).inner().stream().len()),
            r is Err ==> old(self).inner().stream().len() - old(self).inner().sent() > room(*old(sink)) && !S::never_refuses(),
    {
        self.inner.poll_pending(sink)
    }

    pub fn finish<S: CursorMut>(self, sink: &mut S) -> (r: Result<Poll, ZebinError>)
        ensures
            r == Ok::<Poll, ZebinError>(Poll::Ready),
            *final(sink) == *old(sink),
    {
        self.inner.finish(sink)
    }
}

/// Reading back the bytes written for a string of fewer than 2^32 UTF-8 bytes gives
/// its characters and the position after them.
pub proof fn lemma_string_roundtrip(data: Seq<u8>, pos: int, chars: Seq<char>)
    requires
        0 <= pos,
        encode_utf8(chars).len() <= u32::MAX,
        pos + spec_string_bytes(chars).len() <= data.len(),
        data.subrange(pos, pos + spec_string_bytes(chars).len()) == spec_string_bytes(chars),
    ensures
        spec_string_access(data, pos) == Ok::<(Seq<char>, int), DecodeError>(
            (chars, pos + spec_string_bytes(chars).len()),
        ),
{
    let enc = encode_utf8(chars);
    let prefix = spec_u32_to_le_bytes(enc.len() as u32);
    lemma_auto_spec_u32_to_from_le_bytes();
    lemma_subrange_concat(data, pos, prefix, enc);
    encode_utf8_valid_utf8(chars);
    encode_utf8_decode_utf8(chars);
}

} // verus!
