use vstd::prelude::*;
use vstd::bytes::*;
use crate::cursor::{Cursor, range_error};
use crate::error::{DecodeError, ZebinError};
use crate::sink::{CursorMut, Poll, flush_bytes, is_full, room};

verus! {

broadcast use vstd::slice::group_slice_axioms;

/// Values with a fixed little-endian byte encoding.
pub trait ToBytes: Sized {
    spec fn spec_to_bytes(v: Self) -> Seq<u8>;

    fn to_bytes(&self) -> (r: Vec<u8>)
        ensures
            r@ == Self::spec_to_bytes(*self),
    ;
}

/// Fixed-width archived values: size, alignment, and how they are read back.
pub trait FixedLayout: ToBytes + Copy {
    spec fn spec_size() -> nat;

    spec fn spec_alignment() -> nat;

    /// What decoding the `spec_size()` bytes `b` found at `pos` gives.
    spec fn spec_decode(b: Seq<u8>, pos: int) -> Result<Self, DecodeError>;

    fn size() -> (r: usize)
        ensures
            r == Self::spec_size(),
    ;

    fn alignment() -> (r: usize)
        ensures
            r == Self::spec_alignment(),
            r > 0,
    ;

    /// Reads one value at the cursor.
    fn access(cursor: &mut Cursor) -> (r: Result<Self, DecodeError>)
        ensures
            final(cursor).data() == old(cursor).data(),
            !old(cursor).fits(Self::spec_size() as int) ==> r == Err::<Self, DecodeError>(
                range_error(old(cursor).at() as usize, Self::spec_size() as usize),
            ),
            old(cursor).fits(Self::spec_size() as int) ==> r == Self::spec_decode(
                old(cursor).data().subrange(old(cursor).at(), old(cursor).at() + Self::spec_size()),
                old(cursor).at(),
            ),
            final(cursor).at() == (if old(cursor).fits(Self::spec_size() as int) {
                old(cursor).at() + Self::spec_size()
            } else {
                old(cursor).at()
            }),
    ;

    /// Alignments are positive.
    proof fn lemma_alignment_positive()
        ensures
            Self::spec_alignment() > 0,
    ;

    /// The size is a whole number of alignments.
    proof fn lemma_size_aligned()
        ensures
            Self::spec_size() % Self::spec_alignment() == 0,
    ;

    /// Alignments are powers of two, of at most eight bytes.
    proof fn lemma_alignment_power_of_two()
        ensures
            Self::spec_alignment() == 1 || Self::spec_alignment() == 2 || Self::spec_alignment() == 4
                || Self::spec_alignment() == 8,
    ;

    /// The encoding of a value has the fixed size and decodes to the value.
    proof fn lemma_roundtrip(v: Self, pos: int)
        ensures
            Self::spec_to_bytes(v).len() == Self::spec_size(),
            Self::spec_decode(Self::spec_to_bytes(v), pos) == Ok::<Self, DecodeError>(v),
    ;
}

impl ToBytes for u8 {
    open spec fn spec_to_bytes(v: u8) -> Seq<u8> {
        seq![v]
    }

    fn to_bytes(&self) -> (r: Vec<u8>) {
        let mut v: Vec<u8> = Vec::new();
        v.push(*self);
        v
    }
}

impl FixedLayout for u8 {
    open spec fn spec_size() -> nat {
        1
    }

    open spec fn spec_alignment() -> nat {
        1
    }

    open spec fn spec_decode(b: Seq<u8>, pos: int) -> Result<u8, DecodeError> {
        Ok(b[0])
    }

    fn size() -> (r: usize) {
        1
    }

    fn alignment() -> (r: usize) {
        1
    }

    fn access(cursor: &mut Cursor) -> (r: Result<u8, DecodeError>) {
        proof {
            cursor.lemma_len_bound();
        }
        cursor.read_u8()
    }

    proof fn lemma_alignment_positive() {
    }

    proof fn lemma_size_aligned() {
        vstd::arithmetic::div_mod::lemma_mod_self_0(Self::spec_alignment() as int);
    }

    proof fn lemma_alignment_power_of_two() {
    }

    proof fn lemma_roundtrip(v: u8, pos: int) {
    }
}

impl ToBytes for i8 {
    open spec fn spec_to_bytes(v: i8) -> Seq<u8> {
        seq![v as u8]
    }

    fn to_bytes(&self) -> (r: Vec<u8>) {
        let mut v: Vec<u8> = Vec::new();
        v.push(*self as u8);
        v
    }
}

impl FixedLayout for i8 {
    open spec fn spec_size() -> nat {
        1
    }

    open spec fn spec_alignment() -> nat {
        1
    }

    open spec fn spec_decode(b: Seq<u8>, pos: int) -> Result<i8, DecodeError> {
        Ok(b[0] as i8)
    }

    fn size() -> (r: usize) {
        1
    }

    fn alignment() -> (r: usize) {
        1
    }

    fn access(cursor: &mut Cursor) -> (r: Result<i8, DecodeError>) {
        proof {
            cursor.lemma_len_bound();
        }
        cursor.read_i8()
    }

    proof fn lemma_alignment_positive() {
    }

    proof fn lemma_size_aligned() {
        vstd::arithmetic::div_mod::lemma_mod_self_0(Self::spec_alignment() as int);
    }

    proof fn lemma_alignment_power_of_two() {
    }

    proof fn lemma_roundtrip(v: i8, pos: int) {
        assert(v as u8 as i8 == v) by (bit_vector);
    }
}

impl ToBytes for bool {
    open spec fn spec_to_bytes(v: bool) -> Seq<u8> {
        seq![if v { 1u8 } else { 0u8 }]
    }

    fn to_bytes(&self) -> (r: Vec<u8>) {
        let mut v: Vec<u8> = Vec::new();
        v.push(if *self { 1u8 } else { 0u8 });
        v
    }
}

impl FixedLayout for bool {
    open spec fn spec_size() -> nat {
        1
    }

    open spec fn spec_alignment() -> nat {
        1
    }

    open spec fn spec_decode(b: Seq<u8>, pos: int) -> Result<bool, DecodeError> {
        if b[0] == 0 {
            Ok(false)
        } else if b[0] == 1 {
            Ok(true)
        } else {
            Err(DecodeError::ValidationError { message: "Invalid bool value", pos: pos as usize })
        }
    }

    fn size() -> (r: usize) {
        1
    }

    fn alignment() -> (r: usize) {
        1
    }

    fn access(cursor: &mut Cursor) -> (r: Result<bool, DecodeError>) {
        proof {
            cursor.lemma_len_bound();
        }
        let pos = cursor.pos();
        let value = cursor.read_u8()?;
        if value == 0 {
            Ok(false)
        } else if value == 1 {
            Ok(true)
        } else {
            Err(DecodeError::ValidationError { message: "Invalid bool value", pos })
        }
    }

    proof fn lemma_alignment_positive() {
    }

    proof fn lemma_size_aligned() {
        vstd::arithmetic::div_mod::lemma_mod_self_0(Self::spec_alignment() as int);
    }

    proof fn lemma_alignment_power_of_two() {
    }

    proof fn lemma_roundtrip(v: bool, pos: int) {
    }
}

impl ToBytes for u16 {
    open spec fn spec_to_bytes(v: u16) -> Seq<u8> {
        spec_u16_to_le_bytes(v)
    }

    fn to_bytes(&self) -> (r: Vec<u8>) {
        u16_to_le_bytes(*self)
    }
}

impl FixedLayout for u16 {
    open spec fn spec_size() -> nat {
        2
    }

    open spec fn spec_alignment() -> nat {
        2
    }

    open spec fn spec_decode(b: Seq<u8>, pos: int) -> Result<u16, DecodeError> {
        Ok(spec_u16_from_le_bytes(b))
    }

    fn size() -> (r: usize) {
        2
    }

    fn alignment() -> (r: usize) {
        2
    }

    fn access(cursor: &mut Cursor) -> (r: Result<u16, DecodeError>) {
        cursor.read_u16()
    }

    proof fn lemma_alignment_positive() {
    }

    proof fn lemma_size_aligned() {
        vstd::arithmetic::div_mod::lemma_mod_self_0(Self::spec_alignment() as int);
    }

    proof fn lemma_alignment_power_of_two() {
    }

    proof fn lemma_roundtrip(v: u16, pos: int) {
        lemma_auto_spec_u16_to_from_le_bytes();
        assert(spec_u16_to_le_bytes(v).len() == 2);
    }
}

impl ToBytes for i16 {
    open spec fn spec_to_bytes(v: i16) -> Seq<u8> {
        spec_u16_to_le_bytes(v as u16)
    }

    fn to_bytes(&self) -> (r: Vec<u8>) {
        u16_to_le_bytes(*self as u16)
    }
}

impl FixedLayout for i16 {
    open spec fn spec_size() -> nat {
        2
    }

    open spec fn spec_alignment() -> nat {
        2
    }

    open spec fn spec_decode(b: Seq<u8>, pos: int) -> Result<i16, DecodeError> {
        Ok(spec_u16_from_le_bytes(b) as i16)
    }

    fn size() -> (r: usize) {
        2
    }

    fn alignment() -> (r: usize) {
        2
    }

    fn access(cursor: &mut Cursor) -> (r: Result<i16, DecodeError>) {
        cursor.read_i16()
    }

    proof fn lemma_alignment_positive() {
    }

    proof fn lemma_size_aligned() {
        vstd::arithmetic::div_mod::lemma_mod_self_0(Self::spec_alignment() as int);
    }

    proof fn lemma_alignment_power_of_two() {
    }

    proof fn lemma_roundtrip(v: i16, pos: int) {
        lemma_auto_spec_u16_to_from_le_bytes();
        assert(spec_u16_to_le_bytes(v as u16).len() == 2);
        assert(v as u16 as i16 == v) by (bit_vector);
    }
}

impl ToBytes for u32 {
    open spec fn spec_to_bytes(v: u32) -> Seq<u8> {
        spec_u32_to_le_bytes(v)
    }

    fn to_bytes(&self) -> (r: Vec<u8>) {
        u32_to_le_bytes(*self)
    }
}

impl FixedLayout for u32 {
    open spec fn spec_size() -> nat {
        4
    }

    open spec fn spec_alignment() -> nat {
        4
    }

    open spec fn spec_decode(b: Seq<u8>, pos: int) -> Result<u32, DecodeError> {
        Ok(spec_u32_from_le_bytes(b))
    }

    fn size() -> (r: usize) {
        4
    }

    fn alignment() -> (r: usize) {
        4
    }

    fn access(cursor: &mut Cursor) -> (r: Result<u32, DecodeError>) {
        cursor.read_u32()
    }

    proof fn lemma_alignment_positive() {
    }

    proof fn lemma_size_aligned() {
        vstd::arithmetic::div_mod::lemma_mod_self_0(Self::spec_alignment() as int);
    }

    proof fn lemma_alignment_power_of_two() {
    }

    proof fn lemma_roundtrip(v: u32, pos: int) {
        lemma_auto_spec_u32_to_from_le_bytes();
        assert(spec_u32_to_le_bytes(v).len() == 4);
    }
}

impl ToBytes for i32 {
    open spec fn spec_to_bytes(v: i32) -> Seq<u8> {
        spec_u32_to_le_bytes(v as u32)
    }

    fn to_bytes(&self) -> (r: Vec<u8>) {
        u32_to_le_bytes(*self as u32)
    }
}

impl FixedLayout for i32 {
    open spec fn spec_size() -> nat {
        4
    }

    open spec fn spec_alignment() -> nat {
        4
    }

    open spec fn spec_decode(b: Seq<u8>, pos: int) -> Result<i32, DecodeError> {
        Ok(spec_u32_from_le_bytes(b) as i32)
    }

    fn size() -> (r: usize) {
        4
    }

    fn alignment() -> (r: usize) {
        4
    }

    fn access(cursor: &mut Cursor) -> (r: Result<i32, DecodeError>) {
        cursor.read_i32()
    }

    proof fn lemma_alignment_positive() {
    }

    proof fn lemma_size_aligned() {
        vstd::arithmetic::div_mod::lemma_mod_self_0(Self::spec_alignment() as int);
    }

    proof fn lemma_alignment_power_of_two() {
    }

    proof fn lemma_roundtrip(v: i32, pos: int) {
        lemma_auto_spec_u32_to_from_le_bytes();
        assert(spec_u32_to_le_bytes(v as u32).len() == 4);
        assert(v as u32 as i32 == v) by (bit_vector);
    }
}

impl ToBytes for u64 {
    open spec fn spec_to_bytes(v: u64) -> Seq<u8> {
        spec_u64_to_le_bytes(v)
    }

    fn to_bytes(&self) -> (r: Vec<u8>) {
        u64_to_le_bytes(*self)
    }
}

impl FixedLayout for u64 {
    open spec fn spec_size() -> nat {
        8
    }

    open spec fn spec_alignment() -> nat {
        8
    }

    open spec fn spec_decode(b: Seq<u8>, pos: int) -> Result<u64, DecodeError> {
        Ok(spec_u64_from_le_bytes(b))
    }

    fn size() -> (r: usize) {
        8
    }

    fn alignment() -> (r: usize) {
        8
    }

    fn access(cursor: &mut Cursor) -> (r: Result<u64, DecodeError>) {
        cursor.read_u64()
    }

    proof fn lemma_alignment_positive() {
    }

    proof fn lemma_size_aligned() {
        vstd::arithmetic::div_mod::lemma_mod_self_0(Self::spec_alignment() as int);
    }

    proof fn lemma_alignment_power_of_two() {
    }

    proof fn lemma_roundtrip(v: u64, pos: int) {
        lemma_auto_spec_u64_to_from_le_bytes();
        assert(spec_u64_to_le_bytes(v).len() == 8);
    }
}

impl ToBytes for i64 {
    open spec fn spec_to_bytes(v: i64) -> Seq<u8> {
        spec_u64_to_le_bytes(v as u64)
    }

    fn to_bytes(&self) -> (r: Vec<u8>) {
        u64_to_le_bytes(*self as u64)
    }
}

impl FixedLayout for i64 {
    open spec fn spec_size() -> nat {
        8
    }

    open spec fn spec_alignment() -> nat {
        8
    }

    open spec fn spec_decode(b: Seq<u8>, pos: int) -> Result<i64, DecodeError> {
        Ok(spec_u64_from_le_bytes(b) as i64)
    }

    fn size() -> (r: usize) {
        8
    }

    fn alignment() -> (r: usize) {
        8
    }

    fn access(cursor: &mut Cursor) -> (r: Result<i64, DecodeError>) {
        cursor.read_i64()
    }

    proof fn lemma_alignment_positive() {
    }

    proof fn lemma_size_aligned() {
        vstd::arithmetic::div_mod::lemma_mod_self_0(Self::spec_alignment() as int);
    }

    proof fn lemma_alignment_power_of_two() {
    }

    proof fn lemma_roundtrip(v: i64, pos: int) {
        lemma_auto_spec_u64_to_from_le_bytes();
        assert(spec_u64_to_le_bytes(v as u64).len() == 8);
        assert(v as u64 as i64 == v) by (bit_vector);
    }
}

impl ToBytes for () {
    open spec fn spec_to_bytes(v: ()) -> Seq<u8> {
        Seq::empty()
    }

    fn to_bytes(&self) -> (r: Vec<u8>) {
        Vec::new()
    }
}

/// Resumable serializer for a fixed-width value: the value is turned into bytes on
/// input, then the bytes are sent as the sink makes room.
pub struct ByteSerializer<T> {
    bytes: Vec<u8>,
    cursor: usize,
    _phantom: core::marker::PhantomData<T>,
}

impl<T: ToBytes> ByteSerializer<T> {
    /// The bytes of the current input.
    pub closed spec fn encoding(&self) -> Seq<u8> {
        self.bytes@
    }

    /// How many of them have been sent.
    pub closed spec fn sent(&self) -> nat {
        self.cursor as nat
    }

    pub closed spec fn wf(&self) -> bool {
        self.cursor <= self.bytes@.len()
    }

    /// No more bytes are sent than the input has.
    pub proof fn lemma_sent_bound(&self)
        requires
            self.wf(),
        ensures
            self.sent() <= self.encoding().len(),
    {
    }

    pub fn new() -> (s: ByteSerializer<T>)
        ensures
            s.wf(),
            s.encoding() == Seq::<u8>::empty(),
            s.sent() == 0,
    {
        ByteSerializer { bytes: Vec::new(), cursor: 0, _phantom: core::marker::PhantomData }
    }

    /// Starts serializing `item`.
    pub fn input<S: CursorMut>(&mut self, item: T, sink: &mut S) -> (r: Result<Poll, ZebinError>)
        requires
            old(sink).inv(),
        ensures
            final(sink).inv(),
            final(sink).limit() == old(sink).limit(),
            r == Ok::<Poll, ZebinError>(Poll::Pending) ==> is_full(*final(sink)),
            final(self).wf(),
            final(self).encoding() == T::spec_to_bytes(item),
            final(sink).written() == old(sink).written() + final(self).encoding().subrange(0, final(self).sent() as int),
            final(sink).spec_pos() == old(sink).spec_pos() + final(self).sent(),
            r matches Ok(p) ==> (p == Poll::Ready <==> final(self).sent() == final(self).encoding().len()),
            r is Err ==> final(self).sent() == 0,
            r is Err ==> T::spec_to_bytes(item).len() > room(*old(sink)) && !S::never_refuses(),
    {
        self.bytes = item.to_bytes();
        self.cursor = 0;
        self.poll_pending(sink)
    }

    /// Sends more of the pending bytes.
    pub fn poll_pending<S: CursorMut>(&mut self, sink: &mut S) -> (r: Result<Poll, ZebinError>)
        requires
            old(sink).inv(),
            old(self).wf(),
        ensures
            final(sink).inv(),
            final(sink).limit() == old(sink).limit(),
            r == Ok::<Poll, ZebinError>(Poll::Pending) ==> is_full(*final(sink)),
            final(self).wf(),
            final(self).encoding() == old(self).encoding(),
            old(self).sent() <= final(self).sent(),
            final(sink).written() == old(sink).written() + old(self).encoding().subrange(
                old(self).sent() as int,
                final(self).sent() as int,
            ),
            final(sink).spec_pos() == old(sink).spec_pos() + (final(self).sent() - old(self).sent()),
            r matches Ok(p) ==> (p == Poll::Ready <==> final(self).sent() == final(self).encoding().len()),
            r is Err ==> final(self).sent() == old(self).sent(),
            r is Err ==> old(self).encoding().len() - old(self).sent() > room(*old(sink)) && !S::never_refuses(),
    {
        flush_bytes(sink, self.bytes.as_slice(), &mut self.cursor)
    }

    /// Nothing is left to write once the value is sent.
    pub fn finish<S: CursorMut>(self, sink: &mut S) -> (r: Result<Poll, ZebinError>)
        ensures
            r == Ok::<Poll, ZebinError>(Poll::Ready),
            *final(sink) == *old(sink),
    {
        Ok(Poll::Ready)
    }
}

/// Serializer for values that occupy no bytes.
pub struct UnitSerializer<T> {
    _phantom: core::marker::PhantomData<T>,
}

impl<T> UnitSerializer<T> {
    pub fn new() -> (s: UnitSerializer<T>) {
        UnitSerializer { _phantom: core::marker::PhantomData }
    }

    /// Writes nothing.
    pub fn input<S: CursorMut>(&mut self, item: T, sink: &mut S) -> (r: Result<Poll, ZebinError>)
        ensures
            r == Ok::<Poll, ZebinError>(Poll::Ready),
            *final(sink) == *old(sink),
    {
        Ok(Poll::Ready)
    }

    pub fn poll_pending<S: CursorMut>(&mut self, sink: &mut S) -> (r: Result<Poll, ZebinError>)
        ensures
            r == Ok::<Poll, ZebinError>(Poll::Ready),
            *final(sink) == *old(sink),
    {
        Ok(Poll::Ready)
    }

    pub fn finish<S: CursorMut>(self, sink: &mut S) -> (r: Result<Poll, ZebinError>)
        ensures
            r == Ok::<Poll, ZebinError>(Poll::Ready),
            *final(sink) == *old(sink),
    {
        Ok(Poll::Ready)
    }
}

} // verus!
