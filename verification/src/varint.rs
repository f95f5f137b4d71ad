use vstd::prelude::*;
use crate::cursor::{Cursor, range_error};
use crate::error::{DecodeError, ZebinError};
use crate::sink::{CursorMut, Poll, flush_bytes, is_full, room};

verus! {

/// Number of bytes of the LEB128 encoding of `v`: one per started group of seven bits.
pub open spec fn spec_varint_len(v: u64) -> nat {
    if v < 0x80 {
        1
    } else if v < 0x4000 {
        2
    } else if v < 0x20_0000 {
        3
    } else if v < 0x1000_0000 {
        4
    } else if v < 0x8_0000_0000 {
        5
    } else if v < 0x400_0000_0000 {
        6
    } else if v < 0x2_0000_0000_0000 {
        7
    } else if v < 0x100_0000_0000_0000 {
        8
    } else if v < 0x8000_0000_0000_0000 {
        9
    } else {
        10
    }
}

/// Unsigned LEB128 encoding of `v`: seven bits per byte, least significant group first,
/// the high bit set on every byte but the last.
pub open spec fn spec_varint_bytes(v: u64) -> Seq<u8>
    decreases v,
{
    if v < 0x80 {
        seq![v as u8]
    } else {
        proof {
            assert(v >= 0x80 ==> v >> 7 < v) by (bit_vector);
        }
        seq![((v & 0x7f) | 0x80) as u8] + spec_varint_bytes(v >> 7)
    }
}

/// Removing the lowest group of seven bits shortens the encoding by one byte.
pub proof fn lemma_varint_len_step(v: u64)
    ensures
        v >= 0x80 ==> spec_varint_len(v) == 1 + spec_varint_len(v >> 7),
        v >= 0x80 ==> v >> 7 < v,
{
    assert(v >= 0x80 ==> v >> 7 < v) by (bit_vector);
    assert(v >= 0x80 ==> {
        &&& (v < 0x4000 <==> (v >> 7) < 0x80)
        &&& (v < 0x20_0000 <==> (v >> 7) < 0x4000)
        &&& (v < 0x1000_0000 <==> (v >> 7) < 0x20_0000)
        &&& (v < 0x8_0000_0000 <==> (v >> 7) < 0x1000_0000)
        &&& (v < 0x400_0000_0000 <==> (v >> 7) < 0x8_0000_0000)
        &&& (v < 0x2_0000_0000_0000 <==> (v >> 7) < 0x400_0000_0000)
        &&& (v < 0x100_0000_0000_0000 <==> (v >> 7) < 0x2_0000_0000_0000)
        &&& (v < 0x8000_0000_0000_0000 <==> (v >> 7) < 0x100_0000_0000_0000)
        &&& (v >> 7) < 0x8000_0000_0000_0000
    }) by (bit_vector);
}

/// The encoding of `v` has `spec_varint_len(v)` bytes, every one but the last with
/// its high bit set.
pub proof fn lemma_varint_bytes_shape(v: u64)
    ensures
        spec_varint_bytes(v).len() == spec_varint_len(v),
        1 <= spec_varint_len(v) <= 10,
        forall|i: int| 0 <= i < spec_varint_bytes(v).len() - 1 ==> #[trigger] spec_varint_bytes(v)[i] >= 0x80,
        spec_varint_bytes(v).last() < 0x80,
    decreases v,
{
    lemma_varint_len_step(v);
    if v >= 0x80 {
        lemma_varint_bytes_shape(v >> 7);
        assert(((v & 0x7f) | 0x80) as u8 >= 0x80) by (bit_vector);
        let s = spec_varint_bytes(v);
        let t = spec_varint_bytes(v >> 7);
        assert forall|i: int| 0 <= i < s.len() - 1 implies #[trigger] s[i] >= 0x80 by {
            if i > 0 {
                assert(s[i] == t[i - 1]);
            }
        }
    }
}

/// What decoding a varint at `start` gives once `consumed` bytes have been read into
/// `value`, the next group going to bit `shift`, with at most `max_bytes` bytes allowed.
pub open spec fn spec_varint_decode_from(
    data: Seq<u8>,
    start: int,
    consumed: nat,
    max_bytes: nat,
    value: u64,
    shift: u64,
) -> Result<(u64, nat), DecodeError>
    decreases max_bytes - consumed,
{
    if consumed >= max_bytes {
        Err(DecodeError::ValidationError { message: "VarInt exceeds maximum length", pos: start as usize })
    } else if start + consumed + 1 > data.len() {
        Err(range_error((start + consumed) as usize, 1))
    } else {
        let byte = data[start + consumed];
        let next = value | (((byte & 0x7f) as u64) << shift);
        if byte & 0x80 == 0 {
            Ok((next, consumed + 1))
        } else if shift + 7 >= 64 {
            Err(DecodeError::ValidationError { message: "VarInt shift overflow", pos: start as usize })
        } else {
            spec_varint_decode_from(data, start, consumed + 1, max_bytes, next, (shift + 7) as u64)
        }
    }
}

/// What decoding a varint of at most `max_bytes` bytes at `start` of `data` gives:
/// the value and the number of bytes it took.
pub open spec fn spec_varint_decode(data: Seq<u8>, start: int, max_bytes: nat) -> Result<(u64, nat), DecodeError> {
    spec_varint_decode_from(data, start, 0, max_bytes, 0, 0)
}

/// Number of bytes `serialize_u64` writes for `value`.
pub fn serialized_len_u64(value: u64) -> (len: usize)
    ensures
        len == spec_varint_len(value),
        1 <= len <= 10,
{
    let mut v = value;
    let mut len: usize = 1;
    proof {
        lemma_varint_bytes_shape(value);
    }
    while v >= 0x80
        invariant
            1 <= len,
            len + spec_varint_len(v) == spec_varint_len(value) + 1,
            spec_varint_len(value) <= 10,
        decreases v,
    {
        proof {
            lemma_varint_len_step(v);
        }
        v = v >> 7;
        len = len + 1;
    }
    len
}

/// Appends the LEB128 encoding of `value` to `out`.
pub fn serialize_u64(value: u64, out: &mut Vec<u8>)
    ensures
        final(out)@ == old(out)@ + spec_varint_bytes(value),
{
    let mut v = value;
    let ghost start = out@;
    while v >= 0x80
        invariant
            start + spec_varint_bytes(value) == out@ + spec_varint_bytes(v),
        decreases v,
    {
        proof {
            lemma_varint_len_step(v);
        }
        let byte = ((v & 0x7f) | 0x80) as u8;
        let ghost old_out = out@;
        out.push(byte);
        proof {
            assert(out@ + spec_varint_bytes(v >> 7) =~= old_out + spec_varint_bytes(v));
        }
        v = v >> 7;
    }
    let ghost old_out = out@;
    out.push(v as u8);
    proof {
        assert(out@ =~= old_out + spec_varint_bytes(v));
    }
}

/// The LEB128 encoding of `value`.
pub fn encode_u64(value: u64) -> (r: Vec<u8>)
    ensures
        r@ == spec_varint_bytes(value),
{
    let mut out: Vec<u8> = Vec::new();
    serialize_u64(value, &mut out);
    proof {
        assert(out@ =~= spec_varint_bytes(value));
    }
    out
}

/// Reads a LEB128 value of at most `max_bytes` bytes at the cursor.
pub fn deserialize_raw_u64(cursor: &mut Cursor, max_bytes: usize) -> (r: Result<u64, DecodeError>)
    ensures
        final(cursor).data() == old(cursor).data(),
        ({
            let s = spec_varint_decode(old(cursor).data(), old(cursor).at(), max_bytes as nat);
            &&& r is Ok <==> s is Ok
            &&& r matches Ok(v) ==> v == s->Ok_0.0 && final(cursor).at() == old(cursor).at() + s->Ok_0.1
            &&& r matches Err(e) ==> s == Err::<(u64, nat), DecodeError>(e)
        }),
{
    let start_pos = cursor.pos();
    let ghost data = cursor.data();
    let mut value: u64 = 0;
    let mut shift: u64 = 0;
    let mut consumed: usize = 0;
    loop
        invariant
            cursor.data() == data,
            data == old(cursor).data(),
            start_pos == old(cursor).at(),
            cursor.at() == start_pos + consumed,
            shift < 64,
            consumed <= max_bytes,
            spec_varint_decode(data, start_pos as int, max_bytes as nat) == spec_varint_decode_from(
                data,
                start_pos as int,
                consumed as nat,
                max_bytes as nat,
                value,
                shift,
            ),
        decreases max_bytes - consumed,
    {
        if consumed >= max_bytes {
            return Err(DecodeError::ValidationError { message: "VarInt exceeds maximum length", pos: start_pos });
        }
        let byte = cursor.read_u8()?;
        let payload = (byte & 0x7f) as u64;
        value = value | (payload << shift);
        consumed = consumed + 1;
        if byte & 0x80 == 0 {
            return Ok(value);
        }
        if shift + 7 >= 64 {
            return Err(DecodeError::ValidationError { message: "VarInt shift overflow", pos: start_pos });
        }
        shift = shift + 7;
    }
}

/// Decoding the encoding of `v`, followed by anything, gives `v` back, provided enough
/// bytes are allowed; the accumulated low bits `acc` are kept.
proof fn lemma_varint_decode_from_encoding(
    data: Seq<u8>,
    start: int,
    consumed: nat,
    max_bytes: nat,
    acc: u64,
    shift: u64,
    v: u64,
)
    requires
        0 <= start,
        shift < 64,
        acc >> shift == 0,
        (v << shift) >> shift == v,
        start + consumed + spec_varint_len(v) <= data.len(),
        data.subrange(start + consumed, start + consumed + spec_varint_len(v)) == spec_varint_bytes(v),
        consumed + spec_varint_len(v) <= max_bytes,
    ensures
        spec_varint_decode_from(data, start, consumed, max_bytes, acc, shift) == Ok::<(u64, nat), DecodeError>(
            (acc | (v << shift), consumed + spec_varint_len(v)),
        ),
    decreases v,
{
    lemma_varint_bytes_shape(v);
    lemma_varint_len_step(v);
    let bytes = spec_varint_bytes(v);
    assert(data[start + consumed] == bytes[0]);
    if v < 0x80 {
        assert((v as u8) & 0x80 == 0 && ((v as u8) & 0x7f) as u64 == v) by (bit_vector)
            requires
                v < 0x80,
        ;
    } else {
        let byte = ((v & 0x7f) | 0x80) as u8;
        assert(byte & 0x80 != 0 && ((byte & 0x7f) as u64) == v & 0x7f) by (bit_vector)
            requires
                byte == ((v & 0x7f) | 0x80) as u8,
        ;
        let next = acc | ((v & 0x7f) << shift);
        assert(shift + 7 < 64 && next >> ((shift + 7) as u64) == 0 && ((v >> 7) << ((shift + 7) as u64)) >> (
        (shift + 7) as u64) == v >> 7 && (next | ((v >> 7) << ((shift + 7) as u64))) == (acc | (v
            << shift))) by (bit_vector)
            requires
                shift < 64,
                acc >> shift == 0,
                (v << shift) >> shift == v,
                v >= 0x80,
                next == acc | ((v & 0x7f) << shift),
        ;
        assert(data.subrange(start + consumed + 1, start + consumed + 1 + spec_varint_len(v >> 7))
            =~= spec_varint_bytes(v >> 7)) by {
            assert(bytes.subrange(1, bytes.len() as int) =~= spec_varint_bytes(v >> 7));
        }
        lemma_varint_decode_from_encoding(
            data,
            start,
            consumed + 1,
            max_bytes,
            next,
            (shift + 7) as u64,
            v >> 7,
        );
    }
}

/// Decoding the encoding of `v` at `start`, with at least as many bytes allowed as it
/// has, gives `v` and the encoding's length, whatever follows it.
pub proof fn lemma_varint_roundtrip(data: Seq<u8>, start: int, max_bytes: nat, v: u64)
    requires
        0 <= start,
        start + spec_varint_len(v) <= data.len(),
        data.subrange(start, start + spec_varint_len(v)) == spec_varint_bytes(v),
        spec_varint_len(v) <= max_bytes,
    ensures
        spec_varint_decode(data, start, max_bytes) == Ok::<(u64, nat), DecodeError>((v, spec_varint_len(v))),
{
    assert(((v << 0u64) >> 0u64) == v && (0u64 >> 0u64) == 0 && (0u64 | (v << 0u64)) == v) by (bit_vector);
    lemma_varint_decode_from_encoding(data, start, 0, max_bytes, 0, 0, v);
}

/// The error for a decoded value that does not fit the target integer type.
pub open spec fn out_of_range_error() -> DecodeError {
    DecodeError::ValidationError { message: "VarInt value out of range", pos: 0 }
}

/// Unsigned integer types stored as varints.
pub trait VarIntNumber: Sized + Copy {
    /// Longest encoding accepted when reading this type.
    spec fn spec_max_bytes() -> nat;

    spec fn spec_to_u64(v: Self) -> u64;

    spec fn spec_from_u64(v: u64) -> Option<Self>;

    fn max_bytes() -> (r: usize)
        ensures
            r == Self::spec_max_bytes(),
    ;

    fn to_u64(self) -> (r: u64)
        ensures
            r == Self::spec_to_u64(self),
    ;

    fn try_from_u64(value: u64) -> (r: Result<Self, DecodeError>)
        ensures
            Self::spec_from_u64(value) matches Some(x) ==> r == Ok::<Self, DecodeError>(x),
            Self::spec_from_u64(value) is None ==> r == Err::<Self, DecodeError>(out_of_range_error()),
    ;

    /// Every value converts to `u64` and back, and its encoding is short enough to be read.
    proof fn lemma_fits(v: Self)
        ensures
            Self::spec_from_u64(Self::spec_to_u64(v)) == Some(v),
            spec_varint_len(Self::spec_to_u64(v)) <= Self::spec_max_bytes(),
    ;
}

impl VarIntNumber for u8 {
    open spec fn spec_max_bytes() -> nat {
        2
    }

    open spec fn spec_to_u64(v: u8) -> u64 {
        v as u64
    }

    open spec fn spec_from_u64(v: u64) -> Option<u8> {
        if v <= u8::MAX { Some(v as u8) } else { None }
    }

    fn max_bytes() -> (r: usize) {
        2
    }

    fn to_u64(self) -> (r: u64) {
        self as u64
    }

    fn try_from_u64(value: u64) -> (r: Result<u8, DecodeError>) {
        if value <= u8::MAX as u64 {
            Ok(value as u8)
        } else {
            Err(DecodeError::ValidationError { message: "VarInt value out of range", pos: 0 })
        }
    }

    proof fn lemma_fits(v: u8) {
    }
}

impl VarIntNumber for u16 {
    open spec fn spec_max_bytes() -> nat {
        3
    }

    open spec fn spec_to_u64(v: u16) -> u64 {
        v as u64
    }

    open spec fn spec_from_u64(v: u64) -> Option<u16> {
        if v <= u16::MAX { Some(v as u16) } else { None }
    }

    fn max_bytes() -> (r: usize) {
        3
    }

    fn to_u64(self) -> (r: u64) {
        self as u64
    }

    fn try_from_u64(value: u64) -> (r: Result<u16, DecodeError>) {
        if value <= u16::MAX as u64 {
            Ok(value as u16)
        } else {
            Err(DecodeError::ValidationError { message: "VarInt value out of range", pos: 0 })
        }
    }

    proof fn lemma_fits(v: u16) {
    }
}

impl VarIntNumber for u32 {
    open spec fn spec_max_bytes() -> nat {
        5
    }

    open spec fn spec_to_u64(v: u32) -> u64 {
        v as u64
    }

    open spec fn spec_from_u64(v: u64) -> Option<u32> {
        if v <= u32::MAX { Some(v as u32) } else { None }
    }

    fn max_bytes() -> (r: usize) {
        5
    }

    fn to_u64(self) -> (r: u64) {
        self as u64
    }

    fn try_from_u64(value: u64) -> (r: Result<u32, DecodeError>) {
        if value <= u32::MAX as u64 {
            Ok(value as u32)
        } else {
            Err(DecodeError::ValidationError { message: "VarInt value out of range", pos: 0 })
        }
    }

    proof fn lemma_fits(v: u32) {
    }
}

impl VarIntNumber for u64 {
    open spec fn spec_max_bytes() -> nat {
        10
    }

    open spec fn spec_to_u64(v: u64) -> u64 {
        v
    }

    open spec fn spec_from_u64(v: u64) -> Option<u64> {
        Some(v)
    }

    fn max_bytes() -> (r: usize) {
        10
    }

    fn to_u64(self) -> (r: u64) {
        self
    }

    fn try_from_u64(value: u64) -> (r: Result<u64, DecodeError>) {
        Ok(value)
    }

    proof fn lemma_fits(v: u64) {
    }
}

impl VarIntNumber for usize {
    open spec fn spec_max_bytes() -> nat {
        10
    }

    open spec fn spec_to_u64(v: usize) -> u64 {
        v as u64
    }

    open spec fn spec_from_u64(v: u64) -> Option<usize> {
        if v <= usize::MAX { Some(v as usize) } else { None }
    }

    fn max_bytes() -> (r: usize) {
        10
    }

    fn to_u64(self) -> (r: u64) {
        self as u64
    }

    fn try_from_u64(value: u64) -> (r: Result<usize, DecodeError>) {
        if value <= usize::MAX as u64 {
            Ok(value as usize)
        } else {
            Err(DecodeError::ValidationError { message: "VarInt value out of range", pos: 0 })
        }
    }

    proof fn lemma_fits(v: usize) {
    }
}

/// What reading a varint of type `T` at `start` gives: the value and its length.
pub open spec fn spec_read_varint<T: VarIntNumber>(data: Seq<u8>, start: int) -> Result<(T, nat), DecodeError> {
    match spec_varint_decode(data, start, T::spec_max_bytes()) {
        Err(e) => Err(e),
        Ok((v, n)) => match T::spec_from_u64(v) {
            Some(x) => Ok((x, n)),
            None => Err(out_of_range_error()),
        },
    }
}

/// Reads a varint of type `T` at the cursor.
pub fn deserialize_u64<T: VarIntNumber>(cursor: &mut Cursor) -> (r: Result<T, DecodeError>)
    ensures
        final(cursor).data() == old(cursor).data(),
        ({
            let s = spec_read_varint::<T>(old(cursor).data(), old(cursor).at());
            &&& r is Ok <==> s is Ok
            &&& r matches Ok(v) ==> v == s->Ok_0.0 && final(cursor).at() == old(cursor).at() + s->Ok_0.1
            &&& r matches Err(e) ==> s == Err::<(T, nat), DecodeError>(e)
        }),
{
    let raw = deserialize_raw_u64(cursor, T::max_bytes())?;
    T::try_from_u64(raw)
}

/// Reading back the encoding of any value of type `T` gives that value and the
/// encoding's length.
pub proof fn lemma_read_varint_roundtrip<T: VarIntNumber>(data: Seq<u8>, start: int, v: T)
    requires
        0 <= start,
        start + spec_varint_len(T::spec_to_u64(v)) <= data.len(),
        data.subrange(start, start + spec_varint_len(T::spec_to_u64(v))) == spec_varint_bytes(
            T::spec_to_u64(v),
        ),
    ensures
        spec_read_varint::<T>(data, start) == Ok::<(T, nat), DecodeError>((v, spec_varint_len(T::spec_to_u64(v)))),
{
    T::lemma_fits(v);
    lemma_varint_roundtrip(data, start, T::spec_max_bytes(), T::spec_to_u64(v));
}

/// An unsigned integer serialized with a variable-length encoding.
#[derive(Debug, Clone, Copy, PartialEq, Eq, Hash)]
pub struct VarInt<T> {
    value: T,
}

impl<T: Copy> VarInt<T> {
    pub closed spec fn spec_value(self) -> T {
        self.value
    }

    pub fn new(value: T) -> (r: VarInt<T>)
        ensures
            r.spec_value() == value,
    {
        VarInt { value }
    }

    pub fn get(&self) -> (r: T)
        ensures
            r == self.spec_value(),
    {
        self.value
    }

    pub fn into_inner(self) -> (r: T)
        ensures
            r == self.spec_value(),
    {
        self.value
    }
}

/// Read view over a decoded varint.
#[derive(Debug, Clone, Copy, PartialEq, Eq, Hash)]
pub struct VarIntView<T> {
    value: T,
}

impl<T: Copy> VarIntView<T> {
    pub closed spec fn spec_value(self) -> T {
        self.value
    }

    pub fn get(&self) -> (r: T)
        ensures
            r == self.spec_value(),
    {
        self.value
    }
}

/// Zero-sized marker for the archived form of a varint.
#[derive(Debug)]
pub struct ArchivedVarInt<T> {
    _marker: core::marker::PhantomData<T>,
}

impl<T: VarIntNumber> ArchivedVarInt<T> {
    /// Reads a varint view at the cursor.
    pub fn access(cursor: &mut Cursor) -> (r: Result<VarIntView<T>, DecodeError>)
        ensures
            final(cursor).data() == old(cursor).data(),
            ({
                let s = spec_read_varint::<T>(old(cursor).data(), old(cursor).at());
                &&& r is Ok <==> s is Ok
                &&& r matches Ok(v) ==> v.spec_value() == s->Ok_0.0 && final(cursor).at() == old(cursor).at() + s->Ok_0.1
                &&& r matches Err(e) ==> s == Err::<(T, nat), DecodeError>(e)
            }),
    {
        let value = deserialize_u64::<T>(cursor)?;
        Ok(VarIntView { value })
    }

    /// Checks a varint at the cursor without keeping it.
    pub fn validate(cursor: &mut Cursor) -> (r: Result<(), DecodeError>)
        ensures
            final(cursor).data() == old(cursor).data(),
            ({
                let s = spec_read_varint::<T>(old(cursor).data(), old(cursor).at());
                &&& r is Ok <==> s is Ok
                &&& r is Ok ==> final(cursor).at() == old(cursor).at() + s->Ok_0.1
                &&& r matches Err(e) ==> s == Err::<(T, nat), DecodeError>(e)
            }),
    {
        let _ = deserialize_u64::<T>(cursor)?;
        Ok(())
    }
}

impl<T: VarIntNumber> VarInt<T> {
    /// Number of bytes this value takes once serialized.
    pub fn measure_body(&self) -> (r: Result<usize, ZebinError>)
        ensures
            r == Ok::<usize, ZebinError>(spec_varint_len(T::spec_to_u64(self.spec_value())) as usize),
    {
        Ok(serialized_len_u64(self.value.to_u64()))
    }
}

impl<T: VarIntNumber> VarIntView<T> {
    /// The value as it was decoded.
    pub fn deserialize(&self) -> (r: Result<T, ZebinError>)
        ensures
            r == Ok::<T, ZebinError>(self.spec_value()),
    {
        Ok(self.value)
    }

    /// Number of bytes this value takes once serialized.
    pub fn measure_body(&self) -> (r: Result<usize, ZebinError>)
        ensures
            r == Ok::<usize, ZebinError>(spec_varint_len(T::spec_to_u64(self.spec_value())) as usize),
    {
        Ok(serialized_len_u64(self.value.to_u64()))
    }
}

/// Resumable serializer for a varint: the encoding is computed on input and sent as
/// the sink makes room.
pub struct VarIntSerializer<T> {
    bytes: Vec<u8>,
    cursor: usize,
    _phantom: core::marker::PhantomData<T>,
}

impl<T: VarIntNumber> VarIntSerializer<T> {
    pub closed spec fn encoding(&self) -> Seq<u8> {
        self.bytes@
    }

    pub closed spec fn sent(&self) -> nat {
        self.cursor as nat
    }

    pub closed spec fn wf(&self) -> bool {
        self.cursor <= self.bytes@.len()
    }

    pub fn new_empty() -> (s: VarIntSerializer<T>)
        ensures
            s.wf(),
            s.encoding() == Seq::<u8>::empty(),
            s.sent() == 0,
    {
        VarIntSerializer { bytes: Vec::new(), cursor: 0, _phantom: core::marker::PhantomData }
    }

    /// Starts serializing `item`.
    pub fn input<S: CursorMut>(&mut self, item: VarInt<T>, sink: &mut S) -> (r: Result<Poll, ZebinError>)
        requires
            old(sink).inv(),
        ensures
            final(sink).inv(),
            final(sink).limit() == old(sink).limit(),
            r == Ok::<Poll, ZebinError>(Poll::Pending) ==> is_full(*final(sink)),
            final(self).wf(),
            final(self).encoding() == spec_varint_bytes(T::spec_to_u64(item.spec_value())),
            final(sink).written() == old(sink).written() + final(self).encoding().subrange(0, final(self).sent() as int),
            r matches Ok(p) ==> (p == Poll::Ready <==> final(self).sent() == final(self).encoding().len()),
            r is Err ==> final(self).encoding().len() > room(*old(sink)) && !S::never_refuses(),
    {
        let val = item.get().to_u64();
        self.bytes = encode_u64(val);
        self.cursor = 0;
        self.poll_pending(sink)
    }

    /// Sends more of the pending bytes.
    pub fn poll_pending<S: CursorMut>(&mut self, sink: &mut S) -> (r: Result<Poll, ZebinError>)
        requires
            old(sink).inv(),
            old(self).wf(),
        ensures
            final(sink).inv(),
            final(sink).limit() == old(sink).limit(),
            r == Ok::<Poll, ZebinError>(Poll::Pending) ==> is_full(*final(sink)),
            final(self).wf(),
            final(self).encoding() == old(self).encoding(),
            old(self).sent() <= final(self).sent(),
            final(sink).written() == old(sink).written() + old(self).encoding().subrange(
                old(self).sent() as int,
                final(self).sent() as int,
            ),
            r matches Ok(p) ==> (p == Poll::Ready <==> final(self).sent() == final(self).encoding().len()),
            r is Err ==> old(self).encoding().len() - old(self).sent() > room(*old(sink)) && !S::never_refuses(),
    {
        flush_bytes(sink, self.bytes.as_slice(), &mut self.cursor)
    }

    pub fn finish<S: CursorMut>(self, sink: &mut S) -> (r: Result<Poll, ZebinError>)
        ensures
            r == Ok::<Poll, ZebinError>(Poll::Ready),
            *final(sink) == *old(sink),
    {
        Ok(Poll::Ready)
    }
}

} // verus!
