use vstd::prelude::*;
use vstd::bytes::*;
use crate::error::ZebinError;
use crate::packed::{
    lemma_low_bits_eq,
    lemma_mask_iff,
    lemma_read_bits_facts,
    pack_bools,
    pack_u8_values,
    spec_all_fit,
    spec_bit_mask,
    spec_packed_bit,
    spec_packed_byte_len,
    spec_read_bits,
    spec_stream_bit,
    spec_value_bit,
};
use crate::sink::{CursorMut, Poll, flush_bytes, is_full, room};

verus! {

broadcast use vstd::slice::group_slice_axioms;

/// The values a packed encoder takes: nothing, booleans, or small integers.
pub enum PackedData<'a> {
    Empty,
    Bool(&'a [bool]),
    U8(&'a [u8]),
}

/// Values that can be written as a packed sequence, with their bit width.
pub trait ToPackedData<'a>: Sized {
    /// The values and bit width this input stands for.
    spec fn spec_packed_data(&self) -> (PackedData<'a>, u8);

    fn to_packed_data(self) -> (r: (PackedData<'a>, u8))
        ensures
            r == self.spec_packed_data(),
    ;
}

/// Borrowed values to be written as a packed sequence of `BITS`-bit values.
pub struct PackedSlice<'a, T, const BITS: u8> {
    values: &'a [T],
}

impl<'a> PackedSlice<'a, bool, 1> {
    pub closed spec fn spec_values(&self) -> Seq<bool> {
        self.values@
    }

    pub fn new(values: &'a [bool]) -> (r: PackedSlice<'a, bool, 1>)
        ensures
            r.spec_values() == values@,
            r.spec_packed_data() == (PackedData::Bool(values), 1u8),
    {
        PackedSlice { values }
    }

    pub fn values(&self) -> (r: &'a [bool])
        ensures
            r@ == self.spec_values(),
    {
        self.values
    }
}

impl<'a, const BITS: u8> PackedSlice<'a, u8, BITS> {
    pub closed spec fn spec_values(&self) -> Seq<u8> {
        self.values@
    }

    pub fn new(values: &'a [u8]) -> (r: PackedSlice<'a, u8, BITS>)
        ensures
            r.spec_values() == values@,
            r.spec_packed_data() == (PackedData::U8(values), BITS),
    {
        PackedSlice { values }
    }

    pub fn values(&self) -> (r: &'a [u8])
        ensures
            r@ == self.spec_values(),
    {
        self.values
    }
}

impl<'a> From<&'a [bool]> for PackedSlice<'a, bool, 1> {
    fn from(values: &'a [bool]) -> (r: Self) {
        PackedSlice { values }
    }
}

impl<'a> vstd::std_specs::convert::FromSpecImpl<&'a [bool]> for PackedSlice<'a, bool, 1> {
    open spec fn obeys_from_spec() -> bool {
        true
    }

    closed spec fn from_spec(values: &'a [bool]) -> Self {
        PackedSlice { values }
    }
}

/// Converting a slice of booleans keeps its values.
pub proof fn lemma_bool_slice_from<'a>(values: &'a [bool])
    ensures
        <PackedSlice<'a, bool, 1> as vstd::std_specs::convert::FromSpec<&'a [bool]>>::from_spec(values).spec_values()
            == values@,
{
}

impl<'a, const BITS: u8> From<&'a [u8]> for PackedSlice<'a, u8, BITS> {
    fn from(values: &'a [u8]) -> (r: Self) {
        PackedSlice { values }
    }
}

impl<'a, const BITS: u8> vstd::std_specs::convert::FromSpecImpl<&'a [u8]> for PackedSlice<'a, u8, BITS> {
    open spec fn obeys_from_spec() -> bool {
        true
    }

    closed spec fn from_spec(values: &'a [u8]) -> Self {
        PackedSlice { values }
    }
}

/// Converting a slice of small integers keeps its values.
pub proof fn lemma_u8_slice_from<'a, const BITS: u8>(values: &'a [u8])
    ensures
        <PackedSlice<'a, u8, BITS> as vstd::std_specs::convert::FromSpec<&'a [u8]>>::from_spec(values).spec_values()
            == values@,
{
}

impl<'a> ToPackedData<'a> for PackedSlice<'a, bool, 1> {
    closed spec fn spec_packed_data(&self) -> (PackedData<'a>, u8) {
        (PackedData::Bool(self.values), 1)
    }

    fn to_packed_data(self) -> (r: (PackedData<'a>, u8)) {
        (PackedData::Bool(self.values), 1)
    }
}

impl<'a, const BITS: u8> ToPackedData<'a> for PackedSlice<'a, u8, BITS> {
    closed spec fn spec_packed_data(&self) -> (PackedData<'a>, u8) {
        (PackedData::U8(self.values), BITS)
    }

    fn to_packed_data(self) -> (r: (PackedData<'a>, u8)) {
        (PackedData::U8(self.values), BITS)
    }
}

/// Owned values to be written as a packed sequence of `BITS`-bit values.
pub struct PackedVec<T, const BITS: u8> {
    values: Vec<T>,
}

impl<T, const BITS: u8> PackedVec<T, BITS> {
    pub closed spec fn spec_values(&self) -> Seq<T> {
        self.values@
    }

    pub fn new(values: Vec<T>) -> (r: PackedVec<T, BITS>)
        ensures
            r.spec_values() == values@,
    {
        PackedVec { values }
    }

    pub fn values(&self) -> (r: &[T])
        ensures
            r@ == self.spec_values(),
    {
        self.values.as_slice()
    }

    pub fn into_inner(self) -> (r: Vec<T>)
        ensures
            r@ == self.spec_values(),
    {
        self.values
    }
}

impl PackedVec<bool, 1> {
    /// Serialized size: a 4-byte length and one bit per value.
    pub fn measure_body(&self) -> (r: Result<usize, ZebinError>)
        ensures
            r == Ok::<usize, ZebinError>((4 + spec_packed_byte_len(self.spec_values().len() as int, 1)) as usize),
    {
        let n = self.values.len();
        Ok(4 + (n / 8 + if n % 8 == 0 { 0 } else { 1 }))
    }
}

impl<const BITS: u8> PackedVec<u8, BITS> {
    /// Serialized size: a 4-byte length and `BITS` bits per value, or an overflow error.
    pub fn measure_body(&self) -> (r: Result<usize, ZebinError>)
        ensures
            self.spec_values().len() * BITS > usize::MAX ==> r == Err::<usize, ZebinError>(
                ZebinError::ArithmeticOverflow { pos: 0 },
            ),
            self.spec_values().len() * BITS <= usize::MAX ==> r == Ok::<usize, ZebinError>(
                (4 + spec_packed_byte_len(self.spec_values().len() as int, BITS as int)) as usize,
            ),
    {
        let bits = match self.values.len().checked_mul(BITS as usize) {
            Some(b) => b,
            None => {
                return Err(ZebinError::ArithmeticOverflow { pos: 0 });
            },
        };
        Ok(4 + (bits / 8 + if bits % 8 == 0 { 0 } else { 1 }))
    }
}

/// Resumable writer of a 4-byte little-endian length followed by packed bytes.
pub struct PackedViewEncoder<'a> {
    len_prefix: Vec<u8>,
    prefix_cursor: usize,
    bytes: &'a [u8],
    bytes_cursor: usize,
}

impl<'a> PackedViewEncoder<'a> {
    /// Everything the encoder writes.
    pub closed spec fn stream(&self) -> Seq<u8> {
        self.len_prefix@ + self.bytes@
    }

    /// How much of it has been written.
    pub closed spec fn sent(&self) -> nat {
        (self.prefix_cursor + self.bytes_cursor) as nat
    }

    pub closed spec fn wf(&self) -> bool {
        &&& self.len_prefix@.len() == 4
        &&& self.prefix_cursor <= 4
        &&& self.bytes_cursor <= self.bytes@.len()
        &&& self.bytes_cursor > 0 ==> self.prefix_cursor == 4
    }

    /// An encoder for `len` values packed into `bytes`; the length is written as a
    /// 32-bit number.
    pub fn new(len: usize, bytes: &'a [u8]) -> (r: PackedViewEncoder<'a>)
        ensures
            r.wf(),
            r.stream() == spec_u32_to_le_bytes(len as u32) + bytes@,
            r.sent() == 0,
    {
        PackedViewEncoder { len_prefix: u32_to_le_bytes(len as u32), prefix_cursor: 0, bytes, bytes_cursor: 0 }
    }

    /// Writes as much of the length and bytes as the sink takes.
    pub fn poll_pending<S: CursorMut>(&mut self, sink: &mut S) -> (r: Result<Poll, ZebinError>)
        requires
            old(sink).inv(),
            old(self).wf(),
        ensures
            final(sink).inv(),
            final(sink).limit() == old(sink).limit(),
            r == Ok::<Poll, ZebinError>(Poll::Pending) ==> is_full(*final(sink)),
            final(self).wf(),
            final(self).stream() == old(self).stream(),
            old(self).sent() <= final(self).sent() <= final(self).stream().len(),
            final(sink).written() == old(sink).written() + old(self).stream().subrange(
                old(self).sent() as int,
                final(self).sent() as int,
            ),
            r matches Ok(p) ==> (p == Poll::Ready <==> final(self).sent() == final(self).stream().len()),
            r is Err ==> old(self).stream().len() - old(self).sent() > room(*old(sink)) && !S::never_refuses(),
    {
        let ghost st = self.stream();
        if self.prefix_cursor < 4 {
            let ghost c0 = self.prefix_cursor;
            let res = flush_bytes(sink, self.len_prefix.as_slice(), &mut self.prefix_cursor);
            proof {
                assert(self.len_prefix@.subrange(c0 as int, self.prefix_cursor as int) =~= st.subrange(
                    c0 as int,
                    self.prefix_cursor as int,
                ));
            }
            match res? {
                Poll::Pending => {
                    return Ok(Poll::Pending);
                },
                Poll::Ready => {},
            }
        }
        let ghost w1 = sink.written();
        let ghost sent1 = self.sent();
        if self.bytes_cursor < self.bytes.len() {
            let ghost c0 = self.bytes_cursor;
            let res = flush_bytes(sink, self.bytes, &mut self.bytes_cursor);
            proof {
                assert(self.bytes@.subrange(c0 as int, self.bytes_cursor as int) =~= st.subrange(
                    4 + c0,
                    4 + self.bytes_cursor,
                ));
                assert(old(self).stream().subrange(old(self).sent() as int, sent1 as int) + st.subrange(
                    sent1 as int,
                    self.sent() as int,
                ) =~= old(self).stream().subrange(old(self).sent() as int, self.sent() as int));
            }
            match res? {
                Poll::Pending => {
                    return Ok(Poll::Pending);
                },
                Poll::Ready => {},
            }
        } else {
            proof {
                assert(st.subrange(sent1 as int, sent1 as int) =~= Seq::<u8>::empty());
            }
        }
        Ok(Poll::Ready)
    }

    /// Starts writing; the item itself adds nothing to what was given to `new`.
    pub fn input<S: CursorMut>(&mut self, sink: &mut S) -> (r: Result<Poll, ZebinError>)
        requires
            old(sink).inv(),
            old(self).wf(),
        ensures
            final(sink).inv(),
            final(sink).limit() == old(sink).limit(),
            r == Ok::<Poll, ZebinError>(Poll::Pending) ==> is_full(*final(sink)),
            final(self).wf(),
            final(self).stream() == old(self).stream(),
            old(self).sent() <= final(self).sent() <= final(self).stream().len(),
            final(sink).written() == old(sink).written() + old(self).stream().subrange(
                old(self).sent() as int,
                final(self).sent() as int,
            ),
            r matches Ok(p) ==> (p == Poll::Ready <==> final(self).sent() == final(self).stream().len()),
            r is Err ==> old(self).stream().len() - old(self).sent() > room(*old(sink)) && !S::never_refuses(),
    {
        self.poll_pending(sink)
    }

    pub fn finish<S: CursorMut>(self, sink: &mut S) -> (r: Result<Poll, ZebinError>)
        ensures
            r == Ok::<Poll, ZebinError>(Poll::Ready),
            *final(sink) == *old(sink),
    {
        Ok(Poll::Ready)
    }
}

/// Resumable writer of an owned packed sequence: the values are packed on input, then
/// the 4-byte length and the packed bytes are written as the sink makes room.
pub struct PackedVecWriter {
    bits: Vec<u8>,
    len_prefix: Vec<u8>,
    prefix_cursor: usize,
    cursor: usize,
}

impl PackedVecWriter {
    pub closed spec fn prefix(&self) -> Seq<u8> {
        self.len_prefix@
    }

    pub closed spec fn body(&self) -> Seq<u8> {
        self.bits@
    }

    pub open spec fn stream(&self) -> Seq<u8> {
        self.prefix() + self.body()
    }

    pub closed spec fn sent(&self) -> nat {
        (self.prefix_cursor + self.cursor) as nat
    }

    pub closed spec fn wf(&self) -> bool {
        &&& self.len_prefix@.len() == 4
        &&& self.prefix_cursor <= 4
        &&& self.cursor <= self.bits@.len()
        &&& self.cursor > 0 ==> self.prefix_cursor == 4
    }

    fn empty() -> (r: PackedVecWriter)
        ensures
            r.wf(),
            r.sent() == 0,
    {
        PackedVecWriter { bits: Vec::new(), len_prefix: vec![0u8, 0u8, 0u8, 0u8], prefix_cursor: 0, cursor: 0 }
    }

    fn start(&mut self, len: u32, bits: Vec<u8>)
        ensures
            final(self).wf(),
            final(self).sent() == 0,
            final(self).prefix() == spec_u32_to_le_bytes(len),
            final(self).body() == bits@,
    {
        self.bits = bits;
        self.len_prefix = u32_to_le_bytes(len);
        self.prefix_cursor = 0;
        self.cursor = 0;
    }

    /// Writes as much of the length and bytes as the sink takes.
    fn poll_pending<S: CursorMut>(&mut self, sink: &mut S) -> (r: Result<Poll, ZebinError>)
        requires
            old(sink).inv(),
            old(self).wf(),
        ensures
            final(sink).inv(),
            final(sink).limit() == old(sink).limit(),
            r == Ok::<Poll, ZebinError>(Poll::Pending) ==> is_full(*final(sink)),
            final(self).wf(),
            final(self).prefix() == old(self).prefix(),
            final(self).body() == old(self).body(),
            old(self).sent() <= final(self).sent() <= final(self).stream().len(),
            final(sink).written() == old(sink).written() + old(self).stream().subrange(
                old(self).sent() as int,
                final(self).sent() as int,
            ),
            r matches Ok(p) ==> (p == Poll::Ready <==> final(self).sent() == final(self).stream().len()),
            r is Err ==> old(self).stream().len() - old(self).sent() > room(*old(sink)) && !S::never_refuses(),
    {
        let ghost st = self.stream();
        if self.prefix_cursor < 4 {
            let ghost c0 = self.prefix_cursor;
            let res = flush_bytes(sink, self.len_prefix.as_slice(), &mut self.prefix_cursor);
            proof {
                assert(self.len_prefix@.subrange(c0 as int, self.prefix_cursor as int) =~= st.subrange(
                    c0 as int,
                    self.prefix_cursor as int,
                ));
            }
            match res? {
                Poll::Pending => {
                    return Ok(Poll::Pending);
                },
                Poll::Ready => {},
            }
        }
        let ghost sent1 = self.sent();
        let ghost c0 = self.cursor;
        let res = flush_bytes(sink, self.bits.as_slice(), &mut self.cursor);
        proof {
            assert(self.bits@.subrange(c0 as int, self.cursor as int) =~= st.subrange(4 + c0, 4 + self.cursor));
            assert(old(self).stream().subrange(old(self).sent() as int, sent1 as int) + st.subrange(
                sent1 as int,
                self.sent() as int,
            ) =~= old(self).stream().subrange(old(self).sent() as int, self.sent() as int));
        }
        res
    }
}

/// Resumable encoder of an owned packed boolean sequence.
pub struct PackedBoolVecEncoder {
    owner: Option<PackedVec<bool, 1>>,
    writer: PackedVecWriter,
}

impl PackedBoolVecEncoder {
    pub closed spec fn writer(&self) -> PackedVecWriter {
        self.writer
    }

    pub closed spec fn wf(&self) -> bool {
        self.writer.wf()
    }

    pub fn new() -> (r: PackedBoolVecEncoder)
        ensures
            r.wf(),
            r.writer().sent() == 0,
    {
        PackedBoolVecEncoder { owner: None, writer: PackedVecWriter::empty() }
    }

    /// Packs the values one bit each and writes as much as the sink takes.
    pub fn input<S: CursorMut>(&mut self, item: PackedVec<bool, 1>, sink: &mut S) -> (r: Result<Poll, ZebinError>)
        requires
            old(sink).inv(),
        ensures
            final(sink).inv(),
            final(sink).limit() == old(sink).limit(),
            r == Ok::<Poll, ZebinError>(Poll::Pending) ==> is_full(*final(sink)),
            final(self).wf(),
            final(self).writer().prefix() == spec_u32_to_le_bytes(item.spec_values().len() as u32),
            final(self).writer().body().len() == spec_packed_byte_len(item.spec_values().len() as int, 1),
            forall|k: int|
                0 <= k < final(self).writer().body().len() * 8 ==> #[trigger] spec_stream_bit(final(self).writer().body(), k)
                    == (k < item.spec_values().len() && item.spec_values()[k]),
            final(self).writer().sent() <= final(self).writer().stream().len(),
            final(sink).written() == old(sink).written() + final(self).writer().stream().subrange(
                0,
                final(self).writer().sent() as int,
            ),
            r matches Ok(p) ==> (p == Poll::Ready <==> final(self).writer().sent() == final(self).writer().stream().len()),
            r is Err ==> final(self).writer().stream().len() > room(*old(sink)) && !S::never_refuses(),
    {
        let len = item.values().len() as u32;
        let bits = pack_bools(item.values());
        self.owner = Some(item);
        self.writer.start(len, bits);
        self.writer.poll_pending(sink)
    }

    pub fn poll_pending<S: CursorMut>(&mut self, sink: &mut S) -> (r: Result<Poll, ZebinError>)
        requires
            old(sink).inv(),
            old(self).wf(),
        ensures
            final(sink).inv(),
            final(sink).limit() == old(sink).limit(),
            r == Ok::<Poll, ZebinError>(Poll::Pending) ==> is_full(*final(sink)),
            final(self).wf(),
            final(self).writer().prefix() == old(self).writer().prefix(),
            final(self).writer().body() == old(self).writer().body(),
            old(self).writer().sent() <= final(self).writer().sent() <= final(self).writer().stream().len(),
            final(sink).written() == old(sink).written() + old(self).writer().stream().subrange(
                old(self).writer().sent() as int,
                final(self).writer().sent() as int,
            ),
            r matches Ok(p) ==> (p == Poll::Ready <==> final(self).writer().sent() == final(self).writer().stream().len()),
            r is Err ==> old(self).writer().stream().len() - old(self).writer().sent() > room(*old(sink)) && !S::never_refuses(),
    {
        self.writer.poll_pending(sink)
    }

    pub fn finish<S: CursorMut>(self, sink: &mut S) -> (r: Result<Poll, ZebinError>)
        ensures
            r == Ok::<Poll, ZebinError>(Poll::Ready),
            *final(sink) == *old(sink),
    {
        Ok(Poll::Ready)
    }
}

/// Resumable encoder of an owned packed sequence of `BITS`-bit values.
pub struct PackedU8VecEncoder<const BITS: u8> {
    owner: Option<PackedVec<u8, BITS>>,
    writer: PackedVecWriter,
}

impl<const BITS: u8> PackedU8VecEncoder<BITS> {
    pub closed spec fn writer(&self) -> PackedVecWriter {
        self.writer
    }

    pub closed spec fn wf(&self) -> bool {
        self.writer.wf()
    }

    pub fn new() -> (r: PackedU8VecEncoder<BITS>)
        ensures
            r.wf(),
            r.writer().sent() == 0,
    {
        PackedU8VecEncoder { owner: None, writer: PackedVecWriter::empty() }
    }

    /// Packs the values `BITS` bits each and writes as much as the sink takes; refused
    /// when the bit count overflows or a value does not fit.
    pub fn input<S: CursorMut>(&mut self, item: PackedVec<u8, BITS>, sink: &mut S) -> (r: Result<Poll, ZebinError>)
        requires
            old(sink).inv(),
            old(self).wf(),
            BITS <= 8,
            BITS >= 1 || item.spec_values().len() == 0,
        ensures
            final(sink).inv(),
            final(sink).limit() == old(sink).limit(),
            r == Ok::<Poll, ZebinError>(Poll::Pending) ==> is_full(*final(sink)),
            final(self).wf(),
            item.spec_values().len() * BITS > usize::MAX ==> r == Err::<Poll, ZebinError>(
                ZebinError::ArithmeticOverflow { pos: 0 },
            ) && *final(sink) == *old(sink),
            item.spec_values().len() * BITS <= usize::MAX && !spec_all_fit(item.spec_values(), BITS as nat) ==> (
            r matches Err(ZebinError::SerializationError { pos, message }) && pos < item.spec_values().len()
                && item.spec_values()[pos as int] > spec_bit_mask(BITS as nat) && *final(sink) == *old(sink)),
            item.spec_values().len() * BITS <= usize::MAX && spec_all_fit(item.spec_values(), BITS as nat) ==> {
                &&& final(self).writer().prefix() == spec_u32_to_le_bytes(item.spec_values().len() as u32)
                &&& final(self).writer().body().len() == spec_packed_byte_len(
                    item.spec_values().len() as int,
                    BITS as int,
                )
                &&& forall|k: int|
                    0 <= k < final(self).writer().body().len() * 8 ==> #[trigger] spec_stream_bit(
                        final(self).writer().body(),
                        k,
                    ) == spec_packed_bit(item.spec_values(), BITS as int, k)
                &&& final(self).writer().sent() <= final(self).writer().stream().len()
                &&& final(sink).written() == old(sink).written() + final(self).writer().stream().subrange(
                    0,
                    final(self).writer().sent() as int,
                )
                &&& (r matches Ok(p) ==> (p == Poll::Ready <==> final(self).writer().sent()
                    == final(self).writer().stream().len()))
                &&& (r is Err ==> final(self).writer().stream().len() > room(*old(sink)) && !S::never_refuses())
            },
    {
        let len = item.values().len() as u32;
        let bits = pack_u8_values(item.values(), BITS as usize)?;
        self.owner = Some(item);
        self.writer.start(len, bits);
        self.writer.poll_pending(sink)
    }

    pub fn poll_pending<S: CursorMut>(&mut self, sink: &mut S) -> (r: Result<Poll, ZebinError>)
        requires
            old(sink).inv(),
            old(self).wf(),
        ensures
            final(sink).inv(),
            final(sink).limit() == old(sink).limit(),
            r == Ok::<Poll, ZebinError>(Poll::Pending) ==> is_full(*final(sink)),
            final(self).wf(),
            final(self).writer().prefix() == old(self).writer().prefix(),
            final(self).writer().body() == old(self).writer().body(),
            old(self).writer().sent() <= final(self).writer().sent() <= final(self).writer().stream().len(),
            final(sink).written() == old(sink).written() + old(self).writer().stream().subrange(
                old(self).writer().sent() as int,
                final(self).writer().sent() as int,
            ),
            r matches Ok(p) ==> (p == Poll::Ready <==> final(self).writer().sent() == final(self).writer().stream().len()),
            r is Err ==> old(self).writer().stream().len() - old(self).writer().sent() > room(*old(sink)) && !S::never_refuses(),
    {
        self.writer.poll_pending(sink)
    }

    pub fn finish<S: CursorMut>(self, sink: &mut S) -> (r: Result<Poll, ZebinError>)
        ensures
            r == Ok::<Poll, ZebinError>(Poll::Ready),
            *final(sink) == *old(sink),
    {
        Ok(Poll::Ready)
    }
}

/// Reading value `i` back from bytes packed from `values` (each fitting in `n` bits)
/// gives `values[i]`.
pub proof fn lemma_packed_u8_roundtrip(values: Seq<u8>, n: nat, bytes: Seq<u8>, i: int)
    requires
        1 <= n <= 8,
        spec_all_fit(values, n),
        bytes.len() == spec_packed_byte_len(values.len() as int, n as int),
        forall|k: int| 0 <= k < bytes.len() * 8 ==> #[trigger] spec_stream_bit(bytes, k) == spec_packed_bit(values, n as int, k),
        0 <= i < values.len(),
    ensures
        spec_read_bits(bytes, i * n, n) == values[i],
{
    let r = spec_read_bits(bytes, i * n, n);
    lemma_read_bits_facts(bytes, i * n, n);
    assert(i * n + n <= values.len() * n) by (nonlinear_arith)
        requires
            i < values.len(),
    ;
    assert forall|b: int| 0 <= b < n implies #[trigger] spec_value_bit(r, b) == spec_value_bit(values[i], b) by {
        vstd::arithmetic::div_mod::lemma_fundamental_div_mod_converse(i * n + b, n as int, i, b);
        assert(spec_stream_bit(bytes, i * n + b) == spec_packed_bit(values, n as int, i * n + b));
    }
    if n < 8 {
        lemma_mask_iff(values[i], n as u8);
    }
    lemma_low_bits_eq(r, values[i], n as u8);
}

/// Reading value `i` back from bytes packed from booleans gives that boolean.
pub proof fn lemma_packed_bool_roundtrip(values: Seq<bool>, bytes: Seq<u8>, i: int)
    requires
        bytes.len() == spec_packed_byte_len(values.len() as int, 1),
        forall|k: int| 0 <= k < bytes.len() * 8 ==> #[trigger] spec_stream_bit(bytes, k) == (k < values.len() && values[k]),
        0 <= i < values.len(),
    ensures
        spec_stream_bit(bytes, i) == values[i],
        i / 8 < bytes.len(),
{
    assert(spec_stream_bit(bytes, i) == (i < values.len() && values[i]));
}

} // verus!

