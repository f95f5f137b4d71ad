use vstd::prelude::*;
use vstd::bytes::*;
use crate::error::ZebinError;
use crate::packed::{
    lemma_u8_bits_eq,
    pack_bools,
    pack_u8_values,
    spec_all_fit,
    spec_bit_mask,
    spec_packed_bit,
    spec_packed_byte_len,
    spec_read_bits,
    spec_stream_bit,
    spec_value_bit,
};
use crate::packed_vec::{PackedData, ToPackedData, lemma_packed_u8_roundtrip};
use crate::sink::{CursorMut, Poll, flush_bytes, is_full, room};

verus! {

broadcast use vstd::slice::group_slice_axioms;

/// Bits of one chunk of packed values: the buffer of 64 bytes.
pub const PACKED_CHUNK_BITS: usize = 512;

/// Error message for a value that does not fit in the bit width.
pub open spec fn capacity_message() -> &'static str {
    "Value exceeds packed bit capacity"
}

/// The values of packed data as small integers, booleans as 0 and 1.
pub open spec fn spec_data_values(data: PackedData) -> Seq<u8> {
    match data {
        PackedData::Empty => Seq::empty(),
        PackedData::Bool(v) => Seq::new(v@.len(), |i: int| if v@[i] { 1u8 } else { 0u8 }),
        PackedData::U8(v) => v@,
    }
}

/// How many of the `remaining` values go into the next chunk at `n` bits each: as many
/// as fit in a chunk (all of them when values take no bits).
pub open spec fn spec_chunk_count(n: u8, remaining: nat) -> nat {
    if n == 0 || remaining <= (PACKED_CHUNK_BITS as nat) / (n as nat) {
        remaining
    } else {
        (PACKED_CHUNK_BITS as nat) / (n as nat)
    }
}

/// The bytes holding `values` packed `n` bits each, least significant bit first, the
/// last byte filled up with zero bits.
pub open spec fn spec_packed_bytes(values: Seq<u8>, n: u8) -> Seq<u8> {
    choose|b: Seq<u8>|
        b.len() == spec_packed_byte_len(values.len() as int, n as int) && forall|k: int|
            0 <= k < b.len() * 8 ==> #[trigger] spec_stream_bit(b, k) == spec_packed_bit(values, n as int, k)
}

/// The packed chunks of `values` from `start`: each chunk packed on its own, starting at
/// a byte boundary, up to the first chunk holding a value that does not fit.
pub open spec fn spec_chunks(values: Seq<u8>, n: u8, start: nat) -> Seq<u8>
    decreases values.len() - start,
{
    if start >= values.len() {
        Seq::empty()
    } else {
        let end = start + spec_chunk_count(n, (values.len() - start) as nat);
        let sub = values.subrange(start as int, end as int);
        if !spec_all_fit(sub, n as nat) {
            Seq::empty()
        } else {
            proof {
                if n > 0 {
                    assert((PACKED_CHUNK_BITS as nat) / (n as nat) >= 1) by (nonlinear_arith)
                        requires
                            1 <= n <= 255,
                    ;
                }
            }
            spec_packed_bytes(sub, n) + spec_chunks(values, n, end as nat)
        }
    }
}

/// Bytes with the bits of `values` packed `n` bits each are the packed bytes.
pub proof fn lemma_packed_bytes_unique(b: Seq<u8>, values: Seq<u8>, n: u8)
    requires
        b.len() == spec_packed_byte_len(values.len() as int, n as int),
        forall|k: int| 0 <= k < b.len() * 8 ==> #[trigger] spec_stream_bit(b, k) == spec_packed_bit(values, n as int, k),
    ensures
        b == spec_packed_bytes(values, n),
{
    let c = spec_packed_bytes(values, n);
    assert forall|j: int| 0 <= j < b.len() implies b[j] == c[j] by {
        assert forall|t: int| 0 <= t < 8 implies #[trigger] spec_value_bit(b[j], t) == spec_value_bit(c[j], t) by {
            let k = j * 8 + t;
            assert(k / 8 == j && k % 8 == t);
            assert(spec_stream_bit(b, k) == spec_packed_bit(values, n as int, k));
            assert(spec_stream_bit(c, k) == spec_packed_bit(values, n as int, k));
        }
        lemma_u8_bits_eq(b[j], c[j]);
    }
    assert(b =~= c);
}

/// Values that take no bits pack into no bytes.
pub proof fn lemma_packed_bytes_zero_bits(values: Seq<u8>)
    ensures
        spec_packed_bytes(values, 0) == Seq::<u8>::empty(),
{
    lemma_packed_bytes_unique(Seq::<u8>::empty(), values, 0);
}

/// Booleans as 0 and 1 pack, one bit each, into their own bits.
pub proof fn lemma_bool_bits(v: bool, k: int)
    ensures
        spec_value_bit(if v { 1u8 } else { 0u8 }, 0) == v,
{
    assert((1u8 >> 0u8) & 1 == 1) by (bit_vector);
    assert((0u8 >> 0u8) & 1 == 0) by (bit_vector);
}

/// The byte whose bits, least significant first, are `c0` to `c7`.
pub open spec fn spec_bits_byte(c0: bool, c1: bool, c2: bool, c3: bool, c4: bool, c5: bool, c6: bool, c7: bool) -> u8 {
    (if c0 { 1u8 } else { 0u8 }) | (if c1 { 2u8 } else { 0u8 }) | (if c2 { 4u8 } else { 0u8 }) | (if c3 { 8u8 } else { 0u8 })
        | (if c4 { 16u8 } else { 0u8 }) | (if c5 { 32u8 } else { 0u8 }) | (if c6 { 64u8 } else { 0u8 }) | (if c7 {
        128u8
    } else {
        0u8
    })
}

/// The bits of such a byte are the ones it was built from.
pub proof fn lemma_bits_byte(c0: bool, c1: bool, c2: bool, c3: bool, c4: bool, c5: bool, c6: bool, c7: bool)
    ensures
        spec_value_bit(spec_bits_byte(c0, c1, c2, c3, c4, c5, c6, c7), 0) == c0,
        spec_value_bit(spec_bits_byte(c0, c1, c2, c3, c4, c5, c6, c7), 1) == c1,
        spec_value_bit(spec_bits_byte(c0, c1, c2, c3, c4, c5, c6, c7), 2) == c2,
        spec_value_bit(spec_bits_byte(c0, c1, c2, c3, c4, c5, c6, c7), 3) == c3,
        spec_value_bit(spec_bits_byte(c0, c1, c2, c3, c4, c5, c6, c7), 4) == c4,
        spec_value_bit(spec_bits_byte(c0, c1, c2, c3, c4, c5, c6, c7), 5) == c5,
        spec_value_bit(spec_bits_byte(c0, c1, c2, c3, c4, c5, c6, c7), 6) == c6,
        spec_value_bit(spec_bits_byte(c0, c1, c2, c3, c4, c5, c6, c7), 7) == c7,
{
    let b = spec_bits_byte(c0, c1, c2, c3, c4, c5, c6, c7);
    assert(((b >> 0u8) & 1 == 1) == c0 && ((b >> 1u8) & 1 == 1) == c1 && ((b >> 2u8) & 1 == 1) == c2 && ((b >> 3u8) & 1
        == 1) == c3 && ((b >> 4u8) & 1 == 1) == c4 && ((b >> 5u8) & 1 == 1) == c5 && ((b >> 6u8) & 1 == 1) == c6 && ((b
        >> 7u8) & 1 == 1) == c7) by (bit_vector)
        requires
            b == (if c0 { 1u8 } else { 0u8 }) | (if c1 { 2u8 } else { 0u8 }) | (if c2 { 4u8 } else { 0u8 }) | (if c3 {
                8u8
            } else {
                0u8
            }) | (if c4 { 16u8 } else { 0u8 }) | (if c5 { 32u8 } else { 0u8 }) | (if c6 { 64u8 } else { 0u8 }) | (
            if c7 {
                128u8
            } else {
                0u8
            }),
    ;
}

/// Byte `j` of `values` packed `n` bits each.
pub open spec fn spec_packed_byte(values: Seq<u8>, n: int, j: int) -> u8 {
    spec_bits_byte(
        spec_packed_bit(values, n, 8 * j),
        spec_packed_bit(values, n, 8 * j + 1),
        spec_packed_bit(values, n, 8 * j + 2),
        spec_packed_bit(values, n, 8 * j + 3),
        spec_packed_bit(values, n, 8 * j + 4),
        spec_packed_bit(values, n, 8 * j + 5),
        spec_packed_bit(values, n, 8 * j + 6),
        spec_packed_bit(values, n, 8 * j + 7),
    )
}

/// The packed bytes of any values have the stated length and bits.
pub proof fn lemma_packed_bytes_spec(values: Seq<u8>, n: u8)
    ensures
        spec_packed_bytes(values, n).len() == spec_packed_byte_len(values.len() as int, n as int),
        forall|k: int|
            0 <= k < spec_packed_bytes(values, n).len() * 8 ==> #[trigger] spec_stream_bit(spec_packed_bytes(values, n), k)
                == spec_packed_bit(values, n as int, k),
{
    let len = spec_packed_byte_len(values.len() as int, n as int);
    assert(len >= 0) by (nonlinear_arith)
        requires
            len == (values.len() * n + 7) / 8,
    ;
    let w = Seq::new(len as nat, |j: int| spec_packed_byte(values, n as int, j));
    assert forall|k: int| 0 <= k < w.len() * 8 implies #[trigger] spec_stream_bit(w, k) == spec_packed_bit(
        values,
        n as int,
        k,
    ) by {
        let j = k / 8;
        let t = k % 8;
        assert(k == 8 * j + t);
        let c = |i: int| spec_packed_bit(values, n as int, 8 * j + i);
        lemma_bits_byte(c(0), c(1), c(2), c(3), c(4), c(5), c(6), c(7));
        assert(w[j] == spec_packed_byte(values, n as int, j));
    }
    assert(w.len() == len);
}

/// Packing `a` then `b` gives the bytes of `a` followed by those of `b` when the bits of
/// `a` fill whole bytes.
pub proof fn lemma_packed_bytes_concat(a: Seq<u8>, b: Seq<u8>, n: u8)
    requires
        n >= 1,
        (a.len() * n) % 8 == 0,
    ensures
        spec_packed_bytes(a + b, n) == spec_packed_bytes(a, n) + spec_packed_bytes(b, n),
{
    let pa = spec_packed_bytes(a, n);
    let pb = spec_packed_bytes(b, n);
    lemma_packed_bytes_spec(a, n);
    lemma_packed_bytes_spec(b, n);
    let p = pa + pb;
    let an = a.len() * n;
    assert(pa.len() * 8 == an) by (nonlinear_arith)
        requires
            pa.len() == (an + 7) / 8,
            an % 8 == 0,
            an >= 0,
    ;
    assert(p.len() == spec_packed_byte_len((a + b).len() as int, n as int)) by (nonlinear_arith)
        requires
            p.len() == pa.len() + pb.len(),
            pb.len() == (b.len() * n + 7) / 8,
            pa.len() * 8 == an,
            an == a.len() * n,
            (a + b).len() == a.len() + b.len(),
    ;
    assert((a + b).len() * n == an + b.len() * n) by (nonlinear_arith)
        requires
            (a + b).len() == a.len() + b.len(),
            an == a.len() * n,
    ;
    assert forall|k: int| 0 <= k < p.len() * 8 implies #[trigger] spec_stream_bit(p, k) == spec_packed_bit(
        a + b,
        n as int,
        k,
    ) by {
        if k < an {
            assert(k / 8 < pa.len());
            assert(p[k / 8] == pa[k / 8]);
            assert(spec_stream_bit(pa, k) == spec_packed_bit(a, n as int, k));
            assert(k / (n as int) < a.len()) by (nonlinear_arith)
                requires
                    0 <= k < a.len() * n,
                    n >= 1,
            ;
            assert((a + b)[k / (n as int)] == a[k / (n as int)]);
        } else {
            let k2 = k - an;
            assert(k2 / 8 == k / 8 - pa.len());
            assert(k2 % 8 == k % 8);
            assert(p[k / 8] == pb[k2 / 8]);
            assert(spec_stream_bit(pb, k2) == spec_packed_bit(b, n as int, k2));
            vstd::arithmetic::div_mod::lemma_hoist_over_denominator(k2, a.len() as int, n as nat);
            vstd::arithmetic::div_mod::lemma_mod_multiples_vanish(a.len() as int, k2, n as int);
            assert(k2 + a.len() * n == k);
            assert((n as int) * (a.len() as int) == a.len() * n) by (nonlinear_arith);
            assert(k / (n as int) == k2 / (n as int) + a.len());
            assert(k % (n as int) == k2 % (n as int));
            assert(k2 / (n as int) >= 0) by (nonlinear_arith)
                requires
                    k2 >= 0,
                    n >= 1,
            ;
            if k2 < b.len() * n {
                assert(k2 / (n as int) < b.len()) by (nonlinear_arith)
                    requires
                        0 <= k2 < b.len() * n,
                        n >= 1,
                ;
                assert((a + b)[k / (n as int)] == b[k2 / (n as int)]);
            }
        }
    }
    lemma_packed_bytes_unique(p, a + b, n);
}

/// When the bit width divides the chunk size, the chunks from a chunk boundary `start`
/// are the values from `start` packed without breaks, provided every value fits.
pub proof fn lemma_chunks_from(values: Seq<u8>, n: u8, start: nat)
    requires
        n == 1 || n == 2 || n == 4 || n == 8,
        start <= values.len(),
        spec_all_fit(values, n as nat),
    ensures
        spec_chunks(values, n, start) == spec_packed_bytes(values.subrange(start as int, values.len() as int), n),
    decreases values.len() - start,
{
    let rest = values.subrange(start as int, values.len() as int);
    if start == values.len() {
        lemma_packed_bytes_spec(rest, n);
        assert(rest.len() == 0);
        assert(rest.len() * n == 0) by (nonlinear_arith)
            requires
                rest.len() == 0,
        ;
        assert(spec_packed_bytes(rest, n).len() == 0);
        assert(spec_packed_bytes(rest, n) =~= Seq::<u8>::empty());
    } else {
        let count = spec_chunk_count(n, (values.len() - start) as nat);
        let per = (PACKED_CHUNK_BITS as nat) / (n as nat);
        assert(per * n == 512) by {
            if n == 1 {
                assert(per == 512);
            } else if n == 2 {
                assert(per == 256);
            } else if n == 4 {
                assert(per == 128);
            } else {
                assert(per == 64);
            }
        }
        let end = start + count;
        let sub = values.subrange(start as int, end as int);
        assert(spec_all_fit(sub, n as nat)) by {
            assert forall|i: int| 0 <= i < sub.len() implies #[trigger] sub[i] <= spec_bit_mask(n as nat) by {
                assert(sub[i] == values[start + i]);
            }
        }
        lemma_chunks_from(values, n, end as nat);
        if count == values.len() - start {
            assert(sub =~= rest);
            lemma_packed_bytes_spec(values.subrange(end as int, values.len() as int), n);
            assert(values.subrange(end as int, values.len() as int).len() == 0);
            assert(spec_packed_bytes(values.subrange(end as int, values.len() as int), n) =~= Seq::<u8>::empty());
            assert(spec_packed_bytes(sub, n) + Seq::<u8>::empty() =~= spec_packed_bytes(sub, n));
        } else {
            assert(count == per);
            assert((sub.len() * n) % 8 == 0);
            lemma_packed_bytes_concat(sub, values.subrange(end as int, values.len() as int), n);
            assert(sub + values.subrange(end as int, values.len() as int) =~= rest);
        }
    }
}

/// When the bit width divides the chunk size (1, 2, 4 or 8 bits), the chunked bytes of
/// values that all fit are the values packed without breaks, as a reader of packed
/// sequences expects them.
pub proof fn lemma_chunks_contiguous(values: Seq<u8>, n: u8)
    requires
        n == 1 || n == 2 || n == 4 || n == 8,
        spec_all_fit(values, n as nat),
    ensures
        spec_chunks(values, n, 0) == spec_packed_bytes(values, n),
{
    lemma_chunks_from(values, n, 0);
    assert(values.subrange(0, values.len() as int) =~= values);
}

/// Value `i` of a chunked packed sequence whose bit width divides the chunk size reads
/// back, from the packed bytes, as the value written.
pub proof fn lemma_chunked_roundtrip(values: Seq<u8>, n: u8, i: int)
    requires
        n == 1 || n == 2 || n == 4 || n == 8,
        spec_all_fit(values, n as nat),
        0 <= i < values.len(),
    ensures
        spec_read_bits(spec_chunks(values, n, 0), i * n, n as nat) == values[i],
{
    lemma_chunks_contiguous(values, n);
    lemma_packed_bytes_spec(values, n);
    lemma_packed_u8_roundtrip(values, n as nat, spec_packed_bytes(values, n), i);
}

/// Resumable writer of a borrowed packed sequence: the 4-byte length, then the values
/// packed chunk by chunk, each chunk of at most 64 bytes starting at a byte boundary.
pub struct PackedSequenceEncoder<'a> {
    data: PackedData<'a>,
    bits_per_value: u8,
    len_prefix: Vec<u8>,
    prefix_cursor: usize,
    index: usize,
    len: usize,
    buf: Vec<u8>,
    buf_cursor: usize,
    base: Ghost<nat>,
}

impl<'a> PackedSequenceEncoder<'a> {
    /// The values being written, booleans as 0 and 1.
    pub closed spec fn values(&self) -> Seq<u8> {
        spec_data_values(self.data)
    }

    /// Bits per value.
    pub closed spec fn bits(&self) -> u8 {
        self.bits_per_value
    }

    /// The 4-byte little-endian length in front of the values.
    pub closed spec fn prefix(&self) -> Seq<u8> {
        self.len_prefix@
    }

    /// Everything the encoder writes: the length, then the packed chunks.
    pub open spec fn stream(&self) -> Seq<u8> {
        self.prefix() + spec_chunks(self.values(), self.bits(), 0)
    }

    /// How many bytes of the stream have been written.
    pub closed spec fn sent(&self) -> nat {
        (self.prefix_cursor + self.base@ + self.buf_cursor) as nat
    }

    pub closed spec fn wf(&self) -> bool {
        let vals = self.values();
        let n = self.bits_per_value;
        let body = spec_chunks(vals, n, 0);
        &&& self.len_prefix@ == spec_u32_to_le_bytes(self.len as u32)
        &&& self.len_prefix@.len() == 4
        &&& self.len == vals.len()
        &&& (self.data is Bool ==> n == 1)
        &&& (self.data is U8 ==> n <= 8 || vals.len() == 0)
        &&& self.prefix_cursor <= 4
        &&& (self.prefix_cursor < 4 ==> self.index == 0 && self.buf@.len() == 0 && self.buf_cursor == 0
            && self.base@ == 0)
        &&& self.index <= self.len
        &&& self.buf_cursor <= self.buf@.len()
        &&& self.base@ + self.buf@.len() <= body.len()
        &&& body.subrange(self.base@ as int, (self.base@ + self.buf@.len()) as int) == self.buf@
        &&& body.subrange((self.base@ + self.buf@.len()) as int, body.len() as int) == spec_chunks(vals, n, self.index as nat)
        &&& spec_all_fit(vals.take(self.index as int), n as nat)
    }

    fn from_data(data: PackedData<'a>, bits_per_value: u8, len: usize) -> (r: PackedSequenceEncoder<'a>)
        requires
            len == spec_data_values(data).len(),
            data is Bool ==> bits_per_value == 1,
            data is U8 ==> bits_per_value <= 8 || len == 0,
        ensures
            r.wf(),
            r.values() == spec_data_values(data),
            r.bits() == bits_per_value,
            r.prefix() == spec_u32_to_le_bytes(len as u32),
            r.sent() == 0,
    {
        let len_u32 = len as u32;
        let r = PackedSequenceEncoder {
            data,
            bits_per_value,
            len_prefix: u32_to_le_bytes(len_u32),
            prefix_cursor: 0,
            index: 0,
            len,
            buf: Vec::new(),
            buf_cursor: 0,
            base: Ghost(0),
        };
        proof {
            let body = spec_chunks(r.values(), bits_per_value, 0);
            assert(body.subrange(0, 0) =~= Seq::<u8>::empty());
            assert(body.subrange(0, body.len() as int) =~= body);
            assert(r.values().take(0) =~= Seq::<u8>::empty());
        }
        r
    }

    /// An encoder of booleans, one bit each.
    pub fn new_bool(values: &'a [bool]) -> (r: PackedSequenceEncoder<'a>)
        ensures
            r.wf(),
            r.values() == spec_data_values(PackedData::Bool(values)),
            r.bits() == 1,
            r.prefix() == spec_u32_to_le_bytes(values@.len() as u32),
            r.sent() == 0,
    {
        Self::from_data(PackedData::Bool(values), 1, values.len())
    }

    /// An encoder of small integers, `bits_per_value` bits each.
    pub fn new_u8(values: &'a [u8], bits_per_value: u8) -> (r: PackedSequenceEncoder<'a>)
        requires
            bits_per_value <= 8 || values@.len() == 0,
        ensures
            r.wf(),
            r.values() == values@,
            r.bits() == bits_per_value,
            r.prefix() == spec_u32_to_le_bytes(values@.len() as u32),
            r.sent() == 0,
    {
        Self::from_data(PackedData::U8(values), bits_per_value, values.len())
    }

    /// An encoder of no values, writing a zero length.
    pub fn new_empty() -> (r: PackedSequenceEncoder<'a>)
        ensures
            r.wf(),
            r.values() == Seq::<u8>::empty(),
            r.bits() == 0,
            r.prefix() == spec_u32_to_le_bytes(0u32),
            r.sent() == 0,
    {
        Self::from_data(PackedData::Empty, 0, 0)
    }

    /// Packs values `start..end` of the data, or gives the place, within them, of the
    /// first that does not fit in the bit width.
    fn pack_chunk(&self, start: usize, end: usize) -> (r: Result<Vec<u8>, usize>)
        requires
            self.wf(),
            start < end <= self.len,
            end - start == spec_chunk_count(self.bits_per_value, (self.len - start) as nat),
        ensures
            r matches Ok(b) ==> spec_all_fit(self.values().subrange(start as int, end as int), self.bits_per_value as nat)
                && b@ == spec_packed_bytes(self.values().subrange(start as int, end as int), self.bits_per_value)
                && b@.len() == spec_packed_byte_len(end - start, self.bits_per_value as int),
            r matches Err(rel) ==> rel < end - start && self.values()[start + rel] > spec_bit_mask(
                self.bits_per_value as nat,
            ) && forall|j: int| start <= j < start + rel ==> #[trigger] self.values()[j] <= spec_bit_mask(
                self.bits_per_value as nat,
            ),
    {
        let ghost vals = self.values();
        let ghost n = self.bits_per_value;
        let ghost sub = vals.subrange(start as int, end as int);
        let count = end - start;
        match &self.data {
            PackedData::Empty => {
                proof {
                    assert(false);
                }
                Ok(Vec::new())
            },
            PackedData::Bool(values) => {
                let chunk = vstd::slice::slice_subrange(values, start, end);
                let bytes = pack_bools(chunk);
                proof {
                    assert(spec_bit_mask(1) == 1) by {
                        assert(((1u8 << 1u8) - 1) as u8 == 1) by (bit_vector);
                    }
                    assert forall|j: int| 0 <= j < sub.len() implies #[trigger] sub[j] <= spec_bit_mask(n as nat) by {
                        assert(sub[j] == vals[start + j]);
                    }
                    assert forall|k: int| 0 <= k < bytes@.len() * 8 implies #[trigger] spec_stream_bit(bytes@, k)
                        == spec_packed_bit(sub, n as int, k) by {
                        if k < chunk@.len() {
                            lemma_bool_bits(chunk@[k], k);
                            assert(sub[k] == (if chunk@[k] { 1u8 } else { 0u8 }));
                        }
                    }
                    lemma_packed_bytes_unique(bytes@, sub, n);
                }
                Ok(bytes)
            },
            PackedData::U8(values) => {
                let chunk = vstd::slice::slice_subrange(values, start, end);
                if self.bits_per_value == 0 {
                    proof {
                        assert(spec_bit_mask(0) == 0) by {
                            assert(((1u8 << 0u8) - 1) as u8 == 0) by (bit_vector);
                        }
                    }
                    let mut i: usize = 0;
                    while i < count && chunk[i] == 0
                        invariant
                            i <= count,
                            chunk@ == sub,
                            count == sub.len(),
                            spec_bit_mask(0) == 0,
                            forall|j: int| 0 <= j < i ==> #[trigger] sub[j] <= spec_bit_mask(0),
                        decreases count - i,
                    {
                        i = i + 1;
                    }
                    if i < count {
                        proof {
                            assert forall|j: int| start <= j < start + i implies #[trigger] vals[j] <= spec_bit_mask(
                                n as nat,
                            ) by {
                                assert(vals[j] == sub[j - start]);
                            }
                        }
                        Err(i)
                    } else {
                        proof {
                            lemma_packed_bytes_zero_bits(sub);
                        }
                        Ok(Vec::new())
                    }
                } else {
                    proof {
                        assert(count * n <= PACKED_CHUNK_BITS) by (nonlinear_arith)
                            requires
                                1 <= n,
                                count <= (PACKED_CHUNK_BITS as nat) / (n as nat),
                        ;
                    }
                    match pack_u8_values(chunk, self.bits_per_value as usize) {
                        Ok(bytes) => {
                            proof {
                                lemma_packed_bytes_unique(bytes@, sub, n);
                            }
                            Ok(bytes)
                        },
                        Err(ZebinError::SerializationError { pos, message }) => {
                            proof {
                                assert forall|j: int| start <= j < start + pos implies #[trigger] vals[j]
                                    <= spec_bit_mask(n as nat) by {
                                    assert(vals[j] == chunk@[j - start]);
                                }
                            }
                            Err(pos)
                        },
                        Err(_) => {
                            proof {
                                assert(false);
                            }
                            Err(0)
                        },
                    }
                }
            },
        }
    }

    /// Packs the next chunk into the buffer, or reports the first value that does not fit.
    #[verifier::rlimit(40)]
    fn fill_buf(&mut self) -> (r: Result<(), ZebinError>)
        requires
            old(self).wf(),
            old(self).prefix_cursor == 4,
            old(self).buf_cursor == old(self).buf@.len(),
            old(self).index < old(self).len,
        ensures
            final(self).wf(),
            final(self).data == old(self).data,
            final(self).bits_per_value == old(self).bits_per_value,
            final(self).len_prefix == old(self).len_prefix,
            final(self).prefix_cursor == 4,
            final(self).sent() == old(self).sent(),
            r is Ok ==> old(self).index < final(self).index,
            r is Ok ==> final(self).buf_cursor == 0,
            r is Ok && final(self).bits_per_value == 0 ==> final(self).index == final(self).len,
            r is Ok && final(self).bits_per_value > 0 ==> final(self).buf@.len() > 0,
            r is Err ==> r == Err::<(), ZebinError>(
                ZebinError::SerializationError { pos: final(self).index, message: capacity_message() },
            ) && final(self).index < old(self).len && old(self).values()[final(self).index as int]
                > spec_bit_mask(old(self).bits_per_value as nat),
            r is Err ==> final(self).base == old(self).base && final(self).buf == old(self).buf
                && final(self).buf_cursor == old(self).buf_cursor,
    {
        let ghost vals = self.values();
        let ghost n = self.bits_per_value;
        let ghost body = spec_chunks(vals, n, 0);
        let start = self.index;
        let remaining = self.len - start;
        let per: usize = if self.bits_per_value == 0 { remaining } else { PACKED_CHUNK_BITS / (self.bits_per_value as usize) };
        let count: usize = if self.bits_per_value == 0 || remaining <= per { remaining } else { per };
        proof {
            if n > 0 {
                assert((PACKED_CHUNK_BITS as nat) / (n as nat) >= 1) by (nonlinear_arith)
                    requires
                        1 <= n <= 255,
                ;
            }
        }
        let end = start + count;
        let ghost sub = vals.subrange(start as int, end as int);
        assert(count == spec_chunk_count(n, (vals.len() - start) as nat));
        match self.pack_chunk(start, end) {
            Ok(bytes) => {
                let ghost new_base = self.base@ + self.buf@.len();
                proof {
                    assert(spec_chunks(vals, n, start as nat) == bytes@ + spec_chunks(vals, n, end as nat));
                    if n > 0 {
                        assert(count * n >= 1) by (nonlinear_arith)
                            requires
                                count >= 1,
                                n >= 1,
                        ;
                    }
                }
                self.base = Ghost(new_base);
                self.buf = bytes;
                self.buf_cursor = 0;
                self.index = end;
                proof {
                    let rest = body.subrange(new_base as int, body.len() as int);
                    assert(rest == bytes@ + spec_chunks(vals, n, end as nat));
                    assert(rest.subrange(0, bytes@.len() as int) =~= bytes@);
                    assert(rest.subrange(bytes@.len() as int, rest.len() as int) =~= spec_chunks(vals, n, end as nat));
                    assert(body.subrange(new_base as int, (new_base + bytes@.len()) as int) =~= rest.subrange(
                        0,
                        bytes@.len() as int,
                    ));
                    assert(body.subrange((new_base + bytes@.len()) as int, body.len() as int) =~= rest.subrange(
                        bytes@.len() as int,
                        rest.len() as int,
                    ));
                    assert(vals.take(end as int) =~= vals.take(start as int) + sub);
                }
                Ok(())
            },
            Err(rel) => {
                let bad_pos = start + rel;
                proof {
                    assert(sub[rel as int] == vals[bad_pos as int]);
                    assert(!spec_all_fit(sub, n as nat));
                    assert(spec_chunks(vals, n, start as nat) == Seq::<u8>::empty());
                    let end2 = bad_pos + spec_chunk_count(n, (vals.len() - bad_pos) as nat);
                    let sub2 = vals.subrange(bad_pos as int, end2);
                    assert(sub2[0] == vals[bad_pos as int]);
                    assert(!spec_all_fit(sub2, n as nat));
                    assert(spec_chunks(vals, n, bad_pos as nat) == Seq::<u8>::empty());
                    assert(vals.take(bad_pos as int) =~= vals.take(start as int) + vals.subrange(
                        start as int,
                        bad_pos as int,
                    ));
                }
                self.index = bad_pos;
                Err(ZebinError::SerializationError { pos: bad_pos, message: "Value exceeds packed bit capacity" })
            },
        }
    }

    /// Writes as much as the sink takes: the rest of the length, then chunk after chunk.
    /// Refused at the first value that does not fit in the bit width, once everything
    /// before its chunk is written.
    #[verifier::rlimit(60)]
    pub fn poll_pending<S: CursorMut>(&mut self, sink: &mut S) -> (r: Result<Poll, ZebinError>)
        requires
            old(sink).inv(),
            old(self).wf(),
        ensures
            final(sink).inv(),
            final(sink).limit() == old(sink).limit(),
            r == Ok::<Poll, ZebinError>(Poll::Pending) ==> is_full(*final(sink)),
            final(self).wf(),
            final(self).values() == old(self).values(),
            final(self).bits() == old(self).bits(),
            final(self).prefix() == old(self).prefix(),
            old(self).sent() <= final(self).sent() <= final(self).stream().len(),
            final(sink).written() == old(sink).written() + old(self).stream().subrange(
                old(self).sent() as int,
                final(self).sent() as int,
            ),
            r matches Ok(p) ==> (p == Poll::Ready <==> final(self).sent() == final(self).stream().len()
                && spec_all_fit(final(self).values(), final(self).bits() as nat)),
            final(self).sent() == final(self).stream().len() && !spec_all_fit(
                final(self).values(),
                final(self).bits() as nat,
            ) ==> (r matches Err(ZebinError::SerializationError { pos, message }) && message == capacity_message()
                && pos < final(self).values().len() && final(self).values()[pos as int] > spec_bit_mask(
                final(self).bits() as nat,
            ) && forall|j: int| 0 <= j < pos ==> #[trigger] final(self).values()[j] <= spec_bit_mask(
                final(self).bits() as nat,
            )),
            r is Err ==> old(self).stream().len() - old(self).sent() > room(*old(sink)) && !S::never_refuses() || (final(self).sent()
                == final(self).stream().len() && !spec_all_fit(final(self).values(), final(self).bits() as nat)),
    {
        let ghost st = self.stream();
        let ghost vals = self.values();
        let ghost n = self.bits_per_value;
        let ghost body = spec_chunks(vals, n, 0);
        if self.prefix_cursor < 4 {
            let ghost c0 = self.prefix_cursor;
            let res = flush_bytes(sink, self.len_prefix.as_slice(), &mut self.prefix_cursor);
            proof {
                assert(self.len_prefix@.subrange(c0 as int, self.prefix_cursor as int) =~= st.subrange(
                    c0 as int,
                    self.prefix_cursor as int,
                ));
            }
            match res {
                Err(e) => {
                    return Err(e);
                },
                Ok(Poll::Pending) => {
                    return Ok(Poll::Pending);
                },
                Ok(Poll::Ready) => {},
            }
        }
        loop
            invariant
                sink.inv(),
                sink.limit() == old(sink).limit(),
                self.wf(),
                self.prefix_cursor == 4,
                self.values() == vals,
                self.bits_per_value == n,
                vals == old(self).values(),
                n == old(self).bits(),
                self.prefix() == old(self).prefix(),
                st == self.stream(),
                body == spec_chunks(vals, n, 0),
                st == self.prefix() + body,
                old(self).sent() <= self.sent() <= st.len(),
                sink.written() == old(sink).written() + st.subrange(old(self).sent() as int, self.sent() as int),
            decreases self.len - self.index, self.buf@.len() - self.buf_cursor,
        {
            let ghost mut filled = false;
            if self.buf_cursor >= self.buf.len() {
                if self.index >= self.len {
                    proof {
                        assert(vals.take(self.index as int) =~= vals);
                        assert(spec_chunks(vals, n, self.index as nat) == Seq::<u8>::empty());
                        let b2 = self.base@ + self.buf@.len();
                        assert(body.subrange(b2 as int, body.len() as int).len() == 0);
                        assert(b2 == body.len());
                        assert(self.sent() == 4 + body.len());
                    }
                    return Ok(Poll::Ready);
                }
                let ghost sent0 = self.sent();
                match self.fill_buf() {
                    Err(e) => {
                        proof {
                            assert(spec_chunks(vals, n, self.index as nat) == Seq::<u8>::empty()) by {
                                let i = self.index;
                                if n > 0 {
                                    assert((PACKED_CHUNK_BITS as nat) / (n as nat) >= 1) by (nonlinear_arith)
                                        requires
                                            1 <= n <= 255,
                                    ;
                                }
                                let end2 = i + spec_chunk_count(n, (vals.len() - i) as nat);
                                assert(vals.subrange(i as int, end2)[0] == vals[i as int]);
                            }
                            assert(vals.take(self.index as int) =~= vals.take(self.index as int));
                            assert forall|j: int| 0 <= j < self.index implies #[trigger] vals[j] <= spec_bit_mask(
                                n as nat,
                            ) by {
                                assert(vals.take(self.index as int)[j] == vals[j]);
                            }
                            let b2 = self.base@ + self.buf@.len();
                            assert(body.subrange(b2 as int, body.len() as int).len() == 0);
                            assert(self.sent() == st.len());
                            assert(!spec_all_fit(vals, n as nat));
                        }
                        return Err(e);
                    },
                    Ok(()) => {},
                }
                proof {
                    filled = true;
                    assert(st.subrange(old(self).sent() as int, sent0 as int) =~= st.subrange(
                        old(self).sent() as int,
                        self.sent() as int,
                    ));
                }
            }
            let ghost c0 = self.buf_cursor;
            let ghost sent1 = self.sent();
            let ghost base = self.base@;
            let res = flush_bytes(sink, self.buf.as_slice(), &mut self.buf_cursor);
            proof {
                let bl = self.buf@.len();
                assert(body.subrange(base as int, (base + bl) as int) == self.buf@);
                assert(self.buf@.subrange(c0 as int, self.buf_cursor as int) =~= body.subrange(
                    (base + c0) as int,
                    (base + self.buf_cursor) as int,
                ));
                assert(body.subrange((base + c0) as int, (base + self.buf_cursor) as int) =~= st.subrange(
                    (4 + base + c0) as int,
                    (4 + base + self.buf_cursor) as int,
                ));
                assert(self.buf@.subrange(c0 as int, self.buf_cursor as int) =~= st.subrange(
                    (4 + base + c0) as int,
                    (4 + base + self.buf_cursor) as int,
                ));
                assert(st.subrange(old(self).sent() as int, sent1 as int) + st.subrange(
                    sent1 as int,
                    self.sent() as int,
                ) =~= st.subrange(old(self).sent() as int, self.sent() as int));
            }
            match res {
                Err(e) => {
                    proof {
                        if filled && n == 0 {
                            assert(vals.take(self.index as int) =~= vals);
                        }
                        assert(self.sent() == 4 + base + c0);
                    }
                    return Err(e);
                },
                Ok(Poll::Pending) => {
                    return Ok(Poll::Pending);
                },
                Ok(Poll::Ready) => {},
            }
        }
    }

    /// Takes new values and writes as much as the sink takes.
    pub fn input<I: ToPackedData<'a>, S: CursorMut>(&mut self, item: I, sink: &mut S) -> (r: Result<Poll, ZebinError>)
        requires
            old(sink).inv(),
            item.spec_packed_data().0 is Bool ==> item.spec_packed_data().1 == 1,
            item.spec_packed_data().0 is U8 ==> item.spec_packed_data().1 <= 8 || spec_data_values(
                item.spec_packed_data().0,
            ).len() == 0,
        ensures
            final(sink).inv(),
            final(sink).limit() == old(sink).limit(),
            r == Ok::<Poll, ZebinError>(Poll::Pending) ==> is_full(*final(sink)),
            final(self).wf(),
            final(self).values() == spec_data_values(item.spec_packed_data().0),
            final(self).bits() == item.spec_packed_data().1,
            final(self).prefix() == spec_u32_to_le_bytes(spec_data_values(item.spec_packed_data().0).len() as u32),
            final(self).sent() <= final(self).stream().len(),
            final(sink).written() == old(sink).written() + final(self).stream().subrange(0, final(self).sent() as int),
            r matches Ok(p) ==> (p == Poll::Ready <==> final(self).sent() == final(self).stream().len()
                && spec_all_fit(final(self).values(), final(self).bits() as nat)),
            final(self).sent() == final(self).stream().len() && !spec_all_fit(
                final(self).values(),
                final(self).bits() as nat,
            ) ==> (r matches Err(ZebinError::SerializationError { pos, message }) && message == capacity_message()
                && pos < final(self).values().len() && final(self).values()[pos as int] > spec_bit_mask(
                final(self).bits() as nat,
            ) && forall|j: int| 0 <= j < pos ==> #[trigger] final(self).values()[j] <= spec_bit_mask(
                final(self).bits() as nat,
            )),
            r is Err ==> final(self).stream().len() > room(*old(sink)) && !S::never_refuses() || (final(self).sent() == final(self).stream().len()
                && !spec_all_fit(final(self).values(), final(self).bits() as nat)),
    {
        let (data, bits) = item.to_packed_data();
        let len = match &data {
            PackedData::Empty => 0,
            PackedData::Bool(v) => v.len(),
            PackedData::U8(v) => v.len(),
        };
        *self = Self::from_data(data, bits, len);
        self.poll_pending(sink)
    }

    /// Nothing is left to write after the values.
    pub fn finish<S: CursorMut>(self, sink: &mut S) -> (r: Result<Poll, ZebinError>)
        ensures
            r == Ok::<Poll, ZebinError>(Poll::Ready),
            *final(sink) == *old(sink),
    {
        Ok(Poll::Ready)
    }
}

} // verus!
