use vstd::prelude::*;
use vstd::bytes::*;
use crate::cursor::{Cursor, range_error};
use crate::error::{DecodeError, ZebinError};

verus! {

broadcast use vstd::slice::group_slice_axioms;

/// Bit `k` of a packed bit stream: bit `k % 8` of byte `k / 8`, least significant first.
pub open spec fn spec_stream_bit(bytes: Seq<u8>, k: int) -> bool {
    (bytes[k / 8] >> ((k % 8) as u8)) & 1 == 1
}

/// Bit `b` of `v`, least significant first.
pub open spec fn spec_value_bit(v: u8, b: int) -> bool {
    (v >> (b as u8)) & 1 == 1
}

/// Largest value that fits in `bits` bits (all of a byte for eight or more).
pub open spec fn spec_bit_mask(bits: nat) -> u8 {
    if bits >= 8 {
        0xff
    } else {
        ((1u8 << (bits as u8)) - 1) as u8
    }
}

/// Setting bit `s` of `x` to `bv` leaves the other bits alone.
pub proof fn lemma_or_shifted_bit(x: u8, bv: u8, s: u8, u: u8)
    requires
        bv <= 1,
        s < 8,
        u < 8,
    ensures
        ((x | (bv << s)) >> u) & 1 == (if u == s {
            ((x >> u) & 1) | bv
        } else {
            (x >> u) & 1
        }),
{
    assert(((x | (bv << s)) >> u) & 1 == (if u == s {
        ((x >> u) & 1) | bv
    } else {
        (x >> u) & 1
    })) by (bit_vector)
        requires
            bv <= 1,
            s < 8,
            u < 8,
    ;
}

/// Two bytes with the same eight bits are equal.
pub proof fn lemma_u8_bits_eq(x: u8, y: u8)
    requires
        forall|b: int| 0 <= b < 8 ==> #[trigger] spec_value_bit(x, b) == spec_value_bit(y, b),
    ensures
        x == y,
{
    assert(spec_value_bit(x, 0) == spec_value_bit(y, 0));
    assert(spec_value_bit(x, 1) == spec_value_bit(y, 1));
    assert(spec_value_bit(x, 2) == spec_value_bit(y, 2));
    assert(spec_value_bit(x, 3) == spec_value_bit(y, 3));
    assert(spec_value_bit(x, 4) == spec_value_bit(y, 4));
    assert(spec_value_bit(x, 5) == spec_value_bit(y, 5));
    assert(spec_value_bit(x, 6) == spec_value_bit(y, 6));
    assert(spec_value_bit(x, 7) == spec_value_bit(y, 7));
    assert(x == y) by (bit_vector)
        requires
            ((x >> 0u8) & 1 == 1) == ((y >> 0u8) & 1 == 1),
            ((x >> 1u8) & 1 == 1) == ((y >> 1u8) & 1 == 1),
            ((x >> 2u8) & 1 == 1) == ((y >> 2u8) & 1 == 1),
            ((x >> 3u8) & 1 == 1) == ((y >> 3u8) & 1 == 1),
            ((x >> 4u8) & 1 == 1) == ((y >> 4u8) & 1 == 1),
            ((x >> 5u8) & 1 == 1) == ((y >> 5u8) & 1 == 1),
            ((x >> 6u8) & 1 == 1) == ((y >> 6u8) & 1 == 1),
            ((x >> 7u8) & 1 == 1) == ((y >> 7u8) & 1 == 1),
    ;
}

/// Below eight bits, a value fits exactly when nothing is left after shifting the
/// bits out.
pub proof fn lemma_mask_iff(v: u8, bits: u8)
    requires
        bits < 8,
    ensures
        v <= spec_bit_mask(bits as nat) <==> (v >> bits) == 0,
{
    assert(v <= ((1u8 << bits) - 1) as u8 <==> (v >> bits) == 0) by (bit_vector)
        requires
            bits < 8,
    ;
}

/// When nothing is left after shifting `bits` bits out, the higher bits are clear.
pub proof fn lemma_high_bit_clear(v: u8, bits: u8, b: u8)
    requires
        bits <= b < 8,
        (v >> bits) == 0,
    ensures
        !spec_value_bit(v, b as int),
{
    assert((v >> b) & 1 != 1) by (bit_vector)
        requires
            bits <= b < 8,
            (v >> bits) == 0,
    ;
}

/// Two bytes that agree on their low `bits` bits and have nothing above them are equal.
pub proof fn lemma_low_bits_eq(x: u8, y: u8, bits: u8)
    requires
        bits <= 8,
        bits < 8 ==> (x >> bits) == 0 && (y >> bits) == 0,
        forall|b: int| 0 <= b < bits ==> #[trigger] spec_value_bit(x, b) == spec_value_bit(y, b),
    ensures
        x == y,
{
    assert forall|b: int| 0 <= b < 8 implies #[trigger] spec_value_bit(x, b) == spec_value_bit(y, b) by {
        if b >= bits {
            lemma_high_bit_clear(x, bits, b as u8);
            lemma_high_bit_clear(y, bits, b as u8);
        }
    }
    lemma_u8_bits_eq(x, y);
}

/// The value read from `n` bits of a packed stream starting at bit `off`: bit `b` of
/// the value is stream bit `off + b`.
pub open spec fn spec_read_bits(bytes: Seq<u8>, off: int, n: nat) -> u8
    decreases n,
{
    if n == 0 {
        0
    } else {
        let k = off + n - 1;
        let bit = (bytes[k / 8] >> ((k % 8) as u8)) & 1;
        (spec_read_bits(bytes, off, (n - 1) as nat) | (bit << ((n - 1) as u8))) as u8
    }
}

/// The bits of a value read from a packed stream are the stream's bits, and nothing is
/// above them.
pub proof fn lemma_read_bits_facts(bytes: Seq<u8>, off: int, n: nat)
    requires
        n <= 8,
    ensures
        forall|b: int| 0 <= b < n ==> #[trigger] spec_value_bit(spec_read_bits(bytes, off, n), b) == spec_stream_bit(
            bytes,
            off + b,
        ),
        n < 8 ==> (spec_read_bits(bytes, off, n) >> (n as u8)) == 0,
    decreases n,
{
    if n > 0 {
        let m = (n - 1) as nat;
        lemma_read_bits_facts(bytes, off, m);
        let old_v = spec_read_bits(bytes, off, m);
        let k = off + m;
        let byte = bytes[k / 8];
        let sh = (k % 8) as u8;
        let bv = (byte >> sh) & 1;
        let s = m as u8;
        assert(bv <= 1) by (bit_vector)
            requires
                bv == (byte >> sh) & 1,
        ;
        let new_v = spec_read_bits(bytes, off, n);
        assert(new_v == (old_v | (bv << s)));
        assert forall|b: int| 0 <= b < n implies #[trigger] spec_value_bit(new_v, b) == spec_stream_bit(bytes, off + b) by {
            lemma_or_shifted_bit(old_v, bv, s, b as u8);
            if b == m {
                assert((((old_v >> s) & 1) | bv) == bv) by (bit_vector)
                    requires
                        (old_v >> s) == 0,
                        s < 8,
                        bv <= 1,
                ;
                assert(b as u8 == s);
                assert(((new_v >> s) & 1) == bv);
                assert(spec_stream_bit(bytes, off + b) == (bv == 1));
                assert(spec_value_bit(new_v, b) == (bv == 1));
            } else {
                assert(b < m);
                assert(spec_value_bit(old_v, b) == spec_stream_bit(bytes, off + b));
                assert(((new_v >> (b as u8)) & 1) == ((old_v >> (b as u8)) & 1));
            }
        }
        if n < 8 {
            assert(((old_v | (bv << s)) >> ((s + 1) as u8)) == 0) by (bit_vector)
                requires
                    (old_v >> s) == 0,
                    bv <= 1,
                    s < 7,
            ;
            assert((s + 1) as u8 == n as u8);
        }
    } else {
        assert((0u8 >> 0u8) == 0) by (bit_vector);
    }
}

/// Reads `bits_per_value` bits of a packed stream starting at bit `bit_offset`.
pub fn read_packed_bits(bytes: &[u8], bit_offset: usize, bits_per_value: usize) -> (r: u8)
    requires
        bits_per_value <= 8,
        bit_offset + bits_per_value <= bytes@.len() * 8,
        bit_offset + bits_per_value <= usize::MAX,
    ensures
        r == spec_read_bits(bytes@, bit_offset as int, bits_per_value as nat),
{
    let mut value: u8 = 0;
    let mut bit: usize = 0;
    while bit < bits_per_value
        invariant
            bit <= bits_per_value <= 8,
            bit_offset + bits_per_value <= bytes@.len() * 8,
            bit_offset + bits_per_value <= usize::MAX,
            value == spec_read_bits(bytes@, bit_offset as int, bit as nat),
        decreases bits_per_value - bit,
    {
        let absolute_bit = bit_offset + bit;
        let byte = bytes[absolute_bit / 8];
        let bit_value = (byte >> ((absolute_bit % 8) as u8)) & 1;
        value = value | (bit_value << (bit as u8));
        bit = bit + 1;
    }
    value
}

/// The error for a packed length whose bit count does not fit in a `usize`.
pub open spec fn packed_overflow_error() -> DecodeError {
    DecodeError::ValidationError { message: "Packed length calculation overflow", pos: 0 }
}

/// Number of bytes holding `value_count` values of `bits_per_value` bits.
pub open spec fn spec_packed_byte_len(value_count: int, bits_per_value: int) -> int {
    (value_count * bits_per_value + 7) / 8
}

/// Bytes needed for `value_count` values of `bits_per_value` bits, or an error when
/// the bit count overflows.
pub fn packed_byte_len(value_count: usize, bits_per_value: usize) -> (r: Result<usize, DecodeError>)
    ensures
        value_count * bits_per_value > usize::MAX ==> r == Err::<usize, DecodeError>(packed_overflow_error()),
        value_count * bits_per_value <= usize::MAX ==> r == Ok::<usize, DecodeError>(
            spec_packed_byte_len(value_count as int, bits_per_value as int) as usize,
        ),
{
    let total_bits = match value_count.checked_mul(bits_per_value) {
        Some(t) => t,
        None => {
            return Err(DecodeError::ValidationError { message: "Packed length calculation overflow", pos: 0 });
        },
    };
    proof {
        let t = total_bits as int;
        vstd::arithmetic::div_mod::lemma_fundamental_div_mod(t, 8);
        vstd::arithmetic::div_mod::lemma_fundamental_div_mod(t + 7, 8);
        vstd::arithmetic::div_mod::lemma_mod_bound(t, 8);
        vstd::arithmetic::div_mod::lemma_mod_bound(t + 7, 8);
        assert(t * 1 == t);
        assert(value_count * bits_per_value == t);
    }
    Ok(total_bits / 8 + if total_bits % 8 == 0 { 0 } else { 1 })
}

/// What reading a packed sequence of `bits`-bit values at `pos` gives: its length, its
/// bytes and the position after them.
pub open spec fn spec_packed_access(data: Seq<u8>, pos: int, bits: nat) -> Result<(usize, Seq<u8>, int), DecodeError> {
    if pos + 4 > data.len() {
        Err(range_error(pos as usize, 4))
    } else {
        let len = spec_u32_from_le_bytes(data.subrange(pos, pos + 4)) as int;
        if len * bits > usize::MAX {
            Err(packed_overflow_error())
        } else {
            let bl = spec_packed_byte_len(len, bits as int);
            if pos + 4 + bl > data.len() {
                Err(range_error((pos + 4) as usize, bl as usize))
            } else {
                Ok((len as usize, data.subrange(pos + 4, pos + 4 + bl), pos + 4 + bl))
            }
        }
    }
}

/// Reads the length and bytes of a packed sequence of `bits`-bit values at the cursor.
fn read_packed<'a>(cursor: &mut Cursor<'a>, bits: usize) -> (r: Result<(usize, &'a [u8]), DecodeError>)
    ensures
        final(cursor).data() == old(cursor).data(),
        match spec_packed_access(old(cursor).data(), old(cursor).at(), bits as nat) {
            Ok((len, bytes, end)) => r matches Ok((l, b)) && l == len && b@ == bytes && final(cursor).at() == end,
            Err(e) => r matches Err(e2) && e2 == e,
        },
{
    proof {
        cursor.lemma_len_bound();
    }
    let len = cursor.read_u32()? as usize;
    let byte_len = packed_byte_len(len, bits)?;
    let bytes = cursor.read_exact(byte_len)?;
    Ok((len, bytes))
}

/// Marker type for the archived form of a packed boolean sequence.
#[derive(Debug, Clone, Copy, PartialEq, Eq)]
pub struct ArchivedPackedBoolSlice;

/// Read view over a packed boolean sequence: one bit per value.
#[derive(Debug, Clone, Copy)]
pub struct ArchivedPackedBoolSliceView<'a> {
    len: usize,
    bytes: &'a [u8],
}

impl<'a> ArchivedPackedBoolSliceView<'a> {
    pub closed spec fn spec_len(&self) -> usize {
        self.len
    }

    pub closed spec fn data(&self) -> Seq<u8> {
        self.bytes@
    }

    pub fn len(&self) -> (r: usize)
        ensures
            r == self.spec_len(),
    {
        self.len
    }

    pub fn is_empty(&self) -> (r: bool)
        ensures
            r == (self.spec_len() == 0),
    {
        self.len == 0
    }

    /// Value `index`, or nothing past the end.
    pub fn get(&self, index: usize) -> (r: Option<bool>)
        ensures
            r == (if index < self.spec_len() && index / 8 < self.data().len() {
                Some(spec_stream_bit(self.data(), index as int))
            } else {
                None
            }),
    {
        if index >= self.len {
            return None;
        }
        let byte_index = index / 8;
        let bit = index % 8;
        if byte_index >= self.bytes.len() {
            return None;
        }
        let byte = self.bytes[byte_index];
        let sh = bit as u8;
        let value = (byte >> sh) & 1;
        proof {
            assert((value != 0) == (value == 1)) by (bit_vector)
                requires
                    value == (byte >> sh) & 1,
            ;
        }
        Some(value != 0)
    }

    /// All values, in order.
    pub fn restore(&self) -> (r: Vec<bool>)
        requires
            self.spec_len() <= self.data().len() * 8,
        ensures
            r@.len() == self.spec_len(),
            forall|i: int| 0 <= i < self.spec_len() ==> r@[i] == spec_stream_bit(self.data(), i),
    {
        let mut out: Vec<bool> = Vec::new();
        let mut i: usize = 0;
        while i < self.len
            invariant
                i <= self.spec_len(),
                self.spec_len() <= self.data().len() * 8,
                out@.len() == i,
                forall|j: int| 0 <= j < i ==> out@[j] == spec_stream_bit(self.data(), j),
            decreases self.spec_len() - i,
        {
            let v = self.get(i);
            match v {
                Some(b) => out.push(b),
                None => {
                    return out;
                },
            }
            i = i + 1;
        }
        out
    }
}

impl ArchivedPackedBoolSlice {
    /// Reads a packed boolean sequence at the cursor.
    pub fn access<'a>(cursor: &mut Cursor<'a>) -> (r: Result<ArchivedPackedBoolSliceView<'a>, DecodeError>)
        ensures
            final(cursor).data() == old(cursor).data(),
            match spec_packed_access(old(cursor).data(), old(cursor).at(), 1) {
                Ok((len, bytes, end)) => r matches Ok(v) && v.spec_len() == len && v.data() == bytes
                    && final(cursor).at() == end,
                Err(e) => r matches Err(e2) && e2 == e,
            },
    {
        let (len, bytes) = read_packed(cursor, 1)?;
        Ok(ArchivedPackedBoolSliceView { len, bytes })
    }

    /// Checks a packed boolean sequence at the cursor.
    pub fn validate(cursor: &mut Cursor) -> (r: Result<(), DecodeError>)
        ensures
            final(cursor).data() == old(cursor).data(),
            match spec_packed_access(old(cursor).data(), old(cursor).at(), 1) {
                Ok((_, _, end)) => r is Ok && final(cursor).at() == end,
                Err(e) => r == Err::<(), DecodeError>(e),
            },
    {
        let _ = read_packed(cursor, 1)?;
        Ok(())
    }
}

/// Marker type for the archived form of a packed sequence of `BITS`-bit values.
#[derive(Debug, Clone, Copy, PartialEq, Eq)]
pub struct ArchivedPackedU8Slice<const BITS: u8>;

/// Read view over a packed sequence of `BITS`-bit values.
#[derive(Debug, Clone, Copy)]
pub struct ArchivedPackedU8SliceView<'a, const BITS: u8> {
    len: usize,
    bytes: &'a [u8],
}

impl<'a, const BITS: u8> ArchivedPackedU8SliceView<'a, BITS> {
    pub closed spec fn spec_len(&self) -> usize {
        self.len
    }

    pub closed spec fn data(&self) -> Seq<u8> {
        self.bytes@
    }

    /// The bytes hold all the values.
    pub closed spec fn wf(&self) -> bool {
        &&& BITS <= 8
        &&& self.len * BITS <= usize::MAX
        &&& self.bytes@.len() == spec_packed_byte_len(self.len as int, BITS as int)
    }

    pub fn len(&self) -> (r: usize)
        ensures
            r == self.spec_len(),
    {
        self.len
    }

    pub fn is_empty(&self) -> (r: bool)
        ensures
            r == (self.spec_len() == 0),
    {
        self.len == 0
    }

    /// Value `index`, or nothing past the end.
    pub fn get(&self, index: usize) -> (r: Option<u8>)
        requires
            self.wf(),
        ensures
            r == (if index < self.spec_len() {
                Some(spec_read_bits(self.data(), index * BITS, BITS as nat))
            } else {
                None
            }),
    {
        if index >= self.len {
            return None;
        }
        proof {
            assert(index * BITS + BITS <= self.len * BITS) by (nonlinear_arith)
                requires
                    index < self.len,
            ;
        }
        let bit_offset = index * (BITS as usize);
        Some(read_packed_bits(self.bytes, bit_offset, BITS as usize))
    }

    /// All values, in order.
    pub fn restore(&self) -> (r: Vec<u8>)
        requires
            self.wf(),
        ensures
            r@.len() == self.spec_len(),
            forall|i: int| 0 <= i < self.spec_len() ==> r@[i] == spec_read_bits(self.data(), i * BITS, BITS as nat),
    {
        let mut out: Vec<u8> = Vec::new();
        let mut i: usize = 0;
        while i < self.len
            invariant
                self.wf(),
                i <= self.spec_len(),
                out@.len() == i,
                forall|j: int| 0 <= j < i ==> out@[j] == spec_read_bits(self.data(), j * BITS, BITS as nat),
            decreases self.spec_len() - i,
        {
            let v = self.get(i);
            match v {
                Some(b) => out.push(b),
                None => {
                    return out;
                },
            }
            i = i + 1;
        }
        out
    }
}

impl<const BITS: u8> ArchivedPackedU8Slice<BITS> {
    /// Checks that every value read from the bytes fits in `BITS` bits.
    fn check_values(bytes: &[u8], len: usize, pos: usize) -> (r: Result<(), DecodeError>)
        requires
            BITS <= 8,
            len * BITS <= usize::MAX,
            bytes@.len() == spec_packed_byte_len(len as int, BITS as int),
        ensures
            r is Ok,
    {
        let bits: u8 = BITS;
        proof {
            assert(bits < 8 ==> (1u8 << bits) >= 1) by (bit_vector);
        }
        let max: u8 = if bits == 8 { 255 } else { (1u8 << bits) - 1 };
        let mut index: usize = 0;
        while index < len
            invariant
                BITS <= 8,
                len * BITS <= usize::MAX,
                bytes@.len() == spec_packed_byte_len(len as int, BITS as int),
                max == spec_bit_mask(BITS as nat),
            decreases len - index,
        {
            proof {
                assert(index * BITS + BITS <= len * BITS) by (nonlinear_arith)
                    requires
                        index < len,
                ;
            }
            let bit_offset = index * (BITS as usize);
            let value = read_packed_bits(bytes, bit_offset, BITS as usize);
            proof {
                lemma_read_bits_facts(bytes@, bit_offset as int, BITS as nat);
                if BITS < 8 {
                    lemma_mask_iff(value, BITS);
                }
            }
            if value > max {
                return Err(DecodeError::ValidationError { message: "Packed integer value out of range", pos });
            }
            index = index + 1;
        }
        Ok(())
    }

    /// Reads a packed sequence of `BITS`-bit values at the cursor.
    pub fn access<'a>(cursor: &mut Cursor<'a>) -> (r: Result<ArchivedPackedU8SliceView<'a, BITS>, DecodeError>)
        requires
            BITS <= 8,
        ensures
            final(cursor).data() == old(cursor).data(),
            match spec_packed_access(old(cursor).data(), old(cursor).at(), BITS as nat) {
                Ok((len, bytes, end)) => r matches Ok(v) && v.spec_len() == len && v.data() == bytes && v.wf()
                    && final(cursor).at() == end,
                Err(e) => r matches Err(e2) && e2 == e,
            },
    {
        let pos = cursor.pos();
        let (len, bytes) = read_packed(cursor, BITS as usize)?;
        Self::check_values(bytes, len, pos)?;
        Ok(ArchivedPackedU8SliceView { len, bytes })
    }

    /// Checks a packed sequence of `BITS`-bit values at the cursor.
    pub fn validate(cursor: &mut Cursor) -> (r: Result<(), DecodeError>)
        requires
            BITS <= 8,
        ensures
            final(cursor).data() == old(cursor).data(),
            match spec_packed_access(old(cursor).data(), old(cursor).at(), BITS as nat) {
                Ok((_, _, end)) => r is Ok && final(cursor).at() == end,
                Err(e) => r == Err::<(), DecodeError>(e),
            },
    {
        let pos = cursor.pos();
        let (len, bytes) = read_packed(cursor, BITS as usize)?;
        Self::check_values(bytes, len, pos)?;
        Ok(())
    }
}

/// Or-ing `v` shifted left by `s` into `x` sets bit `u` from bit `u - s` of `v`.
pub proof fn lemma_or_shl_bit(x: u8, v: u8, s: u8, u: u8)
    requires
        s < 8,
        u < 8,
    ensures
        ((x | (v << s)) >> u) & 1 == (if u >= s {
            ((x >> u) & 1) | ((v >> ((u - s) as u8)) & 1)
        } else {
            (x >> u) & 1
        }),
{
    assert(((x | (v << s)) >> u) & 1 == (if u >= s {
        ((x >> u) & 1) | ((v >> ((u - s) as u8)) & 1)
    } else {
        (x >> u) & 1
    })) by (bit_vector)
        requires
            s < 8,
            u < 8,
    ;
}

/// Or-ing `v` shifted right by `t` into `x` sets bit `u` from bit `u + t` of `v`.
pub proof fn lemma_or_shr_bit(x: u8, v: u8, t: u8, u: u8)
    requires
        1 <= t < 8,
        u < 8,
    ensures
        ((x | (v >> t)) >> u) & 1 == (if u + t < 8 {
            ((x >> u) & 1) | ((v >> ((u + t) as u8)) & 1)
        } else {
            (x >> u) & 1
        }),
{
    assert(((x | (v >> t)) >> u) & 1 == (if u + t < 8 {
        ((x >> u) & 1) | ((v >> ((u + t) as u8)) & 1)
    } else {
        (x >> u) & 1
    })) by (bit_vector)
        requires
            1 <= t < 8,
            u < 8,
    ;
}

/// Bit `b` of `v` as 0 or 1.
pub proof fn lemma_bit_value(v: u8, b: u8)
    ensures
        (v >> b) & 1 <= 1,
        ((v >> b) & 1 == 1) || ((v >> b) & 1 == 0),
        (0u8 | ((v >> b) & 1)) == (v >> b) & 1,
        (((v >> b) & 1) | 1) == 1,
{
    assert((v >> b) & 1 <= 1 && (((v >> b) & 1 == 1) || ((v >> b) & 1 == 0)) && (0u8 | ((v >> b) & 1)) == (v >> b)
        & 1 && (((v >> b) & 1) | 1) == 1) by (bit_vector);
}

/// The stream bit that packing `values`, `n` bits each, puts at position `k`.
pub open spec fn spec_packed_bit(values: Seq<u8>, n: int, k: int) -> bool {
    0 <= k < values.len() * n && spec_value_bit(values[k / n], k % n)
}

/// Packs booleans one bit each, least significant bit first.
pub fn pack_bools(values: &[bool]) -> (r: Vec<u8>)
    ensures
        r@.len() == spec_packed_byte_len(values@.len() as int, 1),
        forall|k: int| 0 <= k < r@.len() * 8 ==> #[trigger] spec_stream_bit(r@, k) == (k < values@.len() && values@[k]),
{
    let n = values.len();
    let byte_len = n / 8 + if n % 8 == 0 { 0 } else { 1 };
    let mut bits: Vec<u8> = vec![0u8; byte_len];
    proof {
        assert forall|k: int| 0 <= k < bits@.len() * 8 implies !#[trigger] spec_stream_bit(bits@, k) by {
            assert(cloned(0u8, bits@[k / 8]));
            let sh = (k % 8) as u8;
            assert((0u8 >> sh) & 1 == 0) by (bit_vector);
        }
    }
    let mut i: usize = 0;
    while i < n
        invariant
            i <= n,
            n == values@.len(),
            bits@.len() == byte_len,
            byte_len == spec_packed_byte_len(n as int, 1),
            forall|k: int| 0 <= k < bits@.len() * 8 ==> #[trigger] spec_stream_bit(bits@, k) == (k < i && values@[k]),
        decreases n - i,
    {
        if values[i] {
            let byte_idx = i / 8;
            let sh = (i % 8) as u8;
            let ghost old_bits = bits@;
            let b = bits[byte_idx] | (1u8 << sh);
            bits.set(byte_idx, b);
            proof {
                assert forall|k: int| 0 <= k < bits@.len() * 8 implies #[trigger] spec_stream_bit(bits@, k) == (k < i + 1
                    && values@[k]) by {
                    if k / 8 == byte_idx {
                        lemma_or_shifted_bit(old_bits[byte_idx as int], 1, sh, (k % 8) as u8);
                        assert(spec_stream_bit(old_bits, k) == (k < i && values@[k]));
                        lemma_bit_value(old_bits[byte_idx as int], (k % 8) as u8);

                    } else {
                        assert(bits@[k / 8] == old_bits[k / 8]);
                        assert(spec_stream_bit(old_bits, k) == (k < i && values@[k]));
                    }
                }
            }
        }
        i = i + 1;
    }
    bits
}

/// Every value fits in `n` bits.
pub open spec fn spec_all_fit(values: Seq<u8>, n: nat) -> bool {
    forall|i: int| 0 <= i < values.len() ==> #[trigger] values[i] <= spec_bit_mask(n)
}

/// Stream bit `k` after packing value `v` at bit `off` into a stream whose bits from
/// `off` on were clear.
proof fn lemma_pack_value_bit(
    old_bits: Seq<u8>,
    new_bits: Seq<u8>,
    off: int,
    n: int,
    v: u8,
    k: int,
)
    requires
        1 <= n <= 8,
        0 <= off,
        0 <= k < old_bits.len() * 8,
        old_bits.len() == new_bits.len(),
        off + n <= old_bits.len() * 8,
        n < 8 ==> (v >> (n as u8)) == 0,
        forall|j: int| off <= j < old_bits.len() * 8 ==> !#[trigger] spec_stream_bit(old_bits, j),
        new_bits[off / 8] == old_bits[off / 8] | (v << ((off % 8) as u8)),
        (off % 8) + n > 8 ==> new_bits[off / 8 + 1] == old_bits[off / 8 + 1] | (v >> ((8 - off % 8) as u8)),
        forall|j: int|
            0 <= j < old_bits.len() && j != off / 8 && !((off % 8) + n > 8 && j == off / 8 + 1) ==> #[trigger] new_bits[j]
                == old_bits[j],
    ensures
        spec_stream_bit(new_bits, k) == (if off <= k < off + n {
            spec_value_bit(v, k - off)
        } else {
            spec_stream_bit(old_bits, k)
        }),
{
    let bi = off / 8;
    let sh = off % 8;
    let u = k % 8;
    if k / 8 == bi {
        lemma_or_shl_bit(old_bits[bi], v, sh as u8, u as u8);
        lemma_bit_value(old_bits[bi], u as u8);
        if k >= off {
            assert(!spec_stream_bit(old_bits, k));
            assert(k - off == u - sh);
            lemma_bit_value(v, (u - sh) as u8);
            if k - off >= n {
                lemma_high_bit_clear(v, n as u8, (k - off) as u8);
            }
        }
    } else if sh + n > 8 && k / 8 == bi + 1 {
        let t = (8 - sh) as u8;
        lemma_or_shr_bit(old_bits[bi + 1], v, t, u as u8);
        lemma_bit_value(old_bits[bi + 1], u as u8);
        assert(!spec_stream_bit(old_bits, k));
        assert(k - off == u + t);
        if u + t < 8 {
            lemma_bit_value(v, (u + t) as u8);
            if k - off >= n {
                lemma_high_bit_clear(v, n as u8, (k - off) as u8);
            }
        }
    } else {
        assert(new_bits[k / 8] == old_bits[k / 8]);
    }
}

/// Packs `values`, `bits_per_value` bits each, least significant bit first; refused
/// when the bit count overflows or a value does not fit.
pub fn pack_u8_values(values: &[u8], bits_per_value: usize) -> (r: Result<Vec<u8>, ZebinError>)
    requires
        bits_per_value <= 8,
        bits_per_value >= 1 || values@.len() == 0,
    ensures
        values@.len() * bits_per_value > usize::MAX ==> r == Err::<Vec<u8>, ZebinError>(
            ZebinError::ArithmeticOverflow { pos: 0 },
        ),
        values@.len() * bits_per_value <= usize::MAX && !spec_all_fit(values@, bits_per_value as nat) ==> (
        r matches Err(ZebinError::SerializationError { pos, message }) && pos < values@.len() && values@[pos as int]
            > spec_bit_mask(bits_per_value as nat) && (forall|j: int|
            0 <= j < pos ==> #[trigger] values@[j] <= spec_bit_mask(bits_per_value as nat)) && message
            == "Value exceeds packed bit capacity"),
        values@.len() * bits_per_value <= usize::MAX && spec_all_fit(values@, bits_per_value as nat) ==> (
        r matches Ok(bytes) && bytes@.len() == spec_packed_byte_len(values@.len() as int, bits_per_value as int)
            && forall|k: int|
            0 <= k < bytes@.len() * 8 ==> #[trigger] spec_stream_bit(bytes@, k) == spec_packed_bit(
                values@,
                bits_per_value as int,
                k,
            )),
{
    let len = values.len();
    let total_bits = match len.checked_mul(bits_per_value) {
        Some(t) => t,
        None => {
            return Err(ZebinError::ArithmeticOverflow { pos: 0 });
        },
    };
    let byte_len = total_bits / 8 + if total_bits % 8 == 0 { 0 } else { 1 };
    let mut bits: Vec<u8> = vec![0u8; byte_len];
    proof {
        assert forall|k: int| 0 <= k < bits@.len() * 8 implies !#[trigger] spec_stream_bit(bits@, k) by {
            assert(cloned(0u8, bits@[k / 8]));
            let sh = (k % 8) as u8;
            assert((0u8 >> sh) & 1 == 0) by (bit_vector);
        }
        assert(1u8 << 8u8 == 0) by (bit_vector);
    }
    let bpv: u8 = bits_per_value as u8;
    proof {
        assert(bpv < 8 ==> (1u8 << bpv) >= 1) by (bit_vector);
    }
    let mask: u8 = if bits_per_value == 8 { 255 } else { (1u8 << bpv) - 1 };
    let mut i: usize = 0;
    while i < len
        invariant
            i <= len,
            len == values@.len(),
            bits_per_value <= 8,
            bits_per_value >= 1 || len == 0,
            bpv == bits_per_value,
            total_bits == len * bits_per_value,
            bits@.len() == byte_len,
            byte_len == spec_packed_byte_len(len as int, bits_per_value as int),
            mask == spec_bit_mask(bits_per_value as nat),
            forall|j: int| 0 <= j < i ==> #[trigger] values@[j] <= mask,
            forall|k: int| 0 <= k < bits@.len() * 8 ==> #[trigger] spec_stream_bit(bits@, k) == (k < i * bits_per_value
                && spec_packed_bit(values@, bits_per_value as int, k)),
        decreases len - i,
    {
        let value = values[i];
        if value > mask {
            return Err(ZebinError::SerializationError { pos: i, message: "Value exceeds packed bit capacity" });
        }
        proof {
            assert(i * bits_per_value + bits_per_value <= len * bits_per_value) by (nonlinear_arith)
                requires
                    i < len,
            ;
            if bits_per_value < 8 {
                lemma_mask_iff(value, bpv);
            }
        }
        let bit_offset = i * bits_per_value;
        let byte_idx = bit_offset / 8;
        let bit_shift = bit_offset % 8;
        let ghost old_bits = bits@;
        let b0 = bits[byte_idx] | (value << (bit_shift as u8));
        bits.set(byte_idx, b0);
        if bit_shift + bits_per_value > 8 {
            let b1 = bits[byte_idx + 1] | (value >> ((8 - bit_shift) as u8));
            bits.set(byte_idx + 1, b1);
        }
        proof {
            let n = bits_per_value as int;
            let off = bit_offset as int;
            assert forall|j: int| off <= j < old_bits.len() * 8 implies !#[trigger] spec_stream_bit(old_bits, j) by {}
            assert forall|k: int| 0 <= k < bits@.len() * 8 implies #[trigger] spec_stream_bit(bits@, k) == (k < (i + 1)
                * bits_per_value && spec_packed_bit(values@, n, k)) by {
                lemma_pack_value_bit(old_bits, bits@, off, n, value, k);
                assert((i + 1) * bits_per_value == off + n) by (nonlinear_arith)
                    requires
                        off == i * bits_per_value,
                        n == bits_per_value,
                ;
                if off <= k < off + n {
                    vstd::arithmetic::div_mod::lemma_fundamental_div_mod_converse(k, n, i as int, k - off);
                    assert(k < len * n) by (nonlinear_arith)
                        requires
                            k < off + n,
                            off + n <= len * n,
                    ;
                }
            }
        }
        i = i + 1;
    }
    proof {
        assert forall|k: int| 0 <= k < bits@.len() * 8 implies #[trigger] spec_stream_bit(bits@, k) == spec_packed_bit(
            values@,
            bits_per_value as int,
            k,
        ) by {
            assert(spec_stream_bit(bits@, k) == (k < i * bits_per_value && spec_packed_bit(
                values@,
                bits_per_value as int,
                k,
            )));
        }
    }
    Ok(bits)
}

} // verus!


