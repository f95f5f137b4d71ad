use vstd::prelude::*;
use vstd::bytes::*;
use crate::error::ZebinError;
use crate::schema::{FIELD_ENTRY_SIZE, FieldEncoding, FieldEntry, field_entry_bytes, schema_header_bytes};
use crate::sink::{CursorMut, Poll, flush_bytes, is_full, room};

verus! {

/// Size in bytes of an enum variant tag.
pub const ENUM_TAG_SIZE: usize = 4;

/// Metadata bytes of a schema-aware record: 12 header bytes, one field entry per field,
/// then a 4-byte table offset and a 4-byte total length.
pub open spec fn spec_schema_overhead(field_count: int) -> int {
    12 + field_count * FIELD_ENTRY_SIZE + 4 + 4
}

/// Serialized size of a packed boolean sequence: a 4-byte length and one bit per value.
pub open spec fn spec_packed_bool_len(len: int) -> int {
    4 + (len + 7) / 8
}

/// Serialized size of `len` packed values of `bits` bits each: a 4-byte length and the bits.
pub open spec fn spec_packed_u8_len(len: int, bits: int) -> int {
    4 + (len * bits + 7) / 8
}

/// Metadata overhead of a schema-aware record with `field_count` fields.
pub fn schema_overhead(field_count: usize) -> (r: usize)
    requires
        spec_schema_overhead(field_count as int) <= usize::MAX,
    ensures
        r == spec_schema_overhead(field_count as int),
{
    12 + field_count * FIELD_ENTRY_SIZE + 4 + 4
}

/// Serialized size of a packed boolean sequence of `len` values.
pub fn measure_packed_bool_len(len: usize) -> (r: usize)
    requires
        spec_packed_bool_len(len as int) <= usize::MAX,
    ensures
        r == spec_packed_bool_len(len as int),
{
    let bytes = len / 8 + if len % 8 == 0 { 0 } else { 1 };
    4 + bytes
}

/// Serialized size of `len` packed values of `bits` bits each, or an overflow error.
pub fn measure_packed_u8_len(len: usize, bits: u8) -> (r: Result<usize, ZebinError>)
    ensures
        len * bits > usize::MAX ==> r == Err::<usize, ZebinError>(ZebinError::ArithmeticOverflow { pos: 0 }),
        len * bits <= usize::MAX && spec_packed_u8_len(len as int, bits as int) <= usize::MAX ==> r
            == Ok::<usize, ZebinError>(spec_packed_u8_len(len as int, bits as int) as usize),
        len * bits <= usize::MAX && spec_packed_u8_len(len as int, bits as int) > usize::MAX ==> r
            == Err::<usize, ZebinError>(ZebinError::ArithmeticOverflow { pos: 0 }),
{
    let bits_total = match len.checked_mul(bits as usize) {
        Some(b) => b,
        None => {
            return Err(ZebinError::ArithmeticOverflow { pos: 0 });
        },
    };
    let bytes = bits_total / 8 + if bits_total % 8 == 0 { 0 } else { 1 };
    match 4usize.checked_add(bytes) {
        Some(total) => Ok(total),
        None => Err(ZebinError::ArithmeticOverflow { pos: 0 }),
    }
}

/// Adds a measured length to a running total, failing on overflow.
pub fn add_measured_len(total: &mut usize, len: usize) -> (r: Result<(), ZebinError>)
    ensures
        *old(total) + len <= usize::MAX ==> r == Ok::<(), ZebinError>(()) && *final(total) == *old(total) + len,
        *old(total) + len > usize::MAX ==> r == Err::<(), ZebinError>(ZebinError::ArithmeticOverflow { pos: 0 })
            && *final(total) == *old(total),
{
    match total.checked_add(len) {
        Some(t) => {
            *total = t;
            Ok(())
        },
        None => Err(ZebinError::ArithmeticOverflow { pos: 0 }),
    }
}

/// Resumable writer of one field entry.
#[derive(Debug, Clone)]
pub struct FieldEntryEncoder {
    cursor: usize,
}

impl FieldEntryEncoder {
    /// How many bytes of the entry have been sent.
    pub closed spec fn sent(&self) -> nat {
        self.cursor as nat
    }

    pub fn new() -> (e: FieldEntryEncoder)
        ensures
            e.sent() == 0,
    {
        FieldEntryEncoder { cursor: 0 }
    }

    /// Sends more of the entry for `field_id`, `encoding` and `payload_len`.
    pub fn poll_write<S: CursorMut>(
        &mut self,
        sink: &mut S,
        field_id: u16,
        encoding: FieldEncoding,
        payload_len: u32,
    ) -> (r: Result<Poll, ZebinError>)
        requires
            old(sink).inv(),
            old(self).sent() <= FIELD_ENTRY_SIZE,
        ensures
            final(sink).inv(),
            final(sink).limit() == old(sink).limit(),
            r == Ok::<Poll, ZebinError>(Poll::Pending) ==> is_full(*final(sink)),
            ({
                let bytes = field_entry_bytes(FieldEntry { field_id, encoding, payload_len });
                &&& old(self).sent() <= final(self).sent() <= FIELD_ENTRY_SIZE
                &&& final(sink).written() == old(sink).written() + bytes.subrange(
                    old(self).sent() as int,
                    final(self).sent() as int,
                )
                &&& r matches Ok(p) ==> (p == Poll::Ready <==> final(self).sent() == FIELD_ENTRY_SIZE)
            }),
            r is Err ==> FIELD_ENTRY_SIZE - old(self).sent() > room(*old(sink)) && !S::never_refuses(),
    {
        proof {
            crate::schema::lemma_field_entry_roundtrip(FieldEntry { field_id, encoding, payload_len }, 0);
        }
        if self.cursor < FIELD_ENTRY_SIZE {
            let entry = FieldEntry { field_id, encoding, payload_len };
            let bytes = entry.to_bytes();
            let p = flush_bytes(sink, bytes.as_slice(), &mut self.cursor)?;
            if p.is_pending() {
                return Ok(Poll::Pending);
            }
        }
        proof {
            let bytes = field_entry_bytes(FieldEntry { field_id, encoding, payload_len });
            assert(bytes.subrange(self.cursor as int, self.cursor as int) =~= Seq::<u8>::empty());
            assert(old(sink).written() + Seq::<u8>::empty() =~= old(sink).written());
        }
        Ok(Poll::Ready)
    }
}

/// Resumable writer of a four-byte enum tag.
#[derive(Debug, Clone)]
pub struct TagEncoder {
    bytes: Vec<u8>,
    cursor: usize,
}

impl TagEncoder {
    /// The tag bytes.
    pub closed spec fn encoding(&self) -> Seq<u8> {
        self.bytes@
    }

    pub closed spec fn sent(&self) -> nat {
        self.cursor as nat
    }

    pub closed spec fn wf(&self) -> bool {
        self.bytes@.len() == ENUM_TAG_SIZE && self.cursor <= ENUM_TAG_SIZE
    }

    pub fn new() -> (e: TagEncoder)
        ensures
            e.wf(),
            e.encoding() == seq![0u8, 0u8, 0u8, 0u8],
            e.sent() == 0,
    {
        let mut bytes: Vec<u8> = Vec::new();
        bytes.push(0u8);
        bytes.push(0u8);
        bytes.push(0u8);
        bytes.push(0u8);
        proof {
            assert(bytes@ =~= seq![0u8, 0u8, 0u8, 0u8]);
        }
        TagEncoder { bytes, cursor: 0 }
    }

    /// Loads `tag` to be written.
    pub fn input(&mut self, tag: u32)
        ensures
            final(self).wf(),
            final(self).encoding() == spec_u32_to_le_bytes(tag),
            final(self).sent() == 0,
    {
        proof {
            lemma_auto_spec_u32_to_from_le_bytes();
            assert(spec_u32_to_le_bytes(tag).len() == 4);
        }
        self.bytes = u32_to_le_bytes(tag);
        self.cursor = 0;
    }

    /// Sends more of the tag.
    pub fn poll_write<S: CursorMut>(&mut self, sink: &mut S) -> (r: Result<Poll, ZebinError>)
        requires
            old(sink).inv(),
            old(self).wf(),
        ensures
            final(sink).inv(),
            final(sink).limit() == old(sink).limit(),
            r == Ok::<Poll, ZebinError>(Poll::Pending) ==> is_full(*final(sink)),
            final(self).wf(),
            final(self).encoding() == old(self).encoding(),
            old(self).sent() <= final(self).sent(),
            final(sink).written() == old(sink).written() + old(self).encoding().subrange(
                old(self).sent() as int,
                final(self).sent() as int,
            ),
            r matches Ok(p) ==> (p == Poll::Ready <==> final(self).sent() == ENUM_TAG_SIZE),
            r is Err ==> old(self).encoding().len() - old(self).sent() > room(*old(sink)) && !S::never_refuses(),
    {
        if self.cursor < 4 {
            let p = flush_bytes(sink, self.bytes.as_slice(), &mut self.cursor)?;
            if p.is_pending() {
                return Ok(Poll::Pending);
            }
        }
        proof {
            assert(self.bytes@.subrange(self.cursor as int, self.cursor as int) =~= Seq::<u8>::empty());
            assert(old(sink).written() + Seq::<u8>::empty() =~= old(sink).written());
        }
        Ok(Poll::Ready)
    }
}

/// Resumable writer of the header and footer of a schema-aware object.
#[derive(Debug, Clone)]
pub struct SchemaObjectEncoder {
    header_cursor: usize,
    object_start: usize,
    table_start: usize,
    table_offset_cursor: usize,
    object_len_cursor: usize,
}

/// Footer value written for the object length once `cursor` of its bytes are out and
/// the sink is at `pos`.
pub open spec fn spec_object_len(pos: int, object_start: int, cursor: int) -> u32 {
    (pos - object_start + 4 - cursor) as u32
}

impl SchemaObjectEncoder {
    pub closed spec fn header_sent(&self) -> nat {
        self.header_cursor as nat
    }

    pub closed spec fn object_start(&self) -> int {
        self.object_start as int
    }

    pub closed spec fn table_start(&self) -> int {
        self.table_start as int
    }

    pub closed spec fn offset_sent(&self) -> nat {
        self.table_offset_cursor as nat
    }

    pub closed spec fn len_sent(&self) -> nat {
        self.object_len_cursor as nat
    }

    pub fn new() -> (e: SchemaObjectEncoder)
        ensures
            e.header_sent() == 0,
            e.object_start() == 0,
            e.table_start() == 0,
            e.offset_sent() == 0,
            e.len_sent() == 0,
    {
        SchemaObjectEncoder {
            header_cursor: 0,
            object_start: 0,
            table_start: 0,
            table_offset_cursor: 0,
            object_len_cursor: 0,
        }
    }

    /// Sends more of the object header; the object starts where the header's first byte goes.
    pub fn poll_write_header<S: CursorMut>(
        &mut self,
        sink: &mut S,
        stable_schema_key: u32,
        schema_revision: u32,
        field_count: u16,
    ) -> (r: Result<Poll, ZebinError>)
        requires
            old(sink).inv(),
            old(self).header_sent() <= 12,
        ensures
            final(sink).inv(),
            final(sink).limit() == old(sink).limit(),
            r == Ok::<Poll, ZebinError>(Poll::Pending) ==> is_full(*final(sink)),
            ({
                let bytes = schema_header_bytes(stable_schema_key, schema_revision, field_count);
                &&& old(self).header_sent() <= final(self).header_sent() <= 12
                &&& final(sink).written() == old(sink).written() + bytes.subrange(
                    old(self).header_sent() as int,
                    final(self).header_sent() as int,
                )
                &&& r matches Ok(p) ==> (p == Poll::Ready <==> final(self).header_sent() == 12)
            }),
            old(self).header_sent() == 0 ==> final(self).object_start() == old(sink).spec_pos(),
            old(self).header_sent() != 0 ==> final(self).object_start() == old(self).object_start(),
            final(self).table_start() == old(self).table_start(),
            final(self).offset_sent() == old(self).offset_sent(),
            final(self).len_sent() == old(self).len_sent(),
            r is Err ==> 12 - old(self).header_sent() > room(*old(sink)) && !S::never_refuses(),
    {
        proof {
            crate::schema::lemma_schema_header_roundtrip(stable_schema_key, schema_revision, field_count, 0);
        }
        if self.header_cursor == 0 {
            self.object_start = sink.pos();
        }
        if self.header_cursor < 12 {
            let mut header = u32_to_le_bytes(stable_schema_key);
            let mut rev = u32_to_le_bytes(schema_revision);
            let mut count = u16_to_le_bytes(field_count);
            let mut reserved = u16_to_le_bytes(0u16);
            header.append(&mut rev);
            header.append(&mut count);
            header.append(&mut reserved);
            proof {
                lemma_auto_spec_u32_to_from_le_bytes();
                lemma_auto_spec_u16_to_from_le_bytes();
                assert(spec_u32_to_le_bytes(stable_schema_key).len() == 4);
                assert(spec_u32_to_le_bytes(schema_revision).len() == 4);
                assert(spec_u16_to_le_bytes(field_count).len() == 2);
                assert(spec_u16_to_le_bytes(0).len() == 2);
                assert(header@ =~= schema_header_bytes(stable_schema_key, schema_revision, field_count));
            }
            let p = flush_bytes(sink, header.as_slice(), &mut self.header_cursor)?;
            if p.is_pending() {
                return Ok(Poll::Pending);
            }
        }
        proof {
            let bytes = schema_header_bytes(stable_schema_key, schema_revision, field_count);
            assert(bytes.subrange(self.header_cursor as int, self.header_cursor as int) =~= Seq::<u8>::empty());
            assert(old(sink).written() + Seq::<u8>::empty() =~= old(sink).written());
        }
        Ok(Poll::Ready)
    }

    /// Records where the field table starts, the first time only.
    pub fn mark_table_start<S: CursorMut>(&mut self, sink: &mut S)
        requires
            old(sink).inv(),
        ensures
            *final(sink) == *old(sink),
            old(self).table_start() == 0 ==> final(self).table_start() == old(sink).spec_pos(),
            old(self).table_start() != 0 ==> final(self).table_start() == old(self).table_start(),
            final(self).header_sent() == old(self).header_sent(),
            final(self).object_start() == old(self).object_start(),
            final(self).offset_sent() == old(self).offset_sent(),
            final(self).len_sent() == old(self).len_sent(),
    {
        if self.table_start == 0 {
            self.table_start = sink.pos();
        }
    }

    /// Sends more of the footer: the table offset relative to the object start, then the
    /// total object length including the footer.
    pub fn poll_write_footer<S: CursorMut>(&mut self, sink: &mut S) -> (r: Result<Poll, ZebinError>)
        requires
            old(sink).inv(),
            old(self).table_start() >= old(self).object_start(),
            old(self).offset_sent() <= 4,
            old(self).len_sent() <= 4,
            old(self).len_sent() > 0 ==> old(self).offset_sent() == 4,
            old(self).object_start() <= old(sink).spec_pos(),
            old(sink).spec_pos() + 8 <= usize::MAX,
        ensures
            final(sink).inv(),
            final(sink).limit() == old(sink).limit(),
            r == Ok::<Poll, ZebinError>(Poll::Pending) ==> is_full(*final(sink)),
            final(self).object_start() == old(self).object_start(),
            final(self).table_start() == old(self).table_start(),
            final(self).header_sent() == old(self).header_sent(),
            old(self).offset_sent() <= final(self).offset_sent() <= 4,
            final(self).len_sent() <= 4,
            final(self).len_sent() > 0 ==> final(self).offset_sent() == 4,
            r matches Ok(p) ==> (p == Poll::Ready <==> final(self).offset_sent() == 4 && final(self).len_sent() == 4),
            ({
                let offset = spec_u32_to_le_bytes((old(self).table_start() - old(self).object_start()) as u32);
                let offset_part = offset.subrange(old(self).offset_sent() as int, final(self).offset_sent() as int);
                let len_pos = old(sink).spec_pos() + offset_part.len();
                let len_bytes = spec_u32_to_le_bytes(
                    spec_object_len(len_pos, old(self).object_start(), old(self).len_sent() as int),
                );
                final(sink).written() == old(sink).written() + offset_part + len_bytes.subrange(
                    old(self).len_sent() as int,
                    final(self).len_sent() as int,
                )
            }),
            r is Err ==> (4 - old(self).offset_sent()) + (4 - old(self).len_sent()) > room(*old(sink)) && !S::never_refuses(),
    {
        proof {
            lemma_auto_spec_u32_to_from_le_bytes();
        }
        let ghost w0 = sink.written();
        let ghost p0 = sink.spec_pos();
        let ghost off0 = self.table_offset_cursor;
        if self.table_offset_cursor < 4 {
            let offset_val = (self.table_start - self.object_start) as u32;
            let offset_bytes = u32_to_le_bytes(offset_val);
            proof {
                assert(spec_u32_to_le_bytes(offset_val).len() == 4);
            }
            let p = flush_bytes(sink, offset_bytes.as_slice(), &mut self.table_offset_cursor)?;
            if p.is_pending() {
                proof {
                    let len_bytes = spec_u32_to_le_bytes(
                        spec_object_len(sink.spec_pos(), self.object_start as int, self.object_len_cursor as int),
                    );
                    assert(len_bytes.subrange(self.object_len_cursor as int, self.object_len_cursor as int)
                        =~= Seq::<u8>::empty());
                    assert(sink.written() =~= w0 + offset_bytes@.subrange(off0 as int, self.table_offset_cursor as int)
                        + Seq::<u8>::empty());
                }
                return Ok(Poll::Pending);
            }
        }
        let ghost w1 = sink.written();
        proof {
            let offset = spec_u32_to_le_bytes((self.table_start - self.object_start) as u32);
            assert(w1 =~= w0 + offset.subrange(off0 as int, self.table_offset_cursor as int));
            assert(sink.spec_pos() == p0 + (self.table_offset_cursor - off0));
        }
        if self.object_len_cursor < 4 {
            let total_len = (sink.pos() - self.object_start + 4 - self.object_len_cursor) as u32;
            let len_bytes = u32_to_le_bytes(total_len);
            proof {
                assert(spec_u32_to_le_bytes(total_len).len() == 4);
            }
            let p = flush_bytes(sink, len_bytes.as_slice(), &mut self.object_len_cursor)?;
            if p.is_pending() {
                return Ok(Poll::Pending);
            }
        }
        proof {
            let len_bytes = spec_u32_to_le_bytes(
                spec_object_len(sink.spec_pos(), self.object_start as int, self.object_len_cursor as int),
            );
            assert(len_bytes.subrange(self.object_len_cursor as int, self.object_len_cursor as int)
                =~= Seq::<u8>::empty());
            assert(w1 + Seq::<u8>::empty() =~= w1);
        }
        Ok(Poll::Ready)
    }
}

} // verus!
