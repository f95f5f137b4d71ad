use vstd::prelude::*;
use vstd::bytes::*;
use vstd::slice::slice_subrange;
use crate::cursor::{Cursor, range_error};
use crate::error::DecodeError;

verus! {

broadcast use vstd::slice::group_slice_axioms;

/// Stable identifier used to refer to a schema across archive revisions.
pub type StableSchemaKey = u32;

/// Monotonic schema revision for a stable schema key.
pub type SchemaRevision = u32;

/// Object-level encoding family stored in the archive header flags.
#[derive(Debug, Clone, Copy, PartialEq, Eq, Hash, Structural)]
pub enum ObjectEncoding {
    Fixed,
    SchemaAware,
    VarInt,
    Packed,
    Sequence,
}

/// The byte that stands for each object encoding.
pub open spec fn object_encoding_byte(e: ObjectEncoding) -> u8 {
    match e {
        ObjectEncoding::Fixed => 0,
        ObjectEncoding::SchemaAware => 1,
        ObjectEncoding::VarInt => 2,
        ObjectEncoding::Packed => 3,
        ObjectEncoding::Sequence => 4,
    }
}

/// The object encoding a byte stands for, if any.
pub open spec fn object_encoding_of(byte: u8) -> Option<ObjectEncoding> {
    if byte == 0 {
        Some(ObjectEncoding::Fixed)
    } else if byte == 1 {
        Some(ObjectEncoding::SchemaAware)
    } else if byte == 2 {
        Some(ObjectEncoding::VarInt)
    } else if byte == 3 {
        Some(ObjectEncoding::Packed)
    } else if byte == 4 {
        Some(ObjectEncoding::Sequence)
    } else {
        None
    }
}

impl ObjectEncoding {
    pub fn from_byte(byte: u8) -> (r: Option<ObjectEncoding>)
        ensures
            r == object_encoding_of(byte),
    {
        match byte {
            0 => Some(ObjectEncoding::Fixed),
            1 => Some(ObjectEncoding::SchemaAware),
            2 => Some(ObjectEncoding::VarInt),
            3 => Some(ObjectEncoding::Packed),
            4 => Some(ObjectEncoding::Sequence),
            _ => None,
        }
    }

    pub fn to_byte(self) -> (r: u8)
        ensures
            r == object_encoding_byte(self),
    {
        match self {
            ObjectEncoding::Fixed => 0,
            ObjectEncoding::SchemaAware => 1,
            ObjectEncoding::VarInt => 2,
            ObjectEncoding::Packed => 3,
            ObjectEncoding::Sequence => 4,
        }
    }

    /// The default object encoding.
    pub fn default_encoding() -> (r: ObjectEncoding)
        ensures
            r == ObjectEncoding::Fixed,
    {
        ObjectEncoding::Fixed
    }
}

/// Field-level encoding family stored in schema-aware object field entries.
#[derive(Debug, Clone, Copy, PartialEq, Eq, Hash, Structural)]
pub enum FieldEncoding {
    Fixed,
    VarInt,
    PackedBits,
    LengthPrefixed,
    SchemaAware,
}

/// The byte that stands for each field encoding.
pub open spec fn field_encoding_byte(e: FieldEncoding) -> u8 {
    match e {
        FieldEncoding::Fixed => 0,
        FieldEncoding::VarInt => 1,
        FieldEncoding::PackedBits => 2,
        FieldEncoding::LengthPrefixed => 3,
        FieldEncoding::SchemaAware => 4,
    }
}

/// The field encoding a byte stands for, if any.
pub open spec fn field_encoding_of(byte: u8) -> Option<FieldEncoding> {
    if byte == 0 {
        Some(FieldEncoding::Fixed)
    } else if byte == 1 {
        Some(FieldEncoding::VarInt)
    } else if byte == 2 {
        Some(FieldEncoding::PackedBits)
    } else if byte == 3 {
        Some(FieldEncoding::LengthPrefixed)
    } else if byte == 4 {
        Some(FieldEncoding::SchemaAware)
    } else {
        None
    }
}

impl FieldEncoding {
    pub fn from_byte(byte: u8) -> (r: Option<FieldEncoding>)
        ensures
            r == field_encoding_of(byte),
    {
        match byte {
            0 => Some(FieldEncoding::Fixed),
            1 => Some(FieldEncoding::VarInt),
            2 => Some(FieldEncoding::PackedBits),
            3 => Some(FieldEncoding::LengthPrefixed),
            4 => Some(FieldEncoding::SchemaAware),
            _ => None,
        }
    }

    pub fn to_byte(self) -> (r: u8)
        ensures
            r == field_encoding_byte(self),
    {
        match self {
            FieldEncoding::Fixed => 0,
            FieldEncoding::VarInt => 1,
            FieldEncoding::PackedBits => 2,
            FieldEncoding::LengthPrefixed => 3,
            FieldEncoding::SchemaAware => 4,
        }
    }
}

/// Size in bytes of one encoded field entry.
pub const FIELD_ENTRY_SIZE: usize = 8;

/// Value of the reserved byte inside a field entry.
pub const FIELD_ENTRY_RESERVED: u8 = 0;

/// Upper bound on the number of fields of a schema-aware object.
pub const MAX_SCHEMA_FIELDS: usize = 128;

/// One self-describing field entry inside a schema-aware object.
#[derive(Debug, Clone, Copy, PartialEq, Eq, Hash)]
pub struct FieldEntry {
    pub field_id: u16,
    pub encoding: FieldEncoding,
    pub payload_len: u32,
}

/// Wire layout of a field entry: `field_id: u16 LE`, `encoding: u8`, `reserved: u8`,
/// `payload_len: u32 LE`.
pub open spec fn field_entry_bytes(e: FieldEntry) -> Seq<u8> {
    spec_u16_to_le_bytes(e.field_id) + seq![field_encoding_byte(e.encoding), FIELD_ENTRY_RESERVED]
        + spec_u32_to_le_bytes(e.payload_len)
}

/// What decoding the eight bytes `b` of a field entry found at `pos` gives.
pub open spec fn spec_parse_field_entry(b: Seq<u8>, pos: int) -> Result<FieldEntry, DecodeError> {
    match field_encoding_of(b[2]) {
        None => Err(DecodeError::ValidationError { message: "Unknown field encoding", pos: (pos + 2) as usize }),
        Some(encoding) => if b[3] != FIELD_ENTRY_RESERVED {
            Err(DecodeError::InvalidFieldTable { pos: (pos + 3) as usize })
        } else {
            Ok(
                FieldEntry {
                    field_id: spec_u16_from_le_bytes(b.subrange(0, 2)),
                    encoding: encoding,
                    payload_len: spec_u32_from_le_bytes(b.subrange(4, 8)),
                },
            )
        },
    }
}

/// What reading a field entry at `pos` of `data` gives.
pub open spec fn spec_read_field_entry(data: Seq<u8>, pos: int) -> Result<FieldEntry, DecodeError> {
    if pos + FIELD_ENTRY_SIZE > data.len() {
        Err(range_error(pos as usize, FIELD_ENTRY_SIZE))
    } else {
        spec_parse_field_entry(data.subrange(pos, pos + FIELD_ENTRY_SIZE), pos)
    }
}

impl FieldEntry {
    /// The all-zero entry.
    pub fn empty() -> (e: FieldEntry)
        ensures
            e == (FieldEntry { field_id: 0, encoding: FieldEncoding::Fixed, payload_len: 0 }),
    {
        FieldEntry { field_id: 0, encoding: FieldEncoding::Fixed, payload_len: 0 }
    }

    /// Encodes the entry.
    pub fn to_bytes(&self) -> (r: Vec<u8>)
        ensures
            r@ == field_entry_bytes(*self),
    {
        let mut bytes = u16_to_le_bytes(self.field_id);
        bytes.push(self.encoding.to_byte());
        bytes.push(FIELD_ENTRY_RESERVED);
        let mut len = u32_to_le_bytes(self.payload_len);
        bytes.append(&mut len);
        bytes
    }

    /// Reads and checks one field entry at the cursor.
    pub fn access(cursor: &mut Cursor) -> (r: Result<FieldEntry, DecodeError>)
        ensures
            final(cursor).data() == old(cursor).data(),
            r == spec_read_field_entry(old(cursor).data(), old(cursor).at()),
            r is Ok ==> final(cursor).at() == old(cursor).at() + FIELD_ENTRY_SIZE,
    {
        let entry_pos = cursor.pos();
        proof { cursor.lemma_len_bound(); }
        let bytes = cursor.read_exact(FIELD_ENTRY_SIZE)?;
        let field_id = u16_from_le_bytes(slice_subrange(bytes, 0, 2));
        let encoding_byte = bytes[2];
        let reserved = bytes[3];
        let payload_len = u32_from_le_bytes(slice_subrange(bytes, 4, 8));
        let encoding = match FieldEncoding::from_byte(encoding_byte) {
            Some(e) => e,
            None => {
                return Err(DecodeError::ValidationError { message: "Unknown field encoding", pos: entry_pos + 2 });
            },
        };
        if reserved != FIELD_ENTRY_RESERVED {
            return Err(DecodeError::InvalidFieldTable { pos: entry_pos + 3 });
        }
        Ok(FieldEntry { field_id, encoding, payload_len })
    }

    /// Checks that the entry has the expected encoding and has not been seen before.
    pub fn check_decodable(
        &self,
        entry_pos: usize,
        expected_encoding: FieldEncoding,
        already_seen: bool,
    ) -> (r: Result<(), DecodeError>)
        ensures
            r == (if self.encoding != expected_encoding {
                Err(
                    DecodeError::UnexpectedFieldEncoding {
                        field_id: self.field_id,
                        expected: expected_encoding,
                        actual: self.encoding,
                        pos: entry_pos,
                    },
                )
            } else if already_seen {
                Err(DecodeError::DuplicateField { field_id: self.field_id, pos: entry_pos })
            } else {
                Ok(())
            }),
    {
        if self.encoding != expected_encoding {
            return Err(
                DecodeError::UnexpectedFieldEncoding {
                    field_id: self.field_id,
                    expected: expected_encoding,
                    actual: self.encoding,
                    pos: entry_pos,
                },
            );
        }
        if already_seen {
            return Err(DecodeError::DuplicateField { field_id: self.field_id, pos: entry_pos });
        }
        Ok(())
    }

    /// Checks that decoding the payload consumed exactly the announced length.
    pub fn check_payload_len(&self, entry_pos: usize, consumed: usize) -> (r: Result<(), DecodeError>)
        ensures
            r == (if consumed != self.payload_len {
                Err(
                    DecodeError::FieldLengthMismatch {
                        field_id: self.field_id,
                        expected: self.payload_len as usize,
                        actual: consumed,
                        pos: entry_pos,
                    },
                )
            } else {
                Ok(())
            }),
    {
        if consumed != self.payload_len as usize {
            return Err(
                DecodeError::FieldLengthMismatch {
                    field_id: self.field_id,
                    expected: self.payload_len as usize,
                    actual: consumed,
                    pos: entry_pos,
                },
            );
        }
        Ok(())
    }
}

/// A field entry that decodes gives back the entry that was encoded.
pub proof fn lemma_field_entry_roundtrip(e: FieldEntry, pos: int)
    ensures
        field_entry_bytes(e).len() == FIELD_ENTRY_SIZE,
        spec_parse_field_entry(field_entry_bytes(e), pos) == Ok::<FieldEntry, DecodeError>(e),
{
    lemma_auto_spec_u16_to_from_le_bytes();
    lemma_auto_spec_u32_to_from_le_bytes();
    let b = field_entry_bytes(e);
    assert(b.subrange(0, 2) =~= spec_u16_to_le_bytes(e.field_id));
    assert(b.subrange(4, 8) =~= spec_u32_to_le_bytes(e.payload_len));
    lemma_field_encoding_roundtrip(e.encoding, 0);
}

/// Common header for schema-aware objects.
#[derive(Debug, Clone, Copy, PartialEq, Eq, Hash)]
pub struct SchemaObjectHeader {
    pub stable_schema_key: StableSchemaKey,
    pub schema_revision: SchemaRevision,
    pub field_count: u16,
}

/// Wire layout of a schema object header: key, revision, field count, reserved zero.
pub open spec fn schema_header_bytes(key: u32, revision: u32, field_count: u16) -> Seq<u8> {
    spec_u32_to_le_bytes(key) + spec_u32_to_le_bytes(revision) + spec_u16_to_le_bytes(field_count)
        + spec_u16_to_le_bytes(0)
}

/// What checking the twelve header bytes `b`, found at `pos`, against `expected_key` gives.
pub open spec fn spec_parse_schema_header(b: Seq<u8>, pos: int, expected_key: u32) -> Result<
    SchemaObjectHeader,
    DecodeError,
> {
    let key = spec_u32_from_le_bytes(b.subrange(0, 4));
    let revision = spec_u32_from_le_bytes(b.subrange(4, 8));
    let field_count = spec_u16_from_le_bytes(b.subrange(8, 10));
    let reserved = spec_u16_from_le_bytes(b.subrange(10, 12));
    if key != expected_key {
        Err(DecodeError::ValidationError { message: "Stable schema key mismatch", pos: pos as usize })
    } else if reserved != 0 {
        Err(DecodeError::InvalidFieldTable { pos: (pos + 10) as usize })
    } else if field_count > MAX_SCHEMA_FIELDS {
        Err(DecodeError::InvalidFieldTable { pos: pos as usize })
    } else {
        Ok(SchemaObjectHeader { stable_schema_key: key, schema_revision: revision, field_count })
    }
}

impl SchemaObjectHeader {
    /// Reads a schema object header at the cursor and checks its key and bounds.
    pub fn access_and_verify(cursor: &mut Cursor, expected_key: StableSchemaKey) -> (r: Result<
        SchemaObjectHeader,
        DecodeError,
    >)
        ensures
            final(cursor).data() == old(cursor).data(),
            !old(cursor).fits(12) ==> r == Err::<SchemaObjectHeader, DecodeError>(
                range_error(old(cursor).at() as usize, 12),
            ),
            old(cursor).fits(12) ==> r == spec_parse_schema_header(
                old(cursor).data().subrange(old(cursor).at(), old(cursor).at() + 12),
                old(cursor).at(),
                expected_key,
            ),
            r is Ok ==> final(cursor).at() == old(cursor).at() + 12,
    {
        let object_start = cursor.pos();
        proof { cursor.lemma_len_bound(); }
        let bytes = cursor.read_exact(12)?;
        let stable_schema_key = u32_from_le_bytes(slice_subrange(bytes, 0, 4));
        if stable_schema_key != expected_key {
            return Err(DecodeError::ValidationError { message: "Stable schema key mismatch", pos: object_start });
        }
        let schema_revision = u32_from_le_bytes(slice_subrange(bytes, 4, 8));
        let field_count = u16_from_le_bytes(slice_subrange(bytes, 8, 10));
        let reserved = u16_from_le_bytes(slice_subrange(bytes, 10, 12));
        if reserved != 0 {
            return Err(DecodeError::InvalidFieldTable { pos: object_start + 10 });
        }
        if field_count as usize > MAX_SCHEMA_FIELDS {
            return Err(DecodeError::InvalidFieldTable { pos: object_start });
        }
        Ok(SchemaObjectHeader { stable_schema_key, schema_revision, field_count })
    }
}

/// A schema header written for a key is accepted for that key exactly when its field
/// count is within the limit.
pub proof fn lemma_schema_header_roundtrip(key: u32, revision: u32, field_count: u16, pos: int)
    ensures
        schema_header_bytes(key, revision, field_count).len() == 12,
        field_count <= MAX_SCHEMA_FIELDS ==> spec_parse_schema_header(
            schema_header_bytes(key, revision, field_count),
            pos,
            key,
        ) == Ok::<SchemaObjectHeader, DecodeError>(
            SchemaObjectHeader { stable_schema_key: key, schema_revision: revision, field_count },
        ),
        field_count > MAX_SCHEMA_FIELDS ==> spec_parse_schema_header(
            schema_header_bytes(key, revision, field_count),
            pos,
            key,
        ) is Err,
{
    lemma_auto_spec_u16_to_from_le_bytes();
    lemma_auto_spec_u32_to_from_le_bytes();
    let b = schema_header_bytes(key, revision, field_count);
    assert(b.subrange(0, 4) =~= spec_u32_to_le_bytes(key));
    assert(b.subrange(4, 8) =~= spec_u32_to_le_bytes(revision));
    assert(b.subrange(8, 10) =~= spec_u16_to_le_bytes(field_count));
    assert(b.subrange(10, 12) =~= spec_u16_to_le_bytes(0));
}

/// One entry of a forward field table with the position of its payload.
#[derive(Debug, Clone, Copy, PartialEq, Eq)]
pub struct FieldSlot {
    pub entry: FieldEntry,
    pub entry_pos: usize,
    pub payload_pos: usize,
}

/// What walking `n` field entries starting at `entry_pos`, whose payloads start at
/// `payload_pos`, gives: each entry with the place of its payload, or the first error.
pub open spec fn spec_field_table(data: Seq<u8>, entry_pos: int, payload_pos: int, n: nat) -> Result<
    Seq<FieldSlot>,
    DecodeError,
>
    decreases n,
{
    if n == 0 {
        Ok(Seq::empty())
    } else {
        match spec_read_field_entry(data, entry_pos) {
            Err(e) => Err(e),
            Ok(entry) => if payload_pos + entry.payload_len > data.len() {
                Err(range_error(payload_pos as usize, entry.payload_len as usize))
            } else {
                match spec_field_table(
                    data,
                    entry_pos + FIELD_ENTRY_SIZE,
                    payload_pos + entry.payload_len,
                    (n - 1) as nat,
                ) {
                    Err(e) => Err(e),
                    Ok(rest) => Ok(
                        seq![
                            FieldSlot {
                                entry: entry,
                                entry_pos: entry_pos as usize,
                                payload_pos: payload_pos as usize,
                            },
                        ] + rest,
                    ),
                }
            },
        }
    }
}

/// Position just past the payload of the last slot, or `payload_pos` when there is none.
pub open spec fn slots_end(payload_pos: int, slots: Seq<FieldSlot>) -> int {
    if slots.len() == 0 {
        payload_pos
    } else {
        slots.last().payload_pos + slots.last().entry.payload_len
    }
}

proof fn lemma_field_table_step(data: Seq<u8>, entry_pos: int, payload_pos: int, n: nat)
    requires
        n > 0,
        spec_read_field_entry(data, entry_pos) is Ok,
        payload_pos + spec_read_field_entry(data, entry_pos)->Ok_0.payload_len <= data.len(),
    ensures
        ({
            let entry = spec_read_field_entry(data, entry_pos)->Ok_0;
            let slot = FieldSlot { entry: entry, entry_pos: entry_pos as usize, payload_pos: payload_pos as usize };
            let rest = spec_field_table(data, entry_pos + FIELD_ENTRY_SIZE, payload_pos + entry.payload_len, (n - 1) as nat);
            &&& rest is Ok ==> spec_field_table(data, entry_pos, payload_pos, n) == Ok::<Seq<FieldSlot>, DecodeError>(seq![slot] + rest->Ok_0)
            &&& rest is Err ==> spec_field_table(data, entry_pos, payload_pos, n) == rest
        }),
{
}

/// Walks a forward field table of `field_count` entries at the cursor.
///
/// Each entry is returned with its own position and the position of its payload;
/// payloads follow the table back to back. The cursor ends just past the last payload.
pub fn process_forward_field_table(cursor: &mut Cursor, field_count: usize) -> (r: Result<
    Vec<FieldSlot>,
    DecodeError,
>)
    requires
        old(cursor).at() + field_count * FIELD_ENTRY_SIZE <= usize::MAX,
    ensures
        final(cursor).data() == old(cursor).data(),
        field_count > MAX_SCHEMA_FIELDS ==> r == Err::<Vec<FieldSlot>, DecodeError>(
            DecodeError::ValidationError {
                message: "Field count exceeds maximum schema fields",
                pos: old(cursor).at() as usize,
            },
        ),
        field_count <= MAX_SCHEMA_FIELDS ==> ({
            let spec_r = spec_field_table(
                old(cursor).data(),
                old(cursor).at(),
                old(cursor).at() + field_count * FIELD_ENTRY_SIZE,
                field_count as nat,
            );
            &&& r is Ok <==> spec_r is Ok
            &&& r matches Ok(slots) ==> slots@ == spec_r->Ok_0 && final(cursor).at() == slots_end(
                old(cursor).at() + field_count * FIELD_ENTRY_SIZE,
                slots@,
            )
            &&& r matches Err(e) ==> spec_r == Err::<Seq<FieldSlot>, DecodeError>(e)
        }),
{
    let table_start = cursor.pos();
    let table_len = field_count * FIELD_ENTRY_SIZE;
    let payloads_start = table_start + table_len;
    if field_count > MAX_SCHEMA_FIELDS {
        return Err(
            DecodeError::ValidationError {
                message: "Field count exceeds maximum schema fields",
                pos: table_start,
            },
        );
    }
    let ghost data = cursor.data();
    let mut slots: Vec<FieldSlot> = Vec::new();
    let mut current_payload_pos = payloads_start;
    let mut i: usize = 0;
    while i < field_count
        invariant
            i <= field_count,
            field_count <= MAX_SCHEMA_FIELDS,
            cursor.data() == data,
            data == old(cursor).data(),
            table_start == old(cursor).at(),
            cursor.at() == table_start + i * FIELD_ENTRY_SIZE,
            table_start + field_count * FIELD_ENTRY_SIZE <= usize::MAX,
            payloads_start == table_start + field_count * FIELD_ENTRY_SIZE,
            spec_field_table(data, table_start as int, payloads_start as int, field_count as nat) == (
            match spec_field_table(data, cursor.at(), current_payload_pos as int, (field_count - i) as nat) {
                Ok(rest) => Ok::<Seq<FieldSlot>, DecodeError>(slots@ + rest),
                Err(e) => Err(e),
            }),
            slots_end(payloads_start as int, slots@) == current_payload_pos,
        decreases field_count - i,
    {
        let entry_pos = cursor.pos();
        proof { cursor.lemma_len_bound(); }
        let entry = match FieldEntry::access(cursor) {
            Ok(e) => e,
            Err(e) => {
                return Err(e);
            },
        };
        let payload_len = entry.payload_len as usize;
        match cursor.check_range(current_payload_pos, payload_len) {
            Ok(()) => {},
            Err(e) => {
                return Err(e);
            },
        }
        let ghost old_slots = slots@;
        let ghost old_payload = current_payload_pos;
        let ghost slot = FieldSlot { entry, entry_pos, payload_pos: current_payload_pos };
        proof {
            lemma_field_table_step(data, entry_pos as int, current_payload_pos as int, (field_count - i) as nat);
        }
        slots.push(FieldSlot { entry, entry_pos, payload_pos: current_payload_pos });
        current_payload_pos = current_payload_pos + payload_len;
        i = i + 1;
        proof {
            let rest = spec_field_table(data, cursor.at(), current_payload_pos as int, (field_count - i) as nat);
            if rest is Ok {
                assert(old_slots + (seq![slot] + rest->Ok_0) =~= slots@ + rest->Ok_0);
            }
        }
    }
    assert(slots@ + Seq::<FieldSlot>::empty() =~= slots@);
    let end = cursor.with_pos(current_payload_pos);
    *cursor = end;
    Ok(slots)
}

/// Every object encoding is recovered from its byte, and a byte names an encoding
/// exactly when it is below 5.
pub proof fn lemma_object_encoding_roundtrip(e: ObjectEncoding, byte: u8)
    ensures
        object_encoding_of(object_encoding_byte(e)) == Some(e),
        object_encoding_of(byte) is Some <==> byte < 5,
        object_encoding_of(byte) matches Some(d) ==> object_encoding_byte(d) == byte,
{
}

/// Every field encoding is recovered from its byte, and a byte names an encoding
/// exactly when it is below 5.
pub proof fn lemma_field_encoding_roundtrip(e: FieldEncoding, byte: u8)
    ensures
        field_encoding_of(field_encoding_byte(e)) == Some(e),
        field_encoding_of(byte) is Some <==> byte < 5,
        field_encoding_of(byte) matches Some(d) ==> field_encoding_byte(d) == byte,
{
}

} // verus!
