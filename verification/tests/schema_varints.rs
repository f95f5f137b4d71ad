use zebin::cursor::Cursor;
use zebin::error::DecodeError;
use zebin::schema::{FieldEncoding, FieldEntry, ObjectEncoding, SchemaObjectHeader};
use zebin::sink::{Poll, VecSerializer};
use zebin::varint_vec::{read_varints, ArchivedVarIntVec, OwnedVarIntVecSerializer, VarIntVec};

#[test]
fn field_entry_bytes_and_readback() {
    let e = FieldEntry { field_id: 0x0102, encoding: FieldEncoding::LengthPrefixed, payload_len: 5 };
    let bytes = e.to_bytes();
    assert_eq!(bytes, vec![2, 1, 3, 0, 5, 0, 0, 0]);
    let mut c = Cursor::new(&bytes, 0);
    assert_eq!(FieldEntry::access(&mut c), Ok(e));
    assert_eq!(c.pos(), 8);
    assert_eq!(
        FieldEntry::empty(),
        FieldEntry { field_id: 0, encoding: FieldEncoding::Fixed, payload_len: 0 }
    );
}

#[test]
fn field_entry_refusals() {
    let bad_encoding = [1u8, 0, 9, 0, 0, 0, 0, 0];
    assert_eq!(
        FieldEntry::access(&mut Cursor::new(&bad_encoding, 0)),
        Err(DecodeError::ValidationError { message: "Unknown field encoding", pos: 2 })
    );
    let bad_reserved = [1u8, 0, 1, 7, 0, 0, 0, 0];
    assert_eq!(FieldEntry::access(&mut Cursor::new(&bad_reserved, 0)), Err(DecodeError::InvalidFieldTable { pos: 3 }));
    let e = FieldEntry { field_id: 4, encoding: FieldEncoding::VarInt, payload_len: 3 };
    assert_eq!(e.check_decodable(10, FieldEncoding::VarInt, false), Ok(()));
    assert_eq!(
        e.check_decodable(10, FieldEncoding::Fixed, false),
        Err(DecodeError::UnexpectedFieldEncoding {
            field_id: 4,
            expected: FieldEncoding::Fixed,
            actual: FieldEncoding::VarInt,
            pos: 10
        })
    );
    assert_eq!(e.check_decodable(10, FieldEncoding::VarInt, true), Err(DecodeError::DuplicateField { field_id: 4, pos: 10 }));
    assert_eq!(e.check_payload_len(10, 3), Ok(()));
    assert_eq!(
        e.check_payload_len(10, 2),
        Err(DecodeError::FieldLengthMismatch { field_id: 4, expected: 3, actual: 2, pos: 10 })
    );
}

#[test]
fn schema_object_header_checks() {
    let mut bytes = Vec::new();
    bytes.extend_from_slice(&7u32.to_le_bytes());
    bytes.extend_from_slice(&2u32.to_le_bytes());
    bytes.extend_from_slice(&3u16.to_le_bytes());
    bytes.extend_from_slice(&0u16.to_le_bytes());
    let h = SchemaObjectHeader::access_and_verify(&mut Cursor::new(&bytes, 0), 7).unwrap();
    assert_eq!(h, SchemaObjectHeader { stable_schema_key: 7, schema_revision: 2, field_count: 3 });
    assert_eq!(
        SchemaObjectHeader::access_and_verify(&mut Cursor::new(&bytes, 0), 8),
        Err(DecodeError::ValidationError { message: "Stable schema key mismatch", pos: 0 })
    );
    let mut many = bytes.clone();
    many[8] = 200;
    assert_eq!(
        SchemaObjectHeader::access_and_verify(&mut Cursor::new(&many, 0), 7),
        Err(DecodeError::InvalidFieldTable { pos: 0 })
    );
}

#[test]
fn encoding_bytes() {
    assert_eq!(ObjectEncoding::from_byte(4), Some(ObjectEncoding::Sequence));
    assert_eq!(ObjectEncoding::from_byte(5), None);
    assert_eq!(ObjectEncoding::Packed.to_byte(), 3);
    assert_eq!(FieldEncoding::from_byte(2), Some(FieldEncoding::PackedBits));
    assert_eq!(FieldEncoding::SchemaAware.to_byte(), 4);
}

#[test]
fn varint_vector_roundtrip() {
    let mut sink = VecSerializer::new(0);
    let mut ser: OwnedVarIntVecSerializer<u64> = OwnedVarIntVecSerializer::new();
    assert_eq!(ser.input(VarIntVec::new(vec![1u64, 300, 0]), &mut sink), Ok(Poll::Ready));
    assert_eq!(ser.finish(&mut sink), Ok(Poll::Ready));
    let bytes = sink.into_inner();
    assert_eq!(bytes, vec![3, 0, 0, 0, 1, 0xAC, 0x02, 0]);

    let mut c = Cursor::new(&bytes, 0);
    let v = ArchivedVarIntVec::<u64>::access(&mut c).ok().unwrap();
    assert_eq!(c.pos(), 8);
    assert_eq!(v.len(), 3);
    assert!(!v.is_empty());
    assert_eq!(v.get(1), Some(300));
    assert_eq!(v.get(3), None);
    assert_eq!(v.iter(), vec![1u64, 300, 0]);

    let mut c2 = Cursor::new(&bytes, 4);
    assert_eq!(read_varints::<u16>(&mut c2, 2), Ok(vec![1u16, 300]));
    let mut c3 = Cursor::new(&bytes[..6], 4);
    assert!(read_varints::<u64>(&mut c3, 2).is_err());
}
