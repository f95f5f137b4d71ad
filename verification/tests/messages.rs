use zebin::error::{ArchiveError, DecodeError, ParseHeaderError, ZebinError};
use zebin::schema::{FieldEncoding, ObjectEncoding};

#[test]
fn header_error_messages() {
    assert_eq!(ParseHeaderError::TooShort { pos: 0 }.to_string(), "header too short at 0");
    assert_eq!(
        ParseHeaderError::UnsupportedVersion { version: 2, pos: 2 }.to_string(),
        "unsupported archive version 2 at 2"
    );
    assert_eq!(
        ParseHeaderError::InvalidObjectEncoding { flags: 255, pos: 11 }.to_string(),
        "invalid object encoding flag 255 at 11"
    );
}

#[test]
fn decode_error_messages() {
    assert_eq!(
        DecodeError::ValidationError { message: "Invalid sequence marker", pos: 1234567 }.to_string(),
        "validation error at 1234567: Invalid sequence marker"
    );
    assert_eq!(
        DecodeError::UnexpectedObjectEncoding {
            expected: ObjectEncoding::Fixed,
            actual: ObjectEncoding::Sequence,
            pos: 11
        }
        .to_string(),
        "object encoding mismatch at 11: expected Fixed, found Sequence"
    );
    assert_eq!(
        DecodeError::UnexpectedFieldEncoding {
            field_id: 3,
            expected: FieldEncoding::VarInt,
            actual: FieldEncoding::PackedBits,
            pos: 40
        }
        .to_string(),
        "field 3 encoding mismatch at 40: expected VarInt, found PackedBits"
    );
    assert_eq!(
        DecodeError::FieldLengthMismatch { field_id: 1, expected: 8, actual: 10, pos: 100 }.to_string(),
        "field 1 length mismatch at 100: expected 8, consumed 10"
    );
    assert_eq!(DecodeError::FieldOverflow { field: "len", pos: 9 }.to_string(), "len overflow at 9");
    assert_eq!(DecodeError::RecursionLimitExceeded.to_string(), "recursion limit exceeded");
    assert_eq!(
        DecodeError::AlignmentError { expected: 4, actual: 2, pos: 6 }.to_string(),
        "alignment error at 6: expected alignment 4, actual remainder 2"
    );
}

#[test]
fn library_error_messages() {
    assert_eq!(
        ZebinError::BufferTooSmall { pos: 10, required: 4 }.to_string(),
        "buffer too small at 10: required 4 bytes"
    );
    assert_eq!(
        ZebinError::HeaderParseError(ParseHeaderError::InvalidMagic { pos: 0 }).to_string(),
        "header parse error: invalid magic at 0"
    );
    assert_eq!(
        ZebinError::Decode(DecodeError::MissingField { field_id: 7, pos: 20 }).to_string(),
        "missing field 7 at 20"
    );
    assert_eq!(
        ZebinError::ArchiveError(ArchiveError::LengthOverflow { pos: 18446744073709551615 }).to_string(),
        "length overflow at 18446744073709551615"
    );
    assert_eq!(ZebinError::ReadOnlyStorage.to_string(), "read-only storage");
    assert_eq!(
        ZebinError::LayoutCollision { key: 1, revision: 0 }.to_string(),
        "layout collision for key 1 revision 0"
    );
}

#[test]
fn schema_mismatch_message_names_both_ids() {
    let err = ZebinError::ValidationError {
        message: "Layout schema id mismatch: expected 0, found 7".to_string(),
        pos: 24,
    };
    assert_eq!(err.to_string(), "validation error at 24: Layout schema id mismatch: expected 0, found 7");
}
