use zebin::error::{DecodeError, ParseHeaderError, ZebinError};
use zebin::format::ArchiveHeader;
use zebin::reader::{access, deserialize, reader, validate, ZebinReader};
use zebin::schema::ObjectEncoding;

fn archive_u32(flags: u8, value: u32) -> Vec<u8> {
    let mut bytes = ArchiveHeader::to_bytes(flags, 1, 1);
    bytes.extend_from_slice(&value.to_le_bytes());
    bytes
}

#[test]
fn reader_reads_consecutive_archives() {
    let mut storage = archive_u32(0, 7);
    storage.extend_from_slice(&archive_u32(0, 9));
    let mut r: ZebinReader<u32> = reader(&storage).unwrap();
    assert_eq!(r.offset(), 0);
    assert!(!r.is_finished());
    assert_eq!(r.read(), Ok(7));
    assert_eq!(r.offset(), 16);
    assert_eq!(r.read(), Ok(9));
    assert_eq!(r.offset(), 32);
    assert!(r.is_finished());
    // Once every archive was read, reading starts again at the front.
    assert_eq!(r.read(), Ok(7));
    assert_eq!(r.offset(), 16);
}

#[test]
fn access_and_deserialize_read_the_root() {
    let storage = archive_u32(0, 0x0102_0304);
    assert_eq!(access::<u32>(&storage), Ok(0x0102_0304));
    assert_eq!(deserialize::<u32>(&storage), Ok(0x0102_0304));
    assert_eq!(validate::<u32>(&storage), Ok(()));
    assert_eq!(ZebinReader::<u32>::access(&storage), Ok(0x0102_0304));
}

#[test]
fn access_refuses_another_root_encoding() {
    let storage = archive_u32(4, 1);
    assert_eq!(
        access::<u32>(&storage),
        Err(ZebinError::Decode(DecodeError::UnexpectedObjectEncoding {
            expected: ObjectEncoding::Fixed,
            actual: ObjectEncoding::Sequence,
            pos: 11,
        }))
    );
}

#[test]
fn access_refuses_unknown_flags() {
    let storage = archive_u32(9, 1);
    assert_eq!(
        access::<u32>(&storage),
        Err(ZebinError::HeaderParseError(ParseHeaderError::InvalidObjectEncoding { flags: 9, pos: 11 }))
    );
}

#[test]
fn access_refuses_bad_magic_and_short_input() {
    let mut storage = archive_u32(0, 1);
    storage[0] = 0;
    assert_eq!(
        access::<u32>(&storage),
        Err(ZebinError::HeaderParseError(ParseHeaderError::InvalidMagic { pos: 0 }))
    );
    let short = [0x5Au8, 0x42, 1];
    assert!(matches!(access::<u32>(&short), Err(ZebinError::Decode(_))));
    let truncated = &archive_u32(0, 1)[..14];
    assert!(matches!(access::<u32>(truncated), Err(ZebinError::Decode(_))));
}

#[test]
fn validate_refuses_trailing_bytes() {
    let mut storage = archive_u32(0, 5);
    storage.push(0);
    assert_eq!(
        validate::<u32>(&storage),
        Err(ZebinError::Decode(DecodeError::ValidationError {
            message: "Trailing bytes after root object",
            pos: 16,
        }))
    );
    // Reading alone does not look past the root.
    assert_eq!(access::<u32>(&storage), Ok(5));
}

#[test]
fn header_roundtrip_through_parse() {
    let bytes = ArchiveHeader::to_bytes(3, 16, 32);
    assert_eq!(bytes, vec![0x5A, 0x42, 1, 3, 16, 0, 0, 0, 32, 0, 0, 0]);
    let h = ArchiveHeader::parse(&bytes).unwrap();
    assert_eq!(h.flags(), 3);
    assert_eq!(h.layout_offset(), 16);
    assert_eq!(h.root_offset(), 32);
    let mut zero_layout = bytes.clone();
    zero_layout[4] = 0;
    zero_layout[5] = 0;
    assert_eq!(ArchiveHeader::parse(&zero_layout), Err(ParseHeaderError::InvalidLayoutOffset { pos: 4 }));
    let mut bad_version = bytes.clone();
    bad_version[2] = 2;
    assert_eq!(
        ArchiveHeader::parse(&bad_version),
        Err(ParseHeaderError::UnsupportedVersion { version: 2, pos: 2 })
    );
}
