use zebin::cursor::Cursor;
use zebin::error::{DecodeError, ParseHeaderError, ZebinError};
use zebin::format::ArchiveHeader;
use zebin::option_result::{ArchivedOption, ArchivedResult, OptionSerializer, ResultSerializer};
use zebin::sink::{Poll, SliceSerializer, VecSerializer};
use zebin::string::{ArchivedString, StrRefSerializer};
use zebin::varint::{deserialize_u64, encode_u64, serialized_len_u64};

#[test]
fn varint_encodes_little_endian_groups() {
    assert_eq!(encode_u64(0), vec![0u8]);
    assert_eq!(encode_u64(127), vec![0x7fu8]);
    assert_eq!(encode_u64(300), vec![0xacu8, 0x02]);
    assert_eq!(serialized_len_u64(127), 1);
    assert_eq!(serialized_len_u64(128), 2);
    assert_eq!(serialized_len_u64(u64::MAX), 10);
}

#[test]
fn varint_reads_back_what_was_written() {
    for v in [0u64, 1, 127, 128, 300, 65535, 1 << 40, u64::MAX] {
        let data = encode_u64(v);
        let mut cursor = Cursor::new(&data, 0);
        assert_eq!(deserialize_u64::<u64>(&mut cursor), Ok(v));
        assert_eq!(cursor.pos(), data.len());
    }
}

#[test]
fn varint_too_large_for_target_is_refused() {
    let data = encode_u64(300);
    let mut cursor = Cursor::new(&data, 0);
    assert!(deserialize_u64::<u8>(&mut cursor).is_err());
    let truncated = [0x80u8];
    let mut cursor = Cursor::new(&truncated, 0);
    assert!(deserialize_u64::<u32>(&mut cursor).is_err());
}

#[test]
fn header_roundtrip_and_errors() {
    let bytes = ArchiveHeader::to_bytes(0, 12, 16);
    assert_eq!(bytes.len(), 12);
    assert_eq!(&bytes[0..4], &[0x5au8, 0x42, 1, 0]);
    assert_eq!(
        ArchiveHeader::parse(&bytes),
        Ok(ArchiveHeader { version: 1, flags: 0, layout_offset: 12, root_offset: 16 })
    );
    assert_eq!(ArchiveHeader::parse(&bytes[..11]), Err(ParseHeaderError::TooShort { pos: 0 }));
    let mut bad = bytes.clone();
    bad[0] = 0;
    assert_eq!(ArchiveHeader::parse(&bad), Err(ParseHeaderError::InvalidMagic { pos: 0 }));
    let mut bad = bytes.clone();
    bad[2] = 2;
    assert_eq!(ArchiveHeader::parse(&bad), Err(ParseHeaderError::UnsupportedVersion { version: 2, pos: 2 }));
    let zero_layout = ArchiveHeader::to_bytes(0, 0, 16);
    assert_eq!(ArchiveHeader::parse(&zero_layout), Err(ParseHeaderError::InvalidLayoutOffset { pos: 4 }));
    let zero_root = ArchiveHeader::to_bytes(0, 12, 0);
    assert_eq!(ArchiveHeader::parse(&zero_root), Err(ParseHeaderError::InvalidRootOffset { pos: 8 }));
}

#[test]
fn option_serializer_writes_tag_then_value() {
    let mut sink = VecSerializer::new(0);
    let mut ser = OptionSerializer::<u32>::new_empty();
    assert_eq!(ser.input(Some(7), &mut sink), Ok(Poll::Ready));
    let bytes = sink.into_inner();
    assert_eq!(bytes, vec![1u8, 7, 0, 0, 0]);
    let mut cursor = Cursor::new(&bytes, 0);
    assert_eq!(ArchivedOption::<u32>::access(&mut cursor), Ok(ArchivedOption::Present(7)));

    let mut sink = VecSerializer::new(0);
    let mut ser = OptionSerializer::<u32>::new_empty();
    assert_eq!(ser.input(None, &mut sink), Ok(Poll::Ready));
    let bytes = sink.into_inner();
    assert_eq!(bytes, vec![0u8]);
    let mut cursor = Cursor::new(&bytes, 0);
    assert_eq!(ArchivedOption::<u32>::access(&mut cursor), Ok(ArchivedOption::Absent));
}

#[test]
fn option_serializer_resumes_on_a_small_sink() {
    let mut buf = vec![0u8; 2];
    let mut sink = SliceSerializer::new(&mut buf, 0);
    let mut ser = OptionSerializer::<u32>::new_empty();
    assert_eq!(ser.input(Some(0x01020304), &mut sink), Ok(Poll::Pending));
    assert_eq!(sink.written(), 2);
    assert_eq!(buf, vec![1u8, 4]);
}

#[test]
fn option_with_bad_tag_is_refused() {
    let bytes = [2u8, 0, 0, 0, 0];
    let mut cursor = Cursor::new(&bytes, 0);
    assert!(ArchivedOption::<u32>::access(&mut cursor).is_err());
}

#[test]
fn result_serializer_writes_tag_then_value() {
    let mut sink = VecSerializer::new(0);
    let mut ser = ResultSerializer::<u32, u8>::new_empty();
    assert_eq!(ser.input(Ok(5), &mut sink), Ok(Poll::Ready));
    let bytes = sink.into_inner();
    assert_eq!(bytes, vec![0u8, 5, 0, 0, 0]);
    let mut cursor = Cursor::new(&bytes, 0);
    assert_eq!(ArchivedResult::<u32, u8>::access(&mut cursor), Ok(ArchivedResult::Success(5)));

    let mut sink = VecSerializer::new(0);
    let mut ser = ResultSerializer::<u32, u8>::new_empty();
    assert_eq!(ser.input(Err(9), &mut sink), Ok(Poll::Ready));
    let bytes = sink.into_inner();
    assert_eq!(bytes, vec![1u8, 9]);
    let mut cursor = Cursor::new(&bytes, 0);
    assert_eq!(ArchivedResult::<u32, u8>::access(&mut cursor), Ok(ArchivedResult::Failure(9)));
}

#[test]
fn result_serializer_without_input_is_ready() {
    let mut sink = VecSerializer::new(0);
    let mut ser = ResultSerializer::<u32, u8>::new_empty();
    assert_eq!(ser.poll_pending(&mut sink), Ok(Poll::Ready));
    assert!(sink.into_inner().is_empty());
}

#[test]
fn string_roundtrip() {
    let mut sink = VecSerializer::new(0);
    let mut ser = StrRefSerializer::new();
    assert_eq!(ser.input("h\u{e9}llo", &mut sink), Ok(Poll::Ready));
    let bytes = sink.into_inner();
    assert_eq!(bytes, vec![6u8, 0, 0, 0, 0x68, 0xc3, 0xa9, 0x6c, 0x6c, 0x6f]);
    let mut cursor = Cursor::new(&bytes, 0);
    let view = ArchivedString::access(&mut cursor).unwrap();
    assert_eq!(view.as_str(), "h\u{e9}llo");
}

#[test]
fn string_with_invalid_utf8_is_refused() {
    let bytes = [2u8, 0, 0, 0, 0xff, 0xfe];
    let mut cursor = Cursor::new(&bytes, 0);
    assert!(ArchivedString::access(&mut cursor).is_err());
}

#[test]
fn decode_error_is_wrapped() {
    let e = ZebinError::from_decode(DecodeError::RecursionLimitExceeded);
    assert_eq!(e, ZebinError::Decode(DecodeError::RecursionLimitExceeded));
}
