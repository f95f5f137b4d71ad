use zebin::access::{check_archive, validate_layout_section};
use zebin::error::{DecodeError, ZebinError};
use zebin::format::ArchiveHeader;
use zebin::validator::{LayoutDirectory, Validator, MAX_VALIDATION_DEPTH};

fn le32(v: u32) -> [u8; 4] {
    v.to_le_bytes()
}

/// Header, a `u32` root at 12, and a layout section at 16 with one entry of one field.
fn sample_archive(layout_offset: u32, root_offset: u32, entry_id: u32) -> Vec<u8> {
    let mut bytes = ArchiveHeader::to_bytes(0, layout_offset, root_offset);
    bytes.extend_from_slice(&le32(0xdead_beef));
    bytes.extend_from_slice(&le32(1));
    bytes.extend_from_slice(&le32(8));
    bytes.extend_from_slice(&le32(entry_id));
    bytes.extend_from_slice(&[1, 0, 0, 0]);
    bytes.extend_from_slice(&[7, 0, 4, 0]);
    bytes
}

fn verr(message: &str, pos: usize) -> ZebinError {
    ZebinError::ValidationError { message: message.to_string(), pos }
}

fn derr(message: &'static str, pos: usize) -> ZebinError {
    ZebinError::Decode(DecodeError::ValidationError { message, pos })
}

#[test]
fn check_archive_reads_root_and_header() {
    let bytes = sample_archive(16, 12, 0);
    assert_eq!(bytes.len(), 36);
    let view = check_archive::<u32>(&bytes).ok().unwrap();
    assert_eq!(view.root(), 0xdead_beef);
    assert_eq!(*view, 0xdead_beef);
    assert_eq!(view.header().layout_offset(), 16);
    assert_eq!(view.header().root_offset(), 12);
    assert_eq!(view.bytes().len(), 36);
    assert_eq!(zebin::access::validate::<u32>(&bytes), Ok(()));
}

#[test]
fn check_archive_refusals() {
    assert_eq!(check_archive::<u32>(&sample_archive(16, 4, 0)).err(), Some(verr("Root overlaps archive header", 4)));
    assert_eq!(
        check_archive::<u32>(&sample_archive(16, 13, 0)).err(),
        Some(ZebinError::Decode(DecodeError::AlignmentError { expected: 4, actual: 1, pos: 13 }))
    );
    assert_eq!(check_archive::<u32>(&sample_archive(16, 40, 0)).err(), Some(verr("Root out of bounds", 40)));
    assert_eq!(check_archive::<u32>(&sample_archive(14, 12, 0)).err(), Some(verr("Layout section overlaps root", 14)));
    assert_eq!(check_archive::<u32>(&sample_archive(16, 12, 1)).err(), Some(verr("Layout schema id mismatch: expected 0, found 1", 24)));
    let mut short = sample_archive(16, 12, 0);
    short.truncate(34);
    assert_eq!(check_archive::<u32>(&short).err(), Some(verr("Layout entry payload out of bounds", 24)));
}

#[test]
fn layout_section_checks() {
    let bytes = sample_archive(16, 12, 0);
    assert_eq!(validate_layout_section(&bytes, 16), Ok(()));
    assert_eq!(validate_layout_section(&bytes, 34), Err(verr("Layout section header out of bounds", 34)));
    let mut many = bytes.clone();
    many[16] = 9;
    assert_eq!(validate_layout_section(&many, 16), Err(verr("Layout offset table out of bounds", 20)));
    let mut far = bytes.clone();
    far[20] = 100;
    assert_eq!(validate_layout_section(&far, 16), Err(verr("Layout entry out of bounds", 116)));
}

#[test]
fn layout_directory_lookup() {
    let bytes = sample_archive(16, 12, 0);
    let dir = LayoutDirectory::new(&bytes, 16);
    let view = dir.lookup(0).ok().unwrap();
    assert_eq!(view.schema_id(), 0);
    assert_eq!(view.field_count(), 1);
    assert_eq!(view.field_offset(7), Some(4));
    assert_eq!(view.field_offset(8), None);
    assert_eq!(dir.lookup(1).err(), Some(derr("Unknown layout schema id", 16)));

    let plain = Validator::new(&bytes);
    assert_eq!(plain.layout(0).err(), Some(verr("Missing layout directory", 0)));
    let with = Validator::with_layouts(&bytes, dir);
    assert_eq!(with.layout(0).ok().unwrap().field_count(), 1);
}

#[test]
fn validator_ranges_alignment_and_depth() {
    let bytes = [0u8; 8];
    let mut v = Validator::new(&bytes);
    assert_eq!(v.check_range(4, 4), Ok(()));
    assert_eq!(v.check_range(8, 0), Ok(()));
    assert_eq!(v.check_range(5, 4), Err(verr("Pointer out of bounds", 5)));
    assert_eq!(v.check_range(usize::MAX, 2), Err(verr("Pointer range overflow", usize::MAX)));
    assert_eq!(v.check_alignment(8, 4), Ok(()));
    assert_eq!(
        v.check_alignment(6, 4),
        Err(ZebinError::Decode(DecodeError::AlignmentError { expected: 4, actual: 2, pos: 6 }))
    );
    for _ in 0..MAX_VALIDATION_DEPTH {
        assert_eq!(v.push_depth(), Ok(()));
    }
    assert_eq!(v.push_depth(), Err(ZebinError::Decode(DecodeError::RecursionLimitExceeded)));
    v.pop_depth();
    let guard = v.enter().ok().unwrap();
    assert!(v.enter().is_err());
    guard.leave(&mut v);
    assert!(v.push_depth().is_ok());
}
