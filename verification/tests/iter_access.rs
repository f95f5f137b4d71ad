use zebin::block_index::{BlockIndex, BlockIndexNoAllocState};
use zebin::varint::encode_u64;
use zebin::iter::ArchivedIterView;

#[test]
fn test_archived_iter_empty() {
    let bytes = [0x00u8];
    let iter: ArchivedIterView<'_, u8> = ArchivedIterView::new(&bytes, 0, 0, None);
    assert!(iter.is_empty());
    assert_eq!(iter.len(), 0);
    assert!(iter.get(0).is_err());
}

#[test]
fn test_archived_iter_invalid_marker() {
    let bytes = [0x02u8, 0x00u8];
    let iter: ArchivedIterView<'_, u32> = ArchivedIterView::new(&bytes, 0, 1, None);
    assert_eq!(iter.len(), 1);
    assert!(iter.get(0).is_err());
}

#[test]
fn test_block_offset_empty_or_out_of_bounds() {
    let bi = BlockIndex { chunk_size: 64, offsets: vec![10, 20, 30] };
    assert_eq!(bi.block_offset(0), Some(10));
    assert_eq!(bi.block_offset(1), Some(20));
    assert_eq!(bi.block_offset(2), Some(30));
    assert_eq!(bi.block_offset(3), None);

    let mut bytes = Vec::new();
    bytes.extend(encode_u64(10));
    bytes.extend(encode_u64(10));
    bytes.extend(encode_u64(10));
    let state = BlockIndexNoAllocState { num_blocks: 3, raw_delta_start: 0 };
    assert_eq!(state.block_offset_from_bytes(&bytes, 0), Some(10));
    assert_eq!(state.block_offset_from_bytes(&bytes, 1), Some(20));
    assert_eq!(state.block_offset_from_bytes(&bytes, 2), Some(30));
    assert_eq!(state.block_offset_from_bytes(&bytes, 3), None);
}
