use zebin::block_index::{deserialize_block_index, measure_block_index_overhead, BLOCK_INDEX_MAGIC};
use zebin::cursor::Cursor;
use zebin::varint::serialize_u64;

#[test]
fn test_deserialize_block_index_missing_magic() {
    let data = [0x00u8, 0x01, 0x02];
    let mut cursor = Cursor::new(&data, 0);
    let res = deserialize_block_index(&mut cursor, 10);
    assert!(res.is_ok());
    assert!(res.unwrap().is_none());
}

#[test]
fn test_deserialize_block_index_invalid_chunk_size() {
    let mut data = Vec::new();
    data.push(BLOCK_INDEX_MAGIC);
    serialize_u64(0, &mut data);
    serialize_u64(2, &mut data);

    let mut cursor = Cursor::new(&data, 0);
    let res = deserialize_block_index(&mut cursor, 10);
    assert!(res.is_err());
}

#[test]
fn test_deserialize_block_index_mismatch_blocks() {
    let mut data = Vec::new();
    data.push(BLOCK_INDEX_MAGIC);
    serialize_u64(64, &mut data);
    serialize_u64(5, &mut data);

    let mut cursor = Cursor::new(&data, 0);
    let res = deserialize_block_index(&mut cursor, 10);
    assert!(res.is_err());
}

#[test]
fn encode_test_measure_block_index_overhead() {
    let overhead = measure_block_index_overhead(100, 500).unwrap();
    assert!(overhead > 0);
}

#[test]
fn serialize_test_measure_block_index_overhead() {
    let overhead = measure_block_index_overhead(100, 500).unwrap();
    assert!(overhead > 0);
}
