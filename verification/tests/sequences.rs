use zebin::archived_vec::ArchivedVec;
use zebin::block_index::{build_block_index_bytes, deserialize_block_index};
use zebin::cursor::Cursor;
use zebin::decoded_iter::ArchivedIter as DecodedIter;
use zebin::error::DecodeError;
use zebin::iter::{ArchivedIter, IterArchive};
use zebin::seq_serializer::SeqSerializer;
use zebin::sink::{Poll, VecSerializer};
use zebin::strategy::{FixedSequenceStrategy, ForwardSequenceStrategy};

fn write_sequence(items: &[u32], indexed: bool) -> Vec<u8> {
    let mut sink = VecSerializer::new(0);
    let mut ser: SeqSerializer<u32> = if indexed { SeqSerializer::new_indexed() } else { SeqSerializer::new() };
    for &item in items {
        let mut p = ser.input(item, &mut sink).unwrap();
        while p == Poll::Pending {
            p = ser.poll_pending(&mut sink).unwrap();
        }
    }
    let mut p = ser.finish_ref(&mut sink).unwrap();
    while p == Poll::Pending {
        p = ser.finish_ref(&mut sink).unwrap();
    }
    sink.into_inner()
}

#[test]
fn sequence_of_u32_is_marked_and_aligned() {
    let bytes = write_sequence(&[5, 6], false);
    assert_eq!(bytes, vec![1u8, 0, 0, 0, 5, 0, 0, 0, 1, 0, 0, 0, 6, 0, 0, 0, 0]);
}

#[test]
fn written_sequence_reads_back() {
    let items: Vec<u32> = (0..10).map(|i| i * 3 + 1).collect();
    let bytes = write_sequence(&items, false);
    let mut cursor = Cursor::new(&bytes, 0);
    let view = ArchivedIter::<u32>::access(&mut cursor).unwrap();
    assert_eq!(view.len(), 10);
    for (i, v) in items.iter().enumerate() {
        assert_eq!(view.get(i), Ok(*v));
    }
    assert!(view.get(10).is_err());
    let mut cursor = Cursor::new(&bytes, 0);
    assert_eq!(FixedSequenceStrategy::access_sequence::<u32>(&mut cursor), Ok(items.clone()));
    assert_eq!(cursor.pos(), bytes.len());
    let mut cursor = Cursor::new(&bytes, 0);
    let vec = ArchivedVec::<u32>::decode(&mut cursor).unwrap();
    assert_eq!(vec.len(), 10);
    assert_eq!(vec.restore(), items);
}

#[test]
fn indexed_sequence_reads_back_through_the_index() {
    let items: Vec<u32> = (0..150).map(|i| i * 7).collect();
    let bytes = write_sequence(&items, true);
    let mut cursor = Cursor::new(&bytes, 0);
    let view = DecodedIter::<u32>::decode(&mut cursor).unwrap();
    assert_eq!(cursor.pos(), bytes.len());
    assert_eq!(view.len(), 150);
    assert_eq!(view.get(0), Ok(0));
    assert_eq!(view.get(64), Ok(64 * 7));
    assert_eq!(view.get(149), Ok(149 * 7));
    let mut it = view.iter_from(130);
    assert_eq!(it.remaining_len(), 20);
    assert_eq!(it.next(), Some(Ok(130 * 7)));
    let mut cursor = Cursor::new(&bytes, 0);
    assert_eq!(FixedSequenceStrategy::validate_sequence::<u32>(&mut cursor), Ok(()));
    assert_eq!(cursor.pos(), bytes.len());
}

#[test]
fn iterator_yields_every_element() {
    let items: Vec<u32> = vec![9, 8, 7];
    let bytes = write_sequence(&items, false);
    let mut cursor = Cursor::new(&bytes, 0);
    let view = ArchivedIter::<u32>::access(&mut cursor).unwrap();
    let mut it = view.iter();
    assert_eq!(it.next(), Some(Ok(9)));
    assert_eq!(it.next(), Some(Ok(8)));
    assert_eq!(it.next(), Some(Ok(7)));
    assert_eq!(it.next(), None);
}

#[test]
fn forward_strategy_reads_unpadded_elements() {
    let bytes = [1u8, 5, 0, 1, 6, 0, 0];
    let mut cursor = Cursor::new(&bytes, 0);
    assert_eq!(ForwardSequenceStrategy::access_sequence::<u16>(&mut cursor), Ok(vec![5u16, 6]));
    assert_eq!(cursor.pos(), 7);
    let padded = [1u8, 0, 5, 0, 1, 0, 6, 0, 0];
    let mut cursor = Cursor::new(&padded, 0);
    assert_eq!(FixedSequenceStrategy::access_sequence::<u16>(&mut cursor), Ok(vec![5u16, 6]));
}

#[test]
fn bad_marker_is_refused() {
    let bytes = [2u8];
    let mut cursor = Cursor::new(&bytes, 0);
    assert_eq!(
        FixedSequenceStrategy::access_sequence::<u16>(&mut cursor),
        Err(DecodeError::ValidationError { message: "Invalid sequence marker", pos: 0 })
    );
}

#[test]
fn block_index_bytes_read_back() {
    let bytes = build_block_index_bytes(64, &[0, 10]);
    assert_eq!(bytes, vec![0x42u8, 64, 2, 0, 10]);
    let mut cursor = Cursor::new(&bytes, 0);
    let index = deserialize_block_index(&mut cursor, 100).unwrap().unwrap();
    assert_eq!(index.chunk_size, 64);
    assert_eq!(index.offsets, vec![0usize, 10]);
    assert_eq!(cursor.pos(), bytes.len());
}

#[test]
fn measured_size_is_what_the_indexed_encoder_writes() {
    let items = vec![0u8; 65];
    let archive = IterArchive::new(items.clone());
    assert_eq!(archive.measure_body(), Ok(137));
    let mut sink = VecSerializer::new(0);
    let mut enc = IterArchive::<Vec<u8>, u8>::encoder();
    assert_eq!(enc.input(items, &mut sink), Ok(Poll::Ready));
    let bytes = sink.into_inner();
    assert_eq!(bytes.len(), 137);
    assert_eq!(&bytes[131..], &[0x42u8, 0x40, 0x02, 0x00, 0x80, 0x01]);
    let small = IterArchive::new(vec![0u8; 3]);
    assert_eq!(small.measure_body(), Ok(7));
}

#[test]
fn iteration_get_and_iter_from_agree() {
    let items: Vec<u32> = (0..150).map(|i| i * 11 + 3).collect();
    for indexed in [false, true] {
        let bytes = write_sequence(&items, indexed);
        let mut cursor = Cursor::new(&bytes, 0);
        let view = DecodedIter::<u32>::decode(&mut cursor).unwrap();
        let mut it = view.iter();
        for k in 0..150 {
            let from_iter = it.next().unwrap();
            assert_eq!(from_iter, view.get(k));
            let mut skipped = view.iter();
            for _ in 0..k {
                skipped.next();
            }
            let mut placed = view.iter_from(k);
            assert_eq!(placed.remaining_len(), skipped.remaining_len());
            assert_eq!(placed.next(), skipped.next());
        }
        assert_eq!(it.next(), None);
    }
}

#[test]
fn index_is_only_appended_past_one_chunk() {
    let small: Vec<u32> = (0..64).collect();
    assert_eq!(write_sequence(&small, true), write_sequence(&small, false));
    let large: Vec<u32> = (0..65).collect();
    let plain = write_sequence(&large, false);
    let indexed = write_sequence(&large, true);
    assert!(indexed.len() > plain.len());
    assert_eq!(&indexed[..plain.len()], &plain[..]);
}
