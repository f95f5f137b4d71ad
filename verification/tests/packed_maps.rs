use zebin::chunk::Buf;
use zebin::cursor::Cursor;
use zebin::error::ZebinError;
use zebin::map_encoder::{decode_map, measure_map_body, MapEncoder, Tuple2Serializer, TupleRefEncoder};
use zebin::packed::{pack_bools, pack_u8_values, ArchivedPackedU8Slice};
use zebin::packed_seq::PackedSequenceEncoder;
use zebin::packed_vec::PackedSlice;
use zebin::rel_ptr::RelPtr;
use zebin::error::ArchiveError;
use zebin::sink::{Poll, SliceSerializer, VecSerializer};

#[test]
fn packing_bits_least_significant_first() {
    assert_eq!(pack_bools(&[true, false, true]), vec![0b101u8]);
    assert_eq!(pack_u8_values(&[1, 2, 3], 2), Ok(vec![57u8]));
    assert_eq!(
        pack_u8_values(&[4], 2),
        Err(ZebinError::SerializationError { pos: 0, message: "Value exceeds packed bit capacity" })
    );
}

#[test]
fn packed_sequence_writes_length_then_bits() {
    let values = [1u8, 2, 3];
    let mut sink = VecSerializer::new(0);
    let mut enc = PackedSequenceEncoder::new_u8(&values, 2);
    assert_eq!(enc.poll_pending(&mut sink), Ok(Poll::Ready));
    let bytes = sink.into_inner();
    assert_eq!(bytes, vec![3u8, 0, 0, 0, 57]);
    let mut cursor = Cursor::new(&bytes, 0);
    let view = ArchivedPackedU8Slice::<2>::access(&mut cursor).unwrap();
    assert_eq!(view.len(), 3);
    assert_eq!(view.get(0), Some(1));
    assert_eq!(view.get(1), Some(2));
    assert_eq!(view.get(2), Some(3));
    assert_eq!(view.get(3), None);
    assert_eq!(view.restore(), vec![1u8, 2, 3]);
}

#[test]
fn packed_sequence_of_booleans_and_of_nothing() {
    let flags = [true, false, true];
    let mut sink = VecSerializer::new(0);
    let mut enc = PackedSequenceEncoder::new_bool(&flags);
    assert_eq!(enc.poll_pending(&mut sink), Ok(Poll::Ready));
    assert_eq!(sink.into_inner(), vec![3u8, 0, 0, 0, 5]);

    let mut sink = VecSerializer::new(0);
    let mut enc = PackedSequenceEncoder::new_empty();
    assert_eq!(enc.poll_pending(&mut sink), Ok(Poll::Ready));
    assert_eq!(sink.into_inner(), vec![0u8, 0, 0, 0]);
}

#[test]
fn packed_sequence_input_takes_a_slice() {
    let values = [3u8, 0, 2];
    let mut sink = VecSerializer::new(0);
    let mut enc = PackedSequenceEncoder::new_empty();
    let slice = PackedSlice::<'_, u8, 2>::new(&values);
    assert_eq!(enc.input(slice, &mut sink), Ok(Poll::Ready));
    assert_eq!(sink.into_inner(), vec![3u8, 0, 0, 0, 0b100011]);
}

#[test]
fn packed_sequence_chunks_of_booleans() {
    let flags = vec![true; 600];
    let mut sink = VecSerializer::new(0);
    let mut enc = PackedSequenceEncoder::new_bool(&flags);
    assert_eq!(enc.poll_pending(&mut sink), Ok(Poll::Ready));
    let bytes = sink.into_inner();
    assert_eq!(bytes.len(), 4 + 64 + 11);
    assert_eq!(&bytes[0..4], &[0x58u8, 0x02, 0, 0]);
    assert_eq!(bytes[4 + 74], 0xff);
}

#[test]
fn packed_sequence_chunks_start_at_byte_boundaries() {
    let values = vec![7u8; 171];
    let mut sink = VecSerializer::new(0);
    let mut enc = PackedSequenceEncoder::new_u8(&values, 3);
    assert_eq!(enc.poll_pending(&mut sink), Ok(Poll::Ready));
    let bytes = sink.into_inner();
    assert_eq!(bytes.len(), 4 + 65);
    assert_eq!(bytes[4 + 62], 0xff);
    assert_eq!(bytes[4 + 63], 0x3f);
    assert_eq!(bytes[4 + 64], 0x07);
}

#[test]
fn packed_sequence_refuses_a_value_too_wide() {
    let values = [1u8, 9];
    let mut sink = VecSerializer::new(0);
    let mut enc = PackedSequenceEncoder::new_u8(&values, 3);
    assert_eq!(
        enc.poll_pending(&mut sink),
        Err(ZebinError::SerializationError { pos: 1, message: "Value exceeds packed bit capacity" })
    );
    assert_eq!(sink.into_inner(), vec![2u8, 0, 0, 0]);
}

#[test]
fn packed_sequence_resumes_on_a_small_sink() {
    let values = [1u8, 2, 3];
    let mut buf = vec![0u8; 2];
    let mut sink = SliceSerializer::new(&mut buf, 0);
    let mut enc = PackedSequenceEncoder::new_u8(&values, 2);
    assert_eq!(enc.poll_pending(&mut sink), Ok(Poll::Pending));
    assert_eq!(buf, vec![3u8, 0]);
}

#[test]
fn map_entries_are_marked_and_read_back() {
    let entries = vec![(1u8, 2u16), (3u8, 4u16)];
    let mut sink = VecSerializer::new(0);
    let mut enc = MapEncoder::new(&entries).unwrap();
    assert_eq!(enc.poll_pending(&mut sink), Ok(Poll::Ready));
    let bytes = sink.into_inner();
    assert_eq!(bytes, vec![1u8, 1, 2, 0, 1, 3, 4, 0, 0]);
    let mut cursor = Cursor::new(&bytes, 0);
    assert_eq!(decode_map::<u8, u16>(&mut cursor), Ok(entries.clone()));
    assert_eq!(cursor.pos(), bytes.len());
}

#[test]
fn empty_map_is_a_terminator() {
    let entries: Vec<(u8, u8)> = Vec::new();
    let mut sink = VecSerializer::new(0);
    let mut enc = MapEncoder::new(&entries).unwrap();
    assert_eq!(enc.poll_pending(&mut sink), Ok(Poll::Ready));
    assert_eq!(sink.into_inner(), vec![0u8]);
}

#[test]
fn map_encoder_resumes_on_a_small_sink() {
    let entries = vec![(1u8, 2u8), (3u8, 4u8)];
    let mut buf = vec![0u8; 4];
    let mut sink = SliceSerializer::new(&mut buf, 0);
    let mut enc = MapEncoder::new(&entries).unwrap();
    assert_eq!(enc.poll_pending(&mut sink), Ok(Poll::Pending));
    assert_eq!(buf, vec![1u8, 1, 2, 1]);
}

#[test]
fn map_measure_counts_padding() {
    let unaligned = vec![(1u8, 2u8), (3u8, 4u8)];
    assert_eq!(measure_map_body(&unaligned), Ok(7));
    let aligned = vec![(1u8, 2u16), (3u8, 4u16)];
    assert_eq!(measure_map_body(&aligned), Ok(10));
}

#[test]
fn pair_serializers_write_key_then_value() {
    let mut sink = VecSerializer::new(0);
    let mut ser: Tuple2Serializer<u8, u16> = Tuple2Serializer::new();
    assert_eq!(
        ser.poll_pending(&mut sink),
        Err(ZebinError::SerializationError { pos: 0, message: "Tuple2Serializer polled before input" })
    );
    assert_eq!(ser.input((1, 2), &mut sink), Ok(Poll::Ready));
    assert_eq!(ser.poll_pending(&mut sink), Ok(Poll::Ready));
    assert_eq!(sink.into_inner(), vec![1u8, 2, 0]);

    let key = 7u8;
    let value = 0x0102u16;
    let mut sink = VecSerializer::new(0);
    let mut enc = TupleRefEncoder::new(&key, &value).unwrap();
    assert_eq!(enc.poll_pending(&mut sink), Ok(Poll::Ready));
    assert_eq!(sink.into_inner(), vec![7u8, 2, 1]);
}

#[test]
fn pair_serializer_resumes_on_a_small_sink() {
    let mut buf = vec![0u8; 2];
    let mut sink = SliceSerializer::new(&mut buf, 0);
    let mut ser: Tuple2Serializer<u16, u16> = Tuple2Serializer::new();
    assert_eq!(ser.input((0x0201, 0x0403), &mut sink), Ok(Poll::Pending));
    assert_eq!(buf, vec![1u8, 2]);
}

#[test]
fn relative_pointers() {
    assert_eq!(RelPtr::<u32>::new(10, 30).unwrap().offset(), 20);
    assert_eq!(RelPtr::<u32>::new(30, 10).unwrap().offset(), -20);
    assert!(matches!(RelPtr::<u32>::new(5, 5), Err(ArchiveError::ZeroOffset { pos: 5 })));
    let back = RelPtr::<u32>::new(30, 10).unwrap();
    assert_eq!(back.target(30), Some(10));
    assert_eq!(back.target(5), None);
    assert_eq!(RelPtr::<u32>::new(10, 30).unwrap().target(100), Some(120));
    assert_eq!(RelPtr::<u32>::new(10, 30).unwrap().target(usize::MAX - 5), None);
}

#[test]
fn buffers_hand_back_their_bytes() {
    let data = [1u8, 2, 3];
    let buf = Buf::new(&data);
    assert_eq!(buf.into_slice(), &[1u8, 2, 3]);
}

#[test]
fn packed_slices_convert_from_plain_slices() {
    let flags = [true, false, true];
    let packed: PackedSlice<'_, bool, 1> = PackedSlice::from(&flags[..]);
    assert_eq!(packed.values(), &flags[..]);
    let small = [1u8, 2, 3];
    let packed: PackedSlice<'_, u8, 2> = (&small[..]).into();
    assert_eq!(packed.values(), &small[..]);
}

#[test]
fn pair_encoder_run_over_one_byte_sinks_writes_key_then_value() {
    let key = 0x0201u16;
    let value = 0x0605_0403u32;
    let mut enc = TupleRefEncoder::new(&key, &value).unwrap();
    let mut out = Vec::new();
    let mut pos = 0usize;
    loop {
        let mut byte = [0u8; 1];
        let mut sink = SliceSerializer::new(&mut byte, pos);
        let p = enc.poll_pending(&mut sink).unwrap();
        let n = sink.written();
        out.extend_from_slice(&byte[..n]);
        pos += n;
        if p == Poll::Ready {
            break;
        }
    }
    assert_eq!(out, vec![1u8, 2, 3, 4, 5, 6]);
    let mut byte = [9u8; 1];
    let mut sink = SliceSerializer::new(&mut byte, pos);
    assert_eq!(enc.poll_pending(&mut sink), Ok(Poll::Ready));
    assert_eq!(sink.written(), 0);
    assert_eq!(byte, [9u8]);
}
