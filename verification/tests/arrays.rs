use zebin::array::{decode_array, measure_array_body, validate_array, ArrayEncoder};
use zebin::cursor::Cursor;
use zebin::error::{DecodeError, ZebinError};
use zebin::owned_iter::{measure_slice_body, RefIterEncoder};
use zebin::sink::{Poll, SliceSerializer, VecSerializer};

#[test]
fn array_encoder_polled_before_input() {
    let mut sink = VecSerializer::new(0);
    let mut enc: ArrayEncoder<u32, 3> = ArrayEncoder::new();
    assert_eq!(
        enc.poll_pending(&mut sink),
        Err(ZebinError::SerializationError { pos: 0, message: "ArrayEncoder polled before input" })
    );
}

#[test]
fn array_encoder_writes_elements_back_to_back() {
    let mut sink = VecSerializer::new(0);
    let mut enc: ArrayEncoder<u32, 3> = ArrayEncoder::new();
    assert_eq!(enc.input([1u32, 2, 3], &mut sink), Ok(Poll::Ready));
    assert_eq!(enc.poll_pending(&mut sink), Ok(Poll::Ready));
    assert_eq!(enc.finish(&mut sink), Ok(Poll::Ready));
    assert_eq!(sink.into_inner(), vec![1u8, 0, 0, 0, 2, 0, 0, 0, 3, 0, 0, 0]);
}

#[test]
fn array_encoder_resumes_on_a_small_sink() {
    let mut enc: ArrayEncoder<u32, 3> = ArrayEncoder::new();
    let mut first_buf = vec![0u8; 6];
    let mut first = SliceSerializer::new(&mut first_buf, 0);
    assert_eq!(enc.input([1u32, 2, 3], &mut first), Ok(Poll::Pending));
    assert_eq!(first_buf, vec![1u8, 0, 0, 0, 2, 0]);
    let mut second_buf = vec![0u8; 10];
    let mut second = SliceSerializer::new(&mut second_buf, 6);
    assert_eq!(enc.poll_pending(&mut second), Ok(Poll::Ready));
    assert_eq!(second.written(), 6);
    assert_eq!(second_buf, vec![0u8, 0, 3, 0, 0, 0, 0, 0, 0, 0]);
}

#[test]
fn array_measure_and_decode() {
    assert_eq!(measure_array_body(&[1u32, 2, 3]), Ok(12));
    assert_eq!(measure_array_body(&[true, false]), Ok(2));
    let bytes = [1u8, 0, 0, 0, 2, 0, 0, 0, 3, 0, 0, 0];
    let mut c = Cursor::new(&bytes, 0);
    assert_eq!(decode_array::<u32, 3>(&mut c), Ok(vec![1u32, 2, 3]));
    assert_eq!(c.pos(), 12);
    let mut c2 = Cursor::new(&bytes, 0);
    assert_eq!(
        decode_array::<u32, 4>(&mut c2),
        Err(DecodeError::ValidationError { message: "Pointer out of bounds", pos: 12 })
    );
    let mut c3 = Cursor::new(&bytes, 4);
    assert_eq!(validate_array::<u16, 4>(&mut c3), Ok(()));
    assert_eq!(c3.pos(), 12);
}

#[test]
fn slice_encoder_writes_a_sequence() {
    let values = [5u32, 6];
    let mut sink = VecSerializer::new(0);
    let mut enc: RefIterEncoder<'_, u32> = RefIterEncoder::new();
    assert_eq!(enc.input(&values, &mut sink), Ok(Poll::Ready));
    assert_eq!(enc.finish(&mut sink), Ok(Poll::Ready));
    assert_eq!(sink.into_inner(), vec![1u8, 0, 0, 0, 5, 0, 0, 0, 1, 0, 0, 0, 6, 0, 0, 0, 0]);
    assert_eq!(measure_slice_body(&values), Ok(17));
    let empty: [u32; 0] = [];
    assert_eq!(measure_slice_body(&empty), Ok(1));
}

#[test]
fn slice_encoder_polled_before_input() {
    let mut sink = VecSerializer::new(0);
    let mut enc: RefIterEncoder<'_, u32> = RefIterEncoder::new();
    assert_eq!(
        enc.poll_pending(&mut sink),
        Err(ZebinError::SerializationError { pos: 0, message: "RefIterEncoder polled before input" })
    );
}
