use zebin::owned_iter::{OwnedIterEncoder, OwnedIterSerializer};
use zebin::seq_serializer::SeqSerializer;
use zebin::sink::{Poll, SliceSerializer};

#[test]
fn test_owned_iter_serializer_polled_before_input() {
    let mut buf = [0u8; 100];
    let mut sink = SliceSerializer::new(&mut buf, 0);
    let mut serializer: OwnedIterSerializer<u32> = OwnedIterSerializer::new();
    let mut writer = sink.into_cursor_mut();
    let res = serializer.poll_pending(&mut writer);
    assert!(res.is_err());
}

#[test]
fn test_owned_iter_encoder_polled_before_input() {
    let mut buf = [0u8; 100];
    let mut sink = SliceSerializer::new(&mut buf, 0);
    let mut encoder: OwnedIterEncoder<u32> = OwnedIterEncoder::new();
    let res = encoder.poll_pending(&mut sink);
    assert!(res.is_err());
}

#[test]
fn test_seq_serializer_busy_errors() {
    let mut buf = [0u8; 1];
    let mut sink = SliceSerializer::new(&mut buf, 0);
    let mut serializer: SeqSerializer<u32> = SeqSerializer::new();

    let poll_res = serializer.input(42, &mut sink);
    assert!(poll_res.is_ok());

    let poll_err = serializer.input(43, &mut sink);
    assert!(poll_err.is_err());
}

#[test]
fn test_seq_serializer_finished_error() {
    let mut buf = [0u8; 100];
    let mut sink = SliceSerializer::new(&mut buf, 0);
    let mut serializer: SeqSerializer<u32> = SeqSerializer::new();

    let _ = serializer.finish_ref(&mut sink);
    let res = serializer.input(42, &mut sink);
    assert!(res.is_err());
}

#[test]
fn fresh_sequence_finishes_with_its_terminator() {
    let mut buf = [0xFFu8; 4];
    let mut sink = SliceSerializer::new(&mut buf, 0);
    let mut serializer: SeqSerializer<u32> = SeqSerializer::new();
    assert!(!serializer.is_finished());
    assert_eq!(serializer.finish_ref(&mut sink), Ok(Poll::Ready));
    assert!(serializer.is_finished());
    assert_eq!(sink.written(), 1);
    assert_eq!(serializer.finish_ref(&mut sink), Ok(Poll::Ready));
    assert_eq!(sink.written(), 1);
    assert_eq!(buf[0], 0);
}

#[test]
fn partial_element_leaves_the_serializer_busy() {
    let mut buf = [0u8; 1];
    let mut sink = SliceSerializer::new(&mut buf, 0);
    let mut serializer: SeqSerializer<u32> = SeqSerializer::new();
    assert_eq!(serializer.input(42, &mut sink), Ok(Poll::Pending));
    assert_eq!(sink.written(), 1);
    assert!(serializer.finish_ref(&mut sink).is_err());
}

#[test]
fn cursor_over_a_serializer_writes_through_it() {
    let mut buf = [0xFFu8; 3];
    let mut sink = SliceSerializer::new(&mut buf, 0);
    let mut serializer: SeqSerializer<u8> = SeqSerializer::new();
    let mut writer = sink.into_cursor_mut();
    assert_eq!(serializer.input(7, &mut writer), Ok(Poll::Ready));
    assert_eq!(serializer.finish_ref(&mut writer), Ok(Poll::Ready));
    assert_eq!(sink.written(), 3);
    assert_eq!(buf, [1u8, 7, 0]);
}
