use zebin::error::ZebinError;
use zebin::field_state::{FieldState, SchemaFieldState};
use zebin::primitive::ByteSerializer;
use zebin::schema::FieldEncoding;
use zebin::sink::{Poll, SliceSerializer};

#[test]
fn field_state_writes_its_value_across_small_sinks() {
    let mut state: FieldState<u32> = FieldState::new(ByteSerializer::new());
    state.fill(0x0403_0201);
    let mut first = [0u8; 3];
    let mut sink = SliceSerializer::new(&mut first, 0);
    assert_eq!(state.poll_write(&mut sink), Ok(Poll::Pending));
    assert!(state.started);
    assert!(state.slot.is_none());
    assert_eq!(first, [1u8, 2, 3]);
    let mut second = [0u8; 4];
    let mut sink = SliceSerializer::new(&mut second, 3);
    assert_eq!(state.poll_write(&mut sink), Ok(Poll::Ready));
    assert_eq!(sink.written(), 1);
    assert_eq!(state.finish(&mut sink), Ok(Poll::Ready));
    assert_eq!(second, [4u8, 0, 0, 0]);
}

#[test]
fn schema_field_state_writes_entry_then_value() {
    let mut state: SchemaFieldState<u16> = SchemaFieldState::new(ByteSerializer::new());
    assert_eq!(state.fill(7, 2), Ok(()));
    assert_eq!(state.len, 2);
    let mut buf = [0u8; 16];
    let mut sink = SliceSerializer::new(&mut buf, 0);
    assert_eq!(state.poll_write_entry(&mut sink, 3, FieldEncoding::Fixed), Ok(Poll::Ready));
    assert_eq!(state.poll_write(&mut sink), Ok(Poll::Ready));
    assert_eq!(sink.written(), 10);
    assert_eq!(&buf[8..10], &[7u8, 0]);
}

#[test]
fn schema_field_state_refuses_a_payload_past_u32() {
    let mut state: SchemaFieldState<u8> = SchemaFieldState::new(ByteSerializer::new());
    if usize::MAX > u32::MAX as usize {
        assert_eq!(
            state.fill(1, u32::MAX as usize + 1),
            Err(ZebinError::SerializationError { pos: 0, message: "field payload length exceeds u32 range" })
        );
        assert_eq!(state.len, 0);
        assert_eq!(state.state.slot, Some(1));
    }
}
