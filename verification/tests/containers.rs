use std::borrow::Cow;
use std::rc::Rc;
use std::sync::Arc;
use zebin::container::{BoxSerializer, CowSerializer, RefSerializer, SharedRefSerializer};
use zebin::sink::{Poll, SliceSerializer};
use zebin::string::BoxStrSerializer;

#[test]
fn boxed_value_is_written_as_the_value() {
    let mut buf = [0u8; 4];
    let mut sink = SliceSerializer::new(&mut buf, 0);
    let mut ser: BoxSerializer<u32> = BoxSerializer::new();
    assert_eq!(ser.input(Box::new(0x0102_0304u32), &mut sink), Ok(Poll::Ready));
    assert_eq!(ser.finish(&mut sink), Ok(Poll::Ready));
    assert_eq!(buf, [4u8, 3, 2, 1]);
}

#[test]
fn borrowed_value_resumes_on_a_small_sink() {
    let value = 0xAABBu16;
    let mut ser: RefSerializer<'_, u16> = RefSerializer::new();
    let mut first = [0u8; 1];
    let mut sink = SliceSerializer::new(&mut first, 0);
    assert_eq!(ser.input(&value, &mut sink), Ok(Poll::Pending));
    assert_eq!(first, [0xBBu8]);
    let mut second = [0u8; 1];
    let mut sink = SliceSerializer::new(&mut second, 1);
    assert_eq!(ser.poll_pending(&mut sink), Ok(Poll::Ready));
    assert_eq!(second, [0xAAu8]);
}

#[test]
fn shared_values_are_written_as_the_values() {
    let mut buf = [0u8; 2];
    let mut sink = SliceSerializer::new(&mut buf, 0);
    let mut ser: SharedRefSerializer<u16, Rc<u16>> = SharedRefSerializer::new();
    assert_eq!(ser.input(Rc::new(0x0102u16), &mut sink), Ok(Poll::Ready));
    assert_eq!(buf, [2u8, 1]);
    let mut buf = [0u8; 1];
    let mut sink = SliceSerializer::new(&mut buf, 0);
    let mut ser: SharedRefSerializer<u8, Arc<u8>> = SharedRefSerializer::new();
    assert_eq!(ser.input(Arc::new(9u8), &mut sink), Ok(Poll::Ready));
    assert_eq!(ser.poll_pending(&mut sink), Ok(Poll::Ready));
    assert_eq!(buf, [9u8]);
}

#[test]
fn borrowed_and_owned_cow_values_write_alike() {
    let value = 0x0A0Bu16;
    let mut borrowed_buf = [0u8; 2];
    let mut sink = SliceSerializer::new(&mut borrowed_buf, 0);
    let mut ser: CowSerializer<'_, u16> = CowSerializer::new();
    assert_eq!(ser.input(Cow::Borrowed(&value), &mut sink), Ok(Poll::Ready));
    let mut owned_buf = [0u8; 2];
    let mut sink = SliceSerializer::new(&mut owned_buf, 0);
    let mut ser: CowSerializer<'_, u16> = CowSerializer::new();
    assert_eq!(ser.input(Cow::Owned(value), &mut sink), Ok(Poll::Ready));
    assert_eq!(borrowed_buf, [0x0Bu8, 0x0A]);
    assert_eq!(owned_buf, borrowed_buf);
}

#[test]
fn boxed_string_is_written_as_the_string() {
    let mut buf = [0u8; 6];
    let mut sink = SliceSerializer::new(&mut buf, 0);
    let mut ser = BoxStrSerializer::new();
    let item: Box<str> = "hi".into();
    assert_eq!(ser.input(item, &mut sink), Ok(Poll::Ready));
    assert_eq!(ser.finish(&mut sink), Ok(Poll::Ready));
    assert_eq!(buf, [2u8, 0, 0, 0, b'h', b'i']);
}
