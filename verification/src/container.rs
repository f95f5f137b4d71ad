use vstd::prelude::*;
use crate::error::ZebinError;
use crate::primitive::{ByteSerializer, FixedLayout};
use crate::sink::{CursorMut, Poll, is_full, room};
use std::borrow::Cow;
use std::rc::Rc;
use std::sync::Arc;

verus! {

/// Serializer of a boxed value: the box is opened on input and its value written as the
/// value itself would be.
pub struct BoxSerializer<T> {
    inner: ByteSerializer<T>,
}

impl<T: FixedLayout> BoxSerializer<T> {
    /// The serializer of the boxed value.
    pub closed spec fn inner(&self) -> ByteSerializer<T> {
        self.inner
    }

    pub fn new() -> (s: BoxSerializer<T>)
        ensures
            s.inner().wf(),
            s.inner().encoding() == Seq::<u8>::empty(),
            s.inner().sent() == 0,
    {
        BoxSerializer { inner: ByteSerializer::new() }
    }

    /// Starts serializing the value in `item`.
    pub fn input<S: CursorMut>(&mut self, item: Box<T>, sink: &mut S) -> (r: Result<Poll, ZebinError>)
        requires
            old(sink).inv(),
        ensures
            final(sink).inv(),
            final(sink).limit() == old(sink).limit(),
            r == Ok::<Poll, ZebinError>(Poll::Pending) ==> is_full(*final(sink)),
            final(self).inner().wf(),
            final(self).inner().encoding() == T::spec_to_bytes(*item),
            final(sink).written() == old(sink).written() + final(self).inner().encoding().subrange(
                0,
                final(self).inner().sent() as int,
            ),
            final(sink).spec_pos() == old(sink).spec_pos() + final(self).inner().sent(),
            r matches Ok(p) ==> (p == Poll::Ready <==> final(self).inner().sent() == final(self).inner().encoding().len()),
            r is Err ==> final(self).inner().sent() == 0,
            r is Err ==> T::spec_to_bytes(*item).len() > room(*old(sink)) && !S::never_refuses(),
    {
        let value: T = *item;
        self.inner.input(value, sink)
    }

    /// Sends more of the value's bytes.
    pub fn poll_pending<S: CursorMut>(&mut self, sink: &mut S) -> (r: Result<Poll, ZebinError>)
        requires
            old(sink).inv(),
            old(self).inner().wf(),
        ensures
            final(sink).inv(),
            final(sink).limit() == old(sink).limit(),
            r == Ok::<Poll, ZebinError>(Poll::Pending) ==> is_full(*final(sink)),
            final(self).inner().wf(),
            final(self).inner().encoding() == old(self).inner().encoding(),
            old(self).inner().sent() <= final(self).inner().sent(),
            final(sink).written() == old(sink).written() + old(self).inner().encoding().subrange(
                old(self).inner().sent() as int,
                final(self).inner().sent() as int,
            ),
            final(sink).spec_pos() == old(sink).spec_pos() + (final(self).inner().sent() - old(self).inner().sent()),
            r matches Ok(p) ==> (p == Poll::Ready <==> final(self).inner().sent() == final(self).inner().encoding().len()),
            r is Err ==> final(self).inner().sent() == old(self).inner().sent(),
            r is Err ==> old(self).inner().encoding().len() - old(self).inner().sent() > room(*old(sink))
                && !S::never_refuses(),
    {
        self.inner.poll_pending(sink)
    }

    /// Nothing is left to write once the value is sent.
    pub fn finish<S: CursorMut>(self, sink: &mut S) -> (r: Result<Poll, ZebinError>)
        ensures
            r == Ok::<Poll, ZebinError>(Poll::Ready),
            *final(sink) == *old(sink),
    {
        self.inner.finish(sink)
    }
}

/// Serializer of a borrowed value: the value is copied out of the reference on input
/// and written as the value itself would be.
pub struct RefSerializer<'b, T> {
    inner: ByteSerializer<T>,
    _borrow: core::marker::PhantomData<&'b T>,
}

impl<'b, T: FixedLayout> RefSerializer<'b, T> {
    /// The serializer of the referenced value.
    pub closed spec fn inner(&self) -> ByteSerializer<T> {
        self.inner
    }

    pub fn new() -> (s: RefSerializer<'b, T>)
        ensures
            s.inner().wf(),
            s.inner().encoding() == Seq::<u8>::empty(),
            s.inner().sent() == 0,
    {
        RefSerializer { inner: ByteSerializer::new(), _borrow: core::marker::PhantomData }
    }

    /// Starts serializing the value behind `item`.
    pub fn input<S: CursorMut>(&mut self, item: &'b T, sink: &mut S) -> (r: Result<Poll, ZebinError>)
        requires
            old(sink).inv(),
        ensures
            final(sink).inv(),
            final(sink).limit() == old(sink).limit(),
            r == Ok::<Poll, ZebinError>(Poll::Pending) ==> is_full(*final(sink)),
            final(self).inner().wf(),
            final(self).inner().encoding() == T::spec_to_bytes(*item),
            final(sink).written() == old(sink).written() + final(self).inner().encoding().subrange(
                0,
                final(self).inner().sent() as int,
            ),
            final(sink).spec_pos() == old(sink).spec_pos() + final(self).inner().sent(),
            r matches Ok(p) ==> (p == Poll::Ready <==> final(self).inner().sent() == final(self).inner().encoding().len()),
            r is Err ==> final(self).inner().sent() == 0,
            r is Err ==> T::spec_to_bytes(*item).len() > room(*old(sink)) && !S::never_refuses(),
    {
        let value: T = *item;
        self.inner.input(value, sink)
    }

    /// Sends more of the value's bytes.
    pub fn poll_pending<S: CursorMut>(&mut self, sink: &mut S) -> (r: Result<Poll, ZebinError>)
        requires
            old(sink).inv(),
            old(self).inner().wf(),
        ensures
            final(sink).inv(),
            final(sink).limit() == old(sink).limit(),
            r == Ok::<Poll, ZebinError>(Poll::Pending) ==> is_full(*final(sink)),
            final(self).inner().wf(),
            final(self).inner().encoding() == old(self).inner().encoding(),
            old(self).inner().sent() <= final(self).inner().sent(),
            final(sink).written() == old(sink).written() + old(self).inner().encoding().subrange(
                old(self).inner().sent() as int,
                final(self).inner().sent() as int,
            ),
            final(sink).spec_pos() == old(sink).spec_pos() + (final(self).inner().sent() - old(self).inner().sent()),
            r matches Ok(p) ==> (p == Poll::Ready <==> final(self).inner().sent() == final(self).inner().encoding().len()),
            r is Err ==> final(self).inner().sent() == old(self).inner().sent(),
            r is Err ==> old(self).inner().encoding().len() - old(self).inner().sent() > room(*old(sink))
                && !S::never_refuses(),
    {
        self.inner.poll_pending(sink)
    }

    /// Nothing is left to write once the value is sent.
    pub fn finish<S: CursorMut>(self, sink: &mut S) -> (r: Result<Poll, ZebinError>)
        ensures
            r == Ok::<Poll, ZebinError>(Poll::Ready),
            *final(sink) == *old(sink),
    {
        self.inner.finish(sink)
    }
}

/// Serializer of a value held in shared ownership (`Rc` or `Arc`, chosen by `W`): the
/// value is copied out on input and written as the value itself would be.
pub struct SharedRefSerializer<T, W> {
    inner: ByteSerializer<T>,
    _wrapper: core::marker::PhantomData<W>,
}

impl<T: FixedLayout, W> SharedRefSerializer<T, W> {
    /// The serializer of the shared value.
    pub closed spec fn inner(&self) -> ByteSerializer<T> {
        self.inner
    }

    pub fn new() -> (s: SharedRefSerializer<T, W>)
        ensures
            s.inner().wf(),
            s.inner().encoding() == Seq::<u8>::empty(),
            s.inner().sent() == 0,
    {
        SharedRefSerializer { inner: ByteSerializer::new(), _wrapper: core::marker::PhantomData }
    }

    /// Sends more of the value's bytes.
    pub fn poll_pending<S: CursorMut>(&mut self, sink: &mut S) -> (r: Result<Poll, ZebinError>)
        requires
            old(sink).inv(),
            old(self).inner().wf(),
        ensures
            final(sink).inv(),
            final(sink).limit() == old(sink).limit(),
            r == Ok::<Poll, ZebinError>(Poll::Pending) ==> is_full(*final(sink)),
            final(self).inner().wf(),
            final(self).inner().encoding() == old(self).inner().encoding(),
            old(self).inner().sent() <= final(self).inner().sent(),
            final(sink).written() == old(sink).written() + old(self).inner().encoding().subrange(
                old(self).inner().sent() as int,
                final(self).inner().sent() as int,
            ),
            final(sink).spec_pos() == old(sink).spec_pos() + (final(self).inner().sent() - old(self).inner().sent()),
            r matches Ok(p) ==> (p == Poll::Ready <==> final(self).inner().sent() == final(self).inner().encoding().len()),
            r is Err ==> final(self).inner().sent() == old(self).inner().sent(),
            r is Err ==> old(self).inner().encoding().len() - old(self).inner().sent() > room(*old(sink))
                && !S::never_refuses(),
    {
        self.inner.poll_pending(sink)
    }

    /// Nothing is left to write once the value is sent.
    pub fn finish<S: CursorMut>(self, sink: &mut S) -> (r: Result<Poll, ZebinError>)
        ensures
            r == Ok::<Poll, ZebinError>(Poll::Ready),
            *final(sink) == *old(sink),
    {
        self.inner.finish(sink)
    }
}

impl<T: FixedLayout> SharedRefSerializer<T, Rc<T>> {
    /// Starts serializing the value in `item`.
    pub fn input<S: CursorMut>(&mut self, item: Rc<T>, sink: &mut S) -> (r: Result<Poll, ZebinError>)
        requires
            old(sink).inv(),
        ensures
            final(sink).inv(),
            final(sink).limit() == old(sink).limit(),
            r == Ok::<Poll, ZebinError>(Poll::Pending) ==> is_full(*final(sink)),
            final(self).inner().wf(),
            final(self).inner().encoding() == T::spec_to_bytes(*item),
            final(sink).written() == old(sink).written() + final(self).inner().encoding().subrange(
                0,
                final(self).inner().sent() as int,
            ),
            final(sink).spec_pos() == old(sink).spec_pos() + final(self).inner().sent(),
            r matches Ok(p) ==> (p == Poll::Ready <==> final(self).inner().sent() == final(self).inner().encoding().len()),
            r is Err ==> final(self).inner().sent() == 0,
            r is Err ==> T::spec_to_bytes(*item).len() > room(*old(sink)) && !S::never_refuses(),
    {
        let value: T = *item;
        self.inner.input(value, sink)
    }
}

impl<T: FixedLayout> SharedRefSerializer<T, Arc<T>> {
    /// Starts serializing the value in `item`.
    pub fn input<S: CursorMut>(&mut self, item: Arc<T>, sink: &mut S) -> (r: Result<Poll, ZebinError>)
        requires
            old(sink).inv(),
        ensures
            final(sink).inv(),
            final(sink).limit() == old(sink).limit(),
            r == Ok::<Poll, ZebinError>(Poll::Pending) ==> is_full(*final(sink)),
            final(self).inner().wf(),
            final(self).inner().encoding() == T::spec_to_bytes(*item),
            final(sink).written() == old(sink).written() + final(self).inner().encoding().subrange(
                0,
                final(self).inner().sent() as int,
            ),
            final(sink).spec_pos() == old(sink).spec_pos() + final(self).inner().sent(),
            r matches Ok(p) ==> (p == Poll::Ready <==> final(self).inner().sent() == final(self).inner().encoding().len()),
            r is Err ==> final(self).inner().sent() == 0,
            r is Err ==> T::spec_to_bytes(*item).len() > room(*old(sink)) && !S::never_refuses(),
    {
        let value: T = *item;
        self.inner.input(value, sink)
    }
}

/// The value a copy-on-write holder holds, borrowed or owned.
pub open spec fn spec_cow_value<'c, T: FixedLayout>(item: Cow<'c, T>) -> T {
    match item {
        Cow::Borrowed(b) => *b,
        Cow::Owned(o) => o,
    }
}

/// Serializer of a copy-on-write value: the value, borrowed or owned, is taken on input
/// and written as the value itself would be.
pub struct CowSerializer<'c, T> {
    inner: ByteSerializer<T>,
    _borrow: core::marker::PhantomData<&'c T>,
}

impl<'c, T: FixedLayout> CowSerializer<'c, T> {
    /// The serializer of the value.
    pub closed spec fn inner(&self) -> ByteSerializer<T> {
        self.inner
    }

    pub fn new() -> (s: CowSerializer<'c, T>)
        ensures
            s.inner().wf(),
            s.inner().encoding() == Seq::<u8>::empty(),
            s.inner().sent() == 0,
    {
        CowSerializer { inner: ByteSerializer::new(), _borrow: core::marker::PhantomData }
    }

    /// Starts serializing the value in `item`.
    pub fn input<S: CursorMut>(&mut self, item: Cow<'c, T>, sink: &mut S) -> (r: Result<Poll, ZebinError>)
        requires
            old(sink).inv(),
        ensures
            final(sink).inv(),
            final(sink).limit() == old(sink).limit(),
            r == Ok::<Poll, ZebinError>(Poll::Pending) ==> is_full(*final(sink)),
            final(self).inner().wf(),
            final(self).inner().encoding() == T::spec_to_bytes(spec_cow_value(item)),
            final(sink).written() == old(sink).written() + final(self).inner().encoding().subrange(
                0,
                final(self).inner().sent() as int,
            ),
            final(sink).spec_pos() == old(sink).spec_pos() + final(self).inner().sent(),
            r matches Ok(p) ==> (p == Poll::Ready <==> final(self).inner().sent() == final(self).inner().encoding().len()),
            r is Err ==> final(self).inner().sent() == 0,
            r is Err ==> T::spec_to_bytes(spec_cow_value(item)).len() > room(*old(sink)) && !S::never_refuses(),
    {
        let value: T = match item {
            Cow::Borrowed(b) => *b,
            Cow::Owned(o) => o,
        };
        self.inner.input(value, sink)
    }

    /// Sends more of the value's bytes.
    pub fn poll_pending<S: CursorMut>(&mut self, sink: &mut S) -> (r: Result<Poll, ZebinError>)
        requires
            old(sink).inv(),
            old(self).inner().wf(),
        ensures
            final(sink).inv(),
            final(sink).limit() == old(sink).limit(),
            r == Ok::<Poll, ZebinError>(Poll::Pending) ==> is_full(*final(sink)),
            final(self).inner().wf(),
            final(self).inner().encoding() == old(self).inner().encoding(),
            old(self).inner().sent() <= final(self).inner().sent(),
            final(sink).written() == old(sink).written() + old(self).inner().encoding().subrange(
                old(self).inner().sent() as int,
                final(self).inner().sent() as int,
            ),
            final(sink).spec_pos() == old(sink).spec_pos() + (final(self).inner().sent() - old(self).inner().sent()),
            r matches Ok(p) ==> (p == Poll::Ready <==> final(self).inner().sent() == final(self).inner().encoding().len()),
            r is Err ==> final(self).inner().sent() == old(self).inner().sent(),
            r is Err ==> old(self).inner().encoding().len() - old(self).inner().sent() > room(*old(sink))
                && !S::never_refuses(),
    {
        self.inner.poll_pending(sink)
    }

    /// Nothing is left to write once the value is sent.
    pub fn finish<S: CursorMut>(self, sink: &mut S) -> (r: Result<Poll, ZebinError>)
        ensures
            r == Ok::<Poll, ZebinError>(Poll::Ready),
            *final(sink) == *old(sink),
    {
        self.inner.finish(sink)
    }
}

} // verus!
