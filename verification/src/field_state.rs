use vstd::prelude::*;
use crate::error::ZebinError;
use crate::helpers::FieldEntryEncoder;
use crate::primitive::{ByteSerializer, FixedLayout};
use crate::schema::{FIELD_ENTRY_SIZE, FieldEncoding, FieldEntry, field_entry_bytes};
use crate::sink::{CursorMut, Poll, is_full, room};

verus! {

/// Writing state of one field of a record: the field's serializer, whether it has been
/// handed its value, and the value waiting to be handed over.
pub struct FieldState<T> {
    pub encoder: ByteSerializer<T>,
    pub started: bool,
    pub slot: Option<T>,
}

impl<T: FixedLayout> FieldState<T> {
    pub fn new(encoder: ByteSerializer<T>) -> (r: FieldState<T>)
        ensures
            r.encoder == encoder,
            !r.started,
            r.slot is None,
    {
        FieldState { encoder, started: false, slot: None }
    }

    /// Puts `val` in the slot, to be written from its start.
    pub fn fill(&mut self, val: T)
        ensures
            final(self).encoder == old(self).encoder,
            final(self).slot == Some(val),
            !final(self).started,
    {
        self.slot = Some(val);
        self.started = false;
    }

    /// Writes as much of the field as the sink takes: the first call hands the waiting
    /// value to the serializer, later calls go on with its pending bytes.
    pub fn poll_write<S: CursorMut>(&mut self, sink: &mut S) -> (r: Result<Poll, ZebinError>)
        requires
            old(sink).inv(),
            !old(self).started ==> old(self).slot is Some,
            old(self).started ==> old(self).encoder.wf(),
        ensures
            final(sink).inv(),
            final(sink).limit() == old(sink).limit(),
            r == Ok::<Poll, ZebinError>(Poll::Pending) ==> is_full(*final(sink)),
            final(self).encoder.wf(),
            r matches Ok(p) ==> (p == Poll::Ready <==> final(self).encoder.sent() == final(self).encoder.encoding().len()),
            r is Ok ==> final(self).started,
            !old(self).started ==> {
                &&& final(self).slot is None
                &&& final(self).encoder.encoding() == T::spec_to_bytes(old(self).slot->0)
                &&& final(sink).written() == old(sink).written() + final(self).encoder.encoding().subrange(
                    0,
                    final(self).encoder.sent() as int,
                )
                &&& (r is Err ==> !final(self).started && final(self).encoder.sent() == 0)
                &&& (r is Err ==> T::spec_to_bytes(old(self).slot->0).len() > room(*old(sink)) && !S::never_refuses())
            },
            old(self).started ==> {
                &&& final(self).slot == old(self).slot
                &&& final(self).started
                &&& final(self).encoder.encoding() == old(self).encoder.encoding()
                &&& old(self).encoder.sent() <= final(self).encoder.sent()
                &&& final(sink).written() == old(sink).written() + old(self).encoder.encoding().subrange(
                    old(self).encoder.sent() as int,
                    final(self).encoder.sent() as int,
                )
                &&& (r is Err ==> old(self).encoder.encoding().len() - old(self).encoder.sent() > room(*old(sink))
                    && !S::never_refuses())
            },
    {
        if !self.started {
            let val = match self.slot.take() {
                Some(v) => v,
                None => {
                    return Ok(Poll::Ready);
                },
            };
            match self.encoder.input(val, sink) {
                Err(e) => {
                    return Err(e);
                },
                Ok(Poll::Pending) => {
                    self.started = true;
                    return Ok(Poll::Pending);
                },
                Ok(Poll::Ready) => {
                    self.started = true;
                },
            }
        } else {
            match self.encoder.poll_pending(sink) {
                Err(e) => {
                    return Err(e);
                },
                Ok(Poll::Pending) => {
                    return Ok(Poll::Pending);
                },
                Ok(Poll::Ready) => {},
            }
        }
        Ok(Poll::Ready)
    }

    /// Nothing is left to write once the field is sent.
    pub fn finish<S: CursorMut>(self, sink: &mut S) -> (r: Result<Poll, ZebinError>)
        ensures
            r == Ok::<Poll, ZebinError>(Poll::Ready),
            *final(sink) == *old(sink),
    {
        self.encoder.finish(sink)
    }
}

/// Writing state of one field of a schema-aware record: the field's state, the length of
/// its payload, and the writer of its field entry.
pub struct SchemaFieldState<T> {
    pub state: FieldState<T>,
    pub len: u32,
    pub entry_encoder: FieldEntryEncoder,
}

impl<T: FixedLayout> SchemaFieldState<T> {
    pub fn new(encoder: ByteSerializer<T>) -> (r: SchemaFieldState<T>)
        ensures
            r.state.encoder == encoder,
            !r.state.started,
            r.state.slot is None,
            r.len == 0,
            r.entry_encoder.sent() == 0,
    {
        SchemaFieldState { state: FieldState::new(encoder), len: 0, entry_encoder: FieldEntryEncoder::new() }
    }

    /// Puts `val` in the slot with its payload length; refused when the length does not
    /// fit in 32 bits, the value being in the slot already.
    pub fn fill(&mut self, val: T, len: usize) -> (r: Result<(), ZebinError>)
        ensures
            final(self).state.encoder == old(self).state.encoder,
            final(self).state.slot == Some(val),
            !final(self).state.started,
            final(self).entry_encoder == old(self).entry_encoder,
            len <= u32::MAX ==> r is Ok && final(self).len == len,
            len > u32::MAX ==> r == Err::<(), ZebinError>(
                ZebinError::SerializationError { pos: 0, message: "field payload length exceeds u32 range" },
            ) && final(self).len == old(self).len,
    {
        self.state.fill(val);
        if len > 0xffff_ffff {
            return Err(ZebinError::SerializationError { pos: 0, message: "field payload length exceeds u32 range" });
        }
        self.len = len as u32;
        Ok(())
    }

    /// Sends more of the field's entry: its id, encoding and payload length.
    pub fn poll_write_entry<S: CursorMut>(&mut self, sink: &mut S, field_id: u16, encoding: FieldEncoding) -> (r:
        Result<Poll, ZebinError>)
        requires
            old(sink).inv(),
            old(self).entry_encoder.sent() <= FIELD_ENTRY_SIZE,
        ensures
            final(sink).inv(),
            final(sink).limit() == old(sink).limit(),
            r == Ok::<Poll, ZebinError>(Poll::Pending) ==> is_full(*final(sink)),
            final(self).state == old(self).state,
            final(self).len == old(self).len,
            ({
                let bytes = field_entry_bytes(FieldEntry { field_id, encoding, payload_len: old(self).len });
                &&& old(self).entry_encoder.sent() <= final(self).entry_encoder.sent() <= FIELD_ENTRY_SIZE
                &&& final(sink).written() == old(sink).written() + bytes.subrange(
                    old(self).entry_encoder.sent() as int,
                    final(self).entry_encoder.sent() as int,
                )
                &&& r matches Ok(p) ==> (p == Poll::Ready <==> final(self).entry_encoder.sent() == FIELD_ENTRY_SIZE)
            }),
            r is Err ==> FIELD_ENTRY_SIZE - old(self).entry_encoder.sent() > room(*old(sink)) && !S::never_refuses(),
    {
        let len = self.len;
        self.entry_encoder.poll_write(sink, field_id, encoding, len)
    }

    /// Writes as much of the field's value as the sink takes.
    pub fn poll_write<S: CursorMut>(&mut self, sink: &mut S) -> (r: Result<Poll, ZebinError>)
        requires
            old(sink).inv(),
            !old(self).state.started ==> old(self).state.slot is Some,
            old(self).state.started ==> old(self).state.encoder.wf(),
        ensures
            final(sink).inv(),
            final(sink).limit() == old(sink).limit(),
            r == Ok::<Poll, ZebinError>(Poll::Pending) ==> is_full(*final(sink)),
            final(self).len == old(self).len,
            final(self).entry_encoder == old(self).entry_encoder,
            final(self).state.encoder.wf(),
            r matches Ok(p) ==> (p == Poll::Ready <==> final(self).state.encoder.sent()
                == final(self).state.encoder.encoding().len()),
            r is Ok ==> final(self).state.started,
            !old(self).state.started ==> {
                &&& final(self).state.slot is None
                &&& final(self).state.encoder.encoding() == T::spec_to_bytes(old(self).state.slot->0)
                &&& final(sink).written() == old(sink).written() + final(self).state.encoder.encoding().subrange(
                    0,
                    final(self).state.encoder.sent() as int,
                )
                &&& (r is Err ==> T::spec_to_bytes(old(self).state.slot->0).len() > room(*old(sink))
                    && !S::never_refuses())
            },
            old(self).state.started ==> {
                &&& final(self).state.encoder.encoding() == old(self).state.encoder.encoding()
                &&& final(sink).written() == old(sink).written() + old(self).state.encoder.encoding().subrange(
                    old(self).state.encoder.sent() as int,
                    final(self).state.encoder.sent() as int,
                )
                &&& (r is Err ==> old(self).state.encoder.encoding().len() - old(self).state.encoder.sent() > room(
                    *old(sink),
                ) && !S::never_refuses())
            },
    {
        self.state.poll_write(sink)
    }

    /// Nothing is left to write once the field is sent.
    pub fn finish<S: CursorMut>(self, sink: &mut S) -> (r: Result<Poll, ZebinError>)
        ensures
            r == Ok::<Poll, ZebinError>(Poll::Ready),
            *final(sink) == *old(sink),
    {
        self.state.finish(sink)
    }
}

} // verus!
