use vstd::prelude::*;
use crate::block_index::{DEFAULT_CHUNK_SIZE, build_block_index_bytes};
use crate::error::ZebinError;
use crate::iter::IterArchive;
use crate::primitive::FixedLayout;
use crate::seq_serializer::{
    SeqSerializer,
    is_prefix,
    lemma_follows_refl,
    lemma_follows_trans,
    lemma_block_offsets_sorted,
    lemma_element_bytes_facts,
    sink_follows,
    spec_block_offsets,
    spec_seq_stream,
};
use crate::sink::{CursorMut, Poll, is_full, room};
use crate::seq_roundtrip::lemma_elements_prefix;
use crate::seq_serializer::spec_elements_bytes;
use crate::utils::padding_for_alignment;

verus! {

/// Serializer of a whole collection as a sequence: the values are taken in order,
/// each written through a sequence serializer, and the sequence is finished after the
/// last one.
pub struct OwnedIterSerializer<T> {
    source: Option<Vec<T>>,
    next: usize,
    seq_serializer: SeqSerializer<T>,
}

/// The same serializer under the name the encoding side uses.
pub type OwnedIterEncoder<T> = OwnedIterSerializer<T>;

impl<T: FixedLayout> OwnedIterSerializer<T> {
    /// The collection being written, once given.
    pub closed spec fn source(&self) -> Option<Seq<T>> {
        match self.source {
            Some(v) => Some(v@),
            None => None,
        }
    }

    /// The sequence serializer underneath.
    pub closed spec fn inner(&self) -> SeqSerializer<T> {
        self.seq_serializer
    }

    /// Number of values handed to the sequence serializer so far.
    pub closed spec fn taken(&self) -> nat {
        self.next as nat
    }

    pub closed spec fn wf(&self) -> bool {
        &&& self.seq_serializer.wf()
        &&& match self.source {
            Some(v) => self.next <= v@.len() && self.seq_serializer.items() == v@.take(self.next as int) && (
            self.seq_serializer.finish_called() ==> self.next == v@.len()),
            None => self.next == 0 && self.seq_serializer.items() == Seq::<T>::empty() && !self.seq_serializer.busy()
                && !self.seq_serializer.finish_called(),
        }
    }

    /// Everything written for the collection once it is complete.
    pub open spec fn full_stream(&self) -> Seq<u8> {
        spec_seq_stream(self.source()->0, self.inner().base(), true, self.inner().is_indexed())
    }

    pub fn new() -> (s: OwnedIterSerializer<T>)
        ensures
            s.wf(),
            s.source() is None,
            !s.inner().is_indexed(),
            s.inner().emitted() == Seq::<u8>::empty(),
            s.inner().items() == Seq::<T>::empty(),
            !s.inner().finish_called(),
            !s.inner().busy(),
    {
        OwnedIterSerializer { source: None, next: 0, seq_serializer: SeqSerializer::new() }
    }

    /// A serializer that writes a block index after collections of more than one chunk.
    pub fn new_indexed() -> (s: OwnedIterSerializer<T>)
        ensures
            s.wf(),
            s.source() is None,
            s.inner().is_indexed(),
            s.inner().emitted() == Seq::<u8>::empty(),
            s.inner().items() == Seq::<T>::empty(),
            !s.inner().finish_called(),
            !s.inner().busy(),
    {
        OwnedIterSerializer { source: None, next: 0, seq_serializer: SeqSerializer::new_indexed() }
    }

    /// Takes the collection and writes as much as the sink takes.
    pub fn input<S: CursorMut>(&mut self, items: Vec<T>, sink: &mut S) -> (r: Result<Poll, ZebinError>)
        requires
            old(sink).inv(),
            old(self).wf(),
            old(self).source() is None,
        ensures
            final(sink).inv(),
            final(sink).limit() == old(sink).limit(),
            r == Ok::<Poll, ZebinError>(Poll::Pending) ==> is_full(*final(sink)),
            final(self).source() == Some(items@),
            final(self).inner().is_indexed() == old(self).inner().is_indexed(),
            sink_follows(old(self).inner().emitted(), final(self).inner().emitted(), *old(sink), *final(sink)),
            is_prefix(final(self).inner().emitted(), final(self).inner().stream()),
            r is Ok ==> final(self).wf(),
            r matches Ok(p) ==> (p == Poll::Ready <==> final(self).inner().emitted() == final(self).full_stream()),
            r is Err ==> final(self).full_stream().len() - old(self).inner().emitted().len() > room(*old(sink)) && !S::never_refuses(),
    {
        self.source = Some(items);
        self.next = 0;
        proof {
            assert(items@.take(0) =~= Seq::<T>::empty());
        }
        self.poll_pending(sink)
    }

    /// Writes as much as the sink takes: the pending part of the current value, further
    /// values, and the end of the sequence. Refused before any collection was given.
    pub fn poll_pending<S: CursorMut>(&mut self, sink: &mut S) -> (r: Result<Poll, ZebinError>)
        requires
            old(sink).inv(),
            old(self).wf(),
            old(self).inner().continues_at(old(sink).spec_pos()),
        ensures
            final(sink).inv(),
            final(sink).limit() == old(sink).limit(),
            r == Ok::<Poll, ZebinError>(Poll::Pending) ==> is_full(*final(sink)),
            old(self).source() is None ==> r == Err::<Poll, ZebinError>(
                ZebinError::SerializationError {
                    pos: old(sink).spec_pos() as usize,
                    message: "OwnedIterSerializer polled before input",
                },
            ) && *final(self) == *old(self) && *final(sink) == *old(sink),
            final(self).source() == old(self).source(),
            final(self).inner().is_indexed() == old(self).inner().is_indexed(),
            sink_follows(old(self).inner().emitted(), final(self).inner().emitted(), *old(sink), *final(sink)),
            is_prefix(final(self).inner().emitted(), final(self).inner().stream()),
            r is Ok ==> final(self).wf(),
            r matches Ok(p) ==> (p == Poll::Ready <==> final(self).inner().emitted() == final(self).full_stream()),
            old(self).source() is Some && r is Err ==> final(self).full_stream().len() - old(self).inner().emitted().len()
                > room(*old(sink)) && !S::never_refuses(),
    {
        let pos = sink.pos();
        if self.source.is_none() {
            proof {
                lemma_follows_refl(self.seq_serializer.emitted(), *sink);
                self.seq_serializer.lemma_wf_prefix();
            }
            return Err(ZebinError::SerializationError { pos, message: "OwnedIterSerializer polled before input" });
        }
        let ghost e_start = self.seq_serializer.emitted();
        let ghost s_start = *sink;
        proof {
            lemma_follows_refl(e_start, *sink);
            self.seq_serializer.lemma_wf_prefix();
        }
        loop
            invariant
                sink.inv(),
                sink.limit() == old(sink).limit(),
                self.wf(),
                self.source is Some,
                self.source() == old(self).source(),
                self.seq_serializer.is_indexed() == old(self).seq_serializer.is_indexed(),
                self.seq_serializer.continues_at(sink.spec_pos()),
                sink_follows(e_start, self.seq_serializer.emitted(), s_start, *sink),
                e_start == old(self).inner().emitted(),
                s_start == *old(sink),
                is_prefix(self.seq_serializer.emitted(), self.seq_serializer.stream()),
                self.seq_serializer.finish_called() ==> self.next == self.source()->0.len(),
            decreases (self.source()->0.len() - self.next) + (if self.seq_serializer.finish_called() {
                0int
            } else {
                1int
            }),
        {
            let ghost e1 = self.seq_serializer.emitted();
            let ghost s1 = *sink;
            let ghost st1 = self.seq_serializer.stream();
            let p = self.seq_serializer.poll_pending(sink);
            proof {
                lemma_follows_trans(e_start, e1, self.seq_serializer.emitted(), s_start, s1, *sink);
            }
            if p.is_err() {
                proof {
                    let v = self.source()->0;
                    assert(st1 == self.seq_serializer.stream());
                    Self::lemma_partial_stream_len(v, self.next as int, self.seq_serializer.base(),
                        self.seq_serializer.finish_called(), self.seq_serializer.is_indexed());
                }
                return p;
            }
            if p?.is_pending() {
                proof {
                    self.lemma_pending_not_full();
                }
                return Ok(Poll::Pending);
            }
            if self.seq_serializer.is_finished() {
                proof {
                    let v = self.source()->0;
                    assert(v.take(v.len() as int) =~= v);
                }
                return Ok(Poll::Ready);
            }
            let len = match &self.source {
                Some(v) => v.len(),
                None => 0,
            };
            let ghost e2 = self.seq_serializer.emitted();
            let ghost s2 = *sink;
            if self.next < len {
                let item = match &self.source {
                    Some(v) => v[self.next],
                    None => {
                        return Ok(Poll::Pending);
                    },
                };
                let ghost v = self.source()->0;
                proof {
                    assert(v.take(self.next + 1) =~= v.take(self.next as int).push(item));
                }
                let res = self.seq_serializer.input(item, sink);
                if res.is_err() {
                    proof {
                        lemma_follows_trans(e_start, e2, self.seq_serializer.emitted(), s_start, s2, *sink);
                        Self::lemma_partial_stream_len(v, self.next + 1, self.seq_serializer.base(), false,
                            self.seq_serializer.is_indexed());
                    }
                    return res;
                }
                self.next = self.next + 1;
                proof {
                    lemma_follows_trans(e_start, e2, self.seq_serializer.emitted(), s_start, s2, *sink);
                }
                if res?.is_pending() {
                    proof {
                        self.lemma_pending_not_full();
                    }
                    return Ok(Poll::Pending);
                }
            } else {
                let res = self.seq_serializer.finish_ref(sink);
                proof {
                    lemma_follows_trans(e_start, e2, self.seq_serializer.emitted(), s_start, s2, *sink);
                }
                if res.is_err() {
                    proof {
                        let v = self.source()->0;
                        assert(v.take(v.len() as int) =~= v);
                    }
                    return res;
                }
                if res?.is_pending() {
                    proof {
                        self.lemma_pending_not_full();
                    }
                    return Ok(Poll::Pending);
                }
            }
        }
    }

    /// What is written for part of a collection is no longer than what is written for all of it.
    proof fn lemma_partial_stream_len(v: Seq<T>, k: int, b: int, fin: bool, idx: bool)
        requires
            0 <= k <= v.len(),
            fin ==> k == v.len(),
        ensures
            spec_seq_stream(v.take(k), b, fin, idx).len() <= spec_seq_stream(v, b, true, idx).len(),
    {
        if fin {
            assert(v.take(k) =~= v);
        } else {
            lemma_elements_prefix(v, b, k);
        }
    }

    /// While the sequence serializer has something left, the collection is not complete.
    proof fn lemma_pending_not_full(&self)
        requires
            self.wf(),
            self.source is Some,
            is_prefix(self.inner().emitted(), self.inner().stream()),
            self.inner().emitted() != self.inner().stream(),
            self.inner().finish_called() ==> self.taken() == self.source()->0.len(),
        ensures
            self.inner().emitted() != self.full_stream(),
    {
        let v = self.source()->0;
        if self.seq_serializer.finish_called() {
            assert(v.take(v.len() as int) =~= v);
        } else {
            lemma_elements_prefix(v, self.seq_serializer.base(), self.next as int);
            assert(self.full_stream().len() > spec_elements_bytes(v, self.seq_serializer.base()).len());
        }
    }

    /// Ends the sequence and retires the serializer.
    pub fn finish<S: CursorMut>(self, sink: &mut S) -> (r: Result<Poll, ZebinError>)
        requires
            old(sink).inv(),
            self.wf(),
            self.inner().continues_at(old(sink).spec_pos()),
        ensures
            final(sink).inv(),
            final(sink).limit() == old(sink).limit(),
            r == Ok::<Poll, ZebinError>(Poll::Pending) ==> is_full(*final(sink)),
            r is Ok ==> r == Ok::<Poll, ZebinError>(Poll::Ready),
            !self.inner().finish_called() && self.inner().busy() ==> r == Err::<Poll, ZebinError>(
                ZebinError::SerializationError { pos: old(sink).spec_pos() as usize, message: "Serializer is busy" },
            ) && *final(sink) == *old(sink),
            old(sink).written().len() <= final(sink).written().len(),
            final(sink).written().subrange(0, old(sink).written().len() as int) == old(sink).written(),
            self.inner().finish_called() || !self.inner().busy() ==> is_prefix(
                self.inner().emitted() + final(sink).written().subrange(
                    old(sink).written().len() as int,
                    final(sink).written().len() as int,
                ),
                spec_seq_stream(
                    self.inner().items(),
                    if self.inner().started() {
                        self.inner().base()
                    } else {
                        old(sink).spec_pos()
                    },
                    true,
                    self.inner().is_indexed(),
                ),
            ),
            r is Ok && (self.inner().finish_called() || !self.inner().busy()) ==> (self.inner().emitted()
                + final(sink).written().subrange(old(sink).written().len() as int, final(sink).written().len() as int)
                == spec_seq_stream(
                self.inner().items(),
                if self.inner().started() {
                    self.inner().base()
                } else {
                    old(sink).spec_pos()
                },
                true,
                self.inner().is_indexed(),
            ) || is_full(*final(sink))),
            r is Err && (self.inner().finish_called() || !self.inner().busy()) ==> spec_seq_stream(
                self.inner().items(),
                if self.inner().started() {
                    self.inner().base()
                } else {
                    old(sink).spec_pos()
                },
                true,
                self.inner().is_indexed(),
            ).len() - self.inner().emitted().len() > room(*old(sink)) && !S::never_refuses(),
    {
        self.seq_serializer.finish(sink)
    }
}

/// Encoder of a borrowed slice as a sequence: the elements are copied out of the slice
/// and written as an indexed sequence, as the owned-collection encoder writes them.
pub struct RefIterEncoder<'a, T> {
    slice: Option<&'a [T]>,
    inner: OwnedIterSerializer<T>,
}

impl<'a, T: FixedLayout> RefIterEncoder<'a, T> {
    /// The slice being written, once given.
    pub closed spec fn source(&self) -> Option<Seq<T>> {
        match self.slice {
            Some(s) => Some(s@),
            None => None,
        }
    }

    /// The collection encoder underneath.
    pub closed spec fn owned(&self) -> OwnedIterSerializer<T> {
        self.inner
    }

    pub closed spec fn wf(&self) -> bool {
        &&& self.inner.wf()
        &&& self.inner.source() == self.source()
    }

    pub fn new() -> (s: RefIterEncoder<'a, T>)
        ensures
            s.wf(),
            s.source() is None,
            s.owned().inner().is_indexed(),
            s.owned().inner().emitted() == Seq::<u8>::empty(),
            s.owned().inner().items() == Seq::<T>::empty(),
            !s.owned().inner().finish_called(),
    {
        RefIterEncoder { slice: None, inner: OwnedIterSerializer::new_indexed() }
    }

    /// Takes the slice and writes as much of the sequence as the sink takes.
    pub fn input<S: CursorMut>(&mut self, item: &'a [T], sink: &mut S) -> (r: Result<Poll, ZebinError>)
        requires
            old(sink).inv(),
            old(self).wf(),
            old(self).source() is None,
        ensures
            final(sink).inv(),
            final(sink).limit() == old(sink).limit(),
            r == Ok::<Poll, ZebinError>(Poll::Pending) ==> is_full(*final(sink)),
            final(self).source() == Some(item@),
            final(self).owned().source() == Some(item@),
            final(self).owned().inner().is_indexed() == old(self).owned().inner().is_indexed(),
            sink_follows(
                old(self).owned().inner().emitted(),
                final(self).owned().inner().emitted(),
                *old(sink),
                *final(sink),
            ),
            is_prefix(final(self).owned().inner().emitted(), final(self).owned().inner().stream()),
            r is Ok ==> final(self).wf(),
            r matches Ok(p) ==> (p == Poll::Ready <==> final(self).owned().inner().emitted()
                == final(self).owned().full_stream()),
            r is Err ==> final(self).owned().full_stream().len() - old(self).owned().inner().emitted().len() > room(
                *old(sink),
            ) && !S::never_refuses(),
    {
        let mut items: Vec<T> = Vec::new();
        let mut i: usize = 0;
        while i < item.len()
            invariant
                i <= item@.len(),
                items@ == item@.take(i as int),
            decreases item@.len() - i,
        {
            items.push(item[i]);
            i = i + 1;
            proof {
                assert(items@ =~= item@.take(i as int));
            }
        }
        proof {
            assert(item@.take(item@.len() as int) =~= item@);
        }
        self.slice = Some(item);
        self.inner.input(items, sink)
    }

    /// Writes as much as the sink takes. Refused before any slice was given.
    pub fn poll_pending<S: CursorMut>(&mut self, sink: &mut S) -> (r: Result<Poll, ZebinError>)
        requires
            old(sink).inv(),
            old(self).wf(),
            old(self).owned().inner().continues_at(old(sink).spec_pos()),
        ensures
            final(sink).inv(),
            final(sink).limit() == old(sink).limit(),
            r == Ok::<Poll, ZebinError>(Poll::Pending) ==> is_full(*final(sink)),
            old(self).source() is None ==> r == Err::<Poll, ZebinError>(
                ZebinError::SerializationError {
                    pos: old(sink).spec_pos() as usize,
                    message: "RefIterEncoder polled before input",
                },
            ) && *final(self) == *old(self) && *final(sink) == *old(sink),
            final(self).source() == old(self).source(),
            final(self).owned().source() == old(self).owned().source(),
            final(self).owned().inner().is_indexed() == old(self).owned().inner().is_indexed(),
            sink_follows(
                old(self).owned().inner().emitted(),
                final(self).owned().inner().emitted(),
                *old(sink),
                *final(sink),
            ),
            is_prefix(final(self).owned().inner().emitted(), final(self).owned().inner().stream()),
            r is Ok ==> final(self).wf(),
            r matches Ok(p) ==> (p == Poll::Ready <==> final(self).owned().inner().emitted()
                == final(self).owned().full_stream()),
            old(self).source() is Some && r is Err ==> final(self).owned().full_stream().len() - old(
                self,
            ).owned().inner().emitted().len() > room(*old(sink)) && !S::never_refuses(),
    {
        if self.slice.is_none() {
            proof {
                lemma_follows_refl(self.inner.inner().emitted(), *sink);
                self.inner.inner().lemma_wf_prefix();
            }
            return Err(ZebinError::SerializationError { pos: sink.pos(), message: "RefIterEncoder polled before input" });
        }
        self.inner.poll_pending(sink)
    }

    /// Ends the sequence and retires the encoder.
    pub fn finish<S: CursorMut>(self, sink: &mut S) -> (r: Result<Poll, ZebinError>)
        requires
            old(sink).inv(),
            self.wf(),
            self.owned().inner().continues_at(old(sink).spec_pos()),
        ensures
            final(sink).inv(),
            final(sink).limit() == old(sink).limit(),
            r is Ok ==> r == Ok::<Poll, ZebinError>(Poll::Ready),
            old(sink).written().len() <= final(sink).written().len(),
            final(sink).written().subrange(0, old(sink).written().len() as int) == old(sink).written(),
            !self.owned().inner().finish_called() && self.owned().inner().busy() ==> r == Err::<Poll, ZebinError>(
                ZebinError::SerializationError { pos: old(sink).spec_pos() as usize, message: "Serializer is busy" },
            ) && *final(sink) == *old(sink),
            self.owned().inner().finish_called() || !self.owned().inner().busy() ==> is_prefix(
                self.owned().inner().emitted() + final(sink).written().subrange(
                    old(sink).written().len() as int,
                    final(sink).written().len() as int,
                ),
                spec_seq_stream(
                    self.owned().inner().items(),
                    if self.owned().inner().started() {
                        self.owned().inner().base()
                    } else {
                        old(sink).spec_pos()
                    },
                    true,
                    self.owned().inner().is_indexed(),
                ),
            ),
            r is Ok && (self.owned().inner().finish_called() || !self.owned().inner().busy()) ==> (
            self.owned().inner().emitted() + final(sink).written().subrange(
                old(sink).written().len() as int,
                final(sink).written().len() as int,
            ) == spec_seq_stream(
                self.owned().inner().items(),
                if self.owned().inner().started() {
                    self.owned().inner().base()
                } else {
                    old(sink).spec_pos()
                },
                true,
                self.owned().inner().is_indexed(),
            ) || is_full(*final(sink))),
            r is Err && (self.owned().inner().finish_called() || !self.owned().inner().busy()) ==> spec_seq_stream(
                self.owned().inner().items(),
                if self.owned().inner().started() {
                    self.owned().inner().base()
                } else {
                    old(sink).spec_pos()
                },
                true,
                self.owned().inner().is_indexed(),
            ).len() - self.owned().inner().emitted().len() > room(*old(sink)) && !S::never_refuses(),
    {
        self.inner.finish(sink)
    }
}

/// Measured size of a sequence of `items`: exactly what a finished, indexed sequence
/// serializer writes for them from position 0 (elements, terminator, and the block
/// index past one chunk).
pub open spec fn spec_measure_sequence<T: FixedLayout>(items: Seq<T>) -> int {
    spec_seq_stream(items, 0, true, true).len() as int
}

impl<T: FixedLayout> IterArchive<Vec<T>, T> {
    /// The encoder for a collection: it writes a block index after collections of more
    /// than one chunk.
    pub fn encoder() -> (s: OwnedIterEncoder<T>)
        ensures
            s.wf(),
            s.source() is None,
            s.inner().is_indexed(),
            s.inner().emitted() == Seq::<u8>::empty(),
    {
        OwnedIterEncoder::new_indexed()
    }

    /// Serialized size of the collection as a sequence, or an overflow error.
    pub fn measure_body(&self) -> (r: Result<usize, ZebinError>)
        ensures
            spec_measure_sequence::<T>(self.inner@) <= usize::MAX ==> r == Ok::<usize, ZebinError>(
                spec_measure_sequence::<T>(self.inner@) as usize,
            ),
            spec_measure_sequence::<T>(self.inner@) > usize::MAX ==> r matches Err(
                ZebinError::ArithmeticOverflow { .. },
            ),
    {
        measure_sequence::<T>(self.inner.as_slice())
    }
}

/// Measured size of `items` written as an indexed sequence from position 0, or an
/// overflow error: the element positions are followed as the serializer lays them
/// out, and the block index is built from the offsets of the chunk starts.
fn measure_sequence<T: FixedLayout>(items: &[T]) -> (r: Result<usize, ZebinError>)
    ensures
        spec_measure_sequence::<T>(items@) <= usize::MAX ==> r == Ok::<usize, ZebinError>(
            spec_measure_sequence::<T>(items@) as usize,
        ),
        spec_measure_sequence::<T>(items@) > usize::MAX ==> r matches Err(ZebinError::ArithmeticOverflow { .. }),
{
    let alignment = T::alignment();
    let size = T::size();
    let n = items.len();
    let ghost all = items@;
    let mut pos: usize = 0;
    let mut offsets: Vec<usize> = Vec::new();
    let mut i: usize = 0;
    proof {
        assert(all.take(0) =~= Seq::<T>::empty());
    }
    while i < n
        invariant
            i <= n,
            n == all.len(),
            all == items@,
            alignment == T::spec_alignment(),
            alignment > 0,
            size == T::spec_size(),
            pos == spec_elements_bytes(all.take(i as int), 0).len(),
            offsets@ == spec_block_offsets(all.take(i as int), 0),
        decreases n - i,
    {
        let ghost t = all.take(i + 1);
        proof {
            assert(t.drop_last() =~= all.take(i as int));
            assert(t.last() == all[i as int]);
            lemma_element_bytes_facts(all[i as int], pos as int);
            T::lemma_roundtrip(all[i as int], 0);
            lemma_elements_prefix(all, 0, i + 1);
            lemma_stream_covers_elements(all);
        }
        if i % DEFAULT_CHUNK_SIZE == 0 {
            offsets.push(pos);
        }
        pos = match pos.checked_add(1) {
            Some(p) => p,
            None => {
                return Err(ZebinError::ArithmeticOverflow { pos });
            },
        };
        let pad = padding_for_alignment(pos, alignment);
        pos = match pos.checked_add(pad) {
            Some(p) => p,
            None => {
                return Err(ZebinError::ArithmeticOverflow { pos });
            },
        };
        pos = match pos.checked_add(size) {
            Some(p) => p,
            None => {
                return Err(ZebinError::ArithmeticOverflow { pos });
            },
        };
        i = i + 1;
    }
    proof {
        assert(all.take(n as int) =~= all);
    }
    let mut total = match pos.checked_add(1) {
        Some(p) => p,
        None => {
            return Err(ZebinError::ArithmeticOverflow { pos });
        },
    };
    if n > DEFAULT_CHUNK_SIZE {
        proof {
            lemma_block_offsets_sorted(all, 0);
        }
        let index = build_block_index_bytes(DEFAULT_CHUNK_SIZE, offsets.as_slice());
        total = match total.checked_add(index.len()) {
            Some(p) => p,
            None => {
                return Err(ZebinError::ArithmeticOverflow { pos: total });
            },
        };
    }
    Ok(total)
}

/// The stream of a finished sequence is at least as long as its elements.
proof fn lemma_stream_covers_elements<T: FixedLayout>(items: Seq<T>)
    ensures
        spec_elements_bytes(items, 0).len() < spec_measure_sequence::<T>(items),
{
}

/// Measured size of a slice written as a sequence, or an overflow error.
pub fn measure_slice_body<T: FixedLayout>(items: &[T]) -> (r: Result<usize, ZebinError>)
    ensures
        spec_measure_sequence::<T>(items@) <= usize::MAX ==> r == Ok::<usize, ZebinError>(
            spec_measure_sequence::<T>(items@) as usize,
        ),
        spec_measure_sequence::<T>(items@) > usize::MAX ==> r == Err::<usize, ZebinError>(
            ZebinError::ArithmeticOverflow { pos: 0 },
        ),
{
    match measure_sequence::<T>(items) {
        Ok(v) => Ok(v),
        Err(_) => Err(ZebinError::ArithmeticOverflow { pos: 0 }),
    }
}

} // verus!
