use vstd::prelude::*;
use crate::block_index::{DEFAULT_CHUNK_SIZE, build_block_index_bytes, offsets_sorted, spec_block_index_bytes};
use crate::error::ZebinError;
use crate::iter::{SEQUENCE_ELEMENT_MARKER, SEQUENCE_TERMINATOR};
use crate::primitive::{ByteSerializer, FixedLayout, ToBytes};
use crate::sink::{CursorMut, Poll, SinkProgress, align_sink, flush_bytes, spec_accepted_for, zeros, is_full, room};
use crate::utils::{lemma_padding_bounds, lemma_padding_progress, spec_padding};

verus! {

broadcast use vstd::slice::group_slice_axioms;

/// Bytes of one element whose marker sits at archive position `p`: the marker, the
/// padding up to the element's alignment, and the value.
pub open spec fn spec_element_bytes<T: FixedLayout>(v: T, p: int) -> Seq<u8> {
    seq![SEQUENCE_ELEMENT_MARKER] + zeros(spec_padding(p + 1, T::spec_alignment() as int) as nat)
        + T::spec_to_bytes(v)
}

/// Bytes of the elements `items` written from archive position `p`.
pub open spec fn spec_elements_bytes<T: FixedLayout>(items: Seq<T>, p: int) -> Seq<u8>
    decreases items.len(),
{
    if items.len() == 0 {
        Seq::empty()
    } else {
        let prev = spec_elements_bytes(items.drop_last(), p);
        prev + spec_element_bytes(items.last(), p + prev.len())
    }
}

/// Offsets, from `p`, of the markers of elements 0, 64, 128, ... of `items`.
pub open spec fn spec_block_offsets<T: FixedLayout>(items: Seq<T>, p: int) -> Seq<usize>
    decreases items.len(),
{
    if items.len() == 0 {
        Seq::empty()
    } else {
        let prev = spec_block_offsets(items.drop_last(), p);
        if (items.len() - 1) % (DEFAULT_CHUNK_SIZE as int) == 0 {
            prev.push(spec_elements_bytes(items.drop_last(), p).len() as usize)
        } else {
            prev
        }
    }
}

/// The block index written after the terminator: present only for an indexed
/// sequence of more than one chunk.
pub open spec fn spec_index_section<T: FixedLayout>(items: Seq<T>, p: int, indexed: bool) -> Seq<u8> {
    if indexed && items.len() > DEFAULT_CHUNK_SIZE {
        spec_block_index_bytes(DEFAULT_CHUNK_SIZE, spec_block_offsets(items, p))
    } else {
        Seq::empty()
    }
}

/// Everything a sequence serializer writes for `items` from position `p`: the
/// elements, then, once finished, the terminator and the block index section.
pub open spec fn spec_seq_stream<T: FixedLayout>(items: Seq<T>, p: int, finished: bool, indexed: bool) -> Seq<u8> {
    if finished {
        spec_elements_bytes(items, p) + seq![SEQUENCE_TERMINATOR] + spec_index_section(items, p, indexed)
    } else {
        spec_elements_bytes(items, p)
    }
}

/// A finished indexed sequence is written as the unindexed one followed by its block
/// index; with at most one chunk of elements, the two are written alike.
pub proof fn lemma_indexed_stream_extends_plain<T: FixedLayout>(items: Seq<T>, p: int)
    ensures
        spec_seq_stream(items, p, true, true) == spec_seq_stream(items, p, true, false) + spec_index_section(
            items,
            p,
            true,
        ),
        items.len() <= DEFAULT_CHUNK_SIZE ==> spec_seq_stream(items, p, true, true) == spec_seq_stream(
            items,
            p,
            true,
            false,
        ),
{
    let plain = spec_elements_bytes(items, p) + seq![SEQUENCE_TERMINATOR];
    assert(plain + Seq::<u8>::empty() =~= plain);
}

/// `a` is a prefix of `b`.
pub open spec fn is_prefix(a: Seq<u8>, b: Seq<u8>) -> bool {
    a.len() <= b.len() && b.subrange(0, a.len() as int) == a
}

/// Block index bookkeeping of a sequence serializer.
pub struct SeqSerializerAllocState {
    block_offsets: Vec<usize>,
    index_buf: Vec<u8>,
    index_buf_cursor: usize,
}

/// Resumable serializer of a sequence of fixed-width values: every element is
/// written as a marker, padding and the value; `finish_ref` writes the terminator and,
/// for an indexed sequence of more than one chunk, the block index.
pub struct SeqSerializer<T> {
    next_item: Option<T>,
    marker: u8,
    marker_cursor: usize,
    aligned: bool,
    item_serializer: ByteSerializer<T>,
    has_active_serializer: bool,
    serializer_started: bool,
    finished: bool,
    enable_block_index: bool,
    element_count: usize,
    start_pos: Option<usize>,
    alloc_state: SeqSerializerAllocState,
    items: Ghost<Seq<T>>,
    base: Ghost<int>,
    emitted: Ghost<Seq<u8>>,
}

impl<T: FixedLayout> SeqSerializer<T> {
    /// The values given so far.
    pub closed spec fn items(&self) -> Seq<T> {
        self.items@
    }

    /// Archive position of the first byte of the sequence.
    pub closed spec fn base(&self) -> int {
        self.base@
    }

    /// Everything written so far, over all calls.
    pub closed spec fn emitted(&self) -> Seq<u8> {
        self.emitted@
    }

    pub closed spec fn is_indexed(&self) -> bool {
        self.enable_block_index
    }

    /// Whether `finish_ref` has been accepted.
    pub closed spec fn finish_called(&self) -> bool {
        self.finished
    }

    /// Whether the sequence has begun: a value was given or it was finished.
    pub open spec fn started(&self) -> bool {
        self.items().len() > 0 || self.finish_called()
    }

    /// A serializer that was given nothing and not finished has written nothing.
    pub proof fn lemma_unstarted_emits_nothing(&self)
        requires
            self.wf(),
        ensures
            !self.started() ==> self.emitted() == Seq::<u8>::empty(),
    {
        if !self.started() {
            assert(self.emitted@ =~= Seq::<u8>::empty());
        }
    }

    /// Whether a sink at `pos` continues where the serializer stopped writing.
    pub open spec fn continues_at(&self, pos: int) -> bool {
        self.started() ==> pos == self.base() + self.emitted().len()
    }

    /// Everything the serializer is to write for what it was given so far.
    pub open spec fn stream(&self) -> Seq<u8> {
        spec_seq_stream(self.items(), self.base(), self.finish_called(), self.is_indexed())
    }

    /// Whether an element is still being written.
    pub closed spec fn busy(&self) -> bool {
        self.next_item is Some || self.has_active_serializer || self.marker_cursor < 1
    }

    pub closed spec fn wf(&self) -> bool {
        let items = self.items@;
        let base = self.base@;
        let emitted = self.emitted@;
        &&& T::spec_alignment() > 0
        &&& self.marker_cursor <= 1
        &&& self.item_serializer.wf()
        &&& self.alloc_state.index_buf_cursor <= self.alloc_state.index_buf@.len()
        &&& 0 <= base
        &&& (self.enable_block_index ==> self.element_count == items.len() && self.alloc_state.block_offsets@
            == spec_block_offsets(items, base) && (items.len() > 0 ==> self.start_pos == Some(base as usize)))
        &&& (!self.started() ==> emitted.len() == 0)
        &&& if self.finished {
            &&& self.next_item is None
            &&& !self.has_active_serializer
            &&& self.marker == SEQUENCE_TERMINATOR
            &&& self.alloc_state.index_buf@ == spec_index_section(items, base, self.enable_block_index)
            &&& (self.marker_cursor == 0 ==> emitted == spec_elements_bytes(items, base)
                && self.alloc_state.index_buf_cursor == 0)
            &&& (self.marker_cursor == 1 ==> emitted == spec_elements_bytes(items, base) + seq![SEQUENCE_TERMINATOR]
                + self.alloc_state.index_buf@.subrange(0, self.alloc_state.index_buf_cursor as int))
        } else {
            &&& self.alloc_state.index_buf@.len() == 0
            &&& self.alloc_state.index_buf_cursor == 0
            &&& if self.next_item is None && !self.has_active_serializer {
                &&& self.marker_cursor == 1
                &&& !self.aligned
                &&& emitted == spec_elements_bytes(items, base)
            } else {
                let prev = spec_elements_bytes(items.drop_last(), base);
                let x = items.last();
                let pos = base + prev.len();
                let pad = spec_padding(pos + 1, T::spec_alignment() as int);
                let cur = emitted.len() - prev.len();
                &&& items.len() > 0
                &&& self.marker == SEQUENCE_ELEMENT_MARKER
                &&& 0 <= cur
                &&& emitted == prev + spec_element_bytes(x, pos).subrange(0, cur)
                &&& (self.next_item is Some ==> self.next_item == Some(x) && !self.has_active_serializer && ((
                self.marker_cursor == 0 && !self.aligned && cur == 0) || (self.marker_cursor == 1
                    && !self.aligned && 1 <= cur <= 1 + pad) || (self.marker_cursor == 1 && self.aligned && cur
                    == 1 + pad)))
                &&& (self.next_item is None ==> self.has_active_serializer && self.serializer_started
                    && self.aligned && self.marker_cursor == 1 && self.item_serializer.encoding()
                    == T::spec_to_bytes(x) && cur == 1 + pad + self.item_serializer.sent())
            }
        }
    }

    fn with_index(enable: bool) -> (s: SeqSerializer<T>)
        ensures
            s.wf(),
            s.items() == Seq::<T>::empty(),
            s.emitted() == Seq::<u8>::empty(),
            !s.finish_called(),
            s.is_indexed() == enable,
            !s.busy(),
    {
        let _alignment = T::alignment();
        SeqSerializer {
            next_item: None,
            marker: 0,
            marker_cursor: 1,
            aligned: false,
            item_serializer: ByteSerializer::new(),
            has_active_serializer: false,
            serializer_started: false,
            finished: false,
            enable_block_index: enable,
            element_count: 0,
            start_pos: None,
            alloc_state: SeqSerializerAllocState { block_offsets: Vec::new(), index_buf: Vec::new(), index_buf_cursor: 0 },
            items: Ghost(Seq::empty()),
            base: Ghost(0),
            emitted: Ghost(Seq::empty()),
        }
    }

    /// A serializer that writes no block index.
    pub fn new() -> (s: SeqSerializer<T>)
        ensures
            s.wf(),
            s.items() == Seq::<T>::empty(),
            s.emitted() == Seq::<u8>::empty(),
            !s.finish_called(),
            !s.is_indexed(),
            !s.busy(),
    {
        Self::with_index(false)
    }

    /// A serializer that writes a block index after sequences of more than one chunk.
    pub fn new_indexed() -> (s: SeqSerializer<T>)
        ensures
            s.wf(),
            s.items() == Seq::<T>::empty(),
            s.emitted() == Seq::<u8>::empty(),
            !s.finish_called(),
            s.is_indexed(),
            !s.busy(),
    {
        Self::with_index(true)
    }

    /// Whether the block index section has been written completely.
    fn index_write_done(&self) -> (r: bool)
        ensures
            r == (self.alloc_state.index_buf_cursor >= self.alloc_state.index_buf@.len()),
    {
        self.alloc_state.index_buf_cursor >= self.alloc_state.index_buf.len()
    }

    /// Whether the sequence, terminator and index included, has been written completely.
    pub fn is_finished(&self) -> (r: bool)
        requires
            self.wf(),
        ensures
            r == (self.finish_called() && self.emitted() == self.stream()),
    {
        let r = self.finished && self.marker_cursor == 1 && self.index_write_done();
        proof {
            if self.finished {
                let e = spec_elements_bytes(self.items@, self.base@);
                if self.marker_cursor == 1 {
                    assert(self.emitted@.len() == e.len() + 1 + self.alloc_state.index_buf_cursor);
                    if self.alloc_state.index_buf_cursor >= self.alloc_state.index_buf@.len() {
                        assert(self.alloc_state.index_buf@.subrange(0, self.alloc_state.index_buf_cursor as int)
                            =~= self.alloc_state.index_buf@);
                    }
                } else {
                    assert(self.emitted@.len() < self.stream().len());
                }
            }
        }
        r
    }

    /// Whether a new value or `finish_ref` would be refused as busy.
    pub fn is_busy(&self) -> (r: bool)
        ensures
            r == self.busy(),
    {
        self.next_item.is_some() || self.has_active_serializer || self.marker_cursor < 1
    }

    /// The block index section for the recorded block offsets.
    fn build_index_buf(&mut self)
        requires
            offsets_sorted(old(self).alloc_state.block_offsets@),
        ensures
            *final(self) == (SeqSerializer {
                alloc_state: SeqSerializerAllocState {
                    index_buf: final(self).alloc_state.index_buf,
                    index_buf_cursor: final(self).alloc_state.index_buf_cursor,
                    ..old(self).alloc_state
                },
                ..*old(self)
            }),
            old(self).alloc_state.block_offsets@.len() > 0 ==> final(self).alloc_state.index_buf@
                == spec_block_index_bytes(DEFAULT_CHUNK_SIZE, old(self).alloc_state.block_offsets@)
                && final(self).alloc_state.index_buf_cursor == 0,
            old(self).alloc_state.block_offsets@.len() == 0 ==> final(self).alloc_state.index_buf
                == old(self).alloc_state.index_buf && final(self).alloc_state.index_buf_cursor
                == old(self).alloc_state.index_buf_cursor,
    {
        let num_blocks = self.alloc_state.block_offsets.len();
        if num_blocks == 0 {
            return;
        }
        let buf = build_block_index_bytes(DEFAULT_CHUNK_SIZE, self.alloc_state.block_offsets.as_slice());
        self.alloc_state.index_buf = buf;
        self.alloc_state.index_buf_cursor = 0;
    }
}

/// The block offsets of a sequence never decrease, and none is past the end of its
/// elements, as long as those fit in the address space.
pub proof fn lemma_block_offsets_sorted<T: FixedLayout>(items: Seq<T>, p: int)
    requires
        spec_elements_bytes(items, p).len() <= usize::MAX,
    ensures
        offsets_sorted(spec_block_offsets(items, p)),
        forall|i: int|
            0 <= i < spec_block_offsets(items, p).len() ==> spec_block_offsets(items, p)[i]
                <= spec_elements_bytes(items, p).len(),
    decreases items.len(),
{
    if items.len() > 0 {
        let prev_items = items.drop_last();
        let prev = spec_block_offsets(prev_items, p);
        let e = spec_elements_bytes(prev_items, p);
        assert(spec_elements_bytes(items, p).len() >= e.len());
        lemma_block_offsets_sorted(prev_items, p);
        if (items.len() - 1) % (DEFAULT_CHUNK_SIZE as int) == 0 {
            let s = prev.push(e.len() as usize);
            assert forall|i: int, j: int| 0 <= i <= j < s.len() implies s[i] <= s[j] by {
                if j == s.len() - 1 && i < j {
                    assert(s[i] == prev[i]);
                }
            }
        }
    }
}

/// The sink received exactly what was added to `new_emitted` since `old_emitted`, and
/// its position moved by as much.
pub open spec fn sink_follows<S: CursorMut>(old_emitted: Seq<u8>, new_emitted: Seq<u8>, old_sink: S, new_sink: S) -> bool {
    &&& old_emitted.len() <= new_emitted.len()
    &&& new_emitted.subrange(0, old_emitted.len() as int) == old_emitted
    &&& new_sink.written() == old_sink.written() + new_emitted.subrange(old_emitted.len() as int, new_emitted.len() as int)
    &&& new_sink.spec_pos() == old_sink.spec_pos() + (new_emitted.len() - old_emitted.len())
    &&& new_sink.limit() == old_sink.limit()
}

/// Two steps that each follow the sink make one.
pub proof fn lemma_follows_trans<S: CursorMut>(e1: Seq<u8>, e2: Seq<u8>, e3: Seq<u8>, s1: S, s2: S, s3: S)
    requires
        sink_follows(e1, e2, s1, s2),
        sink_follows(e2, e3, s2, s3),
    ensures
        sink_follows(e1, e3, s1, s3),
{
    assert(e3.subrange(0, e1.len() as int) =~= e2.subrange(0, e1.len() as int));
    let a = e2.subrange(e1.len() as int, e2.len() as int);
    let b = e3.subrange(e2.len() as int, e3.len() as int);
    assert(a + b =~= e3.subrange(e1.len() as int, e3.len() as int));
    assert(s3.written() =~= s1.written() + (a + b));
}

/// A step that writes nothing follows the sink.
pub proof fn lemma_follows_refl<S: CursorMut>(e: Seq<u8>, s: S)
    ensures
        sink_follows(e, e, s, s),
{
    assert(e.subrange(0, e.len() as int) =~= e);
    assert(s.written() + e.subrange(e.len() as int, e.len() as int) =~= s.written());
}

/// Layout facts about the bytes of one element.
pub proof fn lemma_element_bytes_facts<T: FixedLayout>(x: T, pos: int)
    requires
        T::spec_alignment() > 0,
    ensures
        spec_element_bytes(x, pos).len() == 1 + spec_padding(pos + 1, T::spec_alignment() as int)
            + T::spec_to_bytes(x).len(),
        spec_element_bytes(x, pos)[0] == SEQUENCE_ELEMENT_MARKER,
        spec_element_bytes(x, pos).subrange(0, 1) == seq![SEQUENCE_ELEMENT_MARKER],
        forall|c: int, n: int|
            1 <= c && 0 <= n && c + n <= 1 + spec_padding(pos + 1, T::spec_alignment() as int) ==> #[trigger] spec_element_bytes(
                x,
                pos,
            ).subrange(c, c + n) == zeros(n as nat),
        forall|a: int, b: int|
            0 <= a <= b <= T::spec_to_bytes(x).len() ==> #[trigger] spec_element_bytes(x, pos).subrange(
                1 + spec_padding(pos + 1, T::spec_alignment() as int) + a,
                1 + spec_padding(pos + 1, T::spec_alignment() as int) + b,
            ) == T::spec_to_bytes(x).subrange(a, b),
{
    let eb = spec_element_bytes(x, pos);
    let pad = spec_padding(pos + 1, T::spec_alignment() as int);
    lemma_padding_bounds(pos + 1, T::spec_alignment() as int);
    assert(eb.subrange(0, 1) =~= seq![SEQUENCE_ELEMENT_MARKER]);
    assert forall|c: int, n: int| 1 <= c && 0 <= n && c + n <= 1 + pad implies #[trigger] eb.subrange(c, c + n)
        == zeros(n as nat) by {
        assert(eb.subrange(c, c + n) =~= zeros(n as nat));
    }
    assert forall|a: int, b: int| 0 <= a <= b <= T::spec_to_bytes(x).len() implies #[trigger] eb.subrange(
        1 + pad + a,
        1 + pad + b,
    ) == T::spec_to_bytes(x).subrange(a, b) by {
        assert(eb.subrange(1 + pad + a, 1 + pad + b) =~= T::spec_to_bytes(x).subrange(a, b));
    }
}

/// Writing the next `n` bytes of an element extends the written prefix of it.
pub proof fn lemma_extend_prefix(prev: Seq<u8>, eb: Seq<u8>, cur: int, n: int)
    requires
        0 <= cur,
        0 <= n,
        cur + n <= eb.len(),
    ensures
        (prev + eb.subrange(0, cur)) + eb.subrange(cur, cur + n) == prev + eb.subrange(0, cur + n),
{
    assert((prev + eb.subrange(0, cur)) + eb.subrange(cur, cur + n) =~= prev + eb.subrange(0, cur + n));
}

impl<T: FixedLayout> SeqSerializer<T> {
    /// What a well-formed serializer has written is the start of what it is to write.
    pub proof fn lemma_wf_prefix(&self)
        requires
            self.wf(),
        ensures
            is_prefix(self.emitted(), self.stream()),
    {
        let items = self.items@;
        let base = self.base@;
        let emitted = self.emitted@;
        let e = spec_elements_bytes(items, base);
        if self.finished {
            let sec = spec_index_section(items, base, self.enable_block_index);
            let st = e + seq![SEQUENCE_TERMINATOR] + sec;
            if self.marker_cursor == 0 {
                assert(st.subrange(0, emitted.len() as int) =~= emitted);
            } else {
                assert(st.subrange(0, emitted.len() as int) =~= emitted);
            }
        } else if self.next_item is None && !self.has_active_serializer {
            assert(e.subrange(0, emitted.len() as int) =~= emitted);
        } else {
            let prev = spec_elements_bytes(items.drop_last(), base);
            let x = items.last();
            let pos = base + prev.len();
            let eb = spec_element_bytes(x, pos);
            let cur = emitted.len() - prev.len();
            lemma_element_bytes_facts(x, pos);
            self.item_serializer.lemma_sent_bound();
            assert(e == prev + eb);
            assert(cur <= eb.len());
            assert(e.subrange(0, emitted.len() as int) =~= emitted);
        }
    }

    /// Writes the pending marker byte: an element marker, or the terminator.
    fn flush_marker<S: CursorMut>(&mut self, sink: &mut S) -> (r: Result<Poll, ZebinError>)
        requires
            old(sink).inv(),
            old(self).wf(),
            old(self).marker_cursor == 0,
        ensures
            final(sink).inv(),
            final(sink).limit() == old(sink).limit(),
            r == Ok::<Poll, ZebinError>(Poll::Pending) ==> is_full(*final(sink)),
            *final(self) == (SeqSerializer { marker_cursor: final(self).marker_cursor, emitted: final(self).emitted, ..*old(self) }),
            sink_follows(old(self).emitted(), final(self).emitted(), *old(sink), *final(sink)),
            final(self).wf(),
            r matches Ok(p) ==> (p == Poll::Ready <==> final(self).marker_cursor == 1),
            r matches Ok(p) ==> (p == Poll::Pending ==> final(self).emitted().len() < final(self).stream().len()),
            r is Err ==> final(self).marker_cursor == 0,
            r is Err ==> final(self).stream().len() - final(self).emitted().len() > room(*final(sink)) && !S::never_refuses(),
    {
        let mut buf: Vec<u8> = Vec::new();
        buf.push(self.marker);
        let progress = match sink.write(buf.as_slice()) {
            Ok(p) => p,
            Err(e) => {
                proof {
                    lemma_follows_refl(self.emitted@, *sink);
                }
                return Err(e);
            },
        };
        let accepted = progress.accepted_for(1);
        proof {
            let items = self.items@;
            let base = self.base@;
            if !self.finished {
                let prev = spec_elements_bytes(items.drop_last(), base);
                lemma_element_bytes_facts(items.last(), base + prev.len());
            }
        }
        if accepted == 1 {
            let ghost old_emitted = self.emitted@;
            self.marker_cursor = 1;
            self.emitted = Ghost(self.emitted@ + seq![self.marker]);
            proof {
                assert(buf@.subrange(0, 1) =~= seq![self.marker]);
                assert(self.emitted@.subrange(0, old_emitted.len() as int) =~= old_emitted);
                assert(self.emitted@.subrange(old_emitted.len() as int, self.emitted@.len() as int) =~= seq![self.marker]);
                let items = self.items@;
                let base = self.base@;
                if self.finished {
                    assert(self.alloc_state.index_buf@.subrange(0, 0) =~= Seq::<u8>::empty());
                    assert(self.emitted@ =~= spec_elements_bytes(items, base) + seq![SEQUENCE_TERMINATOR]
                        + self.alloc_state.index_buf@.subrange(0, self.alloc_state.index_buf_cursor as int));
                } else {
                    let prev = spec_elements_bytes(items.drop_last(), base);
                    let eb = spec_element_bytes(items.last(), base + prev.len());
                    lemma_extend_prefix(prev, eb, 0, 1);
                }
            }
            Ok(Poll::Ready)
        } else {
            proof {
                assert(buf@.subrange(0, 0) =~= Seq::<u8>::empty());
                assert(sink.written() =~= old(sink).written());
                lemma_follows_refl(self.emitted@, *sink);
                let items = self.items@;
                let base = self.base@;
                if !self.finished {
                    let prev = spec_elements_bytes(items.drop_last(), base);
                    let eb = spec_element_bytes(items.last(), base + prev.len());
                    assert(spec_elements_bytes(items, base) == prev + eb);
                }
            }
            Ok(Poll::Pending)
        }
    }
}

impl<T: FixedLayout> SeqSerializer<T> {
    /// Writes the padding in front of the current element; true once it is complete.
    fn try_align<S: CursorMut>(&mut self, sink: &mut S) -> (r: Result<bool, ZebinError>)
        requires
            old(sink).inv(),
            old(self).wf(),
            !old(self).finished,
            old(self).busy(),
            old(self).marker_cursor == 1,
            old(self).continues_at(old(sink).spec_pos()),
        ensures
            final(sink).inv(),
            *final(self) == (SeqSerializer { aligned: final(self).aligned, emitted: final(self).emitted, ..*old(self) }),
            sink_follows(old(self).emitted(), final(self).emitted(), *old(sink), *final(sink)),
            final(self).wf(),
            old(self).aligned ==> r == Ok::<bool, ZebinError>(true) && final(self).emitted() == old(self).emitted(),
            r matches Ok(b) ==> b == final(self).aligned,
            r == Ok::<bool, ZebinError>(false) ==> final(self).emitted().len() < final(self).stream().len(),
            r == Ok::<bool, ZebinError>(false) ==> is_full(*final(sink)),
            r is Err ==> final(self).stream().len() - final(self).emitted().len() > room(*final(sink)) && !S::never_refuses(),
    {
        if self.aligned {
            proof {
                lemma_follows_refl(self.emitted@, *sink);
            }
            return Ok(true);
        }
        let alignment = T::alignment();
        let ghost items = self.items@;
        let ghost base = self.base@;
        let ghost prev = spec_elements_bytes(items.drop_last(), base);
        let ghost x = items.last();
        let ghost pos = base + prev.len();
        let ghost eb = spec_element_bytes(x, pos);
        let ghost pad = spec_padding(pos + 1, alignment as int);
        let ghost cur = self.emitted@.len() - prev.len();
        proof {
            lemma_element_bytes_facts(x, pos);
            lemma_padding_progress(pos + 1, alignment as int, cur - 1);
            assert(sink.spec_pos() == pos + cur);
            assert(pos + cur == (pos + 1) + (cur - 1));
        }
        let progress = match align_sink(sink, alignment) {
            Ok(p) => p,
            Err(e) => {
                proof {
                    lemma_follows_refl(self.emitted@, *sink);
                }
                return Err(e);
            },
        };
        let ghost n = spec_accepted_for(progress, pad - (cur - 1));
        let ghost old_emitted = self.emitted@;
        self.emitted = Ghost(self.emitted@ + zeros(n as nat));
        proof {
            assert(eb.subrange(cur, cur + n) == zeros(n as nat));
            lemma_extend_prefix(prev, eb, cur, n);
            assert(self.emitted@.subrange(0, old_emitted.len() as int) =~= old_emitted);
            assert(self.emitted@.subrange(old_emitted.len() as int, self.emitted@.len() as int) =~= zeros(n as nat));
            assert(spec_elements_bytes(items, base) == prev + eb);
        }
        if progress.is_complete() {
            self.aligned = true;
            Ok(true)
        } else {
            Ok(false)
        }
    }

    /// Sends the rest of the current element's value and retires its serializer.
    fn complete_active<S: CursorMut>(&mut self, sink: &mut S) -> (r: Result<Poll, ZebinError>)
        requires
            old(sink).inv(),
            old(self).wf(),
            !old(self).finished,
            old(self).has_active_serializer,
            old(self).continues_at(old(sink).spec_pos()),
        ensures
            final(sink).inv(),
            final(sink).limit() == old(sink).limit(),
            r == Ok::<Poll, ZebinError>(Poll::Pending) ==> is_full(*final(sink)),
            final(self).items() == old(self).items(),
            final(self).base() == old(self).base(),
            final(self).finished == old(self).finished,
            final(self).enable_block_index == old(self).enable_block_index,
            sink_follows(old(self).emitted(), final(self).emitted(), *old(sink), *final(sink)),
            is_prefix(final(self).emitted(), final(self).stream()),
            r is Ok ==> final(self).wf(),
            r matches Ok(p) ==> (p == Poll::Ready ==> !final(self).busy()),
            r matches Ok(p) ==> (p == Poll::Pending ==> final(self).emitted().len() < final(self).stream().len()),
            r is Err ==> final(self).stream().len() - final(self).emitted().len() > room(*final(sink)) && !S::never_refuses(),
            r == Ok::<Poll, ZebinError>(Poll::Pending) ==> final(self).busy(),
    {
        proof {
            self.lemma_wf_prefix();
        }
        let aligned_res = self.try_align(sink);
        proof {
            self.lemma_wf_prefix();
        }
        let aligned = aligned_res?;
        if !aligned {
            return Ok(Poll::Pending);
        }
        let ghost items = self.items@;
        let ghost base = self.base@;
        let ghost prev = spec_elements_bytes(items.drop_last(), base);
        let ghost x = items.last();
        let ghost pos = base + prev.len();
        let ghost eb = spec_element_bytes(x, pos);
        let ghost pad = spec_padding(pos + 1, T::spec_alignment() as int);
        let ghost e0 = self.emitted@;
        let ghost s0 = *sink;
        proof {
            lemma_element_bytes_facts(x, pos);
            self.item_serializer.lemma_sent_bound();
        }
        if self.serializer_started {
            let ghost sent0 = self.item_serializer.sent();
            let res = self.item_serializer.poll_pending(sink);
            let ghost sent1 = self.item_serializer.sent();
            self.emitted = Ghost(self.emitted@ + T::spec_to_bytes(x).subrange(sent0 as int, sent1 as int));
            proof {
                self.item_serializer.lemma_sent_bound();
                assert(eb.subrange(1 + pad + sent0, 1 + pad + sent1) == T::spec_to_bytes(x).subrange(
                    sent0 as int,
                    sent1 as int,
                ));
                lemma_extend_prefix(prev, eb, 1 + pad + sent0, sent1 - sent0);
                assert(self.emitted@.subrange(0, e0.len() as int) =~= e0);
                assert(self.emitted@.subrange(e0.len() as int, self.emitted@.len() as int) =~= T::spec_to_bytes(
                    x,
                ).subrange(sent0 as int, sent1 as int));
                assert(spec_elements_bytes(items, base) == prev + eb);
                self.lemma_wf_prefix();
            }
            proof {
                lemma_follows_trans(old(self).emitted@, e0, self.emitted@, *old(sink), s0, *sink);
            }
            match res? {
                Poll::Pending => {
                    return Ok(Poll::Pending);
                },
                Poll::Ready => {},
            }
        }
        let mut completed: ByteSerializer<T> = ByteSerializer::new();
        core::mem::swap(&mut completed, &mut self.item_serializer);
        let _ = completed.finish(sink)?;
        self.has_active_serializer = false;
        self.serializer_started = false;
        self.aligned = false;
        proof {
            assert(self.emitted@ =~= prev + eb);
            assert(spec_elements_bytes(items, base) == prev + eb);
            self.lemma_wf_prefix();
        }
        Ok(Poll::Ready)
    }
}

impl<T: FixedLayout> SeqSerializer<T> {
    /// Aligns for the queued value and starts writing it.
    fn start_item<S: CursorMut>(&mut self, sink: &mut S) -> (r: Result<Poll, ZebinError>)
        requires
            old(sink).inv(),
            old(self).wf(),
            !old(self).finished,
            old(self).next_item is Some,
            old(self).marker_cursor == 1,
            old(self).continues_at(old(sink).spec_pos()),
        ensures
            final(sink).inv(),
            final(sink).limit() == old(sink).limit(),
            r == Ok::<Poll, ZebinError>(Poll::Pending) ==> is_full(*final(sink)),
            final(self).items() == old(self).items(),
            final(self).base() == old(self).base(),
            final(self).finished == old(self).finished,
            final(self).enable_block_index == old(self).enable_block_index,
            sink_follows(old(self).emitted(), final(self).emitted(), *old(sink), *final(sink)),
            is_prefix(final(self).emitted(), final(self).stream()),
            r is Ok ==> final(self).wf(),
            r matches Ok(p) ==> (p == Poll::Ready ==> !final(self).busy()),
            r matches Ok(p) ==> (p == Poll::Pending ==> final(self).emitted().len() < final(self).stream().len()),
            r is Err ==> final(self).stream().len() - final(self).emitted().len() > room(*final(sink)) && !S::never_refuses(),
            r == Ok::<Poll, ZebinError>(Poll::Pending) ==> final(self).busy(),
    {
        proof {
            self.lemma_wf_prefix();
        }
        let aligned_res = self.try_align(sink);
        proof {
            self.lemma_wf_prefix();
        }
        let aligned = aligned_res?;
        if !aligned {
            return Ok(Poll::Pending);
        }
        let ghost items = self.items@;
        let ghost base = self.base@;
        let ghost prev = spec_elements_bytes(items.drop_last(), base);
        let ghost x = items.last();
        let ghost pos = base + prev.len();
        let ghost eb = spec_element_bytes(x, pos);
        let ghost pad = spec_padding(pos + 1, T::spec_alignment() as int);
        let ghost e0 = self.emitted@;
        let ghost s0 = *sink;
        proof {
            lemma_element_bytes_facts(x, pos);
        }
        let item = match self.next_item.take() {
            Some(item) => item,
            None => {
                return Ok(Poll::Ready);
            },
        };
        let res = self.item_serializer.input(item, sink);
        let ghost sent1 = self.item_serializer.sent();
        self.emitted = Ghost(self.emitted@ + T::spec_to_bytes(x).subrange(0, sent1 as int));
        proof {
            self.item_serializer.lemma_sent_bound();
            assert(eb.subrange(1 + pad + 0, 1 + pad + sent1) == T::spec_to_bytes(x).subrange(0, sent1 as int));
            lemma_extend_prefix(prev, eb, 1 + pad, sent1 as int);
            assert(self.emitted@.subrange(0, e0.len() as int) =~= e0);
            assert(self.emitted@.subrange(e0.len() as int, self.emitted@.len() as int) =~= T::spec_to_bytes(x).subrange(
                0,
                sent1 as int,
            ));
            lemma_follows_trans(old(self).emitted@, e0, self.emitted@, *old(sink), s0, *sink);
            assert(spec_elements_bytes(items, base) == prev + eb);
            assert(is_prefix(self.emitted@, spec_elements_bytes(items, base))) by {
                assert(spec_elements_bytes(items, base).subrange(0, self.emitted@.len() as int) =~= self.emitted@);
            }
        }
        match res? {
            Poll::Pending => {
                self.has_active_serializer = true;
                self.serializer_started = true;
                Ok(Poll::Pending)
            },
            Poll::Ready => {
                let mut completed: ByteSerializer<T> = ByteSerializer::new();
                core::mem::swap(&mut completed, &mut self.item_serializer);
                let _ = completed.finish(sink)?;
                self.has_active_serializer = false;
                self.serializer_started = false;
                self.aligned = false;
                proof {
                    assert(self.emitted@ =~= prev + eb);
                }
                Ok(Poll::Ready)
            },
        }
    }

    /// Sends the rest of the block index section.
    fn flush_index<S: CursorMut>(&mut self, sink: &mut S) -> (r: Result<Poll, ZebinError>)
        requires
            old(sink).inv(),
            old(self).wf(),
            old(self).finished,
            old(self).marker_cursor == 1,
        ensures
            final(sink).inv(),
            final(sink).limit() == old(sink).limit(),
            r == Ok::<Poll, ZebinError>(Poll::Pending) ==> is_full(*final(sink)),
            final(self).items() == old(self).items(),
            final(self).base() == old(self).base(),
            final(self).finished == old(self).finished,
            final(self).enable_block_index == old(self).enable_block_index,
            sink_follows(old(self).emitted(), final(self).emitted(), *old(sink), *final(sink)),
            final(self).wf(),
            r matches Ok(p) ==> (p == Poll::Ready <==> final(self).emitted() == final(self).stream()),
            r is Err ==> final(self).stream().len() - final(self).emitted().len() > room(*final(sink)) && !S::never_refuses(),
    {
        let ghost e = spec_elements_bytes(self.items@, self.base@) + seq![SEQUENCE_TERMINATOR];
        if self.alloc_state.index_buf_cursor < self.alloc_state.index_buf.len() {
            let ghost c0 = self.alloc_state.index_buf_cursor;
            let ghost e0 = self.emitted@;
            let res = flush_bytes(sink, self.alloc_state.index_buf.as_slice(), &mut self.alloc_state.index_buf_cursor);
            let ghost c1 = self.alloc_state.index_buf_cursor;
            let ghost buf = self.alloc_state.index_buf@;
            self.emitted = Ghost(self.emitted@ + buf.subrange(c0 as int, c1 as int));
            proof {
                assert(self.emitted@ =~= e + buf.subrange(0, c1 as int));
                assert(self.emitted@.subrange(0, e0.len() as int) =~= e0);
                assert(self.emitted@.subrange(e0.len() as int, self.emitted@.len() as int) =~= buf.subrange(
                    c0 as int,
                    c1 as int,
                ));
                assert(self.stream() == e + buf);
                if c1 == buf.len() {
                    assert(buf.subrange(0, c1 as int) =~= buf);
                }
            }
            match res? {
                Poll::Pending => {
                    return Ok(Poll::Pending);
                },
                Poll::Ready => {},
            }
            Ok(Poll::Ready)
        } else {
            proof {
                lemma_follows_refl(self.emitted@, *sink);
                assert(self.alloc_state.index_buf@.subrange(0, self.alloc_state.index_buf_cursor as int)
                    =~= self.alloc_state.index_buf@);
            }
            Ok(Poll::Ready)
        }
    }

    /// Writes as much as the sink takes of what is pending: a marker, padding, the
    /// current value, or after `finish_ref` the terminator and the block index.
    pub fn poll_pending<S: CursorMut>(&mut self, sink: &mut S) -> (r: Result<Poll, ZebinError>)
        requires
            old(sink).inv(),
            old(self).wf(),
            old(self).continues_at(old(sink).spec_pos()),
        ensures
            final(sink).inv(),
            final(sink).limit() == old(sink).limit(),
            r == Ok::<Poll, ZebinError>(Poll::Pending) ==> is_full(*final(sink)),
            final(self).items() == old(self).items(),
            final(self).base() == old(self).base(),
            final(self).finish_called() == old(self).finish_called(),
            final(self).is_indexed() == old(self).is_indexed(),
            sink_follows(old(self).emitted(), final(self).emitted(), *old(sink), *final(sink)),
            is_prefix(final(self).emitted(), final(self).stream()),
            r is Ok ==> final(self).wf(),
            r matches Ok(p) ==> (p == Poll::Ready <==> final(self).emitted() == final(self).stream()),
            r is Err ==> final(self).stream().len() - final(self).emitted().len() > room(*final(sink)) && !S::never_refuses(),
            r is Err ==> old(self).stream().len() - old(self).emitted().len() > room(*old(sink)) && !S::never_refuses(),
            r == Ok::<Poll, ZebinError>(Poll::Pending) && !final(self).finish_called() ==> final(self).busy(),
            r == Ok::<Poll, ZebinError>(Poll::Ready) ==> !final(self).busy(),
    {
        let ghost e_start = self.emitted@;
        let ghost s_start = *sink;
        proof {
            lemma_follows_refl(self.emitted@, *sink);
            self.lemma_wf_prefix();
        }
        if self.marker_cursor < 1 {
            let p = self.flush_marker(sink);
            proof {
                self.lemma_wf_prefix();
            }
            match p? {
                Poll::Pending => {
                    return Ok(Poll::Pending);
                },
                Poll::Ready => {},
            }
        }
        if self.finished {
            let ghost e1 = self.emitted@;
            let ghost s1 = *sink;
            let r = self.flush_index(sink);
            proof {
                lemma_follows_trans(e_start, e1, self.emitted@, s_start, s1, *sink);
                self.lemma_wf_prefix();
            }
            return r;
        }
        if self.has_active_serializer {
            let ghost e1 = self.emitted@;
            let ghost s1 = *sink;
            let p = self.complete_active(sink);
            proof {
                lemma_follows_trans(e_start, e1, self.emitted@, s_start, s1, *sink);
            }
            match p? {
                Poll::Pending => {
                    return Ok(Poll::Pending);
                },
                Poll::Ready => {},
            }
        }
        if self.next_item.is_some() {
            let ghost e1 = self.emitted@;
            let ghost s1 = *sink;
            let p = self.start_item(sink);
            proof {
                lemma_follows_trans(e_start, e1, self.emitted@, s_start, s1, *sink);
            }
            match p? {
                Poll::Pending => {
                    return Ok(Poll::Pending);
                },
                Poll::Ready => {},
            }
        }
        Ok(Poll::Ready)
    }
}

impl<T: FixedLayout> SeqSerializer<T> {
    /// Queues `item` as the next element and writes as much of it as the sink takes.
    /// Refused once finished, while the previous element is still being written, and when
    /// an indexed sequence cannot count one more element.
    pub fn input<S: CursorMut>(&mut self, item: T, sink: &mut S) -> (r: Result<Poll, ZebinError>)
        requires
            old(sink).inv(),
            old(self).wf(),
            old(self).continues_at(old(sink).spec_pos()),
        ensures
            final(sink).inv(),
            final(sink).limit() == old(sink).limit(),
            r == Ok::<Poll, ZebinError>(Poll::Pending) ==> is_full(*final(sink)),
            old(self).finish_called() ==> r == Err::<Poll, ZebinError>(
                ZebinError::SerializationError { pos: old(sink).spec_pos() as usize, message: "Serializer already finished" },
            ) && *final(self) == *old(self) && *final(sink) == *old(sink),
            !old(self).finish_called() && old(self).busy() ==> r == Err::<Poll, ZebinError>(
                ZebinError::SerializationError { pos: old(sink).spec_pos() as usize, message: "Serializer is busy" },
            ) && *final(self) == *old(self) && *final(sink) == *old(sink),
            !old(self).finish_called() && !old(self).busy() && old(self).is_indexed() && old(self).items().len()
                == usize::MAX ==> r == Err::<Poll, ZebinError>(
                ZebinError::ArithmeticOverflow { pos: old(sink).spec_pos() as usize },
            ) && *final(self) == *old(self) && *final(sink) == *old(sink),
            !old(self).finish_called() && !old(self).busy() && !(old(self).is_indexed() && old(self).items().len()
                == usize::MAX) ==> {
                &&& final(self).items() == old(self).items().push(item)
                &&& final(self).base() == (if old(self).started() {
                    old(self).base()
                } else {
                    old(sink).spec_pos()
                })
                &&& !final(self).finish_called()
                &&& final(self).is_indexed() == old(self).is_indexed()
                &&& sink_follows(old(self).emitted(), final(self).emitted(), *old(sink), *final(sink))
                &&& is_prefix(final(self).emitted(), final(self).stream())
                &&& (r is Ok ==> final(self).wf())
                &&& (r matches Ok(p) ==> (p == Poll::Ready <==> final(self).emitted() == final(self).stream()))
                &&& (r is Err ==> final(self).stream().len() - old(self).emitted().len() > room(*old(sink)) && !S::never_refuses())
                &&& (r == Ok::<Poll, ZebinError>(Poll::Pending) ==> final(self).busy())
            },
    {
        let pos = sink.pos();
        if self.finished {
            return Err(ZebinError::SerializationError { pos, message: "Serializer already finished" });
        }
        if self.next_item.is_some() || self.has_active_serializer || self.marker_cursor < 1 {
            return Err(ZebinError::SerializationError { pos, message: "Serializer is busy" });
        }
        let ghost old_items = self.items@;
        let ghost old_offsets = self.alloc_state.block_offsets@;
        self.base = Ghost(if self.items@.len() > 0 { self.base@ } else { pos as int });
        proof {
            assert(pos == self.base@ + self.emitted@.len());
            assert(self.emitted@ == spec_elements_bytes(old_items, self.base@));
        }
        if self.enable_block_index {
            let count = match self.element_count.checked_add(1) {
                Some(c) => c,
                None => {
                    return Err(ZebinError::ArithmeticOverflow { pos });
                },
            };
            if self.element_count == 0 {
                self.start_pos = Some(pos);
            }
            if self.element_count % DEFAULT_CHUNK_SIZE == 0 {
                let start = self.start_pos.unwrap();
                let offset = pos - start;
                self.alloc_state.block_offsets.push(offset);
            }
            self.element_count = count;
        }
        self.next_item = Some(item);
        self.marker = SEQUENCE_ELEMENT_MARKER;
        self.marker_cursor = 0;
        self.aligned = false;
        self.items = Ghost(self.items@.push(item));
        proof {
            let items = self.items@;
            let base = self.base@;
            assert(items.drop_last() =~= old_items);
            assert(self.emitted@ == spec_elements_bytes(old_items, base));
            let prev = spec_elements_bytes(old_items, base);
            let eb = spec_element_bytes(item, base + prev.len());
            assert(self.emitted@ =~= prev + eb.subrange(0, 0));
            if self.enable_block_index {
                assert(self.element_count == items.len());
                assert(self.start_pos == Some(base as usize));
                assert(old_offsets == spec_block_offsets(old_items, base));
                assert(spec_block_offsets(items, base) == (if (old_items.len() as int) % (DEFAULT_CHUNK_SIZE as int) == 0 {
                    old_offsets.push(spec_elements_bytes(old_items, base).len() as usize)
                } else {
                    old_offsets
                }));
                assert(self.alloc_state.block_offsets@ == spec_block_offsets(items, base));
            }
            assert(self.item_serializer.wf());
            assert(self.wf());
        }
        self.poll_pending(sink)
    }

    /// Ends the sequence: queues the terminator (and the block index for an indexed
    /// sequence of more than one chunk) and writes as much as the sink takes. Once
    /// finished, further calls go on writing what is left. Refused while an element is
    /// still being written.
    pub fn finish_ref<S: CursorMut>(&mut self, sink: &mut S) -> (r: Result<Poll, ZebinError>)
        requires
            old(sink).inv(),
            old(self).wf(),
            old(self).continues_at(old(sink).spec_pos()),
        ensures
            final(sink).inv(),
            final(sink).limit() == old(sink).limit(),
            r == Ok::<Poll, ZebinError>(Poll::Pending) ==> is_full(*final(sink)),
            !old(self).finish_called() && old(self).busy() ==> r == Err::<Poll, ZebinError>(
                ZebinError::SerializationError { pos: old(sink).spec_pos() as usize, message: "Serializer is busy" },
            ) && *final(self) == *old(self) && *final(sink) == *old(sink),
            old(self).finish_called() || !old(self).busy() ==> {
                &&& final(self).items() == old(self).items()
                &&& final(self).base() == (if old(self).started() {
                    old(self).base()
                } else {
                    old(sink).spec_pos()
                })
                &&& final(self).finish_called()
                &&& final(self).is_indexed() == old(self).is_indexed()
                &&& sink_follows(old(self).emitted(), final(self).emitted(), *old(sink), *final(sink))
                &&& is_prefix(final(self).emitted(), final(self).stream())
                &&& (r is Ok ==> final(self).wf())
                &&& (r matches Ok(p) ==> (p == Poll::Ready <==> final(self).emitted() == final(self).stream()))
                &&& (r is Err ==> final(self).stream().len() - old(self).emitted().len() > room(*old(sink)) && !S::never_refuses())
            },
            old(self).finish_called() && old(self).emitted() == old(self).stream() ==> r == Ok::<Poll, ZebinError>(
                Poll::Ready,
            ) && final(sink).written() == old(sink).written(),
            !old(self).finish_called() && !old(self).busy() && spec_seq_stream(
                old(self).items(),
                if old(self).started() {
                    old(self).base()
                } else {
                    old(sink).spec_pos()
                },
                true,
                old(self).is_indexed(),
            ).len() - old(self).emitted().len() <= room(*old(sink)) ==> r == Ok::<Poll, ZebinError>(Poll::Ready)
                && final(self).emitted() == final(self).stream(),
    {
        proof {
            sink.lemma_within_limit();
        }
        let pos = sink.pos();
        if !self.finished {
            if self.next_item.is_some() || self.has_active_serializer || self.marker_cursor < 1 {
                return Err(ZebinError::SerializationError { pos, message: "Serializer is busy" });
            }
            self.base = Ghost(if self.items@.len() > 0 { self.base@ } else { pos as int });
            proof {
                let items = self.items@;
                let base = self.base@;
                assert(spec_elements_bytes(items, base).len() <= usize::MAX);
                lemma_block_offsets_sorted(items, base);
            }
            self.marker = SEQUENCE_TERMINATOR;
            self.marker_cursor = 0;
            self.finished = true;
            if self.enable_block_index && self.element_count > DEFAULT_CHUNK_SIZE {
                self.build_index_buf();
            }
            proof {
                let items = self.items@;
                let base = self.base@;
                if self.enable_block_index && self.element_count > DEFAULT_CHUNK_SIZE {
                    assert(spec_block_offsets(items, base).len() > 0) by {
                        lemma_block_offsets_nonempty(items, base);
                    }
                }
                assert(self.alloc_state.index_buf@ == spec_index_section(items, base, self.enable_block_index));
                assert(self.emitted@ == spec_elements_bytes(items, base));
                assert(self.alloc_state.index_buf_cursor == 0);
                assert(self.wf());
            }
        }
        let ghost e0 = self.emitted@;
        let ghost s0 = *sink;
        let r = self.poll_pending(sink);
        proof {
            let st = self.stream();
            let e = self.emitted@;
            if r == Ok::<Poll, ZebinError>(Poll::Pending) && st.len() - e0.len() <= room(s0) {
                sink.lemma_within_limit();
                if e.len() == st.len() {
                    assert(e =~= st.subrange(0, e.len() as int));
                    assert(st.subrange(0, st.len() as int) =~= st);
                }
                assert(e.len() < st.len());
            }
        }
        r
    }

    /// Ends the sequence like `finish_ref`, then retires the element serializer.
    pub fn finish<S: CursorMut>(self, sink: &mut S) -> (r: Result<Poll, ZebinError>)
        requires
            old(sink).inv(),
            self.wf(),
            self.continues_at(old(sink).spec_pos()),
        ensures
            final(sink).inv(),
            final(sink).limit() == old(sink).limit(),
            !self.finish_called() && self.busy() ==> r == Err::<Poll, ZebinError>(
                ZebinError::SerializationError { pos: old(sink).spec_pos() as usize, message: "Serializer is busy" },
            ) && *final(sink) == *old(sink),
            r is Ok ==> r == Ok::<Poll, ZebinError>(Poll::Ready),
            old(sink).written().len() <= final(sink).written().len(),
            final(sink).written().subrange(0, old(sink).written().len() as int) == old(sink).written(),
            self.finish_called() || !self.busy() ==> is_prefix(
                self.emitted() + final(sink).written().subrange(
                    old(sink).written().len() as int,
                    final(sink).written().len() as int,
                ),
                spec_seq_stream(
                    self.items(),
                    if self.started() {
                        self.base()
                    } else {
                        old(sink).spec_pos()
                    },
                    true,
                    self.is_indexed(),
                ),
            ),
            r is Ok && (self.finish_called() || !self.busy()) ==> (self.emitted() + final(sink).written().subrange(
                old(sink).written().len() as int,
                final(sink).written().len() as int,
            ) == spec_seq_stream(
                self.items(),
                if self.started() {
                    self.base()
                } else {
                    old(sink).spec_pos()
                },
                true,
                self.is_indexed(),
            ) || is_full(*final(sink))),
            r is Err && (self.finish_called() || !self.busy()) ==> spec_seq_stream(
                self.items(),
                if self.started() {
                    self.base()
                } else {
                    old(sink).spec_pos()
                },
                true,
                self.is_indexed(),
            ).len() - self.emitted().len() > room(*old(sink)) && !S::never_refuses(),
    {
        let mut this = self;
        let ghost e0 = this.emitted@;
        let res = this.finish_ref(sink);
        proof {
            if self.finish_called() || !self.busy() {
                let w = sink.written().subrange(old(sink).written().len() as int, sink.written().len() as int);
                assert(w =~= this.emitted@.subrange(e0.len() as int, this.emitted@.len() as int));
                assert(e0 + w =~= this.emitted@);
            } else {
                assert(sink.written().subrange(0, old(sink).written().len() as int) =~= old(sink).written());
            }
            assert(sink.written().subrange(0, old(sink).written().len() as int) =~= old(sink).written());
        }
        let _ = res?;
        let item_serializer = this.item_serializer;
        item_serializer.finish(sink)
    }
}

/// A sequence of more than one chunk has a block offset.
pub proof fn lemma_block_offsets_nonempty<T: FixedLayout>(items: Seq<T>, p: int)
    requires
        items.len() > 0,
    ensures
        spec_block_offsets(items, p).len() > 0,
    decreases items.len(),
{
    if items.len() > 1 {
        lemma_block_offsets_nonempty(items.drop_last(), p);
    }
}

} // verus!
