use vstd::prelude::*;
use crate::block_index::{BLOCK_INDEX_MAGIC, lemma_subrange_concat, skip_block_index, spec_skip_block_index};
use crate::cursor::{Cursor, range_error};
use crate::error::{DecodeError, ZebinError};
use crate::iter::{SEQUENCE_ELEMENT_MARKER, SEQUENCE_TERMINATOR};
use crate::primitive::{ByteSerializer, FixedLayout};
use crate::sink::{CursorMut, Poll, flush_bytes, is_full, room};
use crate::utils::{lemma_padding_bounds, lemma_padding_reaches_next_multiple, padding_for_alignment, spec_padding};

verus! {

/// The bytes of one map entry: the key's bytes, then the value's.
pub open spec fn spec_pair_bytes<K: FixedLayout, V: FixedLayout>(k: K, v: V) -> Seq<u8> {
    K::spec_to_bytes(k) + V::spec_to_bytes(v)
}

/// The entries of a map as a sequence body: each entry behind a marker byte 1.
pub open spec fn spec_entries_bytes<K: FixedLayout, V: FixedLayout>(entries: Seq<(K, V)>) -> Seq<u8>
    decreases entries.len(),
{
    if entries.len() == 0 {
        Seq::empty()
    } else {
        spec_entries_bytes(entries.drop_last()) + seq![1u8] + spec_pair_bytes(entries.last().0, entries.last().1)
    }
}

/// A whole encoded map: its entries, then the terminator byte 0.
pub open spec fn spec_map_bytes<K: FixedLayout, V: FixedLayout>(entries: Seq<(K, V)>) -> Seq<u8> {
    spec_entries_bytes(entries) + seq![0u8]
}

/// Resumable encoder of one borrowed key and value: the key's bytes, then the value's.
pub struct TupleRefEncoder<'a, K, V> {
    key: &'a K,
    value: &'a V,
    key_encoder: ByteSerializer<K>,
    key_started: bool,
    value_encoder: ByteSerializer<V>,
    value_started: bool,
    stage: u8,
}

impl<'a, K: FixedLayout, V: FixedLayout> TupleRefEncoder<'a, K, V> {
    /// Everything the encoder writes.
    pub closed spec fn stream(&self) -> Seq<u8> {
        spec_pair_bytes(*self.key, *self.value)
    }

    /// How many bytes of it have been written.
    pub closed spec fn sent(&self) -> nat {
        if self.stage == 0 {
            if self.key_started {
                self.key_encoder.sent()
            } else {
                0
            }
        } else if self.stage == 1 {
            K::spec_to_bytes(*self.key).len() + if self.value_started {
                self.value_encoder.sent()
            } else {
                0
            }
        } else {
            self.stream().len()
        }
    }

    pub closed spec fn wf(&self) -> bool {
        &&& self.stage <= 2
        &&& self.key_encoder.wf()
        &&& self.value_encoder.wf()
        &&& (self.stage == 0 && self.key_started) ==> self.key_encoder.encoding() == K::spec_to_bytes(*self.key)
        &&& (self.stage == 1 && self.value_started) ==> self.value_encoder.encoding() == V::spec_to_bytes(
            *self.value,
        )
    }

    /// What has been written never goes past the end of the pair.
    pub proof fn lemma_sent_bound(&self)
        requires
            self.wf(),
        ensures
            self.sent() <= self.stream().len(),
    {
        self.key_encoder.lemma_sent_bound();
        self.value_encoder.lemma_sent_bound();
    }

    pub closed spec fn key_view(&self) -> K {
        *self.key
    }

    pub closed spec fn value_view(&self) -> V {
        *self.value
    }

    /// An encoder of `key` then `value`.
    pub fn new(key: &'a K, value: &'a V) -> (r: Result<TupleRefEncoder<'a, K, V>, ZebinError>)
        ensures
            r matches Ok(e) && e.wf() && e.sent() == 0 && e.key_view() == *key && e.value_view() == *value
                && e.stream() == spec_pair_bytes(*key, *value),
    {
        Ok(
            TupleRefEncoder {
                key,
                value,
                key_encoder: ByteSerializer::new(),
                key_started: false,
                value_encoder: ByteSerializer::new(),
                value_started: false,
                stage: 0,
            },
        )
    }

    /// Writes as much of the key and value as the sink takes.
    #[verifier::rlimit(40)]
    pub fn poll_pending<S: CursorMut>(&mut self, sink: &mut S) -> (r: Result<Poll, ZebinError>)
        requires
            old(sink).inv(),
            old(self).wf(),
        ensures
            final(sink).inv(),
            final(sink).limit() == old(sink).limit(),
            r == Ok::<Poll, ZebinError>(Poll::Pending) ==> is_full(*final(sink)),
            final(self).wf(),
            final(self).stream() == old(self).stream(),
            final(self).key_view() == old(self).key_view(),
            final(self).value_view() == old(self).value_view(),
            old(self).sent() <= final(self).sent() <= final(self).stream().len(),
            final(sink).written() == old(sink).written() + old(self).stream().subrange(
                old(self).sent() as int,
                final(self).sent() as int,
            ),
            r matches Ok(p) ==> (p == Poll::Ready <==> final(self).sent() == final(self).stream().len()),
            r is Err ==> old(self).stream().len() - old(self).sent() > room(*old(sink)) && !S::never_refuses(),
            old(self).sent() == old(self).stream().len() ==> r == Ok::<Poll, ZebinError>(
                Poll::Ready,
            ) && final(sink).written() == old(sink).written(),
    {
        let ghost all = self.stream();
        let ghost kb = K::spec_to_bytes(*self.key);
        let ghost vb = V::spec_to_bytes(*self.value);
        proof {
            assert(all == kb + vb);
            sink.lemma_within_limit();
        }
        if self.stage == 0 {
            let ghost s0 = self.sent();
            let progress = if !self.key_started {
                let k = *self.key;
                let res = self.key_encoder.input(k, sink);
                proof {
                    self.key_encoder.lemma_sent_bound();
                    assert(self.key_encoder.encoding().subrange(0, self.key_encoder.sent() as int) =~= all.subrange(
                        0,
                        self.key_encoder.sent() as int,
                    ));
                }
                match res {
                    Err(e) => {
                        proof {
                            assert(all.subrange(0, 0) =~= Seq::<u8>::empty());
                        }
                        return Err(e);
                    },
                    Ok(Poll::Pending) => {
                        self.key_started = true;
                        Poll::Pending
                    },
                    Ok(Poll::Ready) => Poll::Ready,
                }
            } else {
                let ghost c0 = self.key_encoder.sent();
                let res = self.key_encoder.poll_pending(sink);
                proof {
                    self.key_encoder.lemma_sent_bound();
                    assert(self.key_encoder.encoding().subrange(c0 as int, self.key_encoder.sent() as int)
                        =~= all.subrange(c0 as int, self.key_encoder.sent() as int));
                }
                res?
            };
            match progress {
                Poll::Pending => {
                    return Ok(Poll::Pending);
                },
                Poll::Ready => {
                    self.stage = 1;
                    self.value_started = false;
                },
            }
        }
        if self.stage == 1 {
            let ghost s1 = self.sent();
            let ghost w1 = sink.written();
            let progress = if !self.value_started {
                let v = *self.value;
                let res = self.value_encoder.input(v, sink);
                proof {
                    self.value_encoder.lemma_sent_bound();
                    assert(self.value_encoder.encoding().subrange(0, self.value_encoder.sent() as int)
                        =~= all.subrange(kb.len() as int, (kb.len() + self.value_encoder.sent()) as int));
                }
                match res {
                    Err(e) => {
                        proof {
                            assert(all.subrange(s1 as int, s1 as int) =~= Seq::<u8>::empty());
                            assert(all.subrange(old(self).sent() as int, s1 as int) + Seq::<u8>::empty()
                                =~= all.subrange(old(self).sent() as int, s1 as int));
                        }
                        return Err(e);
                    },
                    Ok(Poll::Pending) => {
                        self.value_started = true;
                        proof {
                            assert(all.subrange(old(self).sent() as int, s1 as int) + all.subrange(
                                s1 as int,
                                self.sent() as int,
                            ) =~= all.subrange(old(self).sent() as int, self.sent() as int));
                        }
                        Poll::Pending
                    },
                    Ok(Poll::Ready) => Poll::Ready,
                }
            } else {
                let ghost c0 = self.value_encoder.sent();
                let res = self.value_encoder.poll_pending(sink);
                proof {
                    self.value_encoder.lemma_sent_bound();
                    assert(self.value_encoder.encoding().subrange(c0 as int, self.value_encoder.sent() as int)
                        =~= all.subrange((kb.len() + c0) as int, (kb.len() + self.value_encoder.sent()) as int));
                    assert(all.subrange(old(self).sent() as int, s1 as int) + all.subrange(
                        s1 as int,
                        self.sent() as int,
                    ) =~= all.subrange(old(self).sent() as int, self.sent() as int));
                }
                res?
            };
            match progress {
                Poll::Pending => {
                    return Ok(Poll::Pending);
                },
                Poll::Ready => {
                    self.stage = 2;
                    proof {
                        assert(all.subrange(old(self).sent() as int, s1 as int) + all.subrange(
                            s1 as int,
                            all.len() as int,
                        ) =~= all.subrange(old(self).sent() as int, all.len() as int));
                    }
                },
            }
        }
        Ok(Poll::Ready)
    }
}

impl<'a, K: FixedLayout, V: FixedLayout> TupleRefEncoder<'a, K, V> {
    /// Two calls in a row write, together, the stretch of the pair's bytes from where the
    /// first began to where the second stopped.
    pub proof fn lemma_calls_compose(
        e0: TupleRefEncoder<'a, K, V>,
        e1: TupleRefEncoder<'a, K, V>,
        e2: TupleRefEncoder<'a, K, V>,
        w0: Seq<u8>,
        w1: Seq<u8>,
        w2: Seq<u8>,
    )
        requires
            e1.stream() == e0.stream(),
            e2.stream() == e1.stream(),
            e0.sent() <= e1.sent() <= e2.sent() <= e2.stream().len(),
            w1 == w0 + e0.stream().subrange(e0.sent() as int, e1.sent() as int),
            w2 == w1 + e1.stream().subrange(e1.sent() as int, e2.sent() as int),
        ensures
            w2 == w0 + e0.stream().subrange(e0.sent() as int, e2.sent() as int),
    {
        let st = e0.stream();
        assert(st.subrange(e0.sent() as int, e1.sent() as int) + st.subrange(e1.sent() as int, e2.sent() as int)
            =~= st.subrange(e0.sent() as int, e2.sent() as int));
    }

    /// A whole run, from a fresh encoder to one that has sent everything, writes the key's
    /// bytes followed by the value's bytes; afterwards a call writes nothing and is ready.
    pub proof fn lemma_whole_run(
        fresh: TupleRefEncoder<'a, K, V>,
        done: TupleRefEncoder<'a, K, V>,
        w0: Seq<u8>,
        w1: Seq<u8>,
    )
        requires
            fresh.sent() == 0,
            done.stream() == fresh.stream(),
            done.sent() == done.stream().len(),
            w1 == w0 + fresh.stream().subrange(0, done.sent() as int),
        ensures
            w1 == w0 + K::spec_to_bytes(fresh.key_view()) + V::spec_to_bytes(fresh.value_view()),
    {
        let st = fresh.stream();
        assert(st.subrange(0, st.len() as int) =~= st);
        assert(w0 + (K::spec_to_bytes(fresh.key_view()) + V::spec_to_bytes(fresh.value_view())) =~= w0
            + K::spec_to_bytes(fresh.key_view()) + V::spec_to_bytes(fresh.value_view()));
    }
}

/// The bytes of the first `k` entries start the bytes of all of them.
pub proof fn lemma_entries_prefix<K: FixedLayout, V: FixedLayout>(entries: Seq<(K, V)>, k: int)
    requires
        0 <= k <= entries.len(),
    ensures
        spec_entries_bytes(entries.take(k)).len() <= spec_entries_bytes(entries).len(),
        spec_entries_bytes(entries).subrange(0, spec_entries_bytes(entries.take(k)).len() as int)
            == spec_entries_bytes(entries.take(k)),
    decreases entries.len(),
{
    let all = spec_entries_bytes(entries);
    if k == entries.len() {
        assert(entries.take(k) =~= entries);
        assert(all.subrange(0, all.len() as int) =~= all);
    } else {
        let d = entries.drop_last();
        lemma_entries_prefix(d, k);
        assert(d.take(k) =~= entries.take(k));
        let pre = spec_entries_bytes(d);
        assert(all == pre + seq![1u8] + spec_pair_bytes(entries.last().0, entries.last().1));
        assert(all.subrange(0, spec_entries_bytes(entries.take(k)).len() as int) =~= pre.subrange(
            0,
            spec_entries_bytes(entries.take(k)).len() as int,
        ));
    }
}

/// The bytes of the first `k + 1` entries: those of the first `k`, the marker, entry `k`.
pub proof fn lemma_entries_step<K: FixedLayout, V: FixedLayout>(entries: Seq<(K, V)>, k: int)
    requires
        0 <= k < entries.len(),
    ensures
        spec_entries_bytes(entries.take(k + 1)) == spec_entries_bytes(entries.take(k)) + seq![1u8] + spec_pair_bytes(
            entries[k].0,
            entries[k].1,
        ),
{
    assert(entries.take(k + 1).drop_last() =~= entries.take(k));
    assert(entries.take(k + 1).last() == entries[k]);
}

/// Resumable encoder of a map given by its entries in order: each entry behind a marker
/// byte 1, then the terminator byte 0.
pub struct MapEncoder<'a, K, V> {
    entries: &'a [(K, V)],
    next_index: usize,
    next_item: Option<usize>,
    marker: u8,
    marker_cursor: usize,
    current_encoder: Option<TupleRefEncoder<'a, K, V>>,
    current_index: Ghost<int>,
    finished_sentinel: bool,
}

impl<'a, K: FixedLayout, V: FixedLayout> MapEncoder<'a, K, V> {
    pub closed spec fn entries(&self) -> Seq<(K, V)> {
        self.entries@
    }

    /// Everything the encoder writes.
    pub open spec fn stream(&self) -> Seq<u8> {
        spec_map_bytes(self.entries())
    }

    /// How many bytes of it have been written.
    pub closed spec fn sent(&self) -> nat {
        let es = self.entries@;
        if self.finished_sentinel {
            spec_entries_bytes(es).len() + (self.marker_cursor as nat)
        } else if self.next_item is Some {
            spec_entries_bytes(es.take(self.next_index - 1)).len() + (self.marker_cursor as nat)
        } else if self.current_encoder is Some {
            spec_entries_bytes(es.take(self.current_index@)).len() + 1 + self.current_encoder->0.sent()
        } else {
            spec_entries_bytes(es.take(self.next_index as int)).len()
        }
    }

    /// Steps left, for the loop of `poll_pending`.
    closed spec fn measure(&self) -> nat {
        if self.finished_sentinel {
            0
        } else {
            let left = (self.entries@.len() - self.next_index) as nat;
            3 * left + if self.next_item is Some {
                2nat
            } else if self.current_encoder is Some {
                1nat
            } else {
                3nat
            }
        }
    }

    pub closed spec fn wf(&self) -> bool {
        let es = self.entries@;
        &&& self.next_index <= es.len()
        &&& self.marker_cursor <= 1
        &&& self.finished_sentinel ==> self.next_index == es.len() && self.next_item is None && self.current_encoder is None
            && self.marker == 0
        &&& !self.finished_sentinel && self.next_item is Some ==> self.next_item->0 + 1 == self.next_index
            && self.current_encoder is None && self.marker == 1
        &&& !self.finished_sentinel && self.next_item is None && self.current_encoder is Some ==> {
            let enc = self.current_encoder->0;
            &&& self.marker_cursor == 1
            &&& 0 <= self.current_index@
            &&& self.current_index@ + 1 == self.next_index
            &&& enc.wf()
            &&& enc.key_view() == es[self.current_index@].0
            &&& enc.value_view() == es[self.current_index@].1
            &&& enc.stream() == spec_pair_bytes(es[self.current_index@].0, es[self.current_index@].1)
        }
        &&& !self.finished_sentinel && self.next_item is None && self.current_encoder is None ==> self.marker_cursor == 1
    }

    /// What has been written never goes past the end of the map.
    pub proof fn lemma_sent_bound(&self)
        requires
            self.wf(),
        ensures
            self.sent() <= self.stream().len(),
    {
        let es = self.entries@;
        lemma_entries_prefix(es, self.next_index as int);
        if !self.finished_sentinel && self.next_item is Some {
            lemma_entries_prefix(es, self.next_index - 1);
            lemma_entries_step(es, self.next_index - 1);
        }
        if !self.finished_sentinel && self.next_item is None && self.current_encoder is Some {
            let j = self.current_index@;
            lemma_entries_step(es, j);
            lemma_entries_prefix(es, j + 1);
            self.current_encoder->0.lemma_sent_bound();
        }
    }

    /// An encoder of the map with the given entries, in order.
    pub fn new(entries: &'a [(K, V)]) -> (r: Result<MapEncoder<'a, K, V>, ZebinError>)
        ensures
            r matches Ok(e) && e.wf() && e.entries() == entries@ && e.sent() == 0,
    {
        let r = MapEncoder {
            entries,
            next_index: 0,
            next_item: None,
            marker: 0,
            marker_cursor: 1,
            current_encoder: None,
            current_index: Ghost(0),
            finished_sentinel: false,
        };
        proof {
            assert(entries@.take(0) =~= Seq::<(K, V)>::empty());
        }
        Ok(r)
    }

    /// Writes as much of the map as the sink takes.
    #[verifier::rlimit(50)]
    pub fn poll_pending<S: CursorMut>(&mut self, sink: &mut S) -> (r: Result<Poll, ZebinError>)
        requires
            old(sink).inv(),
            old(self).wf(),
        ensures
            final(sink).inv(),
            final(sink).limit() == old(sink).limit(),
            r == Ok::<Poll, ZebinError>(Poll::Pending) ==> is_full(*final(sink)),
            final(self).wf(),
            final(self).entries() == old(self).entries(),
            old(self).sent() <= final(self).sent() <= final(self).stream().len(),
            final(sink).written() == old(sink).written() + old(self).stream().subrange(
                old(self).sent() as int,
                final(self).sent() as int,
            ),
            r matches Ok(p) ==> (p == Poll::Ready <==> final(self).sent() == final(self).stream().len()),
            r is Err ==> old(self).stream().len() - old(self).sent() > room(*old(sink)) && !S::never_refuses(),
    {
        let ghost es = self.entries@;
        let ghost st = self.stream();
        proof {
            self.lemma_sent_bound();
            assert(st.subrange(old(self).sent() as int, old(self).sent() as int) =~= Seq::<u8>::empty());
        }
        loop
            invariant
                sink.inv(),
                sink.limit() == old(sink).limit(),
                self.wf(),
                self.entries@ == es,
                es == old(self).entries(),
                st == spec_map_bytes(es),
                old(self).sent() <= self.sent() <= st.len(),
                sink.written() == old(sink).written() + st.subrange(old(self).sent() as int, self.sent() as int),
            decreases self.measure(),
        {
            let ghost s0 = self.sent();
            let ghost m0 = self.measure();
            if self.marker_cursor < 1 {
                let mut buf: Vec<u8> = Vec::new();
                buf.push(self.marker);
                let ghost p = s0 - self.marker_cursor;
                proof {
                    if self.finished_sentinel {
                        assert(st[p as int] == 0);
                    } else {
                        let j = self.next_index - 1;
                        lemma_entries_step(es, j);
                        lemma_entries_prefix(es, j + 1);
                        assert(st[p as int] == spec_entries_bytes(es.take(j + 1))[p as int]);
                    }
                }
                let res = flush_bytes(sink, buf.as_slice(), &mut self.marker_cursor);
                proof {
                    assert(buf@.subrange(0, self.marker_cursor as int) =~= st.subrange(
                        s0 as int,
                        self.sent() as int,
                    ));
                    assert(st.subrange(old(self).sent() as int, s0 as int) + st.subrange(s0 as int, self.sent() as int)
                        =~= st.subrange(old(self).sent() as int, self.sent() as int));
                }
                match res {
                    Err(e) => {
                        return Err(e);
                    },
                    Ok(Poll::Pending) => {
                        return Ok(Poll::Pending);
                    },
                    Ok(Poll::Ready) => {},
                }
            }
            if self.finished_sentinel && self.marker_cursor == 1 {
                return Ok(Poll::Ready);
            }
            let ghost s1 = self.sent();
            if self.current_encoder.is_some() {
                let ghost j = self.current_index@;
                let mut encoder = self.current_encoder.take().unwrap();
                let ghost e0 = encoder;
                proof {
                    lemma_entries_step(es, j);
                    lemma_entries_prefix(es, j + 1);
                    let base = spec_entries_bytes(es.take(j)).len() + 1;
                    let pre = spec_entries_bytes(es.take(j + 1));
                    assert(st.subrange(0, pre.len() as int) =~= pre);
                    assert(pre.subrange(base as int, pre.len() as int) =~= e0.stream());
                    assert(st.subrange(base as int, (base + e0.stream().len()) as int) =~= pre.subrange(
                        base as int,
                        pre.len() as int,
                    ));
                    e0.lemma_sent_bound();
                }
                let res = encoder.poll_pending(sink);
                proof {
                    let base = spec_entries_bytes(es.take(j)).len() + 1;
                    assert(e0.stream().subrange(e0.sent() as int, encoder.sent() as int) =~= st.subrange(
                        (base + e0.sent()) as int,
                        (base + encoder.sent()) as int,
                    ));
                    assert(st.subrange(old(self).sent() as int, s1 as int) + st.subrange(
                        s1 as int,
                        (base + encoder.sent()) as int,
                    ) =~= st.subrange(old(self).sent() as int, (base + encoder.sent()) as int));
                }
                match res {
                    Err(e) => {
                        self.current_encoder = Some(encoder);
                        return Err(e);
                    },
                    Ok(Poll::Pending) => {
                        self.current_encoder = Some(encoder);
                        return Ok(Poll::Pending);
                    },
                    Ok(Poll::Ready) => {},
                }
            }
            if self.next_item.is_none() && !self.finished_sentinel {
                if self.next_index < self.entries.len() {
                    self.next_item = Some(self.next_index);
                    self.next_index = self.next_index + 1;
                    self.marker = 1;
                    self.marker_cursor = 0;
                } else {
                    self.marker = 0;
                    self.marker_cursor = 0;
                    self.finished_sentinel = true;
                    proof {
                        assert(es.take(es.len() as int) =~= es);
                    }
                }
                continue;
            }
            if let Some(k) = self.next_item {
                let entries = self.entries;
                let entry: &'a (K, V) = &entries[k];
                let encoder = TupleRefEncoder::new(&entry.0, &entry.1)?;
                self.next_item = None;
                self.current_encoder = Some(encoder);
                self.current_index = Ghost(k as int);
            }
        }
    }

    /// Takes the map (already given at creation) and writes as much as the sink takes.
    pub fn input<S: CursorMut>(&mut self, sink: &mut S) -> (r: Result<Poll, ZebinError>)
        requires
            old(sink).inv(),
            old(self).wf(),
        ensures
            final(sink).inv(),
            final(sink).limit() == old(sink).limit(),
            r == Ok::<Poll, ZebinError>(Poll::Pending) ==> is_full(*final(sink)),
            final(self).wf(),
            final(self).entries() == old(self).entries(),
            old(self).sent() <= final(self).sent() <= final(self).stream().len(),
            final(sink).written() == old(sink).written() + old(self).stream().subrange(
                old(self).sent() as int,
                final(self).sent() as int,
            ),
            r matches Ok(p) ==> (p == Poll::Ready <==> final(self).sent() == final(self).stream().len()),
            r is Err ==> old(self).stream().len() - old(self).sent() > room(*old(sink)) && !S::never_refuses(),
    {
        self.poll_pending(sink)
    }

    /// Nothing is left to write after the terminator.
    pub fn finish<S: CursorMut>(self, sink: &mut S) -> (r: Result<Poll, ZebinError>)
        ensures
            r == Ok::<Poll, ZebinError>(Poll::Ready),
            *final(sink) == *old(sink),
    {
        Ok(Poll::Ready)
    }
}

/// Reading one value of a fixed-size type at `p`: the value and the position after it.
pub open spec fn spec_read_value<A: FixedLayout>(data: Seq<u8>, p: int) -> Result<(A, int), DecodeError> {
    if p + A::spec_size() > data.len() {
        Err(range_error(p as usize, A::spec_size() as usize))
    } else {
        match A::spec_decode(data.subrange(p, p + A::spec_size()), p) {
            Ok(v) => Ok((v, p + A::spec_size())),
            Err(e) => Err(e),
        }
    }
}

/// Reading one map entry at `p`: the key, then the value right after it.
pub open spec fn spec_read_pair<K: FixedLayout, V: FixedLayout>(data: Seq<u8>, p: int) -> Result<((K, V), int), DecodeError> {
    match spec_read_value::<K>(data, p) {
        Err(e) => Err(e),
        Ok((k, q)) => match spec_read_value::<V>(data, q) {
            Err(e) => Err(e),
            Ok((v, end)) => Ok(((k, v), end)),
        },
    }
}

/// Reading the entries of a map body at `pos` up to its terminator: the entries in
/// order and the position after the terminator.
pub open spec fn spec_collect_pairs<K: FixedLayout, V: FixedLayout>(data: Seq<u8>, pos: int) -> Result<(Seq<(K, V)>, int), DecodeError>
    decreases data.len() - pos,
{
    if pos < 0 || pos + 1 > data.len() {
        Err(range_error(pos as usize, 1))
    } else if data[pos] == SEQUENCE_TERMINATOR {
        Ok((Seq::empty(), pos + 1))
    } else if data[pos] != SEQUENCE_ELEMENT_MARKER {
        Err(DecodeError::ValidationError { message: "Invalid sequence marker", pos: pos as usize })
    } else {
        match spec_read_pair::<K, V>(data, pos + 1) {
            Err(e) => Err(e),
            Ok((kv, next)) => match spec_collect_pairs::<K, V>(data, next) {
                Err(e) => Err(e),
                Ok((rest, end)) => Ok((seq![kv] + rest, end)),
            },
        }
    }
}

/// Reading a whole map at `pos`: its entries, then a block index, if one follows, which
/// is stepped over.
pub open spec fn spec_map_items<K: FixedLayout, V: FixedLayout>(data: Seq<u8>, pos: int) -> Result<(Seq<(K, V)>, int), DecodeError> {
    match spec_collect_pairs::<K, V>(data, pos) {
        Err(e) => Err(e),
        Ok((items, p)) => match spec_skip_block_index(data, p) {
            Err(e) => Err(e),
            Ok(end) => Ok((items, end)),
        },
    }
}

/// Reads one map entry: the key, then the value.
pub fn access_pair<K: FixedLayout, V: FixedLayout>(cursor: &mut Cursor) -> (r: Result<(K, V), DecodeError>)
    ensures
        final(cursor).data() == old(cursor).data(),
        match spec_read_pair::<K, V>(old(cursor).data(), old(cursor).at()) {
            Ok((kv, end)) => r == Ok::<(K, V), DecodeError>(kv) && final(cursor).at() == end,
            Err(e) => r == Err::<(K, V), DecodeError>(e),
        },
{
    let key = K::access(cursor)?;
    let value = V::access(cursor)?;
    Ok((key, value))
}

/// Reads the entries of an encoded map in order, stepping over a block index that
/// follows.
pub fn decode_map<K: FixedLayout, V: FixedLayout>(cursor: &mut Cursor) -> (r: Result<Vec<(K, V)>, DecodeError>)
    ensures
        final(cursor).data() == old(cursor).data(),
        match spec_map_items::<K, V>(old(cursor).data(), old(cursor).at()) {
            Ok((items, end)) => r matches Ok(v) && v@ == items && final(cursor).at() == end,
            Err(e) => r matches Err(e2) && e2 == e,
        },
{
    let mut items: Vec<(K, V)> = Vec::new();
    proof {
        cursor.lemma_len_bound();
    }
    loop
        invariant_except_break
            match spec_collect_pairs::<K, V>(old(cursor).data(), old(cursor).at()) {
                Ok((all, end)) => match spec_collect_pairs::<K, V>(cursor.data(), cursor.at()) {
                    Ok((rest, end2)) => all == items@ + rest && end2 == end,
                    Err(_) => false,
                },
                Err(e) => spec_collect_pairs::<K, V>(cursor.data(), cursor.at()) == Err::<(Seq<(K, V)>, int), DecodeError>(e),
            },
        invariant
            cursor.data() == old(cursor).data(),
            0 <= cursor.at(),
        ensures
            spec_collect_pairs::<K, V>(old(cursor).data(), old(cursor).at()) == Ok::<(Seq<(K, V)>, int), DecodeError>(
                (items@, cursor.at()),
            ),
        decreases cursor.data().len() - cursor.at(),
    {
        proof {
            cursor.lemma_len_bound();
        }
        let marker = cursor.read_u8()?;
        if marker == SEQUENCE_TERMINATOR {
            proof {
                assert(items@ + Seq::<(K, V)>::empty() =~= items@);
            }
            break;
        } else if marker != SEQUENCE_ELEMENT_MARKER {
            return Err(DecodeError::ValidationError { message: "Invalid sequence marker", pos: cursor.pos() - 1 });
        }
        let kv = access_pair::<K, V>(cursor)?;
        proof {
            let ghost old_items = items@;
            match spec_collect_pairs::<K, V>(cursor.data(), cursor.at()) {
                Ok((rest, _)) => {
                    assert(old_items + (seq![kv] + rest) =~= old_items.push(kv) + rest);
                },
                Err(_) => {},
            }
        }
        items.push(kv);
    }
    skip_block_index(cursor)?;
    Ok(items)
}

/// An entry written at `q` (marker, key, value) reads back as that entry.
pub proof fn lemma_read_written_pair<K: FixedLayout, V: FixedLayout>(data: Seq<u8>, q: int, k: K, v: V)
    requires
        0 <= q,
        q + 1 + spec_pair_bytes(k, v).len() <= data.len(),
        data.subrange(q + 1, q + 1 + spec_pair_bytes(k, v).len()) == spec_pair_bytes(k, v),
    ensures
        spec_read_pair::<K, V>(data, q + 1) == Ok::<((K, V), int), DecodeError>(
            ((k, v), q + 1 + spec_pair_bytes(k, v).len()),
        ),
{
    K::lemma_roundtrip(k, q + 1);
    V::lemma_roundtrip(v, q + 1 + K::spec_size());
    let kb = K::spec_to_bytes(k);
    let vb = V::spec_to_bytes(v);
    lemma_subrange_concat(data, q + 1, kb, vb);
}

/// Collecting from entry `j` of a map written from `p` gives the entries from `j` on
/// and the position after the terminator.
pub proof fn lemma_collect_written_pairs<K: FixedLayout, V: FixedLayout>(data: Seq<u8>, entries: Seq<(K, V)>, p: int, j: int)
    requires
        0 <= p,
        0 <= j <= entries.len(),
        p + spec_map_bytes(entries).len() <= data.len(),
        data.subrange(p, p + spec_map_bytes(entries).len()) == spec_map_bytes(entries),
    ensures
        spec_collect_pairs::<K, V>(data, p + spec_entries_bytes(entries.take(j)).len()) == Ok::<
            (Seq<(K, V)>, int),
            DecodeError,
        >((entries.subrange(j, entries.len() as int), p + spec_map_bytes(entries).len())),
    decreases entries.len() - j,
{
    let all = spec_map_bytes(entries);
    let eb = spec_entries_bytes(entries);
    if j == entries.len() {
        assert(entries.take(j) =~= entries);
        assert(entries.subrange(j, entries.len() as int) =~= Seq::<(K, V)>::empty());
        assert(data[p + eb.len()] == all[eb.len() as int]);
        assert(all[eb.len() as int] == 0);
        assert(all.len() == eb.len() + 1);
    } else {
        lemma_entries_step(entries, j);
        lemma_entries_prefix(entries, j + 1);
        let q = p + spec_entries_bytes(entries.take(j)).len();
        let pre = spec_entries_bytes(entries.take(j + 1));
        let pb = spec_pair_bytes(entries[j].0, entries[j].1);
        let ebj = spec_entries_bytes(entries.take(j));
        assert(pre == ebj + seq![1u8] + pb);
        assert(all.subrange(0, pre.len() as int) =~= pre);
        assert(all[q - p] == pre[q - p]);
        assert(pre[q - p] == 1);
        assert(data[q] == all[q - p]);
        assert(pre.subrange(q - p + 1, pre.len() as int) =~= pb);
        assert(data.subrange(q + 1, q + 1 + pb.len()) =~= all.subrange(q - p + 1, q - p + 1 + pb.len()));
        assert(all.subrange(q - p + 1, q - p + 1 + pb.len()) =~= pre.subrange(q - p + 1, pre.len() as int));
        lemma_read_written_pair(data, q, entries[j].0, entries[j].1);
        lemma_collect_written_pairs(data, entries, p, j + 1);
        assert(seq![(entries[j].0, entries[j].1)] + entries.subrange(j + 1, entries.len() as int) =~= entries.subrange(
            j,
            entries.len() as int,
        ));
    }
}

/// A map written from `p` reads back as its entries, in order, ending where the written
/// bytes end; provided no block index magic byte follows it.
pub proof fn lemma_read_written_map<K: FixedLayout, V: FixedLayout>(data: Seq<u8>, entries: Seq<(K, V)>, p: int)
    requires
        0 <= p,
        p + spec_map_bytes(entries).len() <= data.len(),
        data.subrange(p, p + spec_map_bytes(entries).len()) == spec_map_bytes(entries),
        p + spec_map_bytes(entries).len() == data.len() || data[p + spec_map_bytes(entries).len()] != BLOCK_INDEX_MAGIC,
    ensures
        spec_map_items::<K, V>(data, p) == Ok::<(Seq<(K, V)>, int), DecodeError>(
            (entries, p + spec_map_bytes(entries).len()),
        ),
{
    assert(entries.take(0) =~= Seq::<(K, V)>::empty());
    lemma_collect_written_pairs(data, entries, p, 0);
    assert(entries.subrange(0, entries.len() as int) =~= entries);
}

/// The alignment a map entry is measured with: the larger of the key's and the value's.
pub open spec fn spec_entry_alignment<K: FixedLayout, V: FixedLayout>() -> nat {
    if K::spec_alignment() >= V::spec_alignment() {
        K::spec_alignment()
    } else {
        V::spec_alignment()
    }
}

/// The measured size of the entries of a map: per entry a marker byte, padding to the
/// entry alignment, the key and the value.
pub open spec fn spec_entries_measure<K: FixedLayout, V: FixedLayout>(entries: Seq<(K, V)>) -> int
    decreases entries.len(),
{
    if entries.len() == 0 {
        0
    } else {
        let p1 = spec_entries_measure(entries.drop_last()) + 1;
        p1 + spec_padding(p1, spec_entry_alignment::<K, V>() as int) + K::spec_size() + V::spec_size()
    }
}

/// The measured size of a map: its entries, then the terminator byte.
pub open spec fn spec_map_measure<K: FixedLayout, V: FixedLayout>(entries: Seq<(K, V)>) -> int {
    spec_entries_measure(entries) + 1
}

/// Measured sizes grow with the entries.
pub proof fn lemma_entries_measure_monotone<K: FixedLayout, V: FixedLayout>(entries: Seq<(K, V)>, k: int)
    requires
        0 <= k <= entries.len(),
    ensures
        0 <= spec_entries_measure(entries.take(k)) <= spec_entries_measure(entries),
    decreases entries.len(),
{
    K::lemma_alignment_positive();
    V::lemma_alignment_positive();
    if k == entries.len() {
        assert(entries.take(k) =~= entries);
        if entries.len() > 0 {
            lemma_entries_measure_monotone(entries.drop_last(), 0);
            let p1 = spec_entries_measure(entries.drop_last()) + 1;
            lemma_padding_bounds(p1, spec_entry_alignment::<K, V>() as int);
        } else {
            assert(entries.take(0) =~= Seq::<(K, V)>::empty());
        }
    } else {
        let d = entries.drop_last();
        lemma_entries_measure_monotone(d, k);
        assert(d.take(k) =~= entries.take(k));
        let p1 = spec_entries_measure(d) + 1;
        lemma_padding_bounds(p1, spec_entry_alignment::<K, V>() as int);
    }
}

/// A multiple of the larger of two alignments (each 1, 2, 4 or 8) is a multiple of both.
proof fn lemma_multiple_of_larger(x: int, a: int, b: int)
    requires
        a == 1 || a == 2 || a == 4 || a == 8,
        b == 1 || b == 2 || b == 4 || b == 8,
        x % (if a >= b { a } else { b }) == 0,
    ensures
        x % a == 0,
        x % b == 0,
{
    let m = if a >= b { a } else { b };
    let t = x / m;
    vstd::arithmetic::div_mod::lemma_fundamental_div_mod(x, m);
    let ca = m / a;
    let cb = m / b;
    assert(m == a * ca && m == b * cb);
    assert(x == a * (ca * t)) by (nonlinear_arith)
        requires
            x == m * t + 0,
            m == a * ca,
    ;
    assert(x == b * (cb * t)) by (nonlinear_arith)
        requires
            x == m * t + 0,
            m == b * cb,
    ;
    vstd::arithmetic::div_mod::lemma_mod_multiples_basic(ca * t, a);
    vstd::arithmetic::div_mod::lemma_mod_multiples_basic(cb * t, b);
    assert(ca * t * a == a * (ca * t)) by (nonlinear_arith);
    assert(cb * t * b == b * (cb * t)) by (nonlinear_arith);
}

/// Where the measure places each entry's key: after the previous entries and the entry's
/// marker byte, at the first position that is a multiple of both the key's and the
/// value's alignment; the key and the value follow each other.
pub proof fn lemma_measured_key_placement<K: FixedLayout, V: FixedLayout>(entries: Seq<(K, V)>, k: int)
    requires
        0 <= k < entries.len(),
    ensures
        ({
            let start = spec_entries_measure(entries.take(k));
            let key = spec_entries_measure(entries.take(k + 1)) - K::spec_size() - V::spec_size();
            &&& start + 1 <= key
            &&& key % (K::spec_alignment() as int) == 0
            &&& key % (V::spec_alignment() as int) == 0
            &&& forall|q: int|
                start + 1 <= q < key ==> !(#[trigger] (q % (K::spec_alignment() as int)) == 0 && q % (
                    V::spec_alignment() as int) == 0)
        }),
{
    K::lemma_alignment_power_of_two();
    V::lemma_alignment_power_of_two();
    let ka = K::spec_alignment() as int;
    let va = V::spec_alignment() as int;
    let m = spec_entry_alignment::<K, V>() as int;
    let e = entries.take(k + 1);
    assert(e.drop_last() =~= entries.take(k));
    let start = spec_entries_measure(entries.take(k));
    let p1 = start + 1;
    lemma_padding_bounds(p1, m);
    lemma_padding_reaches_next_multiple(p1, m);
    let key = p1 + spec_padding(p1, m);
    assert(spec_entries_measure(e) - K::spec_size() - V::spec_size() == key);
    lemma_multiple_of_larger(key, ka, va);
    assert forall|q: int| start + 1 <= q < key implies !(#[trigger] (q % ka) == 0 && q % va == 0) by {
        if q % ka == 0 && q % va == 0 {
            assert(q % m == 0);
        }
    }
}

/// The number of bytes a map with these entries is measured to take, or an overflow
/// error when that does not fit in a `usize`.
pub fn measure_map_body<K: FixedLayout, V: FixedLayout>(entries: &[(K, V)]) -> (r: Result<usize, ZebinError>)
    ensures
        spec_map_measure(entries@) > usize::MAX ==> r == Err::<usize, ZebinError>(ZebinError::ArithmeticOverflow { pos: 0 }),
        spec_map_measure(entries@) <= usize::MAX ==> r == Ok::<usize, ZebinError>(spec_map_measure(entries@) as usize),
{
    let ka = K::alignment();
    let va = V::alignment();
    let alignment = if ka >= va { ka } else { va };
    let ks = K::size();
    let vs = V::size();
    let mut pos: usize = 0;
    let mut i: usize = 0;
    proof {
        assert(entries@.take(0) =~= Seq::<(K, V)>::empty());
    }
    while i < entries.len()
        invariant
            i <= entries@.len(),
            alignment == spec_entry_alignment::<K, V>(),
            alignment > 0,
            ks == K::spec_size(),
            vs == V::spec_size(),
            pos == spec_entries_measure(entries@.take(i as int)),
        decreases entries@.len() - i,
    {
        proof {
            lemma_entries_measure_monotone(entries@, (i + 1) as int);
            lemma_entries_measure_monotone(entries@, entries@.len() as int);
            assert(entries@.take((i + 1) as int).drop_last() =~= entries@.take(i as int));
            let p1 = pos + 1;
            lemma_padding_bounds(p1, alignment as int);
        }
        let p1 = match pos.checked_add(1) {
            Some(p) => p,
            None => {
                return Err(ZebinError::ArithmeticOverflow { pos: 0 });
            },
        };
        let pad = padding_for_alignment(p1, alignment);
        let p2 = match p1.checked_add(pad) {
            Some(p) => p,
            None => {
                return Err(ZebinError::ArithmeticOverflow { pos: 0 });
            },
        };
        let p3 = match p2.checked_add(ks) {
            Some(p) => p,
            None => {
                return Err(ZebinError::ArithmeticOverflow { pos: 0 });
            },
        };
        pos = match p3.checked_add(vs) {
            Some(p) => p,
            None => {
                return Err(ZebinError::ArithmeticOverflow { pos: 0 });
            },
        };
        i = i + 1;
    }
    proof {
        assert(entries@.take(i as int) =~= entries@);
    }
    match pos.checked_add(1) {
        Some(p) => Ok(p),
        None => Err(ZebinError::ArithmeticOverflow { pos: 0 }),
    }
}

/// When keys and values need no alignment, the measured size of a map is the number of
/// bytes the map encoder writes for it.
pub proof fn lemma_measure_matches_encoding<K: FixedLayout, V: FixedLayout>(entries: Seq<(K, V)>)
    requires
        K::spec_alignment() == 1,
        V::spec_alignment() == 1,
    ensures
        spec_map_measure(entries) == spec_map_bytes(entries).len(),
    decreases entries.len(),
{
    if entries.len() > 0 {
        lemma_measure_matches_encoding(entries.drop_last());
        let e = entries.last();
        K::lemma_roundtrip(e.0, 0);
        V::lemma_roundtrip(e.1, 0);
        let p1 = spec_entries_measure(entries.drop_last()) + 1;
        assert(p1 % 1 == 0);
    }
}

/// Resumable serializer of an owned pair: the key's bytes, then the value's. The value
/// waits in `pending_value` until the key is written.
pub struct Tuple2Serializer<K, V> {
    pending_value: Option<V>,
    key_serializer: ByteSerializer<K>,
    value_serializer: ByteSerializer<V>,
    key_started: bool,
    value_started: bool,
    stage: u8,
}

impl<K: FixedLayout, V: FixedLayout> Tuple2Serializer<K, V> {
    /// 0 while the key is written, 1 while the value is, 2 once both are.
    pub closed spec fn stage(&self) -> u8 {
        self.stage
    }

    pub closed spec fn key_started(&self) -> bool {
        self.key_started
    }

    /// The value waiting for the key to be written.
    pub closed spec fn pending(&self) -> Option<V> {
        self.pending_value
    }

    /// The bytes of the current key and how many of them have been written.
    pub closed spec fn key_bytes(&self) -> Seq<u8> {
        self.key_serializer.encoding()
    }

    pub closed spec fn key_sent(&self) -> nat {
        self.key_serializer.sent()
    }

    /// The bytes of the value being written and how many of them have been written.
    pub closed spec fn value_bytes(&self) -> Seq<u8> {
        self.value_serializer.encoding()
    }

    pub closed spec fn value_sent(&self) -> nat {
        self.value_serializer.sent()
    }

    pub closed spec fn inv(&self) -> bool {
        &&& self.stage <= 2
        &&& self.key_serializer.wf()
        &&& self.value_serializer.wf()
        &&& self.stage == 0 && self.key_started ==> self.pending_value is Some
        &&& self.stage >= 1 ==> self.value_started
    }

    /// A serializer with nothing given yet.
    pub fn new() -> (r: Tuple2Serializer<K, V>)
        ensures
            r.inv(),
            r.stage() == 0,
            !r.key_started(),
            r.pending() is None,
            r.key_sent() == 0,
    {
        Tuple2Serializer {
            pending_value: None,
            key_serializer: ByteSerializer::new(),
            value_serializer: ByteSerializer::new(),
            key_started: false,
            value_started: false,
            stage: 0,
        }
    }

    /// After the key: moves the waiting value into its serializer and writes as much of
    /// it as the sink takes.
    fn advance_after_key<S: CursorMut>(&mut self, sink: &mut S) -> (r: Result<Poll, ZebinError>)
        requires
            old(sink).inv(),
            old(self).inv(),
            old(self).pending_value is Some,
        ensures
            final(sink).inv(),
            final(sink).limit() == old(sink).limit(),
            r == Ok::<Poll, ZebinError>(Poll::Pending) ==> is_full(*final(sink)),
            final(self).inv(),
            final(self).key_serializer == old(self).key_serializer,
            final(self).key_started == old(self).key_started,
            final(self).pending_value is None,
            final(self).value_bytes() == V::spec_to_bytes(old(self).pending_value->0),
            final(self).value_sent() <= final(self).value_bytes().len(),
            final(sink).written() == old(sink).written() + final(self).value_bytes().subrange(
                0,
                final(self).value_sent() as int,
            ),
            r matches Ok(Poll::Ready) ==> final(self).stage == 2 && final(self).value_sent() == final(self).value_bytes().len(),
            r matches Ok(Poll::Pending) ==> final(self).stage == 1 && final(self).value_sent() < final(self).value_bytes().len(),
            r is Err ==> final(self).stage == 1,
            r is Err ==> final(self).value_bytes().len() > room(*old(sink)) && !S::never_refuses(),
    {
        self.stage = 1;
        let v = match self.pending_value.take() {
            Some(v) => v,
            None => {
                return Err(ZebinError::SerializationError { pos: sink.pos(), message: "Tuple2Serializer lost pending value" });
            },
        };
        self.value_started = true;
        let res = self.value_serializer.input(v, sink);
        proof {
            self.value_serializer.lemma_sent_bound();
        }
        match res {
            Err(e) => Err(e),
            Ok(Poll::Pending) => Ok(Poll::Pending),
            Ok(Poll::Ready) => {
                self.stage = 2;
                Ok(Poll::Ready)
            },
        }
    }

    /// Takes a pair: the value waits while the key is written; once the key is
    /// complete, the value is written as far as the sink takes it.
    pub fn input<S: CursorMut>(&mut self, item: (K, V), sink: &mut S) -> (r: Result<Poll, ZebinError>)
        requires
            old(sink).inv(),
            old(self).inv(),
        ensures
            final(sink).inv(),
            final(sink).limit() == old(sink).limit(),
            r == Ok::<Poll, ZebinError>(Poll::Pending) ==> is_full(*final(sink)),
            final(self).inv(),
            final(self).key_bytes() == K::spec_to_bytes(item.0),
            final(self).key_sent() <= final(self).key_bytes().len(),
            r is Err && final(self).key_sent() < final(self).key_bytes().len() ==> final(self).key_sent() == 0
                && final(self).stage() == old(self).stage() && final(self).key_started() == old(self).key_started()
                && final(self).pending() == Some(item.1) && final(sink).written() == old(sink).written(),
            final(self).key_sent() < final(self).key_bytes().len() && r is Ok ==> r == Ok::<Poll, ZebinError>(
                Poll::Pending,
            ) && final(self).key_started() && final(self).stage() == old(self).stage() && final(self).pending() == Some(
                item.1,
            ) && final(sink).written() == old(sink).written() + final(self).key_bytes().subrange(
                0,
                final(self).key_sent() as int,
            ),
            final(self).key_sent() == final(self).key_bytes().len() && final(self).key_bytes().len() > 0 ==> {
                &&& final(self).key_started()
                &&& final(self).pending() is None
                &&& final(self).value_bytes() == V::spec_to_bytes(item.1)
                &&& final(self).value_sent() <= final(self).value_bytes().len()
                &&& final(sink).written() == old(sink).written() + final(self).key_bytes() + final(self).value_bytes().subrange(
                    0,
                    final(self).value_sent() as int,
                )
                &&& (r matches Ok(Poll::Ready) <==> final(self).stage() == 2 && final(self).value_sent()
                    == final(self).value_bytes().len() && r is Ok)
                &&& (r matches Ok(Poll::Pending) ==> final(self).stage() == 1)
            },
            r is Err ==> K::spec_to_bytes(item.0).len() + V::spec_to_bytes(item.1).len() > room(*old(sink)) && !S::never_refuses(),
    {
        let (key, value) = item;
        self.pending_value = Some(value);
        let res = self.key_serializer.input(key, sink);
        proof {
            self.key_serializer.lemma_sent_bound();
            K::lemma_roundtrip(key, 0);
        }
        match res {
            Err(e) => Err(e),
            Ok(Poll::Pending) => {
                self.key_started = true;
                Ok(Poll::Pending)
            },
            Ok(Poll::Ready) => {
                self.key_started = true;
                let ghost w1 = sink.written();
                proof {
                    assert(self.key_serializer.encoding().subrange(0, self.key_serializer.sent() as int)
                        =~= self.key_serializer.encoding());
                }
                let r = self.advance_after_key(sink);
                proof {
                    self.value_serializer.lemma_sent_bound();
                }
                r
            },
        }
    }

    /// Writes as much as the sink takes: the rest of the key and then the value, or the
    /// rest of the value. Refused before any pair was given.
    pub fn poll_pending<S: CursorMut>(&mut self, sink: &mut S) -> (r: Result<Poll, ZebinError>)
        requires
            old(sink).inv(),
            old(self).inv(),
        ensures
            final(sink).inv(),
            final(sink).limit() == old(sink).limit(),
            r == Ok::<Poll, ZebinError>(Poll::Pending) ==> is_full(*final(sink)),
            final(self).inv(),
            old(self).stage() == 0 && !old(self).key_started() ==> r == Err::<Poll, ZebinError>(
                ZebinError::SerializationError {
                    pos: old(sink).spec_pos() as usize,
                    message: "Tuple2Serializer polled before input",
                },
            ) && *final(self) == *old(self) && *final(sink) == *old(sink),
            old(self).stage() == 2 ==> r == Ok::<Poll, ZebinError>(Poll::Ready) && *final(self) == *old(self)
                && *final(sink) == *old(sink),
            old(self).stage() == 1 ==> {
                &&& final(self).value_bytes() == old(self).value_bytes()
                &&& old(self).value_sent() <= final(self).value_sent() <= final(self).value_bytes().len()
                &&& final(sink).written() == old(sink).written() + old(self).value_bytes().subrange(
                    old(self).value_sent() as int,
                    final(self).value_sent() as int,
                )
                &&& (r matches Ok(p) ==> (p == Poll::Ready <==> final(self).value_sent() == final(self).value_bytes().len()))
                &&& (r matches Ok(Poll::Ready) ==> final(self).stage() == 2)
                &&& (r matches Ok(Poll::Pending) ==> final(self).stage() == 1)
            },
            old(self).stage() == 0 && old(self).key_started() ==> {
                &&& final(self).key_bytes() == old(self).key_bytes()
                &&& old(self).key_sent() <= final(self).key_sent() <= final(self).key_bytes().len()
                &&& (final(self).key_sent() < final(self).key_bytes().len() ==> final(self).stage() == 0
                    && final(sink).written() == old(sink).written() + old(self).key_bytes().subrange(
                    old(self).key_sent() as int,
                    final(self).key_sent() as int,
                ) && (r is Ok ==> r == Ok::<Poll, ZebinError>(Poll::Pending)))
                &&& (final(self).key_sent() == final(self).key_bytes().len() && final(self).stage() != 0 ==> {
                    &&& final(self).pending() is None
                    &&& final(self).value_bytes() == V::spec_to_bytes(old(self).pending()->0)
                    &&& final(self).value_sent() <= final(self).value_bytes().len()
                    &&& final(sink).written() == old(sink).written() + old(self).key_bytes().subrange(
                        old(self).key_sent() as int,
                        final(self).key_sent() as int,
                    ) + final(self).value_bytes().subrange(0, final(self).value_sent() as int)
                    &&& (r matches Ok(Poll::Ready) <==> final(self).stage() == 2 && final(self).value_sent()
                        == final(self).value_bytes().len() && r is Ok)
                })
            },
            old(self).stage() == 1 && r is Err ==> old(self).value_bytes().len() - old(self).value_sent() > room(
                *old(sink),
            ) && !S::never_refuses(),
            old(self).stage() == 0 && old(self).key_started() && r is Err ==> old(self).key_bytes().len()
                - old(self).key_sent() + V::spec_to_bytes(old(self).pending()->0).len() > room(*old(sink)) && !S::never_refuses(),
    {
        if self.stage == 0 {
            if !self.key_started {
                return Err(ZebinError::SerializationError { pos: sink.pos(), message: "Tuple2Serializer polled before input" });
            }
            let res = self.key_serializer.poll_pending(sink);
            proof {
                self.key_serializer.lemma_sent_bound();
            }
            match res {
                Err(e) => {
                    return Err(e);
                },
                Ok(Poll::Pending) => {
                    return Ok(Poll::Pending);
                },
                Ok(Poll::Ready) => {},
            }
            let ghost w1 = sink.written();
            let r = self.advance_after_key(sink);
            proof {
                self.value_serializer.lemma_sent_bound();
            }
            return r;
        }
        if self.stage == 1 {
            if !self.value_started {
                let v = match self.pending_value.take() {
                    Some(v) => v,
                    None => {
                        return Err(ZebinError::SerializationError { pos: sink.pos(), message: "Tuple2Serializer lost pending value" });
                    },
                };
                self.value_started = true;
                match self.value_serializer.input(v, sink)? {
                    Poll::Pending => {
                        return Ok(Poll::Pending);
                    },
                    Poll::Ready => {},
                }
            } else {
                let res = self.value_serializer.poll_pending(sink);
                proof {
                    self.value_serializer.lemma_sent_bound();
                }
                match res? {
                    Poll::Pending => {
                        return Ok(Poll::Pending);
                    },
                    Poll::Ready => {},
                }
            }
            self.stage = 2;
        }
        Ok(Poll::Ready)
    }

    /// Nothing is left to write after the pair.
    pub fn finish<S: CursorMut>(self, sink: &mut S) -> (r: Result<Poll, ZebinError>)
        ensures
            r == Ok::<Poll, ZebinError>(Poll::Ready),
            *final(sink) == *old(sink),
    {
        Ok(Poll::Ready)
    }
}

} // verus!
