use vstd::prelude::*;
use crate::cursor::{Cursor, range_error};
use crate::error::{DecodeError, ZebinError};
use crate::primitive::{ByteSerializer, FixedLayout};
use crate::sink::{CursorMut, Poll, is_full, room};

verus! {

/// The bytes of a fixed-size array: those of its elements, one after the other, with
/// nothing between them.
pub open spec fn spec_array_bytes<T: FixedLayout>(items: Seq<T>) -> Seq<u8>
    decreases items.len(),
{
    if items.len() == 0 {
        Seq::empty()
    } else {
        spec_array_bytes(items.drop_last()) + T::spec_to_bytes(items.last())
    }
}

/// The array bytes of `items` have one element size per element.
pub proof fn lemma_array_bytes_len<T: FixedLayout>(items: Seq<T>)
    ensures
        spec_array_bytes(items).len() == items.len() * T::spec_size(),
    decreases items.len(),
{
    if items.len() > 0 {
        lemma_array_bytes_len(items.drop_last());
        T::lemma_roundtrip(items.last(), 0);
        assert(items.len() * T::spec_size() == (items.len() - 1) * T::spec_size() + T::spec_size()) by (nonlinear_arith);
    }
}

/// The array bytes of a prefix of `items` start those of `items`.
proof fn lemma_array_bytes_prefix<T: FixedLayout>(items: Seq<T>, k: int)
    requires
        0 <= k <= items.len(),
    ensures
        spec_array_bytes(items.take(k)).len() <= spec_array_bytes(items).len(),
        spec_array_bytes(items).subrange(0, spec_array_bytes(items.take(k)).len() as int) == spec_array_bytes(
            items.take(k),
        ),
    decreases items.len() - k,
{
    if k == items.len() {
        assert(items.take(k) =~= items);
    } else {
        lemma_array_bytes_prefix(items, k + 1);
        lemma_array_bytes_step(items, k);
        let a = spec_array_bytes(items.take(k));
        let b = spec_array_bytes(items.take(k + 1));
        assert(b.subrange(0, a.len() as int) =~= a);
        assert(spec_array_bytes(items).subrange(0, a.len() as int) =~= b.subrange(0, a.len() as int));
    }
}

/// The array bytes of the first `k + 1` elements: those of the first `k`, then element `k`.
proof fn lemma_array_bytes_step<T: FixedLayout>(items: Seq<T>, k: int)
    requires
        0 <= k < items.len(),
    ensures
        spec_array_bytes(items.take(k + 1)) == spec_array_bytes(items.take(k)) + T::spec_to_bytes(items[k]),
{
    assert(items.take(k + 1).drop_last() =~= items.take(k));
}

/// Resumable encoder of a fixed-size array: the elements are written one after the
/// other, each through a byte serializer, as the sink makes room.
pub struct ArrayEncoder<T, const N: usize> {
    items: Option<[T; N]>,
    next: usize,
    item_encoder: ByteSerializer<T>,
    started: bool,
    awaiting_next: bool,
    emitted: Ghost<Seq<u8>>,
}

impl<T: FixedLayout, const N: usize> ArrayEncoder<T, N> {
    /// The array being written, once given.
    pub closed spec fn items(&self) -> Option<Seq<T>> {
        match self.items {
            Some(a) => Some(a@),
            None => None,
        }
    }

    /// Whether an array was given.
    pub closed spec fn started(&self) -> bool {
        self.started
    }

    /// Everything written for the current array so far.
    pub closed spec fn emitted(&self) -> Seq<u8> {
        self.emitted@
    }

    /// Everything to write for the current array.
    pub open spec fn stream(&self) -> Seq<u8> {
        spec_array_bytes(self.items()->0)
    }

    pub closed spec fn wf(&self) -> bool {
        &&& self.item_encoder.wf()
        &&& self.started <==> self.items is Some
        &&& !self.started ==> self.emitted@ == Seq::<u8>::empty() && self.awaiting_next
        &&& self.started ==> {
            let items = self.items->0@;
            &&& items.len() == N
            &&& self.next <= N
            &&& self.awaiting_next ==> self.emitted@ == spec_array_bytes(items.take(self.next as int))
            &&& !self.awaiting_next ==> {
                &&& self.next >= 1
                &&& self.item_encoder.encoding() == T::spec_to_bytes(items[self.next - 1])
                &&& self.emitted@ == spec_array_bytes(items.take(self.next - 1)) + self.item_encoder.encoding().subrange(
                    0,
                    self.item_encoder.sent() as int,
                )
            }
        }
    }

    /// What is written is the start of what is to be written.
    proof fn lemma_wf_prefix(&self)
        requires
            self.wf(),
            self.started,
        ensures
            self.emitted().len() <= self.stream().len(),
            self.stream().subrange(0, self.emitted().len() as int) == self.emitted(),
    {
        let items = self.items->0@;
        if self.awaiting_next {
            lemma_array_bytes_prefix(items, self.next as int);
        } else {
            let k = self.next - 1;
            self.item_encoder.lemma_sent_bound();
            lemma_array_bytes_prefix(items, k + 1);
            lemma_array_bytes_step(items, k);
            let a = spec_array_bytes(items.take(k));
            let e = self.item_encoder.encoding();
            let b = a + e;
            assert(b.subrange(0, self.emitted@.len() as int) =~= self.emitted@);
            assert(self.stream().subrange(0, self.emitted@.len() as int) =~= b.subrange(0, self.emitted@.len() as int));
        }
    }

    pub fn new() -> (r: ArrayEncoder<T, N>)
        ensures
            r.wf(),
            !r.started(),
            r.emitted() == Seq::<u8>::empty(),
    {
        ArrayEncoder {
            items: None,
            next: 0,
            item_encoder: ByteSerializer::new(),
            started: false,
            awaiting_next: true,
            emitted: Ghost(Seq::empty()),
        }
    }

    /// Takes the array and writes as much of it as the sink takes.
    pub fn input<S: CursorMut>(&mut self, item: [T; N], sink: &mut S) -> (r: Result<Poll, ZebinError>)
        requires
            old(sink).inv(),
            old(self).wf(),
        ensures
            final(sink).inv(),
            final(sink).limit() == old(sink).limit(),
            r == Ok::<Poll, ZebinError>(Poll::Pending) ==> is_full(*final(sink)),
            final(self).started(),
            final(self).items() == Some(item@),
            final(self).emitted().len() <= final(self).stream().len(),
            final(self).stream().subrange(0, final(self).emitted().len() as int) == final(self).emitted(),
            final(sink).written() == old(sink).written() + final(self).emitted(),
            final(sink).spec_pos() == old(sink).spec_pos() + final(self).emitted().len(),
            r is Ok ==> final(self).wf(),
            r matches Ok(p) ==> (p == Poll::Ready <==> final(self).emitted() == final(self).stream()),
            r is Err ==> spec_array_bytes(item@).len() > room(*old(sink)) && !S::never_refuses(),
    {
        self.items = Some(item);
        self.next = 0;
        self.started = true;
        self.awaiting_next = true;
        self.emitted = Ghost(Seq::empty());
        proof {
            assert(item@.take(0) =~= Seq::<T>::empty());
            assert(old(sink).written() + Seq::<u8>::empty() =~= old(sink).written());
        }
        let r = self.poll_pending(sink);
        proof {
            assert(self.emitted@.subrange(0, 0) =~= Seq::<u8>::empty());
            assert(self.emitted@.subrange(0, self.emitted@.len() as int) =~= self.emitted@);
        }
        r
    }

    /// Writes more of the array, element after element, as the sink makes room.
    pub fn poll_pending<S: CursorMut>(&mut self, sink: &mut S) -> (r: Result<Poll, ZebinError>)
        requires
            old(sink).inv(),
            old(self).wf(),
        ensures
            final(sink).inv(),
            final(sink).limit() == old(sink).limit(),
            r == Ok::<Poll, ZebinError>(Poll::Pending) ==> is_full(*final(sink)),
            !old(self).started() ==> r == Err::<Poll, ZebinError>(
                ZebinError::SerializationError {
                    pos: old(sink).spec_pos() as usize,
                    message: "ArrayEncoder polled before input",
                },
            ) && *final(self) == *old(self) && *final(sink) == *old(sink),
            final(self).started() == old(self).started(),
            final(self).items() == old(self).items(),
            old(self).emitted().len() <= final(self).emitted().len(),
            final(self).emitted().subrange(0, old(self).emitted().len() as int) == old(self).emitted(),
            old(self).started() ==> final(self).emitted().len() <= final(self).stream().len()
                && final(self).stream().subrange(0, final(self).emitted().len() as int) == final(self).emitted(),
            final(sink).written() == old(sink).written() + final(self).emitted().subrange(
                old(self).emitted().len() as int,
                final(self).emitted().len() as int,
            ),
            final(sink).spec_pos() == old(sink).spec_pos() + (final(self).emitted().len() - old(self).emitted().len()),
            r is Ok ==> final(self).wf(),
            r matches Ok(p) ==> (p == Poll::Ready <==> final(self).emitted() == final(self).stream()),
            old(self).started() && r is Err ==> final(self).stream().len() - old(self).emitted().len() > room(*old(sink)) && !S::never_refuses(),
    {
        if !self.started {
            return Err(ZebinError::SerializationError { pos: sink.pos(), message: "ArrayEncoder polled before input" });
        }
        let ghost e0 = self.emitted@;
        let ghost w0 = sink.written();
        let ghost p0 = sink.spec_pos();
        let ghost lim = sink.limit();
        let ghost items = self.items->0@;
        proof {
            self.lemma_wf_prefix();
            assert(e0.subrange(0, e0.len() as int) =~= e0);
            assert(w0 + e0.subrange(e0.len() as int, e0.len() as int) =~= w0);
        }
        loop
            invariant
                self.wf(),
                self.started,
                self.items is Some,
                self.items->0@ == items,
                items.len() == N,
                sink.inv(),
                sink.limit() == lim,
                e0.len() <= self.emitted@.len(),
                self.emitted@.subrange(0, e0.len() as int) == e0,
                self.emitted@.len() <= spec_array_bytes(items).len(),
                spec_array_bytes(items).subrange(0, self.emitted@.len() as int) == self.emitted@,
                sink.written() == w0 + self.emitted@.subrange(e0.len() as int, self.emitted@.len() as int),
                sink.spec_pos() == p0 + (self.emitted@.len() - e0.len()),
                e0 == old(self).emitted@,
                w0 == old(sink).written(),
                p0 == old(sink).spec_pos(),
                lim == old(sink).limit(),
                self.started == old(self).started,
                self.items == old(self).items,
            decreases N - self.next, (if self.awaiting_next { 0int } else { 1int }),
        {
            if self.awaiting_next {
                if self.next >= N {
                    proof {
                        assert(items.take(N as int) =~= items);
                    }
                    return Ok(Poll::Ready);
                }
                let a = match &self.items {
                    Some(a) => a,
                    None => {
                        return Ok(Poll::Ready);
                    },
                };
                let item = a[self.next];
                let ghost k = self.next as int;
                let ghost e1 = self.emitted@;
                let ghost w1 = sink.written();
                self.next = self.next + 1;
                let res = self.item_encoder.input(item, sink);
                let ghost sent = self.item_encoder.sent();
                let ghost enc = self.item_encoder.encoding();
                self.emitted = Ghost(e1 + enc.subrange(0, sent as int));
                proof {
                    self.item_encoder.lemma_sent_bound();
                    lemma_array_bytes_step(items, k);
                    lemma_array_bytes_prefix(items, k + 1);
                    T::lemma_roundtrip(item, 0);
                    let b = spec_array_bytes(items.take(k + 1));
                    assert(item == items[k]);
                    assert(e1 == spec_array_bytes(items.take(k)));
                    assert(enc == T::spec_to_bytes(item));
                    assert(b == e1 + enc);
                    assert(self.emitted@.subrange(0, e0.len() as int) =~= e0);
                    assert(spec_array_bytes(items).subrange(0, self.emitted@.len() as int) =~= b.subrange(
                        0,
                        self.emitted@.len() as int,
                    ));
                    assert(b.subrange(0, self.emitted@.len() as int) =~= self.emitted@);
                    assert(self.emitted@.subrange(e0.len() as int, self.emitted@.len() as int) =~= e1.subrange(
                        e0.len() as int,
                        e1.len() as int,
                    ) + enc.subrange(0, sent as int));
                }
                match res {
                    Err(e) => {
                        return Err(e);
                    },
                    Ok(Poll::Pending) => {
                        self.awaiting_next = false;
                        return Ok(Poll::Pending);
                    },
                    Ok(Poll::Ready) => {
                        proof {
                            assert(enc.subrange(0, sent as int) =~= enc);
                        }
                    },
                }
            } else {
                let ghost k = self.next - 1;
                let ghost e1 = self.emitted@;
                let ghost s0 = self.item_encoder.sent();
                let ghost enc = self.item_encoder.encoding();
                let res = self.item_encoder.poll_pending(sink);
                let ghost s1 = self.item_encoder.sent();
                self.emitted = Ghost(e1 + enc.subrange(s0 as int, s1 as int));
                proof {
                    lemma_array_bytes_step(items, k);
                    lemma_array_bytes_prefix(items, k + 1);
                    let a = spec_array_bytes(items.take(k));
                    let b = spec_array_bytes(items.take(k + 1));
                    self.item_encoder.lemma_sent_bound();
                    assert(self.emitted@ =~= a + enc.subrange(0, s1 as int));
                    assert(b.subrange(0, self.emitted@.len() as int) =~= self.emitted@);
                    assert(spec_array_bytes(items).subrange(0, self.emitted@.len() as int) =~= b.subrange(
                        0,
                        self.emitted@.len() as int,
                    ));
                    assert(self.emitted@.subrange(0, e0.len() as int) =~= e0);
                    assert(self.emitted@.subrange(e0.len() as int, self.emitted@.len() as int) =~= e1.subrange(
                        e0.len() as int,
                        e1.len() as int,
                    ) + enc.subrange(s0 as int, s1 as int));
                }
                match res {
                    Err(e) => {
                        return Err(e);
                    },
                    Ok(Poll::Pending) => {
                        return Ok(Poll::Pending);
                    },
                    Ok(Poll::Ready) => {
                        self.awaiting_next = true;
                        proof {
                            assert(enc.subrange(0, s1 as int) =~= enc);
                        }
                    },
                }
            }
        }
    }

    /// Nothing is left to write once the array is sent.
    pub fn finish<S: CursorMut>(self, sink: &mut S) -> (r: Result<Poll, ZebinError>)
        ensures
            r == Ok::<Poll, ZebinError>(Poll::Ready),
            *final(sink) == *old(sink),
    {
        self.item_encoder.finish(sink)
    }
}

/// Measured size of a fixed-size array: its elements' sizes added up, or an overflow
/// error.
pub fn measure_array_body<T: FixedLayout, const N: usize>(items: &[T; N]) -> (r: Result<usize, ZebinError>)
    ensures
        N * T::spec_size() <= usize::MAX ==> r == Ok::<usize, ZebinError>((N * T::spec_size()) as usize),
        N * T::spec_size() > usize::MAX ==> r == Err::<usize, ZebinError>(ZebinError::ArithmeticOverflow { pos: 0 }),
{
    let size = T::size();
    let mut total: usize = 0;
    let mut i: usize = 0;
    while i < N
        invariant
            i <= N,
            size == T::spec_size(),
            total == i * T::spec_size(),
        decreases N - i,
    {
        proof {
            assert((i + 1) * T::spec_size() == i * T::spec_size() + T::spec_size()) by (nonlinear_arith);
            assert(i + 1 <= N ==> (i + 1) * T::spec_size() <= N * T::spec_size()) by (nonlinear_arith);
        }
        total = match total.checked_add(size) {
            Some(t) => t,
            None => {
                return Err(ZebinError::ArithmeticOverflow { pos: 0 });
            },
        };
        i = i + 1;
    }
    Ok(total)
}

/// What reading `n` elements one after the other at `pos` gives: the values and the
/// position after them, or the first error.
pub open spec fn spec_read_array<T: FixedLayout>(data: Seq<u8>, pos: int, n: nat) -> Result<(Seq<T>, int), DecodeError>
    decreases n,
{
    if n == 0 {
        Ok((Seq::empty(), pos))
    } else if pos + T::spec_size() > data.len() {
        Err(range_error(pos as usize, T::spec_size() as usize))
    } else {
        match T::spec_decode(data.subrange(pos, pos + T::spec_size()), pos) {
            Err(e) => Err(e),
            Ok(v) => match spec_read_array::<T>(data, pos + T::spec_size(), (n - 1) as nat) {
                Err(e) => Err(e),
                Ok((rest, end)) => Ok((seq![v] + rest, end)),
            },
        }
    }
}

/// Reads a fixed-size array of `N` elements at the cursor.
pub fn decode_array<T: FixedLayout, const N: usize>(cursor: &mut Cursor) -> (r: Result<Vec<T>, DecodeError>)
    ensures
        final(cursor).data() == old(cursor).data(),
        match spec_read_array::<T>(old(cursor).data(), old(cursor).at(), N as nat) {
            Ok((values, end)) => r matches Ok(v) && v@ == values && final(cursor).at() == end,
            Err(e) => r matches Err(e2) && e2 == e,
        },
{
    let ghost data = cursor.data();
    let ghost start = cursor.at();
    let mut out: Vec<T> = Vec::new();
    let mut i: usize = 0;
    while i < N
        invariant
            i <= N,
            out@.len() == i,
            cursor.data() == data,
            data == old(cursor).data(),
            start == old(cursor).at(),
            match spec_read_array::<T>(data, start, N as nat) {
                Ok((values, end)) => match spec_read_array::<T>(data, cursor.at(), (N - i) as nat) {
                    Ok((rest, end2)) => end2 == end && values == out@ + rest,
                    Err(_) => false,
                },
                Err(e) => match spec_read_array::<T>(data, cursor.at(), (N - i) as nat) {
                    Ok(_) => false,
                    Err(e2) => e2 == e,
                },
            },
        decreases N - i,
    {
        let ghost at = cursor.at();
        let v = T::access(cursor)?;
        proof {
            match spec_read_array::<T>(data, cursor.at(), (N - i - 1) as nat) {
                Ok((rest, _)) => {
                    assert(seq![v] + rest =~= seq![v] + rest);
                    assert(out@.push(v) + rest =~= out@ + (seq![v] + rest));
                },
                Err(_) => {},
            }
        }
        out.push(v);
        i = i + 1;
    }
    proof {
        assert(out@ + Seq::<T>::empty() =~= out@);
    }
    Ok(out)
}

/// Checks a fixed-size array of `N` elements at the cursor.
pub fn validate_array<T: FixedLayout, const N: usize>(cursor: &mut Cursor) -> (r: Result<(), DecodeError>)
    ensures
        final(cursor).data() == old(cursor).data(),
        match spec_read_array::<T>(old(cursor).data(), old(cursor).at(), N as nat) {
            Ok((_, end)) => r is Ok && final(cursor).at() == end,
            Err(e) => r == Err::<(), DecodeError>(e),
        },
{
    match decode_array::<T, N>(cursor) {
        Ok(_) => Ok(()),
        Err(e) => Err(e),
    }
}

/// The bytes of an array, with anything before and after them, read back as its
/// elements, ending right after them.
pub proof fn lemma_array_roundtrip<T: FixedLayout>(pre: Seq<u8>, items: Seq<T>, post: Seq<u8>)
    ensures
        spec_read_array::<T>(pre + spec_array_bytes(items) + post, pre.len() as int, items.len()) == Ok::<
            (Seq<T>, int),
            DecodeError,
        >((items, (pre.len() + spec_array_bytes(items).len()) as int)),
    decreases items.len(),
{
    if items.len() == 0 {
        assert(items =~= Seq::<T>::empty());
    } else {
        let x = items[0];
        let rest = items.drop_first();
        T::lemma_roundtrip(x, pre.len() as int);
        lemma_array_bytes_first(items);
        let xb = T::spec_to_bytes(x);
        lemma_array_roundtrip(pre + xb, rest, post);
        let data = pre + spec_array_bytes(items) + post;
        assert(data =~= (pre + xb) + spec_array_bytes(rest) + post);
        assert(data.subrange(pre.len() as int, (pre.len() + T::spec_size()) as int) =~= xb);
        assert(seq![x] + rest =~= items);
        assert((pre + xb).len() == pre.len() + T::spec_size());
        assert(T::spec_decode(data.subrange(pre.len() as int, (pre.len() + T::spec_size()) as int), pre.len() as int)
            == Ok::<T, DecodeError>(x));
        assert(spec_array_bytes(items).len() == T::spec_size() + spec_array_bytes(rest).len());
        assert(rest.len() == (items.len() - 1) as nat);
        assert(pre.len() + T::spec_size() <= data.len());
        assert(spec_read_array::<T>(data, (pre.len() + T::spec_size()) as int, rest.len()) == Ok::<(Seq<T>, int), DecodeError>(
            (rest, (pre.len() + T::spec_size() + spec_array_bytes(rest).len()) as int),
        ));
    }
}

/// The array bytes of `items`: those of its first element, then those of the rest.
proof fn lemma_array_bytes_first<T: FixedLayout>(items: Seq<T>)
    requires
        items.len() > 0,
    ensures
        spec_array_bytes(items) == T::spec_to_bytes(items[0]) + spec_array_bytes(items.drop_first()),
    decreases items.len(),
{
    if items.len() == 1 {
        assert(items.drop_last() =~= Seq::<T>::empty());
        assert(items.drop_first() =~= Seq::<T>::empty());
        assert(spec_array_bytes(items.drop_first()) =~= Seq::<u8>::empty());
    } else {
        lemma_array_bytes_first(items.drop_last());
        assert(items.drop_last().drop_first() =~= items.drop_first().drop_last());
        assert(items.drop_first().last() == items.last());
        assert(items.drop_last()[0] == items[0]);
    }
}

} // verus!
