use vstd::prelude::*;
use crate::block_index::BlockIndex;
use crate::cursor::Cursor;
use crate::error::DecodeError;
use crate::iter::{
    ArchivedIterIter,
    ArchivedIterView,
    spec_access_sequence,
    spec_get,
    spec_index_info,
    spec_iter_from_at,
    spec_iter_results,
    spec_yields_from,
};
use crate::primitive::FixedLayout;

verus! {

/// A decoded archived sequence held over the bytes of the archive: the position of its
/// first element, its length and its block index, if it has one.
pub struct ArchivedIter<'a, A> {
    view: ArchivedIterView<'a, A>,
}

impl<'a, A: FixedLayout> ArchivedIter<'a, A> {
    pub closed spec fn data(&self) -> Seq<u8> {
        self.view.data()
    }

    /// The bytes fit in the address space.
    pub proof fn lemma_data_len(&self)
        ensures
            self.data().len() <= usize::MAX,
    {
        self.view.lemma_data_len();
    }

    pub closed spec fn start(&self) -> usize {
        self.view.start()
    }

    pub closed spec fn spec_len(&self) -> usize {
        self.view.spec_len()
    }

    /// Chunk size and offsets of the block index, if the sequence has one.
    pub closed spec fn index_info(&self) -> Option<(usize, Seq<usize>)> {
        self.view.index_info()
    }

    /// The sequence of `len` elements stored at `start_pos` of `bytes`.
    pub fn new(bytes: &'a [u8], start_pos: usize, len: usize, block_index: Option<BlockIndex>) -> (r: ArchivedIter<'a, A>)
        ensures
            r.data() == bytes@,
            r.start() == start_pos,
            r.spec_len() == len,
            r.index_info() == spec_index_info(block_index),
    {
        ArchivedIter { view: ArchivedIterView::new(bytes, start_pos, len, block_index) }
    }

    /// Decodes a sequence at the cursor: checks its elements and reads its block index.
    pub fn decode(cursor: &mut Cursor<'a>) -> (r: Result<ArchivedIter<'a, A>, DecodeError>)
        ensures
            final(cursor).data() == old(cursor).data(),
            match spec_access_sequence::<A>(old(cursor).data(), old(cursor).at()) {
                Ok((len, info, end)) => r matches Ok(v) && v.data() == old(cursor).data() && v.start() == old(
                    cursor,
                ).at() && v.spec_len() == len && v.index_info() == info && final(cursor).at() == end,
                Err(e) => r matches Err(e2) && e2 == e,
            },
    {
        let view = crate::iter::ArchivedIter::<A>::access(cursor)?;
        Ok(ArchivedIter { view })
    }

    /// Checks a sequence at the cursor, its block index included.
    pub fn validate(cursor: &mut Cursor<'a>) -> (r: Result<(), DecodeError>)
        ensures
            final(cursor).data() == old(cursor).data(),
            match spec_access_sequence::<A>(old(cursor).data(), old(cursor).at()) {
                Ok((_, _, end)) => r is Ok && final(cursor).at() == end,
                Err(e) => r == Err::<(), DecodeError>(e),
            },
    {
        crate::iter::ArchivedIter::<A>::validate(cursor)
    }

    pub fn len(&self) -> (r: usize)
        ensures
            r == self.spec_len(),
    {
        self.view.len()
    }

    pub fn is_empty(&self) -> (r: bool)
        ensures
            r == (self.spec_len() == 0),
    {
        self.view.is_empty()
    }

    /// Iterator over all elements from the first.
    pub fn iter(&self) -> (r: ArchivedIterIter<'a, A>)
        ensures
            r.data() == self.data(),
            r.at() == self.start(),
            r.remaining() == self.spec_len(),
            r.yields() == spec_iter_results::<A>(self.data(), self.start() as int, self.spec_len() as nat),
    {
        self.view.iter()
    }

    /// Element `index`, found through the block index when it has the block, else by a
    /// scan from the first element.
    pub fn get(&self, index: usize) -> (r: Result<A, DecodeError>)
        ensures
            r == spec_get::<A>(self.data(), self.start(), self.spec_len(), self.index_info(), index),
    {
        self.view.get(index)
    }

    /// Iterator over the elements from `start` on, placed through the block index when
    /// it has the block; elements that cannot be read are stepped over while placing it.
    pub fn iter_from(&self, start: usize) -> (r: ArchivedIterIter<'a, A>)
        ensures
            r.data() == self.data(),
            start >= self.spec_len() ==> r.remaining() == 0 && r.at() == self.start(),
            start < self.spec_len() ==> r.remaining() == self.spec_len() - start,
            start < self.spec_len() ==> r.at() == spec_iter_from_at::<A>(
                self.data(),
                self.start(),
                self.index_info(),
                start,
            ),
            r.yields() == spec_yields_from::<A>(self.data(), self.start(), self.spec_len(), self.index_info(), start),
    {
        self.view.iter_from(start)
    }
}

} // verus!
