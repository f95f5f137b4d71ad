use vstd::prelude::*;
use crate::error::ZebinError;

verus! {

/// A borrowed chunk of archive bytes.
pub struct Buf<'a> {
    data: &'a [u8],
}

impl<'a> View for Buf<'a> {
    type V = Seq<u8>;

    closed spec fn view(&self) -> Seq<u8> {
        self.data@
    }
}

impl<'a> Buf<'a> {
    pub fn new(data: &'a [u8]) -> (r: Buf<'a>)
        ensures
            r@ == data@,
    {
        Buf { data }
    }

    /// The bytes of the chunk.
    pub fn into_slice(self) -> (r: &'a [u8])
        ensures
            r@ == self@,
    {
        self.data
    }
}

/// A borrowed chunk of archive bytes to be written.
pub struct BufMut<'a> {
    data: &'a mut [u8],
}

impl<'a> BufMut<'a> {
    pub closed spec fn bytes(&self) -> Seq<u8> {
        self.data@
    }

    pub fn new(data: &'a mut [u8]) -> (r: BufMut<'a>)
        ensures
            r.bytes() == old(data)@,
    {
        BufMut { data }
    }

    /// The bytes of the chunk, to write into.
    pub fn into_mut_slice(self) -> (r: &'a mut [u8])
        ensures
            r@ == self.bytes(),
    {
        self.data
    }
}

/// Where the chunk of `len` bytes at `pos` ends in storage of `total` bytes: refused on
/// overflow, or with the number of missing bytes (reported at `report_pos`) when it
/// runs past the end.
pub open spec fn spec_chunk_end(total: usize, pos: usize, len: usize, report_pos: usize) -> Result<usize, ZebinError> {
    if pos + len > usize::MAX {
        Err(ZebinError::ArithmeticOverflow { pos })
    } else if pos + len > total {
        Err(ZebinError::BufferTooSmall { pos: report_pos, required: (pos + len - total) as usize })
    } else {
        Ok((pos + len) as usize)
    }
}

fn chunk_end(total: usize, pos: usize, len: usize, report_pos: usize) -> (r: Result<usize, ZebinError>)
    ensures
        r == spec_chunk_end(total, pos, len, report_pos),
{
    let end = match pos.checked_add(len) {
        Some(e) => e,
        None => {
            return Err(ZebinError::ArithmeticOverflow { pos });
        },
    };
    if end > total {
        return Err(ZebinError::BufferTooSmall { pos: report_pos, required: end - total });
    }
    Ok(end)
}

/// The chunk of `len` bytes at `pos` of `data`, or why it is not there.
pub fn get_buf<'a>(data: &'a [u8], pos: usize, len: usize) -> (r: Result<Buf<'a>, ZebinError>)
    ensures
        match spec_chunk_end(data@.len() as usize, pos, len, pos) {
            Ok(end) => r matches Ok(b) && b@ == data@.subrange(pos as int, end as int),
            Err(e) => r matches Err(e2) && e2 == e,
        },
{
    let end = chunk_end(data.len(), pos, len, pos)?;
    Ok(Buf::new(vstd::slice::slice_subrange(data, pos, end)))
}

/// Positions of a serializer writing into a byte region of fixed capacity, such as a
/// memory-mapped file sized beforehand: where the archive stands and how far the
/// region has been written.
pub struct RegionWriter {
    capacity: usize,
    archive_pos: usize,
    written: usize,
}

impl RegionWriter {
    pub closed spec fn spec_capacity(&self) -> usize {
        self.capacity
    }

    pub closed spec fn spec_pos(&self) -> usize {
        self.archive_pos
    }

    pub closed spec fn spec_written(&self) -> usize {
        self.written
    }

    /// A writer over a region of `capacity` bytes whose archive starts at `archive_pos`.
    pub fn new(capacity: usize, archive_pos: usize) -> (w: RegionWriter)
        ensures
            w.spec_capacity() == capacity,
            w.spec_pos() == archive_pos,
            w.spec_written() == 0,
    {
        RegionWriter { capacity, archive_pos, written: 0 }
    }

    pub fn capacity(&self) -> (r: usize)
        ensures
            r == self.spec_capacity(),
    {
        self.capacity
    }

    pub fn pos(&self) -> (r: usize)
        ensures
            r == self.spec_pos(),
    {
        self.archive_pos
    }

    pub fn written(&self) -> (r: usize)
        ensures
            r == self.spec_written(),
    {
        self.written
    }

    /// Where the chunk of `len` bytes at `pos` ends, for reading it.
    pub fn read_range(&self, pos: usize, len: usize) -> (r: Result<usize, ZebinError>)
        ensures
            r == spec_chunk_end(self.spec_capacity(), pos, len, pos),
    {
        chunk_end(self.capacity, pos, len, pos)
    }

    /// Claims the chunk of `len` bytes at `pos` for writing and gives its end: the
    /// archive position and the written length move up to that end when they are
    /// below it. A chunk past the capacity is refused at the archive position and
    /// changes nothing.
    pub fn claim(&mut self, pos: usize, len: usize) -> (r: Result<usize, ZebinError>)
        ensures
            r == spec_chunk_end(old(self).spec_capacity(), pos, len, old(self).spec_pos()),
            final(self).spec_capacity() == old(self).spec_capacity(),
            r is Err ==> *final(self) == *old(self),
            r matches Ok(end) ==> final(self).spec_pos() == vstd::math::max(old(self).spec_pos() as int, end as int)
                && final(self).spec_written() == vstd::math::max(old(self).spec_written() as int, end as int),
    {
        let end = chunk_end(self.capacity, pos, len, self.archive_pos)?;
        if self.archive_pos < end {
            self.archive_pos = end;
        }
        if self.written < end {
            self.written = end;
        }
        Ok(end)
    }
}

} // verus!
