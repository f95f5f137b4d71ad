use vstd::prelude::*;
use vstd::bytes::*;
use vstd::slice::slice_subrange;
use crate::error::DecodeError;
use crate::utils::{padding_for_alignment, spec_padding};

verus! {

broadcast use vstd::slice::group_slice_axioms;

/// The error a cursor reports when `len` bytes starting at `pos` do not fit in a
/// buffer of `data_len` bytes.
pub open spec fn range_error(pos: usize, len: usize) -> DecodeError {
    if pos + len > usize::MAX {
        DecodeError::ValidationError { message: "Cursor position overflow", pos: pos }
    } else {
        DecodeError::ValidationError { message: "Pointer out of bounds", pos: pos }
    }
}

/// Sequential read cursor over a borrowed byte slice.
pub struct Cursor<'a> {
    bytes: &'a [u8],
    pos: usize,
}

/// The slice-backed cursor.
pub type SliceCursor<'a> = Cursor<'a>;

impl<'a> Cursor<'a> {
    /// The bytes the cursor reads from.
    pub closed spec fn data(&self) -> Seq<u8> {
        self.bytes@
    }

    /// The current read position.
    pub closed spec fn at(&self) -> int {
        self.pos as int
    }

    /// Whether `len` bytes starting at the current position are inside the buffer.
    pub open spec fn fits(&self, len: int) -> bool {
        self.at() + len <= self.data().len()
    }

    /// The buffer of a cursor is a slice, so its length fits in a `usize`.
    pub proof fn lemma_len_bound(&self)
        ensures
            self.data().len() <= usize::MAX,
            0 <= self.at() <= usize::MAX,
    {
        assert(vstd::slice::spec_slice_len(self.bytes) == self.bytes@.len());
    }

    pub fn new(bytes: &'a [u8], pos: usize) -> (c: Cursor<'a>)
        ensures
            c.data() == bytes@,
            c.at() == pos,
    {
        Cursor { bytes, pos }
    }

    pub fn pos(&self) -> (r: usize)
        ensures
            r == self.at(),
    {
        self.pos
    }

    /// The underlying slice.
    pub fn source(&self) -> (r: &'a [u8])
        ensures
            r@ == self.data(),
    {
        self.bytes
    }

    /// Number of bytes between the position and the end of the buffer (zero past the end).
    pub fn remaining(&self) -> (r: usize)
        ensures
            r == (if self.at() <= self.data().len() { self.data().len() - self.at() } else { 0 }),
    {
        if self.pos <= self.bytes.len() {
            self.bytes.len() - self.pos
        } else {
            0
        }
    }

    pub fn is_eof(&self) -> (r: bool)
        ensures
            r == (self.at() >= self.data().len()),
    {
        self.pos >= self.bytes.len()
    }

    /// A cursor over the same bytes at another position.
    pub fn with_pos(&self, pos: usize) -> (c: Cursor<'a>)
        ensures
            c.data() == self.data(),
            c.at() == pos,
    {
        Cursor { bytes: self.bytes, pos }
    }

    /// Checks that `len` bytes starting at `pos` lie inside the buffer.
    pub fn check_range(&self, pos: usize, len: usize) -> (r: Result<(), DecodeError>)
        ensures
            r is Ok <==> pos + len <= self.data().len(),
            r matches Err(e) ==> e == range_error(pos, len),
    {
        let n = self.bytes.len();
        match pos.checked_add(len) {
            None => Err(DecodeError::ValidationError { message: "Cursor position overflow", pos }),
            Some(end) => {
                if end > n {
                    Err(DecodeError::ValidationError { message: "Pointer out of bounds", pos })
                } else {
                    Ok(())
                }
            }
        }
    }

    /// Moves the position forward by `len` bytes.
    pub fn advance(&mut self, len: usize) -> (r: Result<(), DecodeError>)
        ensures
            final(self).data() == old(self).data(),
            r is Ok <==> old(self).fits(len as int),
            r is Ok ==> final(self).at() == old(self).at() + len,
            r matches Err(e) ==> e == range_error(old(self).at() as usize, len) && final(self).at()
                == old(self).at(),
    {
        let n = self.bytes.len();
        match self.pos.checked_add(len) {
            None => Err(DecodeError::ValidationError { message: "Cursor position overflow", pos: self.pos }),
            Some(end) => {
                if end > n {
                    Err(DecodeError::ValidationError { message: "Pointer out of bounds", pos: self.pos })
                } else {
                    self.pos = end;
                    Ok(())
                }
            }
        }
    }

    /// The next `len` bytes, without moving.
    pub fn peek_exact(&self, len: usize) -> (r: Result<&'a [u8], DecodeError>)
        ensures
            r is Ok <==> self.fits(len as int),
            r matches Ok(s) ==> s@ == self.data().subrange(self.at(), self.at() + len),
            r matches Err(e) ==> e == range_error(self.at() as usize, len),
    {
        let n = self.bytes.len();
        match self.pos.checked_add(len) {
            None => Err(DecodeError::ValidationError { message: "Cursor position overflow", pos: self.pos }),
            Some(end) => {
                if end > n {
                    Err(DecodeError::ValidationError { message: "Pointer out of bounds", pos: self.pos })
                } else {
                    Ok(slice_subrange(self.bytes, self.pos, end))
                }
            }
        }
    }

    /// The next `len` bytes; the position moves past them.
    pub fn read_exact(&mut self, len: usize) -> (r: Result<&'a [u8], DecodeError>)
        ensures
            final(self).data() == old(self).data(),
            r is Ok <==> old(self).fits(len as int),
            r matches Ok(s) ==> s@ == old(self).data().subrange(old(self).at(), old(self).at() + len)
                && final(self).at() == old(self).at() + len,
            r matches Err(e) ==> e == range_error(old(self).at() as usize, len) && final(self).at()
                == old(self).at(),
    {
        let n = self.bytes.len();
        let buf = self.peek_exact(len)?;
        self.pos = self.pos + len;
        Ok(buf)
    }

    pub fn read_u8(&mut self) -> (r: Result<u8, DecodeError>)
        ensures
            final(self).data() == old(self).data(),
            r is Ok <==> old(self).fits(1),
            r matches Ok(v) ==> v == old(self).data()[old(self).at()] && final(self).at() == old(
                self,
            ).at() + 1,
            r matches Err(e) ==> e == range_error(old(self).at() as usize, 1) && final(self).at()
                == old(self).at(),
    {
        let bytes = self.read_exact(1)?;
        Ok(bytes[0])
    }

    pub fn read_u16(&mut self) -> (r: Result<u16, DecodeError>)
        ensures
            final(self).data() == old(self).data(),
            r is Ok <==> old(self).fits(2),
            r matches Ok(v) ==> v == spec_u16_from_le_bytes(
                old(self).data().subrange(old(self).at(), old(self).at() + 2),
            ) && final(self).at() == old(self).at() + 2,
            r matches Err(e) ==> e == range_error(old(self).at() as usize, 2) && final(self).at()
                == old(self).at(),
    {
        let bytes = self.read_exact(2)?;
        Ok(u16_from_le_bytes(bytes))
    }

    pub fn read_u32(&mut self) -> (r: Result<u32, DecodeError>)
        ensures
            final(self).data() == old(self).data(),
            r is Ok <==> old(self).fits(4),
            r matches Ok(v) ==> v == spec_u32_from_le_bytes(
                old(self).data().subrange(old(self).at(), old(self).at() + 4),
            ) && final(self).at() == old(self).at() + 4,
            r matches Err(e) ==> e == range_error(old(self).at() as usize, 4) && final(self).at()
                == old(self).at(),
    {
        let bytes = self.read_exact(4)?;
        Ok(u32_from_le_bytes(bytes))
    }

    pub fn read_u64(&mut self) -> (r: Result<u64, DecodeError>)
        ensures
            final(self).data() == old(self).data(),
            r is Ok <==> old(self).fits(8),
            r matches Ok(v) ==> v == spec_u64_from_le_bytes(
                old(self).data().subrange(old(self).at(), old(self).at() + 8),
            ) && final(self).at() == old(self).at() + 8,
            r matches Err(e) ==> e == range_error(old(self).at() as usize, 8) && final(self).at()
                == old(self).at(),
    {
        let bytes = self.read_exact(8)?;
        Ok(u64_from_le_bytes(bytes))
    }

    pub fn read_i8(&mut self) -> (r: Result<i8, DecodeError>)
        ensures
            final(self).data() == old(self).data(),
            r is Ok <==> old(self).fits(1),
            r matches Ok(v) ==> v == old(self).data()[old(self).at()] as i8 && final(self).at()
                == old(self).at() + 1,
            r matches Err(e) ==> e == range_error(old(self).at() as usize, 1) && final(self).at()
                == old(self).at(),
    {
        let b = self.read_u8()?;
        Ok(b as i8)
    }

    pub fn read_i16(&mut self) -> (r: Result<i16, DecodeError>)
        ensures
            final(self).data() == old(self).data(),
            r is Ok <==> old(self).fits(2),
            r matches Ok(v) ==> v == spec_u16_from_le_bytes(
                old(self).data().subrange(old(self).at(), old(self).at() + 2),
            ) as i16 && final(self).at() == old(self).at() + 2,
            r matches Err(e) ==> e == range_error(old(self).at() as usize, 2) && final(self).at()
                == old(self).at(),
    {
        let v = self.read_u16()?;
        Ok(v as i16)
    }

    pub fn read_i32(&mut self) -> (r: Result<i32, DecodeError>)
        ensures
            final(self).data() == old(self).data(),
            r is Ok <==> old(self).fits(4),
            r matches Ok(v) ==> v == spec_u32_from_le_bytes(
                old(self).data().subrange(old(self).at(), old(self).at() + 4),
            ) as i32 && final(self).at() == old(self).at() + 4,
            r matches Err(e) ==> e == range_error(old(self).at() as usize, 4) && final(self).at()
                == old(self).at(),
    {
        let v = self.read_u32()?;
        Ok(v as i32)
    }

    pub fn read_i64(&mut self) -> (r: Result<i64, DecodeError>)
        ensures
            final(self).data() == old(self).data(),
            r is Ok <==> old(self).fits(8),
            r matches Ok(v) ==> v == spec_u64_from_le_bytes(
                old(self).data().subrange(old(self).at(), old(self).at() + 8),
            ) as i64 && final(self).at() == old(self).at() + 8,
            r matches Err(e) ==> e == range_error(old(self).at() as usize, 8) && final(self).at()
                == old(self).at(),
    {
        let v = self.read_u64()?;
        Ok(v as i64)
    }

    /// Skips the padding that brings the position to a multiple of `alignment`.
    pub fn align(&mut self, alignment: usize) -> (r: Result<(), DecodeError>)
        requires
            alignment > 0,
        ensures
            final(self).data() == old(self).data(),
            r is Ok <==> old(self).fits(spec_padding(old(self).at(), alignment as int)),
            r is Ok ==> final(self).at() == old(self).at() + spec_padding(old(self).at(), alignment as int),
            r matches Err(e) ==> e == range_error(
                old(self).at() as usize,
                spec_padding(old(self).at(), alignment as int) as usize,
            ) && final(self).at() == old(self).at(),
    {
        let padding = padding_for_alignment(self.pos, alignment);
        self.advance(padding)
    }
}

} // verus!
