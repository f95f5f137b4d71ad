use vstd::prelude::*;
use crate::cursor::{Cursor, range_error};
use crate::error::{DecodeError, ZebinError};
use crate::format::{
    ARCHIVE_HEADER_SIZE,
    ArchiveHeader,
    header_bytes,
    lemma_header_roundtrip,
    spec_check_root_encoding,
    spec_parse_header,
    validate_root_object_encoding,
};
use crate::primitive::FixedLayout;
use crate::schema::{ObjectEncoding, object_encoding_of};

verus! {

/// Reading an archive whose root is a fixed-size `T` at `off`: the header, which must
/// parse and announce fixed-size encoding, then the root right after it. Gives the root
/// and the position after it.
pub open spec fn spec_read_archive<T: FixedLayout>(data: Seq<u8>, off: int) -> Result<(T, int), ZebinError> {
    if off + ARCHIVE_HEADER_SIZE > data.len() {
        Err(ZebinError::Decode(range_error(off as usize, ARCHIVE_HEADER_SIZE)))
    } else {
        match spec_parse_header(data.subrange(off, off + ARCHIVE_HEADER_SIZE)) {
            Err(e) => Err(ZebinError::HeaderParseError(e)),
            Ok(h) => match spec_check_root_encoding(h.flags, ObjectEncoding::Fixed) {
                Err(e) => Err(e),
                Ok(()) => {
                    let p = off + ARCHIVE_HEADER_SIZE;
                    if p + T::spec_size() > data.len() {
                        Err(ZebinError::Decode(range_error(p as usize, T::spec_size() as usize)))
                    } else {
                        match T::spec_decode(data.subrange(p, p + T::spec_size()), p) {
                            Err(e) => Err(ZebinError::Decode(e)),
                            Ok(v) => Ok((v, p + T::spec_size())),
                        }
                    }
                },
            },
        }
    }
}

/// Checking an archive whose root is a fixed-size `T`: it reads, and nothing follows
/// the root.
pub open spec fn spec_validate_archive<T: FixedLayout>(data: Seq<u8>) -> Result<(), ZebinError> {
    match spec_read_archive::<T>(data, 0) {
        Err(e) => Err(e),
        Ok((_, end)) => if end < data.len() {
            Err(ZebinError::Decode(DecodeError::ValidationError { message: "Trailing bytes after root object", pos: end as usize }))
        } else {
            Ok(())
        },
    }
}

/// Reads one archive with a fixed-size root at the cursor: header, then root.
fn read_archive_at<T: FixedLayout>(cursor: &mut Cursor) -> (r: Result<T, ZebinError>)
    ensures
        final(cursor).data() == old(cursor).data(),
        match spec_read_archive::<T>(old(cursor).data(), old(cursor).at()) {
            Ok((v, end)) => r == Ok::<T, ZebinError>(v) && final(cursor).at() == end,
            Err(e) => r == Err::<T, ZebinError>(e),
        },
{
    proof {
        cursor.lemma_len_bound();
    }
    let header_bytes = match cursor.peek_exact(ARCHIVE_HEADER_SIZE) {
        Ok(b) => b,
        Err(e) => {
            return Err(ZebinError::Decode(e));
        },
    };
    let header = match ArchiveHeader::parse(header_bytes) {
        Ok(h) => h,
        Err(e) => {
            return Err(ZebinError::HeaderParseError(e));
        },
    };
    validate_root_object_encoding(&header, ObjectEncoding::Fixed)?;
    match cursor.advance(ARCHIVE_HEADER_SIZE) {
        Ok(()) => {},
        Err(e) => {
            return Err(ZebinError::Decode(e));
        },
    }
    match T::access(cursor) {
        Ok(v) => Ok(v),
        Err(e) => Err(ZebinError::Decode(e)),
    }
}

/// Reader of consecutive archives, each a header followed by a fixed-size root, stored
/// one after another in a byte buffer.
pub struct ZebinReader<'a, T> {
    storage: &'a [u8],
    offset: usize,
    _phantom: core::marker::PhantomData<T>,
}

impl<'a, T: FixedLayout> ZebinReader<'a, T> {
    pub closed spec fn data(&self) -> Seq<u8> {
        self.storage@
    }

    /// Where the next archive starts.
    pub closed spec fn spec_offset(&self) -> usize {
        self.offset
    }

    /// A reader at the start of `storage`.
    pub fn new(storage: &'a [u8]) -> (r: Result<ZebinReader<'a, T>, ZebinError>)
        ensures
            r matches Ok(rd) && rd.data() == storage@ && rd.spec_offset() == 0,
    {
        Ok(ZebinReader { storage, offset: 0, _phantom: core::marker::PhantomData })
    }

    pub fn offset(&self) -> (r: usize)
        ensures
            r == self.spec_offset(),
    {
        self.offset
    }

    /// Whether every archive of the buffer has been read.
    pub fn is_finished(&self) -> (r: bool)
        ensures
            r == (self.spec_offset() >= self.data().len()),
    {
        self.offset >= self.storage.len()
    }

    /// Reads the next archive and moves past it. A byte buffer has no further part to go
    /// on with, so once all archives are read, reading starts over at its beginning.
    pub fn read(&mut self) -> (r: Result<T, ZebinError>)
        ensures
            final(self).data() == old(self).data(),
            match spec_read_archive::<T>(
                old(self).data(),
                if old(self).spec_offset() >= old(self).data().len() {
                    0
                } else {
                    old(self).spec_offset() as int
                },
            ) {
                Ok((v, end)) => r == Ok::<T, ZebinError>(v) && final(self).spec_offset() == end,
                Err(e) => r == Err::<T, ZebinError>(e),
            },
    {
        if self.is_finished() {
            self.offset = 0;
        }
        let mut cursor = Cursor::new(self.storage, self.offset);
        let value = read_archive_at::<T>(&mut cursor)?;
        self.offset = cursor.pos();
        Ok(value)
    }

    /// Reads the archive at the start of `storage`.
    pub fn access(storage: &'a [u8]) -> (r: Result<T, ZebinError>)
        ensures
            match spec_read_archive::<T>(storage@, 0) {
                Ok((v, _)) => r == Ok::<T, ZebinError>(v),
                Err(e) => r == Err::<T, ZebinError>(e),
            },
    {
        let mut cursor = Cursor::new(storage, 0);
        read_archive_at::<T>(&mut cursor)
    }

    /// Reads the first archive of `storage` into a value.
    pub fn deserialize(storage: &'a [u8]) -> (r: Result<T, ZebinError>)
        ensures
            match spec_read_archive::<T>(storage@, 0) {
                Ok((v, _)) => r == Ok::<T, ZebinError>(v),
                Err(e) => r == Err::<T, ZebinError>(e),
            },
    {
        let mut reader = Self::new(storage)?;
        proof {
            assert(vstd::slice::spec_slice_len(storage) == storage@.len());
        }
        reader.read()
    }

    /// Checks that `storage` is one archive with a fixed-size root and nothing after it.
    pub fn validate(storage: &'a [u8]) -> (r: Result<(), ZebinError>)
        ensures
            r == spec_validate_archive::<T>(storage@),
    {
        let mut cursor = Cursor::new(storage, 0);
        let _ = read_archive_at::<T>(&mut cursor)?;
        if !cursor.is_eof() {
            return Err(
                ZebinError::Decode(DecodeError::ValidationError { message: "Trailing bytes after root object", pos: cursor.pos() }),
            );
        }
        Ok(())
    }
}

/// A reader of the archives stored one after another in `storage`.
pub fn reader<'a, T: FixedLayout>(storage: &'a [u8]) -> (r: Result<ZebinReader<'a, T>, ZebinError>)
    ensures
        r matches Ok(rd) && rd.data() == storage@ && rd.spec_offset() == 0,
{
    ZebinReader::new(storage)
}

/// Reads the archive at the start of `storage`.
pub fn access<'a, T: FixedLayout>(storage: &'a [u8]) -> (r: Result<T, ZebinError>)
    ensures
        match spec_read_archive::<T>(storage@, 0) {
            Ok((v, _)) => r == Ok::<T, ZebinError>(v),
            Err(e) => r == Err::<T, ZebinError>(e),
        },
{
    ZebinReader::<T>::access(storage)
}

/// Reads the first archive of `storage` into a value.
pub fn deserialize<'a, T: FixedLayout>(storage: &'a [u8]) -> (r: Result<T, ZebinError>)
    ensures
        match spec_read_archive::<T>(storage@, 0) {
            Ok((v, _)) => r == Ok::<T, ZebinError>(v),
            Err(e) => r == Err::<T, ZebinError>(e),
        },
{
    ZebinReader::<T>::deserialize(storage)
}

/// Checks that `storage` is one archive with a fixed-size root and nothing after it.
pub fn validate<'a, T: FixedLayout>(storage: &'a [u8]) -> (r: Result<(), ZebinError>)
    ensures
        r == spec_validate_archive::<T>(storage@),
{
    ZebinReader::<T>::validate(storage)
}

/// A header announcing a fixed-size root, followed by the bytes of `v`, reads back as
/// `v`, ends right after it, and validates as a whole archive.
pub proof fn lemma_read_written_archive<T: FixedLayout>(v: T, layout_offset: u32, root_offset: u32)
    requires
        layout_offset != 0,
        root_offset != 0,
    ensures
        spec_read_archive::<T>(header_bytes(0, layout_offset, root_offset) + T::spec_to_bytes(v), 0) == Ok::<
            (T, int),
            ZebinError,
        >((v, ARCHIVE_HEADER_SIZE + T::spec_size())),
        spec_validate_archive::<T>(header_bytes(0, layout_offset, root_offset) + T::spec_to_bytes(v)) == Ok::<
            (),
            ZebinError,
        >(()),
{
    let hb = header_bytes(0, layout_offset, root_offset);
    let data = hb + T::spec_to_bytes(v);
    lemma_header_roundtrip(0, layout_offset, root_offset);
    T::lemma_roundtrip(v, ARCHIVE_HEADER_SIZE as int);
    assert(data.subrange(0, ARCHIVE_HEADER_SIZE as int) =~= hb);
    assert(data.subrange(ARCHIVE_HEADER_SIZE as int, ARCHIVE_HEADER_SIZE + T::spec_size()) =~= T::spec_to_bytes(v));
    assert(object_encoding_of(0) == Some(ObjectEncoding::Fixed));
}

/// An archive written after any bytes and followed by any bytes reads back, from where
/// it starts, as its root, and the reader goes on right after it: archives stored one
/// after another are read in turn.
pub proof fn lemma_read_appended_archive<T: FixedLayout>(
    pre: Seq<u8>,
    v: T,
    layout_offset: u32,
    root_offset: u32,
    post: Seq<u8>,
)
    requires
        layout_offset != 0,
        root_offset != 0,
    ensures
        spec_read_archive::<T>(pre + (header_bytes(0, layout_offset, root_offset) + T::spec_to_bytes(v)) + post, pre.len() as int)
            == Ok::<(T, int), ZebinError>((v, pre.len() + ARCHIVE_HEADER_SIZE + T::spec_size())),
{
    let hb = header_bytes(0, layout_offset, root_offset);
    let tb = T::spec_to_bytes(v);
    let data = pre + (hb + tb) + post;
    let off = pre.len() as int;
    lemma_header_roundtrip(0, layout_offset, root_offset);
    T::lemma_roundtrip(v, off + ARCHIVE_HEADER_SIZE);
    assert(data.subrange(off, off + ARCHIVE_HEADER_SIZE) =~= hb);
    assert(data.subrange(off + ARCHIVE_HEADER_SIZE, off + ARCHIVE_HEADER_SIZE + T::spec_size()) =~= tb);
    assert(object_encoding_of(0) == Some(ObjectEncoding::Fixed));
}

} // verus!
