use vstd::prelude::*;
use vstd::bytes::*;
use vstd::slice::slice_subrange;
use crate::error::{DecodeError, ParseHeaderError, ZebinError};
use crate::schema::{ObjectEncoding, object_encoding_of};

verus! {

broadcast use vstd::slice::group_slice_axioms;

/// First magic byte of every archive (`'Z'`).
pub const ARCHIVE_MAGIC_0: u8 = 0x5A;

/// Second magic byte of every archive (`'B'`).
pub const ARCHIVE_MAGIC_1: u8 = 0x42;

/// Archive format version written and accepted by this library.
pub const ARCHIVE_VERSION: u8 = 1;

/// Size of the encoded archive header in bytes.
pub const ARCHIVE_HEADER_SIZE: usize = 12;

/// Alignment the header asks of the root object.
pub const ARCHIVE_HEADER_ALIGNMENT: usize = 4;

/// Parsed archive header.
#[derive(Debug, Clone, Copy, PartialEq, Eq)]
pub struct ArchiveHeader {
    pub version: u8,
    pub flags: u8,
    pub layout_offset: u32,
    pub root_offset: u32,
}

/// The twelve header bytes: magic, version, flags, then both offsets little-endian.
pub open spec fn header_bytes(flags: u8, layout_offset: u32, root_offset: u32) -> Seq<u8> {
    seq![ARCHIVE_MAGIC_0, ARCHIVE_MAGIC_1, ARCHIVE_VERSION, flags] + spec_u32_to_le_bytes(
        layout_offset,
    ) + spec_u32_to_le_bytes(root_offset)
}

/// What parsing the front of `b` as a header gives.
pub open spec fn spec_parse_header(b: Seq<u8>) -> Result<ArchiveHeader, ParseHeaderError> {
    if b.len() < 12 {
        Err(ParseHeaderError::TooShort { pos: 0 })
    } else if b[0] != ARCHIVE_MAGIC_0 || b[1] != ARCHIVE_MAGIC_1 {
        Err(ParseHeaderError::InvalidMagic { pos: 0 })
    } else if b[2] != ARCHIVE_VERSION {
        Err(ParseHeaderError::UnsupportedVersion { version: b[2], pos: 2 })
    } else if spec_u32_from_le_bytes(b.subrange(4, 8)) == 0 {
        Err(ParseHeaderError::InvalidLayoutOffset { pos: 4 })
    } else if spec_u32_from_le_bytes(b.subrange(8, 12)) == 0 {
        Err(ParseHeaderError::InvalidRootOffset { pos: 8 })
    } else {
        Ok(
            ArchiveHeader {
                version: b[2],
                flags: b[3],
                layout_offset: spec_u32_from_le_bytes(b.subrange(4, 8)),
                root_offset: spec_u32_from_le_bytes(b.subrange(8, 12)),
            },
        )
    }
}

/// What checking the header flags against the root type's expected encoding gives.
pub open spec fn spec_check_root_encoding(flags: u8, expected: ObjectEncoding) -> Result<(), ZebinError> {
    match object_encoding_of(flags) {
        None => Err(
            ZebinError::HeaderParseError(
                ParseHeaderError::InvalidObjectEncoding { flags: flags, pos: 11 },
            ),
        ),
        Some(actual) => if actual != expected {
            Err(
                ZebinError::Decode(
                    DecodeError::UnexpectedObjectEncoding {
                        expected: expected,
                        actual: actual,
                        pos: 11,
                    },
                ),
            )
        } else {
            Ok(())
        },
    }
}

impl ArchiveHeader {
    /// A header is well formed when both offsets are non-zero.
    pub open spec fn wf(self) -> bool {
        self.layout_offset != 0 && self.root_offset != 0
    }

    pub fn new(version: u8, flags: u8, layout_offset: u32, root_offset: u32) -> (h: ArchiveHeader)
        requires
            layout_offset != 0,
            root_offset != 0,
        ensures
            h == (ArchiveHeader { version, flags, layout_offset, root_offset }),
    {
        ArchiveHeader { version, flags, layout_offset, root_offset }
    }

    /// Encodes a header for the current format version.
    pub fn to_bytes(flags: u8, layout_offset: u32, root_offset: u32) -> (r: Vec<u8>)
        requires
            layout_offset != 0,
            root_offset != 0,
        ensures
            r@ == header_bytes(flags, layout_offset, root_offset),
    {
        let mut bytes: Vec<u8> = Vec::with_capacity(12);
        bytes.push(ARCHIVE_MAGIC_0);
        bytes.push(ARCHIVE_MAGIC_1);
        bytes.push(ARCHIVE_VERSION);
        bytes.push(flags);
        let mut lo = u32_to_le_bytes(layout_offset);
        let mut ro = u32_to_le_bytes(root_offset);
        bytes.append(&mut lo);
        bytes.append(&mut ro);
        bytes
    }

    /// Parses a header from the front of `bytes`.
    pub fn parse(bytes: &[u8]) -> (r: Result<ArchiveHeader, ParseHeaderError>)
        ensures
            r == spec_parse_header(bytes@),
    {
        if bytes.len() < 12 {
            return Err(ParseHeaderError::TooShort { pos: 0 });
        }
        if bytes[0] != ARCHIVE_MAGIC_0 || bytes[1] != ARCHIVE_MAGIC_1 {
            return Err(ParseHeaderError::InvalidMagic { pos: 0 });
        }
        let version = bytes[2];
        let flags = bytes[3];
        if version != ARCHIVE_VERSION {
            return Err(ParseHeaderError::UnsupportedVersion { version, pos: 2 });
        }
        let layout_offset = u32_from_le_bytes(slice_subrange(bytes, 4, 8));
        if layout_offset == 0 {
            return Err(ParseHeaderError::InvalidLayoutOffset { pos: 4 });
        }
        let root_offset = u32_from_le_bytes(slice_subrange(bytes, 8, 12));
        if root_offset == 0 {
            return Err(ParseHeaderError::InvalidRootOffset { pos: 8 });
        }
        Ok(ArchiveHeader { version, flags, layout_offset, root_offset })
    }

    /// Builds a header for the current format version.
    pub fn create(flags: u8, layout_offset: u32, root_offset: u32) -> (h: ArchiveHeader)
        requires
            layout_offset != 0,
            root_offset != 0,
        ensures
            h == (ArchiveHeader { version: ARCHIVE_VERSION, flags, layout_offset, root_offset }),
    {
        ArchiveHeader::new(ARCHIVE_VERSION, flags, layout_offset, root_offset)
    }

    /// Encodes this header.
    pub fn encode(&self) -> (r: Vec<u8>)
        requires
            self.wf(),
        ensures
            r@ == header_bytes(self.flags, self.layout_offset, self.root_offset),
    {
        ArchiveHeader::to_bytes(self.flags, self.layout_offset, self.root_offset)
    }

    pub fn flags(&self) -> (r: u8)
        ensures
            r == self.flags,
    {
        self.flags
    }

    pub fn layout_offset(&self) -> (r: u32)
        ensures
            r == self.layout_offset,
    {
        self.layout_offset
    }

    pub fn root_offset(&self) -> (r: u32)
        ensures
            r == self.root_offset,
    {
        self.root_offset
    }

    /// Number of bytes the encoded header occupies.
    pub fn size_hint(&self) -> (r: usize)
        ensures
            r == ARCHIVE_HEADER_SIZE,
    {
        ARCHIVE_HEADER_SIZE
    }

    /// The header of an archive whose layout section follows a four-byte root.
    pub fn archived_default() -> (h: ArchiveHeader)
        ensures
            h == (ArchiveHeader {
                version: ARCHIVE_VERSION,
                flags: 0,
                layout_offset: 12,
                root_offset: 16,
            }),
    {
        ArchiveHeader { version: ARCHIVE_VERSION, flags: 0, layout_offset: 12, root_offset: 16 }
    }
}

/// Checks the object encoding stored in the header flags against the root type's.
pub fn validate_root_object_encoding(header: &ArchiveHeader, expected: ObjectEncoding) -> (r: Result<(), ZebinError>)
    ensures
        r == spec_check_root_encoding(header.flags, expected),
{
    match ObjectEncoding::from_byte(header.flags) {
        None => Err(
            ZebinError::HeaderParseError(
                ParseHeaderError::InvalidObjectEncoding { flags: header.flags, pos: 11 },
            ),
        ),
        Some(actual) => {
            if actual != expected {
                Err(
                    ZebinError::Decode(
                        DecodeError::UnexpectedObjectEncoding { expected, actual, pos: 11 },
                    ),
                )
            } else {
                Ok(())
            }
        },
    }
}

/// Parsing the bytes of an encoded header gives the header back.
pub proof fn lemma_header_roundtrip(flags: u8, layout_offset: u32, root_offset: u32)
    requires
        layout_offset != 0,
        root_offset != 0,
    ensures
        header_bytes(flags, layout_offset, root_offset).len() == ARCHIVE_HEADER_SIZE,
        spec_parse_header(header_bytes(flags, layout_offset, root_offset)) == Ok::<
            ArchiveHeader,
            ParseHeaderError,
        >(ArchiveHeader { version: ARCHIVE_VERSION, flags, layout_offset, root_offset }),
{
    lemma_auto_spec_u32_to_from_le_bytes();
    let b = header_bytes(flags, layout_offset, root_offset);
    assert(b.subrange(4, 8) =~= spec_u32_to_le_bytes(layout_offset));
    assert(b.subrange(8, 12) =~= spec_u32_to_le_bytes(root_offset));
}

/// A header that parses is exactly the encoding of what it parses to, followed by the rest.
pub proof fn lemma_parse_then_encode(b: Seq<u8>)
    requires
        spec_parse_header(b) is Ok,
    ensures
        ({
            let h = spec_parse_header(b)->Ok_0;
            &&& h.wf()
            &&& h.version == ARCHIVE_VERSION
            &&& header_bytes(h.flags, h.layout_offset, h.root_offset) == b.subrange(0, 12)
        }),
{
    lemma_auto_spec_u32_to_from_le_bytes();
    let h = spec_parse_header(b)->Ok_0;
    assert(spec_u32_to_le_bytes(h.layout_offset) == b.subrange(4, 8));
    assert(spec_u32_to_le_bytes(h.root_offset) == b.subrange(8, 12));
    assert(header_bytes(h.flags, h.layout_offset, h.root_offset) =~= b.subrange(0, 12));
}

} // verus!
