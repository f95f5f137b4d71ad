use vstd::prelude::*;
use crate::schema::{FieldEncoding, ObjectEncoding};

verus! {

/// Errors that can occur during archive header parsing.
#[derive(Debug, Clone, Copy, PartialEq, Eq)]
pub enum ParseHeaderError {
    TooShort { pos: usize },
    InvalidMagic { pos: usize },
    UnsupportedVersion { version: u8, pos: usize },
    InvalidObjectEncoding { flags: u8, pos: usize },
    InvalidLayoutOffset { pos: usize },
    InvalidRootOffset { pos: usize },
}

/// Errors that can occur during validation or sequential decoding.
#[allow(inconsistent_fields)]
#[derive(Debug, Clone, Copy, PartialEq, Eq)]
pub enum DecodeError {
    Infallible,
    AlignmentError { expected: usize, actual: usize, pos: usize },
    InvalidFieldTable { pos: usize },
    ValidationError { message: &'static str, pos: usize },
    UnexpectedObjectEncoding { expected: ObjectEncoding, actual: ObjectEncoding, pos: usize },
    MissingField { field_id: u16, pos: usize },
    DuplicateField { field_id: u16, pos: usize },
    UnexpectedFieldEncoding {
        field_id: u16,
        expected: FieldEncoding,
        actual: FieldEncoding,
        pos: usize,
    },
    FieldLengthMismatch { field_id: u16, expected: usize, actual: usize, pos: usize },
    FieldOverflow { field: &'static str, pos: usize },
    FieldOutOfBounds { field: &'static str, pos: usize },
    RecursionLimitExceeded,
}

/// The read-side error; the access layer and the decode layer share one error type.
pub type AccessError = DecodeError;

/// Errors that can occur during the archiving process.
#[derive(Debug, Clone, Copy, PartialEq, Eq)]
pub enum ArchiveError {
    LengthOverflow { pos: usize },
    ArithmeticOverflow { pos: usize },
    InvalidResolver { pos: usize },
    OffsetOutOfRange { pos: usize },
    ZeroOffset { pos: usize },
}

/// Unified error type for the library.
#[derive(Debug, Clone, PartialEq, Eq)]
pub enum ZebinError {
    ArithmeticOverflow { pos: usize },
    BufferTooSmall { pos: usize, required: usize },
    SerializationError { pos: usize, message: &'static str },
    DeserializeError { message: &'static str },
    LayoutCollision { key: u32, revision: u32 },
    LayoutRegistryFull,
    Decode(DecodeError),
    ArchiveError(ArchiveError),
    HeaderParseError(ParseHeaderError),
    ReadOnlyStorage,
    /// An archive that fails a check, with the message and the position of the failure.
    ValidationError { message: String, pos: usize },
}

impl ZebinError {
    /// Wraps a read-side error.
    pub fn from_decode(error: DecodeError) -> (r: ZebinError)
        ensures
            r == ZebinError::Decode(error),
    {
        ZebinError::Decode(error)
    }

    /// Wraps an archiving error.
    pub fn from_archive(error: ArchiveError) -> (r: ZebinError)
        ensures
            r == ZebinError::ArchiveError(error),
    {
        ZebinError::ArchiveError(error)
    }

    /// Wraps a header parsing error.
    pub fn from_header(error: ParseHeaderError) -> (r: ZebinError)
        ensures
            r == ZebinError::HeaderParseError(error),
    {
        ZebinError::HeaderParseError(error)
    }
}

impl From<DecodeError> for ZebinError {
    fn from(error: DecodeError) -> (r: Self) {
        ZebinError::Decode(error)
    }
}

impl vstd::std_specs::convert::FromSpecImpl<DecodeError> for ZebinError {
    open spec fn obeys_from_spec() -> bool {
        true
    }

    open spec fn from_spec(error: DecodeError) -> Self {
        ZebinError::Decode(error)
    }
}

impl From<ArchiveError> for ZebinError {
    fn from(error: ArchiveError) -> (r: Self) {
        ZebinError::ArchiveError(error)
    }
}

impl vstd::std_specs::convert::FromSpecImpl<ArchiveError> for ZebinError {
    open spec fn obeys_from_spec() -> bool {
        true
    }

    open spec fn from_spec(error: ArchiveError) -> Self {
        ZebinError::ArchiveError(error)
    }
}

impl From<ParseHeaderError> for ZebinError {
    fn from(error: ParseHeaderError) -> (r: Self) {
        ZebinError::HeaderParseError(error)
    }
}

impl vstd::std_specs::convert::FromSpecImpl<ParseHeaderError> for ZebinError {
    open spec fn obeys_from_spec() -> bool {
        true
    }

    open spec fn from_spec(error: ParseHeaderError) -> Self {
        ZebinError::HeaderParseError(error)
    }
}

} // verus!
