use vstd::prelude::*;
use vstd::string::StringExecFns;
use crate::error::{ArchiveError, DecodeError, ParseHeaderError, ZebinError};
use crate::schema::{FieldEncoding, ObjectEncoding};

verus! {

/// The character of a decimal digit.
pub open spec fn digit_char(d: nat) -> char {
    if d == 0 {
        '0'
    } else if d == 1 {
        '1'
    } else if d == 2 {
        '2'
    } else if d == 3 {
        '3'
    } else if d == 4 {
        '4'
    } else if d == 5 {
        '5'
    } else if d == 6 {
        '6'
    } else if d == 7 {
        '7'
    } else if d == 8 {
        '8'
    } else {
        '9'
    }
}

/// `n` written in decimal, without leading zeros.
pub open spec fn spec_decimal(n: nat) -> Seq<char>
    decreases n,
{
    if n < 10 {
        seq![digit_char(n)]
    } else {
        spec_decimal(n / 10).push(digit_char(n % 10))
    }
}

fn digit_str(d: u64) -> (r: &'static str)
    requires
        d < 10,
    ensures
        r@ == seq![digit_char(d as nat)],
{
    proof {
        reveal_strlit("0");
        reveal_strlit("1");
        reveal_strlit("2");
        reveal_strlit("3");
        reveal_strlit("4");
        reveal_strlit("5");
        reveal_strlit("6");
        reveal_strlit("7");
        reveal_strlit("8");
        reveal_strlit("9");
    }
    if d == 0 {
        "0"
    } else if d == 1 {
        "1"
    } else if d == 2 {
        "2"
    } else if d == 3 {
        "3"
    } else if d == 4 {
        "4"
    } else if d == 5 {
        "5"
    } else if d == 6 {
        "6"
    } else if d == 7 {
        "7"
    } else if d == 8 {
        "8"
    } else {
        "9"
    }
}

/// Appends `n` in decimal.
pub(crate) fn append_decimal(s: &mut String, n: u64)
    ensures
        final(s)@ == old(s)@ + spec_decimal(n as nat),
    decreases n,
{
    if n >= 10 {
        append_decimal(s, n / 10);
    }
    s.append(digit_str(n % 10));
}

/// Name of an object encoding, as its variant is spelled.
pub open spec fn object_encoding_name(e: ObjectEncoding) -> Seq<char> {
    match e {
        ObjectEncoding::Fixed => "Fixed"@,
        ObjectEncoding::SchemaAware => "SchemaAware"@,
        ObjectEncoding::VarInt => "VarInt"@,
        ObjectEncoding::Packed => "Packed"@,
        ObjectEncoding::Sequence => "Sequence"@,
    }
}

/// Name of a field encoding, as its variant is spelled.
pub open spec fn field_encoding_name(e: FieldEncoding) -> Seq<char> {
    match e {
        FieldEncoding::Fixed => "Fixed"@,
        FieldEncoding::VarInt => "VarInt"@,
        FieldEncoding::PackedBits => "PackedBits"@,
        FieldEncoding::LengthPrefixed => "LengthPrefixed"@,
        FieldEncoding::SchemaAware => "SchemaAware"@,
    }
}

fn object_encoding_str(e: ObjectEncoding) -> (r: &'static str)
    ensures
        r@ == object_encoding_name(e),
{
    match e {
        ObjectEncoding::Fixed => "Fixed",
        ObjectEncoding::SchemaAware => "SchemaAware",
        ObjectEncoding::VarInt => "VarInt",
        ObjectEncoding::Packed => "Packed",
        ObjectEncoding::Sequence => "Sequence",
    }
}

fn field_encoding_str(e: FieldEncoding) -> (r: &'static str)
    ensures
        r@ == field_encoding_name(e),
{
    match e {
        FieldEncoding::Fixed => "Fixed",
        FieldEncoding::VarInt => "VarInt",
        FieldEncoding::PackedBits => "PackedBits",
        FieldEncoding::LengthPrefixed => "LengthPrefixed",
        FieldEncoding::SchemaAware => "SchemaAware",
    }
}

/// `text` followed by `n` in decimal.
pub(crate) fn text_then_number(text: &str, n: u64) -> (r: String)
    ensures
        r@ == text@ + spec_decimal(n as nat),
{
    let mut s = text.to_owned();
    append_decimal(&mut s, n);
    s
}

/// The message of a header error.
pub open spec fn parse_header_message(e: ParseHeaderError) -> Seq<char> {
    match e {
        ParseHeaderError::TooShort { pos } => "header too short at "@ + spec_decimal(pos as nat),
        ParseHeaderError::InvalidMagic { pos } => "invalid magic at "@ + spec_decimal(pos as nat),
        ParseHeaderError::UnsupportedVersion { version, pos } => "unsupported archive version "@ + spec_decimal(
            version as nat,
        ) + " at "@ + spec_decimal(pos as nat),
        ParseHeaderError::InvalidObjectEncoding { flags, pos } => "invalid object encoding flag "@ + spec_decimal(
            flags as nat,
        ) + " at "@ + spec_decimal(pos as nat),
        ParseHeaderError::InvalidLayoutOffset { pos } => "invalid layout offset at "@ + spec_decimal(pos as nat),
        ParseHeaderError::InvalidRootOffset { pos } => "invalid root offset at "@ + spec_decimal(pos as nat),
    }
}

impl ParseHeaderError {
    /// The human-readable message of the error.
    pub fn to_string(&self) -> (r: String)
        ensures
            r@ == parse_header_message(*self),
    {
        match *self {
            ParseHeaderError::TooShort { pos } => text_then_number("header too short at ", pos as u64),
            ParseHeaderError::InvalidMagic { pos } => text_then_number("invalid magic at ", pos as u64),
            ParseHeaderError::UnsupportedVersion { version, pos } => {
                let mut s = text_then_number("unsupported archive version ", version as u64);
                s.append(" at ");
                append_decimal(&mut s, pos as u64);
                s
            },
            ParseHeaderError::InvalidObjectEncoding { flags, pos } => {
                let mut s = text_then_number("invalid object encoding flag ", flags as u64);
                s.append(" at ");
                append_decimal(&mut s, pos as u64);
                s
            },
            ParseHeaderError::InvalidLayoutOffset { pos } => text_then_number("invalid layout offset at ", pos as u64),
            ParseHeaderError::InvalidRootOffset { pos } => text_then_number("invalid root offset at ", pos as u64),
        }
    }
}

/// The message of a read-side error.
pub open spec fn decode_message(e: DecodeError) -> Seq<char> {
    match e {
        DecodeError::Infallible => "infallible error"@,
        DecodeError::AlignmentError { expected, actual, pos } => "alignment error at "@ + spec_decimal(pos as nat)
            + ": expected alignment "@ + spec_decimal(expected as nat) + ", actual remainder "@ + spec_decimal(
            actual as nat,
        ),
        DecodeError::InvalidFieldTable { pos } => "invalid field table at "@ + spec_decimal(pos as nat),
        DecodeError::ValidationError { message, pos } => "validation error at "@ + spec_decimal(pos as nat) + ": "@
            + message@,
        DecodeError::UnexpectedObjectEncoding { expected, actual, pos } => "object encoding mismatch at "@
            + spec_decimal(pos as nat) + ": expected "@ + object_encoding_name(expected) + ", found "@
            + object_encoding_name(actual),
        DecodeError::MissingField { field_id, pos } => "missing field "@ + spec_decimal(field_id as nat) + " at "@
            + spec_decimal(pos as nat),
        DecodeError::DuplicateField { field_id, pos } => "duplicate field "@ + spec_decimal(field_id as nat) + " at "@
            + spec_decimal(pos as nat),
        DecodeError::UnexpectedFieldEncoding { field_id, expected, actual, pos } => "field "@ + spec_decimal(
            field_id as nat,
        ) + " encoding mismatch at "@ + spec_decimal(pos as nat) + ": expected "@ + field_encoding_name(expected)
            + ", found "@ + field_encoding_name(actual),
        DecodeError::FieldLengthMismatch { field_id, expected, actual, pos } => "field "@ + spec_decimal(
            field_id as nat,
        ) + " length mismatch at "@ + spec_decimal(pos as nat) + ": expected "@ + spec_decimal(expected as nat)
            + ", consumed "@ + spec_decimal(actual as nat),
        DecodeError::FieldOverflow { field, pos } => field@ + " overflow at "@ + spec_decimal(pos as nat),
        DecodeError::FieldOutOfBounds { field, pos } => field@ + " out of bounds at "@ + spec_decimal(pos as nat),
        DecodeError::RecursionLimitExceeded => "recursion limit exceeded"@,
    }
}

impl DecodeError {
    /// The human-readable message of the error.
    pub fn to_string(&self) -> (r: String)
        ensures
            r@ == decode_message(*self),
    {
        match *self {
            DecodeError::Infallible => "infallible error".to_owned(),
            DecodeError::AlignmentError { expected, actual, pos } => {
                let mut s = text_then_number("alignment error at ", pos as u64);
                s.append(": expected alignment ");
                append_decimal(&mut s, expected as u64);
                s.append(", actual remainder ");
                append_decimal(&mut s, actual as u64);
                s
            },
            DecodeError::InvalidFieldTable { pos } => text_then_number("invalid field table at ", pos as u64),
            DecodeError::ValidationError { message, pos } => {
                let mut s = text_then_number("validation error at ", pos as u64);
                s.append(": ");
                s.append(message);
                s
            },
            DecodeError::UnexpectedObjectEncoding { expected, actual, pos } => {
                let mut s = text_then_number("object encoding mismatch at ", pos as u64);
                s.append(": expected ");
                s.append(object_encoding_str(expected));
                s.append(", found ");
                s.append(object_encoding_str(actual));
                s
            },
            DecodeError::MissingField { field_id, pos } => {
                let mut s = text_then_number("missing field ", field_id as u64);
                s.append(" at ");
                append_decimal(&mut s, pos as u64);
                s
            },
            DecodeError::DuplicateField { field_id, pos } => {
                let mut s = text_then_number("duplicate field ", field_id as u64);
                s.append(" at ");
                append_decimal(&mut s, pos as u64);
                s
            },
            DecodeError::UnexpectedFieldEncoding { field_id, expected, actual, pos } => {
                let mut s = text_then_number("field ", field_id as u64);
                s.append(" encoding mismatch at ");
                append_decimal(&mut s, pos as u64);
                s.append(": expected ");
                s.append(field_encoding_str(expected));
                s.append(", found ");
                s.append(field_encoding_str(actual));
                s
            },
            DecodeError::FieldLengthMismatch { field_id, expected, actual, pos } => {
                let mut s = text_then_number("field ", field_id as u64);
                s.append(" length mismatch at ");
                append_decimal(&mut s, pos as u64);
                s.append(": expected ");
                append_decimal(&mut s, expected as u64);
                s.append(", consumed ");
                append_decimal(&mut s, actual as u64);
                s
            },
            DecodeError::FieldOverflow { field, pos } => {
                let mut s = field.to_owned();
                s.append(" overflow at ");
                append_decimal(&mut s, pos as u64);
                s
            },
            DecodeError::FieldOutOfBounds { field, pos } => {
                let mut s = field.to_owned();
                s.append(" out of bounds at ");
                append_decimal(&mut s, pos as u64);
                s
            },
            DecodeError::RecursionLimitExceeded => "recursion limit exceeded".to_owned(),
        }
    }
}

/// The message of an archiving error.
pub open spec fn archive_message(e: ArchiveError) -> Seq<char> {
    match e {
        ArchiveError::LengthOverflow { pos } => "length overflow at "@ + spec_decimal(pos as nat),
        ArchiveError::ArithmeticOverflow { pos } => "arithmetic overflow at "@ + spec_decimal(pos as nat),
        ArchiveError::InvalidResolver { pos } => "invalid resolver state at "@ + spec_decimal(pos as nat),
        ArchiveError::OffsetOutOfRange { pos } => "offset out of range at "@ + spec_decimal(pos as nat),
        ArchiveError::ZeroOffset { pos } => "zero offset at "@ + spec_decimal(pos as nat),
    }
}

impl ArchiveError {
    /// The human-readable message of the error.
    pub fn to_string(&self) -> (r: String)
        ensures
            r@ == archive_message(*self),
    {
        match *self {
            ArchiveError::LengthOverflow { pos } => text_then_number("length overflow at ", pos as u64),
            ArchiveError::ArithmeticOverflow { pos } => text_then_number("arithmetic overflow at ", pos as u64),
            ArchiveError::InvalidResolver { pos } => text_then_number("invalid resolver state at ", pos as u64),
            ArchiveError::OffsetOutOfRange { pos } => text_then_number("offset out of range at ", pos as u64),
            ArchiveError::ZeroOffset { pos } => text_then_number("zero offset at ", pos as u64),
        }
    }
}

/// The message of a library error.
pub open spec fn zebin_message(e: ZebinError) -> Seq<char> {
    match e {
        ZebinError::ArithmeticOverflow { pos } => "arithmetic overflow at "@ + spec_decimal(pos as nat),
        ZebinError::BufferTooSmall { pos, required } => "buffer too small at "@ + spec_decimal(pos as nat)
            + ": required "@ + spec_decimal(required as nat) + " bytes"@,
        ZebinError::SerializationError { pos, message } => "serialization error at "@ + spec_decimal(pos as nat)
            + ": "@ + message@,
        ZebinError::DeserializeError { message } => "deserialize error: "@ + message@,
        ZebinError::LayoutCollision { key, revision } => "layout collision for key "@ + spec_decimal(key as nat)
            + " revision "@ + spec_decimal(revision as nat),
        ZebinError::LayoutRegistryFull => "layout registry capacity exceeded"@,
        ZebinError::Decode(err) => decode_message(err),
        ZebinError::ArchiveError(err) => archive_message(err),
        ZebinError::HeaderParseError(err) => "header parse error: "@ + parse_header_message(err),
        ZebinError::ReadOnlyStorage => "read-only storage"@,
        ZebinError::ValidationError { message, pos } => "validation error at "@ + spec_decimal(pos as nat) + ": "@
            + message@,
    }
}

impl ZebinError {
    /// The human-readable message of the error.
    pub fn to_string(&self) -> (r: String)
        ensures
            r@ == zebin_message(*self),
    {
        match self {
            ZebinError::ArithmeticOverflow { pos } => text_then_number("arithmetic overflow at ", *pos as u64),
            ZebinError::BufferTooSmall { pos, required } => {
                let mut s = text_then_number("buffer too small at ", *pos as u64);
                s.append(": required ");
                append_decimal(&mut s, *required as u64);
                s.append(" bytes");
                s
            },
            ZebinError::SerializationError { pos, message } => {
                let mut s = text_then_number("serialization error at ", *pos as u64);
                s.append(": ");
                s.append(*message);
                s
            },
            ZebinError::DeserializeError { message } => {
                let mut s = "deserialize error: ".to_owned();
                s.append(*message);
                s
            },
            ZebinError::LayoutCollision { key, revision } => {
                let mut s = text_then_number("layout collision for key ", *key as u64);
                s.append(" revision ");
                append_decimal(&mut s, *revision as u64);
                s
            },
            ZebinError::LayoutRegistryFull => "layout registry capacity exceeded".to_owned(),
            ZebinError::Decode(err) => err.to_string(),
            ZebinError::ArchiveError(err) => err.to_string(),
            ZebinError::HeaderParseError(err) => {
                let mut s = "header parse error: ".to_owned();
                let inner = err.to_string();
                s.append(inner.as_str());
                s
            },
            ZebinError::ReadOnlyStorage => "read-only storage".to_owned(),
            ZebinError::ValidationError { message, pos } => {
                let mut s = text_then_number("validation error at ", *pos as u64);
                s.append(": ");
                s.append(message.as_str());
                s
            },
        }
    }
}

} // verus!
