use vstd::prelude::*;
use vstd::bytes::*;
use vstd::slice::slice_subrange;
use crate::cursor::Cursor;
use crate::error::{DecodeError, ZebinError};
use crate::message::{append_decimal, spec_decimal, text_then_number};
use vstd::string::StringExecFns;
use crate::format::{ARCHIVE_HEADER_SIZE, ArchiveHeader, spec_parse_header};
use crate::primitive::FixedLayout;
use crate::validator::{LayoutDirectory, Validator};

verus! {

broadcast use vstd::slice::group_slice_axioms;

/// A validation error with a fixed message.
pub open spec fn verr(message: &'static str, pos: int) -> ZebinError {
    ZebinError::Decode(DecodeError::ValidationError { message, pos: pos as usize })
}

/// How an archive check fails, as the contracts here state it: a validation error by the
/// characters of its message and its position, any other error as it is.
pub enum Failure {
    Validation { message: Seq<char>, pos: usize },
    Other(ZebinError),
}

/// `e` is the failure `f`.
pub open spec fn fails_with(e: ZebinError, f: Failure) -> bool {
    match f {
        Failure::Validation { message, pos } => e matches ZebinError::ValidationError { message: m, pos: p } && m@
            == message && p == pos,
        Failure::Other(x) => e == x,
    }
}

/// The validation failure with message `message` at `pos`.
pub open spec fn vfail(message: &'static str, pos: int) -> Failure {
    Failure::Validation { message: message@, pos: pos as usize }
}

/// Message of a layout entry that names another schema than its place in the table.
pub open spec fn schema_mismatch_message(expected: nat, found: nat) -> Seq<char> {
    "Layout schema id mismatch: expected "@ + spec_decimal(expected) + ", found "@ + spec_decimal(found)
}

/// A validation error with the message `message` at `pos`.
pub(crate) fn validation_error(message: &str, pos: usize) -> (r: ZebinError)
    ensures
        fails_with(r, Failure::Validation { message: message@, pos }),
{
    ZebinError::ValidationError { message: message.to_owned(), pos }
}

/// The 32-bit little-endian number at `pos` of `data`.
pub open spec fn le_u32_at(data: Seq<u8>, pos: int) -> u32 {
    spec_u32_from_le_bytes(data.subrange(pos, pos + 4))
}

/// The 16-bit little-endian number at `pos` of `data`.
pub open spec fn le_u16_at(data: Seq<u8>, pos: int) -> u16 {
    spec_u16_from_le_bytes(data.subrange(pos, pos + 2))
}

/// What reading `n` bytes at `pos` gives: the bytes, or an error naming the overflow or
/// the out-of-bounds read.
pub open spec fn spec_read_fixed(
    data: Seq<u8>,
    pos: int,
    n: int,
    overflow_msg: &'static str,
    bounds_msg: &'static str,
) -> Result<Seq<u8>, Failure> {
    if pos + n > usize::MAX {
        Err(vfail(overflow_msg, pos))
    } else if pos + n > data.len() {
        Err(vfail(bounds_msg, pos))
    } else {
        Ok(data.subrange(pos, pos + n))
    }
}

/// Reads `n` bytes at `pos`.
pub fn read_fixed<'a>(
    bytes: &'a [u8],
    pos: usize,
    n: usize,
    overflow_msg: &'static str,
    bounds_msg: &'static str,
) -> (r: Result<&'a [u8], ZebinError>)
    ensures
        match spec_read_fixed(bytes@, pos as int, n as int, overflow_msg, bounds_msg) {
            Ok(s) => r matches Ok(b) && b@ == s,
            Err(f) => r matches Err(e) && fails_with(e, f),
        },
{
    let end = match pos.checked_add(n) {
        Some(e) => e,
        None => {
            return Err(validation_error(overflow_msg, pos));
        },
    };
    if end > bytes.len() {
        return Err(validation_error(bounds_msg, pos));
    }
    Ok(slice_subrange(bytes, pos, end))
}

/// Widens a 32-bit number to a `usize`.
pub fn u32_to_usize(value: u32) -> (r: usize)
    ensures
        r == value,
{
    value as usize
}

/// What checking layout entry `idx` of a section at `lo`, whose offset table starts at
/// `offsets_pos`, gives.
pub open spec fn spec_check_layout_entry(data: Seq<u8>, lo: int, offsets_pos: int, idx: int) -> Result<(), Failure> {
    let offset_pos = offsets_pos + idx * 4;
    let rel = le_u32_at(data, offset_pos) as int;
    let layout_pos = lo + rel;
    if layout_pos > usize::MAX {
        Err(vfail("Layout position overflow", offset_pos))
    } else if layout_pos + 8 > usize::MAX {
        Err(vfail("Layout entry overflow", layout_pos))
    } else if layout_pos + 8 > data.len() {
        Err(vfail("Layout entry out of bounds", layout_pos))
    } else if le_u32_at(data, layout_pos) != idx {
        Err(
            Failure::Validation {
                message: schema_mismatch_message(idx as nat, le_u32_at(data, layout_pos) as nat),
                pos: layout_pos as usize,
            },
        )
    } else {
        let entry_end = layout_pos + 8 + le_u16_at(data, layout_pos + 4) * 4;
        if entry_end > usize::MAX {
            Err(vfail("Layout entry overflow", layout_pos))
        } else if entry_end > data.len() {
            Err(vfail("Layout entry payload out of bounds", layout_pos))
        } else {
            Ok(())
        }
    }
}

/// What checking layout entries `idx..n` gives.
pub open spec fn spec_check_layouts(data: Seq<u8>, lo: int, offsets_pos: int, n: int, idx: int) -> Result<(), Failure>
    decreases n - idx,
{
    if idx >= n {
        Ok(())
    } else {
        match spec_check_layout_entry(data, lo, offsets_pos, idx) {
            Err(e) => Err(e),
            Ok(()) => spec_check_layouts(data, lo, offsets_pos, n, idx + 1),
        }
    }
}

/// What validating the layout section at `lo` gives: a 32-bit count, a table of 32-bit
/// offsets from `lo`, and per layout an 8-byte entry header (its index, its field count)
/// followed by 4 bytes per field, all inside the buffer.
pub open spec fn spec_validate_layout_section(data: Seq<u8>, lo: int) -> Result<(), Failure> {
    let header_end = lo + 4;
    if header_end > usize::MAX {
        Err(vfail("Layout section header overflow", lo))
    } else if header_end > data.len() {
        Err(vfail("Layout section header out of bounds", lo))
    } else {
        let n = le_u32_at(data, lo) as int;
        let offsets_end = header_end + n * 4;
        if offsets_end > usize::MAX {
            Err(vfail("Layout offset table overflow", lo))
        } else if offsets_end > data.len() {
            Err(vfail("Layout offset table out of bounds", header_end))
        } else {
            spec_check_layouts(data, lo, header_end, n, 0)
        }
    }
}

/// Reads a little-endian `u32` at `pos`, known to lie inside `bytes`.
fn u32_at(bytes: &[u8], pos: usize) -> (r: u32)
    requires
        pos + 4 <= bytes@.len(),
    ensures
        r == le_u32_at(bytes@, pos as int),
{
    proof {
        assert(vstd::slice::spec_slice_len(bytes) == bytes@.len());
    }
    u32_from_le_bytes(slice_subrange(bytes, pos, pos + 4))
}

/// Reads a little-endian `u16` at `pos`, known to lie inside `bytes`.
fn u16_at(bytes: &[u8], pos: usize) -> (r: u16)
    requires
        pos + 2 <= bytes@.len(),
    ensures
        r == le_u16_at(bytes@, pos as int),
{
    proof {
        assert(vstd::slice::spec_slice_len(bytes) == bytes@.len());
    }
    u16_from_le_bytes(slice_subrange(bytes, pos, pos + 2))
}

/// Checks layout entry `idx`.
fn check_layout_entry(bytes: &[u8], layout_offset: usize, offsets_pos: usize, idx: usize) -> (r: Result<(), ZebinError>)
    requires
        offsets_pos + idx * 4 + 4 <= bytes@.len(),
    ensures
        match spec_check_layout_entry(bytes@, layout_offset as int, offsets_pos as int, idx as int) {
            Ok(()) => r is Ok,
            Err(f) => r matches Err(e) && fails_with(e, f),
        },
{
    proof {
        assert(vstd::slice::spec_slice_len(bytes) == bytes@.len());
    }
    let offset_pos = offsets_pos + idx * 4;
    let rel = u32_to_usize(u32_at(bytes, offset_pos));
    let layout_pos = match layout_offset.checked_add(rel) {
        Some(p) => p,
        None => {
            return Err(validation_error("Layout position overflow", offset_pos));
        },
    };
    let entry_header_end = match layout_pos.checked_add(8) {
        Some(p) => p,
        None => {
            return Err(validation_error("Layout entry overflow", layout_pos));
        },
    };
    if entry_header_end > bytes.len() {
        return Err(validation_error("Layout entry out of bounds", layout_pos));
    }
    let schema_id = u32_to_usize(u32_at(bytes, layout_pos));
    if schema_id != idx {
        let mut message = text_then_number("Layout schema id mismatch: expected ", idx as u64);
        message.append(", found ");
        append_decimal(&mut message, schema_id as u64);
        return Err(ZebinError::ValidationError { message, pos: layout_pos });
    }
    let field_count = u16_at(bytes, layout_pos + 4) as usize;
    let entry_size = 8 + field_count * 4;
    let entry_end = match layout_pos.checked_add(entry_size) {
        Some(p) => p,
        None => {
            return Err(validation_error("Layout entry overflow", layout_pos));
        },
    };
    if entry_end > bytes.len() {
        return Err(validation_error("Layout entry payload out of bounds", layout_pos));
    }
    Ok(())
}

/// Checks the layout section at `layout_offset`: its count, its offset table and every
/// entry it points to.
pub fn validate_layout_section(bytes: &[u8], layout_offset: usize) -> (r: Result<(), ZebinError>)
    requires
        layout_offset > 0,
    ensures
        match spec_validate_layout_section(bytes@, layout_offset as int) {
            Ok(()) => r is Ok,
            Err(f) => r matches Err(e) && fails_with(e, f),
        },
{
    let header_end = match layout_offset.checked_add(4) {
        Some(e) => e,
        None => {
            return Err(validation_error("Layout section header overflow", layout_offset));
        },
    };
    if header_end > bytes.len() {
        return Err(validation_error("Layout section header out of bounds", layout_offset));
    }
    let num_layouts = u32_to_usize(u32_at(bytes, layout_offset));
    let offsets_pos = header_end;
    let table_len = match num_layouts.checked_mul(4) {
        Some(t) => t,
        None => {
            return Err(validation_error("Layout offset table overflow", layout_offset));
        },
    };
    let offsets_end = match offsets_pos.checked_add(table_len) {
        Some(e) => e,
        None => {
            return Err(validation_error("Layout offset table overflow", layout_offset));
        },
    };
    if offsets_end > bytes.len() {
        return Err(validation_error("Layout offset table out of bounds", offsets_pos));
    }
    let mut layout_idx: usize = 0;
    while layout_idx < num_layouts
        invariant
            layout_idx <= num_layouts,
            offsets_pos == layout_offset + 4,
            offsets_pos + num_layouts * 4 <= bytes@.len(),
            num_layouts == le_u32_at(bytes@, layout_offset as int),
            spec_validate_layout_section(bytes@, layout_offset as int) == spec_check_layouts(
                bytes@,
                layout_offset as int,
                offsets_pos as int,
                num_layouts as int,
                layout_idx as int,
            ),
        decreases num_layouts - layout_idx,
    {
        proof {
            assert(offsets_pos + layout_idx * 4 + 4 <= offsets_pos + num_layouts * 4) by (nonlinear_arith)
                requires
                    layout_idx < num_layouts,
            ;
        }
        check_layout_entry(bytes, layout_offset, offsets_pos, layout_idx)?;
        layout_idx = layout_idx + 1;
    }
    Ok(())
}

/// A validated archive: its bytes, its header and its root value.
pub struct ArchiveView<'a, T> {
    bytes: &'a [u8],
    header: ArchiveHeader,
    root: T,
}

impl<'a, T: Copy> ArchiveView<'a, T> {
    pub closed spec fn data(&self) -> Seq<u8> {
        self.bytes@
    }

    pub closed spec fn spec_header(&self) -> ArchiveHeader {
        self.header
    }

    pub closed spec fn spec_root(&self) -> T {
        self.root
    }

    pub fn bytes(&self) -> (r: &'a [u8])
        ensures
            r@ == self.data(),
    {
        self.bytes
    }

    pub fn header(&self) -> (r: ArchiveHeader)
        ensures
            r == self.spec_header(),
    {
        self.header
    }

    pub fn root(&self) -> (r: T)
        ensures
            r == self.spec_root(),
    {
        self.root
    }
}

impl<'a, T: Copy> core::ops::Deref for ArchiveView<'a, T> {
    type Target = T;

    /// The root value.
    fn deref(&self) -> (r: &T)
        ensures
            *r == self.spec_root(),
    {
        &self.root
    }
}

/// What checking an archive whose root is a `T` gives: its header and root value.
pub open spec fn spec_check_archive<T: FixedLayout>(data: Seq<u8>) -> Result<(ArchiveHeader, T), Failure> {
    match spec_parse_header(data) {
        Err(e) => Err(Failure::Other(ZebinError::HeaderParseError(e))),
        Ok(header) => {
            let root_pos = header.root_offset as int;
            let root_end = root_pos + T::spec_size();
            let align = T::spec_alignment() as int;
            let lo = header.layout_offset as int;
            if root_end > usize::MAX {
                Err(vfail("Root range overflow", root_pos))
            } else if root_pos < ARCHIVE_HEADER_SIZE {
                Err(vfail("Root overlaps archive header", root_pos))
            } else if root_end > data.len() {
                Err(vfail("Root out of bounds", root_pos))
            } else if root_pos % align != 0 {
                Err(
                    Failure::Other(
                        ZebinError::Decode(
                            DecodeError::AlignmentError {
                                expected: align as usize,
                                actual: (root_pos % align) as usize,
                                pos: root_pos as usize,
                            },
                        ),
                    ),
                )
            } else if lo < root_end {
                Err(vfail("Layout section overlaps root", lo))
            } else {
                match spec_validate_layout_section(data, lo) {
                    Err(e) => Err(e),
                    Ok(()) => match T::spec_decode(data.subrange(root_pos, root_end), root_pos) {
                        Err(e) => Err(Failure::Other(ZebinError::Decode(e))),
                        Ok(v) => Ok((header, v)),
                    },
                }
            }
        }
    }
}

/// Checks an archive whose root is a `T` and returns a view of it: the header, the
/// root's place (after the header, inside the buffer, aligned, before the layout
/// section), the layout section, and the root value.
pub fn check_archive<'a, T: FixedLayout>(bytes: &'a [u8]) -> (r: Result<ArchiveView<'a, T>, ZebinError>)
    ensures
        match spec_check_archive::<T>(bytes@) {
            Ok((h, v)) => r matches Ok(view) && view.data() == bytes@ && view.spec_header() == h && view.spec_root()
                == v,
            Err(f) => r matches Err(e) && fails_with(e, f),
        },
{
    let header = match ArchiveHeader::parse(bytes) {
        Ok(h) => h,
        Err(e) => {
            return Err(ZebinError::HeaderParseError(e));
        },
    };
    let root_pos = u32_to_usize(header.root_offset());
    let size = T::size();
    let alignment = T::alignment();
    let root_end = match root_pos.checked_add(size) {
        Some(e) => e,
        None => {
            return Err(validation_error("Root range overflow", root_pos));
        },
    };
    if root_pos < ARCHIVE_HEADER_SIZE {
        return Err(validation_error("Root overlaps archive header", root_pos));
    }
    if root_end > bytes.len() {
        return Err(validation_error("Root out of bounds", root_pos));
    }
    if root_pos % alignment != 0 {
        return Err(ZebinError::Decode(DecodeError::AlignmentError { expected: alignment, actual: root_pos % alignment, pos: root_pos }));
    }
    let layout_offset = u32_to_usize(header.layout_offset());
    if layout_offset < root_end {
        return Err(validation_error("Layout section overlaps root", layout_offset));
    }
    validate_layout_section(bytes, layout_offset)?;
    let validator = Validator::with_layouts(bytes, LayoutDirectory::new(bytes, layout_offset));
    validator.check_range(root_pos, size)?;
    validator.check_alignment(root_pos, alignment)?;
    let mut cursor = Cursor::new(bytes, root_pos);
    let root = match T::access(&mut cursor) {
        Ok(v) => v,
        Err(e) => {
            return Err(ZebinError::Decode(e));
        },
    };
    Ok(ArchiveView { bytes, header, root })
}

/// Checks an archive whose root is a `T` and returns a view of it.
pub fn decode<'a, T: FixedLayout>(bytes: &'a [u8]) -> (r: Result<ArchiveView<'a, T>, ZebinError>)
    ensures
        match spec_check_archive::<T>(bytes@) {
            Ok((h, v)) => r matches Ok(view) && view.data() == bytes@ && view.spec_header() == h && view.spec_root()
                == v,
            Err(f) => r matches Err(e) && fails_with(e, f),
        },
{
    check_archive::<T>(bytes)
}

/// Checks an archive whose root is a `T`.
pub fn validate<T: FixedLayout>(bytes: &[u8]) -> (r: Result<(), ZebinError>)
    ensures
        match spec_check_archive::<T>(bytes@) {
            Ok(_) => r is Ok,
            Err(f) => r matches Err(e) && fails_with(e, f),
        },
{
    match decode::<T>(bytes) {
        Ok(_) => Ok(()),
        Err(e) => Err(e),
    }
}

} // verus!
