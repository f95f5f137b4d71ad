use vstd::prelude::*;
use vstd::bytes::*;
use vstd::slice::slice_subrange;
use crate::access::{fails_with, le_u16_at, le_u32_at, validation_error, verr, vfail};
use crate::error::{DecodeError, ZebinError};

verus! {

broadcast use vstd::slice::group_slice_axioms;

/// Deepest nesting a validator accepts.
pub const MAX_VALIDATION_DEPTH: usize = 256;

/// The layout section of an archive, found at `layout_offset`.
#[derive(Clone, Copy)]
pub struct LayoutDirectory<'a> {
    bytes: &'a [u8],
    layout_offset: usize,
}

/// One layout entry: its position, its index and its number of fields.
#[derive(Clone, Copy)]
pub struct LayoutView<'a> {
    bytes: &'a [u8],
    pos: usize,
    schema_id: u32,
    field_count: u16,
}

/// What looking up layout `id` in the section at `lo` gives: the entry's position and
/// field count, or an error when the section has no such entry inside the buffer.
pub open spec fn spec_layout_lookup(data: Seq<u8>, lo: int, id: u32) -> Result<(int, u16), ZebinError> {
    if lo + 4 > data.len() {
        Err(verr("Layout section header out of bounds", lo))
    } else if id >= le_u32_at(data, lo) {
        Err(verr("Unknown layout schema id", lo))
    } else {
        let offset_pos = lo + 4 + id * 4;
        if offset_pos + 4 > data.len() {
            Err(verr("Layout offset entry out of bounds", lo))
        } else {
            let layout_pos = lo + le_u32_at(data, offset_pos);
            if layout_pos + 8 > data.len() {
                Err(verr("Layout entry out of bounds", lo))
            } else {
                let fc = le_u16_at(data, layout_pos + 4);
                if layout_pos + 8 + fc * 4 > data.len() {
                    Err(verr("Layout entry payload out of bounds", layout_pos))
                } else {
                    Ok((layout_pos, fc))
                }
            }
        }
    }
}

/// The offset recorded for `field_id` among the first `k` fields of the entry at `pos`.
pub open spec fn spec_field_offset(data: Seq<u8>, pos: int, k: nat, field_id: u16) -> Option<u32>
    decreases k,
{
    if k == 0 {
        None
    } else {
        match spec_field_offset(data, pos, (k - 1) as nat, field_id) {
            Some(o) => Some(o),
            None => {
                let p = pos + 8 + (k - 1) * 4;
                if le_u16_at(data, p) == field_id {
                    Some(le_u16_at(data, p + 2) as u32)
                } else {
                    None
                }
            },
        }
    }
}

impl<'a> LayoutDirectory<'a> {
    pub closed spec fn data(&self) -> Seq<u8> {
        self.bytes@
    }

    pub closed spec fn offset(&self) -> usize {
        self.layout_offset
    }

    pub fn new(bytes: &'a [u8], layout_offset: usize) -> (r: LayoutDirectory<'a>)
        ensures
            r.data() == bytes@,
            r.offset() == layout_offset,
    {
        LayoutDirectory { bytes, layout_offset }
    }

    /// The layout entry with index `id`.
    pub fn lookup(&self, id: u32) -> (r: Result<LayoutView<'a>, ZebinError>)
        ensures
            match spec_layout_lookup(self.data(), self.offset() as int, id) {
                Ok((pos, fc)) => r matches Ok(v) && v.data() == self.data() && v.position() == pos && v.spec_schema_id()
                    == id && v.spec_field_count() == fc && v.wf(),
                Err(e) => r matches Err(e2) && e2 == e,
            },
    {
        proof {
            assert(vstd::slice::spec_slice_len(self.bytes) == self.bytes@.len());
        }
        let lo = self.layout_offset;
        let len = self.bytes.len();
        if lo > len || len - lo < 4 {
            return Err(ZebinError::Decode(DecodeError::ValidationError { message: "Layout section header out of bounds", pos: lo }));
        }
        let count = u32_from_le_bytes(slice_subrange(self.bytes, lo, lo + 4));
        if id >= count {
            return Err(ZebinError::Decode(DecodeError::ValidationError { message: "Unknown layout schema id", pos: lo }));
        }
        let idx = id as usize;
        if (len - lo - 4) / 4 < idx || len - lo - 4 - idx * 4 < 4 {
            proof {
                assert((len - lo - 4) / 4 < idx ==> lo + 4 + idx * 4 + 4 > len) by (nonlinear_arith)
                    requires
                        lo + 4 <= len,
                ;
            }
            return Err(ZebinError::Decode(DecodeError::ValidationError { message: "Layout offset entry out of bounds", pos: lo }));
        }
        let offset_pos = lo + 4 + idx * 4;
        let rel = u32_from_le_bytes(slice_subrange(self.bytes, offset_pos, offset_pos + 4)) as usize;
        if rel > len - lo || len - lo - rel < 8 {
            return Err(ZebinError::Decode(DecodeError::ValidationError { message: "Layout entry out of bounds", pos: lo }));
        }
        let layout_pos = lo + rel;
        let fc = u16_from_le_bytes(slice_subrange(self.bytes, layout_pos + 4, layout_pos + 6));
        if len - layout_pos - 8 < (fc as usize) * 4 {
            return Err(ZebinError::Decode(DecodeError::ValidationError { message: "Layout entry payload out of bounds", pos: layout_pos }));
        }
        Ok(LayoutView { bytes: self.bytes, pos: layout_pos, schema_id: id, field_count: fc })
    }
}

impl<'a> LayoutView<'a> {
    pub closed spec fn data(&self) -> Seq<u8> {
        self.bytes@
    }

    pub closed spec fn position(&self) -> int {
        self.pos as int
    }

    pub closed spec fn spec_schema_id(&self) -> u32 {
        self.schema_id
    }

    pub closed spec fn spec_field_count(&self) -> u16 {
        self.field_count
    }

    /// The entry's fields lie inside the buffer.
    pub closed spec fn wf(&self) -> bool {
        self.pos + 8 + self.field_count * 4 <= self.bytes@.len()
    }

    pub fn schema_id(&self) -> (r: u32)
        ensures
            r == self.spec_schema_id(),
    {
        self.schema_id
    }

    pub fn field_count(&self) -> (r: u16)
        ensures
            r == self.spec_field_count(),
    {
        self.field_count
    }

    /// The offset the layout records for `field_id`, from its first matching field.
    pub fn field_offset(&self, field_id: u16) -> (r: Option<u32>)
        requires
            self.wf(),
        ensures
            r == spec_field_offset(self.data(), self.position(), self.spec_field_count() as nat, field_id),
    {
        let n = self.field_count as usize;
        proof {
            assert(vstd::slice::spec_slice_len(self.bytes) == self.bytes@.len());
        }
        let mut i: usize = 0;
        while i < n
            invariant
                i <= n,
                self.bytes@.len() <= usize::MAX,
                n == self.field_count,
                self.wf(),
                spec_field_offset(self.data(), self.position(), i as nat, field_id) is None,
            ensures
                spec_field_offset(self.data(), self.position(), n as nat, field_id) is None,
            decreases n - i,
        {
            let p = self.pos + 8 + i * 4;
            let id = u16_from_le_bytes(slice_subrange(self.bytes, p, p + 2));
            if id == field_id {
                let off = u16_from_le_bytes(slice_subrange(self.bytes, p + 2, p + 4));
                proof {
                    lemma_field_offset_found(self.data(), self.position(), (i + 1) as nat, n as nat, field_id);
                }
                return Some(off as u32);
            }
            i = i + 1;
        }
        None
    }
}

/// Once a field matches, later fields do not change the answer.
proof fn lemma_field_offset_found(data: Seq<u8>, pos: int, k: nat, n: nat, field_id: u16)
    requires
        k <= n,
        spec_field_offset(data, pos, k, field_id) is Some,
    ensures
        spec_field_offset(data, pos, n, field_id) == spec_field_offset(data, pos, k, field_id),
    decreases n - k,
{
    if k < n {
        lemma_field_offset_found(data, pos, k, (n - 1) as nat, field_id);
    }
}

/// Bookkeeping of a validation pass: the buffer, the layout section and the nesting depth.
pub struct Validator<'a> {
    data: &'a [u8],
    layouts: Option<LayoutDirectory<'a>>,
    depth: usize,
    max_depth: usize,
}

/// Token for a nested validation scope; `leave` closes it.
pub struct DepthGuard {
    entered_at: usize,
}

impl DepthGuard {
    pub closed spec fn depth(&self) -> usize {
        self.entered_at
    }

    /// Closes the scope: the validator's depth goes down by one.
    pub fn leave(self, validator: &mut Validator)
        ensures
            final(validator).spec_depth() == (if old(validator).spec_depth() > 0 {
                old(validator).spec_depth() - 1
            } else {
                0
            }),
            final(validator).spec_data() == old(validator).spec_data(),
            old(validator).wf() ==> final(validator).wf(),
    {
        validator.pop_depth();
    }
}

impl<'a> Validator<'a> {
    pub closed spec fn spec_data(&self) -> Seq<u8> {
        self.data@
    }

    pub closed spec fn spec_depth(&self) -> usize {
        self.depth
    }

    pub closed spec fn spec_layouts(&self) -> Option<LayoutDirectory<'a>> {
        self.layouts
    }

    pub closed spec fn wf(&self) -> bool {
        self.max_depth == MAX_VALIDATION_DEPTH && self.depth <= self.max_depth
    }

    pub fn new(data: &'a [u8]) -> (r: Validator<'a>)
        ensures
            r.wf(),
            r.spec_data() == data@,
            r.spec_depth() == 0,
            r.spec_layouts() is None,
    {
        Validator { data, layouts: None, depth: 0, max_depth: MAX_VALIDATION_DEPTH }
    }

    pub fn with_layouts(data: &'a [u8], layouts: LayoutDirectory<'a>) -> (r: Validator<'a>)
        ensures
            r.wf(),
            r.spec_data() == data@,
            r.spec_depth() == 0,
            r.spec_layouts() == Some(layouts),
    {
        Validator { data, layouts: Some(layouts), depth: 0, max_depth: MAX_VALIDATION_DEPTH }
    }

    /// Enters a nested scope; refused past the deepest nesting accepted.
    pub fn enter(&mut self) -> (r: Result<DepthGuard, ZebinError>)
        requires
            old(self).wf(),
        ensures
            final(self).wf(),
            final(self).spec_data() == old(self).spec_data(),
            old(self).spec_depth() < MAX_VALIDATION_DEPTH ==> r is Ok && final(self).spec_depth() == old(self).spec_depth() + 1,
            old(self).spec_depth() >= MAX_VALIDATION_DEPTH ==> (r matches Err(
                ZebinError::Decode(DecodeError::RecursionLimitExceeded),
            ) && final(self).spec_depth() == old(self).spec_depth()),
    {
        self.push_depth()?;
        Ok(DepthGuard { entered_at: self.depth })
    }

    /// Checks that `size` bytes at `pos` lie inside the buffer (always true when `size` is 0).
    pub fn check_range(&self, pos: usize, size: usize) -> (r: Result<(), ZebinError>)
        ensures
            size == 0 ==> r is Ok,
            size != 0 && pos + size > usize::MAX ==> (r matches Err(e) && fails_with(
                e,
                vfail("Pointer range overflow", pos as int),
            )),
            size != 0 && pos + size <= usize::MAX && pos + size > self.spec_data().len() ==> (r matches Err(e)
                && fails_with(e, vfail("Pointer out of bounds", pos as int))),
            size != 0 && pos + size <= self.spec_data().len() ==> r is Ok,
    {
        proof {
            assert(vstd::slice::spec_slice_len(self.data) == self.data@.len());
        }
        if size == 0 {
            return Ok(());
        }
        let end = match pos.checked_add(size) {
            Some(e) => e,
            None => {
                return Err(validation_error("Pointer range overflow", pos));
            },
        };
        if end > self.data.len() {
            return Err(validation_error("Pointer out of bounds", pos));
        }
        Ok(())
    }

    /// Checks that `pos` is a multiple of `alignment`.
    pub fn check_alignment(&self, pos: usize, alignment: usize) -> (r: Result<(), ZebinError>)
        requires
            alignment > 0,
        ensures
            pos % alignment == 0 ==> r is Ok,
            pos % alignment != 0 ==> r == Err::<(), ZebinError>(
                ZebinError::Decode(DecodeError::AlignmentError { expected: alignment, actual: (pos % alignment) as usize, pos }),
            ),
    {
        if pos % alignment != 0 {
            return Err(ZebinError::Decode(DecodeError::AlignmentError { expected: alignment, actual: pos % alignment, pos }));
        }
        Ok(())
    }

    /// Goes one level deeper; refused past the deepest nesting accepted.
    pub fn push_depth(&mut self) -> (r: Result<(), ZebinError>)
        requires
            old(self).wf(),
        ensures
            final(self).wf(),
            final(self).spec_data() == old(self).spec_data(),
            final(self).spec_layouts() == old(self).spec_layouts(),
            old(self).spec_depth() < MAX_VALIDATION_DEPTH ==> r is Ok && final(self).spec_depth() == old(self).spec_depth() + 1,
            old(self).spec_depth() >= MAX_VALIDATION_DEPTH ==> r == Err::<(), ZebinError>(
                ZebinError::Decode(DecodeError::RecursionLimitExceeded),
            ) && final(self).spec_depth() == old(self).spec_depth(),
    {
        self.depth = self.depth + 1;
        if self.depth > self.max_depth {
            self.depth = self.depth - 1;
            return Err(ZebinError::Decode(DecodeError::RecursionLimitExceeded));
        }
        Ok(())
    }

    /// Goes one level up (not below zero).
    pub fn pop_depth(&mut self)
        ensures
            final(self).spec_depth() == (if old(self).spec_depth() > 0 {
                old(self).spec_depth() - 1
            } else {
                0
            }),
            final(self).spec_data() == old(self).spec_data(),
            final(self).spec_layouts() == old(self).spec_layouts(),
            old(self).wf() ==> final(self).wf(),
    {
        if self.depth > 0 {
            self.depth = self.depth - 1;
        }
    }

    pub fn data(&self) -> (r: &'a [u8])
        ensures
            r@ == self.spec_data(),
    {
        self.data
    }

    /// The layout entry with index `schema_id`; refused without a layout section.
    pub fn layout(&self, schema_id: u32) -> (r: Result<LayoutView<'a>, ZebinError>)
        ensures
            self.spec_layouts() is None ==> (r matches Err(e) && fails_with(e, vfail("Missing layout directory", 0))),
            self.spec_layouts() matches Some(dir) ==> match spec_layout_lookup(dir.data(), dir.offset() as int, schema_id) {
                Ok((pos, fc)) => r matches Ok(v) && v.data() == dir.data() && v.position() == pos && v.spec_schema_id()
                    == schema_id && v.spec_field_count() == fc && v.wf(),
                Err(e) => r matches Err(e2) && e2 == e,
            },
    {
        match &self.layouts {
            None => Err(validation_error("Missing layout directory", 0)),
            Some(layouts) => layouts.lookup(schema_id),
        }
    }
}

} // verus!
