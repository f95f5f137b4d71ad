use vstd::prelude::*;
use crate::error::ArchiveError;

verus! {

/// What building a relative pointer from position `from` to position `to` gives: the
/// signed distance, when it fits in an `i64` and is not zero.
pub open spec fn spec_rel_offset(from: usize, to: usize) -> Result<i64, ArchiveError> {
    let d = to - from;
    if d > i64::MAX || d < i64::MIN {
        Err(ArchiveError::OffsetOutOfRange { pos: from })
    } else if d == 0 {
        Err(ArchiveError::ZeroOffset { pos: from })
    } else {
        Ok(d as i64)
    }
}

/// Relative pointer: a non-zero signed 64-bit distance from its own position.
pub struct RelPtr<T> {
    offset: i64,
    _phantom: core::marker::PhantomData<T>,
}

impl<T> RelPtr<T> {
    pub closed spec fn spec_offset(&self) -> i64 {
        self.offset
    }

    /// The pointer from `from` to `to`; refused when the distance is zero or does not
    /// fit in an `i64`.
    pub fn new(from: usize, to: usize) -> (r: Result<RelPtr<T>, ArchiveError>)
        ensures
            match spec_rel_offset(from, to) {
                Ok(d) => r matches Ok(p) && p.spec_offset() == d,
                Err(e) => r matches Err(e2) && e2 == e,
            },
    {
        let offset: i64 = if to >= from {
            let diff = to - from;
            if diff as u64 > 9223372036854775807u64 {
                return Err(ArchiveError::OffsetOutOfRange { pos: from });
            }
            diff as i64
        } else {
            let diff = from - to;
            if diff as u64 > 9223372036854775808u64 {
                return Err(ArchiveError::OffsetOutOfRange { pos: from });
            }
            if diff as u64 == 9223372036854775808u64 {
                -9223372036854775807i64 - 1
            } else {
                -(diff as i64)
            }
        };
        if offset == 0 {
            return Err(ArchiveError::ZeroOffset { pos: from });
        }
        Ok(RelPtr { offset, _phantom: core::marker::PhantomData })
    }

    /// The stored distance.
    pub fn offset(&self) -> (r: i64)
        ensures
            r == self.spec_offset(),
    {
        self.offset
    }

    /// The position the pointer designates when it is stored at `at`, if that is a
    /// position at all.
    pub fn target(&self, at: usize) -> (r: Option<usize>)
        ensures
            0 <= at + self.spec_offset() <= usize::MAX ==> r == Some((at + self.spec_offset()) as usize),
            !(0 <= at + self.spec_offset() <= usize::MAX) ==> r is None,
    {
        if self.offset >= 0 {
            let d = self.offset as u64;
            if d > (usize::MAX - at) as u64 {
                None
            } else {
                Some(at + d as usize)
            }
        } else {
            let back = if self.offset == i64::MIN {
                9223372036854775808u64
            } else {
                (-self.offset) as u64
            };
            if back > at as u64 {
                None
            } else {
                Some(at - back as usize)
            }
        }
    }
}

/// A pointer made from `from` to `to` and stored at `from` designates `to`.
pub proof fn lemma_rel_ptr_reaches_target(from: usize, to: usize)
    requires
        spec_rel_offset(from, to) is Ok,
    ensures
        from + spec_rel_offset(from, to)->Ok_0 == to,
{
}

} // verus!
