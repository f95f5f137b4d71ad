use vstd::prelude::*;
use crate::block_index::{skip_block_index, spec_skip_block_index};
use crate::cursor::{Cursor, range_error};
use crate::error::DecodeError;
use crate::iter::{SEQUENCE_ELEMENT_MARKER, SEQUENCE_TERMINATOR, spec_element_body};
use crate::primitive::FixedLayout;
use crate::utils::lemma_padding_bounds;

verus! {

broadcast use vstd::slice::group_slice_axioms;

/// Reading the value of an element whose marker ends at `p`; with `aligned`, the padding
/// up to the element's alignment comes first. Gives the value and the position after it.
pub open spec fn spec_element_value<A: FixedLayout>(data: Seq<u8>, p: int, aligned: bool) -> Result<(A, int), DecodeError> {
    if aligned {
        spec_element_body::<A>(data, p)
    } else if p + A::spec_size() > data.len() {
        Err(range_error(p as usize, A::spec_size() as usize))
    } else {
        match A::spec_decode(data.subrange(p, p + A::spec_size()), p) {
            Ok(v) => Ok((v, p + A::spec_size())),
            Err(e) => Err(e),
        }
    }
}

/// Reading the elements of a sequence body at `pos` up to its terminator: the values in
/// order and the position after the terminator.
pub open spec fn spec_collect_elements<A: FixedLayout>(data: Seq<u8>, pos: int, aligned: bool) -> Result<(Seq<A>, int), DecodeError>
    decreases data.len() - pos,
{
    if pos < 0 || pos + 1 > data.len() {
        Err(range_error(pos as usize, 1))
    } else if data[pos] == SEQUENCE_TERMINATOR {
        Ok((Seq::empty(), pos + 1))
    } else if data[pos] != SEQUENCE_ELEMENT_MARKER {
        Err(DecodeError::ValidationError { message: "Invalid sequence marker", pos: pos as usize })
    } else {
        match spec_element_value::<A>(data, pos + 1, aligned) {
            Err(e) => Err(e),
            Ok((v, next)) => {
                proof {
                    A::lemma_alignment_positive();
                    lemma_padding_bounds(pos + 1, A::spec_alignment() as int);
                }
                match spec_collect_elements::<A>(data, next, aligned) {
                    Err(e) => Err(e),
                    Ok((rest, end)) => Ok((seq![v] + rest, end)),
                }
            },
        }
    }
}

/// Reading a whole sequence at `pos`: its values, then a block index, if one follows,
/// which is stepped over. Gives the values and the position after the sequence.
pub open spec fn spec_sequence_items<A: FixedLayout>(data: Seq<u8>, pos: int, aligned: bool) -> Result<(Seq<A>, int), DecodeError> {
    match spec_collect_elements::<A>(data, pos, aligned) {
        Err(e) => Err(e),
        Ok((items, p)) => match spec_skip_block_index(data, p) {
            Err(e) => Err(e),
            Ok(end) => Ok((items, end)),
        },
    }
}

/// Reads the value of one element whose marker has been read.
fn read_element_value<A: FixedLayout>(cursor: &mut Cursor, aligned: bool) -> (r: Result<A, DecodeError>)
    ensures
        final(cursor).data() == old(cursor).data(),
        match spec_element_value::<A>(old(cursor).data(), old(cursor).at(), aligned) {
            Ok((v, end)) => r == Ok::<A, DecodeError>(v) && final(cursor).at() == end,
            Err(e) => r == Err::<A, DecodeError>(e),
        },
{
    if aligned {
        crate::iter::read_element_body::<A>(cursor)
    } else {
        A::access(cursor)
    }
}

/// Reads the elements of a sequence body up to its terminator and steps over a block
/// index that follows; with `aligned`, each value is preceded by the padding to its
/// alignment.
fn read_sequence<A: FixedLayout>(cursor: &mut Cursor, aligned: bool) -> (r: Result<Vec<A>, DecodeError>)
    ensures
        final(cursor).data() == old(cursor).data(),
        match spec_sequence_items::<A>(old(cursor).data(), old(cursor).at(), aligned) {
            Ok((items, end)) => r matches Ok(v) && v@ == items && final(cursor).at() == end,
            Err(e) => r matches Err(e2) && e2 == e,
        },
{
    let mut items: Vec<A> = Vec::new();
    proof {
        cursor.lemma_len_bound();
    }
    loop
        invariant_except_break
            match spec_collect_elements::<A>(old(cursor).data(), old(cursor).at(), aligned) {
                Ok((all, end)) => match spec_collect_elements::<A>(cursor.data(), cursor.at(), aligned) {
                    Ok((rest, end2)) => all == items@ + rest && end2 == end,
                    Err(_) => false,
                },
                Err(e) => spec_collect_elements::<A>(cursor.data(), cursor.at(), aligned) == Err::<
                    (Seq<A>, int),
                    DecodeError,
                >(e),
            },
        invariant
            cursor.data() == old(cursor).data(),
            0 <= cursor.at(),
        ensures
            spec_collect_elements::<A>(old(cursor).data(), old(cursor).at(), aligned) == Ok::<(Seq<A>, int), DecodeError>(
                (items@, cursor.at()),
            ),
        decreases cursor.data().len() - cursor.at(),
    {
        proof {
            cursor.lemma_len_bound();
        }
        let ghost before = cursor.at();
        let marker = cursor.read_u8()?;
        if marker == SEQUENCE_TERMINATOR {
            proof {
                assert(items@ + Seq::<A>::empty() =~= items@);
            }
            break;
        } else if marker != SEQUENCE_ELEMENT_MARKER {
            return Err(DecodeError::ValidationError { message: "Invalid sequence marker", pos: cursor.pos() - 1 });
        }
        let v = read_element_value::<A>(cursor, aligned)?;
        proof {
            A::lemma_alignment_positive();
            lemma_padding_bounds(before + 1, A::spec_alignment() as int);
            let ghost old_items = items@;
            match spec_collect_elements::<A>(cursor.data(), cursor.at(), aligned) {
                Ok((rest, _)) => {
                    assert(old_items + (seq![v] + rest) =~= old_items.push(v) + rest);
                },
                Err(_) => {},
            }
        }
        items.push(v);
    }
    skip_block_index(cursor)?;
    Ok(items)
}

/// Checks the elements of a sequence body up to its terminator and steps over a block
/// index that follows.
fn check_sequence<A: FixedLayout>(cursor: &mut Cursor, aligned: bool) -> (r: Result<(), DecodeError>)
    ensures
        final(cursor).data() == old(cursor).data(),
        match spec_sequence_items::<A>(old(cursor).data(), old(cursor).at(), aligned) {
            Ok((_, end)) => r is Ok && final(cursor).at() == end,
            Err(e) => r == Err::<(), DecodeError>(e),
        },
{
    proof {
        cursor.lemma_len_bound();
    }
    loop
        invariant_except_break
            match spec_collect_elements::<A>(old(cursor).data(), old(cursor).at(), aligned) {
                Ok((_, end)) => match spec_collect_elements::<A>(cursor.data(), cursor.at(), aligned) {
                    Ok((_, end2)) => end2 == end,
                    Err(_) => false,
                },
                Err(e) => spec_collect_elements::<A>(cursor.data(), cursor.at(), aligned) == Err::<
                    (Seq<A>, int),
                    DecodeError,
                >(e),
            },
        invariant
            cursor.data() == old(cursor).data(),
            0 <= cursor.at(),
        ensures
            spec_collect_elements::<A>(old(cursor).data(), old(cursor).at(), aligned) matches Ok((_, end))
                && cursor.at() == end,
        decreases cursor.data().len() - cursor.at(),
    {
        proof {
            cursor.lemma_len_bound();
        }
        let ghost before = cursor.at();
        let marker = cursor.read_u8()?;
        if marker == SEQUENCE_TERMINATOR {
            break;
        } else if marker != SEQUENCE_ELEMENT_MARKER {
            return Err(DecodeError::ValidationError { message: "Invalid sequence marker", pos: cursor.pos() - 1 });
        }
        let _ = read_element_value::<A>(cursor, aligned)?;
        proof {
            A::lemma_alignment_positive();
            lemma_padding_bounds(before + 1, A::spec_alignment() as int);
        }
    }
    skip_block_index(cursor)
}

/// Reading sequences of fixed-size elements, each placed at its alignment.
pub struct FixedSequenceStrategy;

impl FixedSequenceStrategy {
    /// Reads the elements of a sequence in order, stepping over its block index.
    pub fn access_sequence<A: FixedLayout>(cursor: &mut Cursor) -> (r: Result<Vec<A>, DecodeError>)
        ensures
            final(cursor).data() == old(cursor).data(),
            match spec_sequence_items::<A>(old(cursor).data(), old(cursor).at(), true) {
                Ok((items, end)) => r matches Ok(v) && v@ == items && final(cursor).at() == end,
                Err(e) => r matches Err(e2) && e2 == e,
            },
    {
        read_sequence::<A>(cursor, true)
    }

    /// Checks the elements of a sequence, stepping over its block index.
    pub fn validate_sequence<A: FixedLayout>(cursor: &mut Cursor) -> (r: Result<(), DecodeError>)
        ensures
            final(cursor).data() == old(cursor).data(),
            match spec_sequence_items::<A>(old(cursor).data(), old(cursor).at(), true) {
                Ok((_, end)) => r is Ok && final(cursor).at() == end,
                Err(e) => r == Err::<(), DecodeError>(e),
            },
    {
        check_sequence::<A>(cursor, true)
    }
}

/// Reading sequences whose elements follow their markers directly, with no padding.
pub struct ForwardSequenceStrategy;

impl ForwardSequenceStrategy {
    /// Reads the elements of a sequence in order, stepping over its block index.
    pub fn access_sequence<A: FixedLayout>(cursor: &mut Cursor) -> (r: Result<Vec<A>, DecodeError>)
        ensures
            final(cursor).data() == old(cursor).data(),
            match spec_sequence_items::<A>(old(cursor).data(), old(cursor).at(), false) {
                Ok((items, end)) => r matches Ok(v) && v@ == items && final(cursor).at() == end,
                Err(e) => r matches Err(e2) && e2 == e,
            },
    {
        read_sequence::<A>(cursor, false)
    }

    /// Checks the elements of a sequence, stepping over its block index.
    pub fn validate_sequence<A: FixedLayout>(cursor: &mut Cursor) -> (r: Result<(), DecodeError>)
        ensures
            final(cursor).data() == old(cursor).data(),
            match spec_sequence_items::<A>(old(cursor).data(), old(cursor).at(), false) {
                Ok((_, end)) => r is Ok && final(cursor).at() == end,
                Err(e) => r == Err::<(), DecodeError>(e),
            },
    {
        check_sequence::<A>(cursor, false)
    }
}

} // verus!
