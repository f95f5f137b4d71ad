use vstd::prelude::*;
use vstd::bytes::*;
use crate::access::{Failure, le_u16_at, le_u32_at, spec_check_layout_entry, spec_check_layouts, spec_validate_layout_section};

verus! {

/// The bytes of a layout entry written at place `idx` of the table, for a schema of `fc`
/// fields: its schema id, its field count, two reserved bytes, then four bytes per field.
pub open spec fn spec_layout_entry(idx: u32, fc: u16) -> Seq<u8> {
    spec_u32_to_le_bytes(idx) + spec_u16_to_le_bytes(fc) + seq![0u8, 0u8] + Seq::new((fc as nat) * 4, |i: int| 0u8)
}

/// The entries of a layout section for schemas with the field counts `fcs`, one after
/// the other, each at its place in the table.
pub open spec fn spec_layout_entries(fcs: Seq<u16>) -> Seq<u8>
    decreases fcs.len(),
{
    if fcs.len() == 0 {
        Seq::empty()
    } else {
        spec_layout_entries(fcs.drop_last()) + spec_layout_entry((fcs.len() - 1) as u32, fcs.last())
    }
}

/// A table of 32-bit little-endian offsets.
pub open spec fn spec_offset_table(offs: Seq<u32>) -> Seq<u8>
    decreases offs.len(),
{
    if offs.len() == 0 {
        Seq::empty()
    } else {
        spec_offset_table(offs.drop_last()) + spec_u32_to_le_bytes(offs.last())
    }
}

/// The offset, from the start of the section, at which each entry is written: past the
/// count, the table and the entries before it.
pub open spec fn spec_layout_offsets(fcs: Seq<u16>) -> Seq<u32> {
    Seq::new(fcs.len(), |i: int| (4 + 4 * fcs.len() + spec_layout_entries(fcs.take(i)).len()) as u32)
}

/// A layout section written for schemas with the field counts `fcs`: the number of
/// entries, the table of their offsets, and the entries.
pub open spec fn spec_layout_section(fcs: Seq<u16>) -> Seq<u8> {
    spec_u32_to_le_bytes(fcs.len() as u32) + spec_offset_table(spec_layout_offsets(fcs)) + spec_layout_entries(fcs)
}

/// A window of `data` inside a copy of `sec` is the same window of `sec`.
proof fn lemma_window(data: Seq<u8>, lo: int, sec: Seq<u8>, x: int, w: int)
    requires
        0 <= lo,
        0 <= x,
        0 <= w,
        x + w <= sec.len(),
        lo + sec.len() <= data.len(),
        data.subrange(lo, lo + sec.len()) == sec,
    ensures
        data.subrange(lo + x, lo + x + w) == sec.subrange(x, x + w),
{
    assert forall|i: int| 0 <= i < w implies #[trigger] data.subrange(lo + x, lo + x + w)[i] == sec.subrange(x, x + w)[i] by {
        assert(data.subrange(lo, lo + sec.len())[x + i] == data[lo + x + i]);
    }
    assert(data.subrange(lo + x, lo + x + w) =~= sec.subrange(x, x + w));
}

/// Word `i` of an offset table is offset `i`.
proof fn lemma_table_word(offs: Seq<u32>, i: int)
    requires
        0 <= i < offs.len(),
    ensures
        spec_offset_table(offs).len() == 4 * offs.len(),
        spec_offset_table(offs).subrange(4 * i, 4 * i + 4) == spec_u32_to_le_bytes(offs[i]),
    decreases offs.len(),
{
    lemma_auto_spec_u32_to_from_le_bytes();
    let d = offs.drop_last();
    lemma_table_len(d);
    let t = spec_offset_table(offs);
    let td = spec_offset_table(d);
    if i == offs.len() - 1 {
        assert(t.subrange(4 * i, 4 * i + 4) =~= spec_u32_to_le_bytes(offs.last()));
    } else {
        lemma_table_word(d, i);
        assert(t.subrange(4 * i, 4 * i + 4) =~= td.subrange(4 * i, 4 * i + 4));
    }
}

/// An offset table holds four bytes per offset.
proof fn lemma_table_len(offs: Seq<u32>)
    ensures
        spec_offset_table(offs).len() == 4 * offs.len(),
    decreases offs.len(),
{
    lemma_auto_spec_u32_to_from_le_bytes();
    if offs.len() > 0 {
        lemma_table_len(offs.drop_last());
    }
}

/// An entry has eight bytes and four per field, and starts with its id and field count.
proof fn lemma_entry_shape(idx: u32, fc: u16)
    ensures
        spec_layout_entry(idx, fc).len() == 8 + 4 * fc,
        spec_layout_entry(idx, fc).subrange(0, 4) == spec_u32_to_le_bytes(idx),
        spec_layout_entry(idx, fc).subrange(4, 6) == spec_u16_to_le_bytes(fc),
{
    lemma_auto_spec_u32_to_from_le_bytes();
    lemma_auto_spec_u16_to_from_le_bytes();
    let e = spec_layout_entry(idx, fc);
    assert(e.subrange(0, 4) =~= spec_u32_to_le_bytes(idx));
    assert(e.subrange(4, 6) =~= spec_u16_to_le_bytes(fc));
}

/// The entries of the first `k` schemas start the entries of all of them, and the entry of
/// schema `k` follows them.
proof fn lemma_entries_prefix(fcs: Seq<u16>, k: int)
    requires
        0 <= k < fcs.len(),
    ensures
        spec_layout_entries(fcs.take(k + 1)) == spec_layout_entries(fcs.take(k)) + spec_layout_entry(k as u32, fcs[k]),
        spec_layout_entries(fcs.take(k + 1)).len() <= spec_layout_entries(fcs).len(),
        spec_layout_entries(fcs).subrange(0, spec_layout_entries(fcs.take(k + 1)).len() as int) == spec_layout_entries(
            fcs.take(k + 1),
        ),
    decreases fcs.len(),
{
    assert(fcs.take(k + 1).drop_last() =~= fcs.take(k));
    let d = fcs.drop_last();
    if k + 1 == fcs.len() {
        assert(fcs.take(k + 1) =~= fcs);
        let a = spec_layout_entries(fcs);
        assert(a.subrange(0, a.len() as int) =~= a);
    } else {
        lemma_entries_prefix(d, k);
        assert(d.take(k + 1) =~= fcs.take(k + 1));
        assert(d.take(k) =~= fcs.take(k));
        let a = spec_layout_entries(d);
        let b = spec_layout_entries(fcs);
        let p = spec_layout_entries(fcs.take(k + 1)).len() as int;
        assert(b.subrange(0, p) =~= a.subrange(0, p));
    }
}

/// The entry at place `idx` of a written layout section passes its check.
proof fn lemma_written_entry_passes(data: Seq<u8>, lo: int, fcs: Seq<u16>, idx: int)
    requires
        0 <= lo,
        0 <= idx < fcs.len(),
        lo + spec_layout_section(fcs).len() <= data.len(),
        data.len() <= usize::MAX,
        spec_layout_section(fcs).len() <= u32::MAX,
        data.subrange(lo, lo + spec_layout_section(fcs).len()) == spec_layout_section(fcs),
    ensures
        spec_check_layout_entry(data, lo, lo + 4, idx) == Ok::<(), Failure>(()),
{
    lemma_auto_spec_u32_to_from_le_bytes();
    lemma_auto_spec_u16_to_from_le_bytes();
    let n = fcs.len() as int;
    let sec = spec_layout_section(fcs);
    let offs = spec_layout_offsets(fcs);
    let h = spec_u32_to_le_bytes(n as u32);
    let t = spec_offset_table(offs);
    let e = spec_layout_entries(fcs);
    lemma_table_len(offs);
    lemma_table_word(offs, idx);
    lemma_entries_prefix(fcs, idx);
    lemma_entry_shape(idx as u32, fcs[idx]);
    let p = spec_layout_entries(fcs.take(idx)).len() as int;
    let ent = spec_layout_entry(idx as u32, fcs[idx]);
    let q = spec_layout_entries(fcs.take(idx + 1)).len() as int;
    assert(q == p + ent.len());
    assert(sec.len() == 4 + 4 * n + e.len());
    // The offset word of entry `idx`.
    let x = 4 + 4 * idx;
    lemma_window(data, lo, sec, x, 4);
    assert(sec.subrange(x, x + 4) =~= t.subrange(4 * idx, 4 * idx + 4));
    assert(le_u32_at(data, lo + x) == offs[idx]);
    assert(offs[idx] == 4 + 4 * n + p);
    let y = 4 + 4 * n + p;
    // The entry's schema id and field count.
    assert(e.subrange(0, q) == spec_layout_entries(fcs.take(idx)) + ent);
    assert(e.subrange(p, p + 4) =~= ent.subrange(0, 4)) by {
        assert forall|i: int| 0 <= i < 4 implies #[trigger] e.subrange(p, p + 4)[i] == ent.subrange(0, 4)[i] by {
            assert(e.subrange(0, q)[p + i] == e[p + i]);
        }
    }
    assert(e.subrange(p + 4, p + 6) =~= ent.subrange(4, 6)) by {
        assert forall|i: int| 0 <= i < 2 implies #[trigger] e.subrange(p + 4, p + 6)[i] == ent.subrange(4, 6)[i] by {
            assert(e.subrange(0, q)[p + 4 + i] == e[p + 4 + i]);
        }
    }
    lemma_window(data, lo, sec, y, 4);
    assert(sec.subrange(y, y + 4) =~= e.subrange(p, p + 4));
    lemma_window(data, lo, sec, y + 4, 2);
    assert(sec.subrange(y + 4, y + 6) =~= e.subrange(p + 4, p + 6));
    assert(le_u32_at(data, lo + y) == idx as u32);
    assert(le_u16_at(data, lo + y + 4) == fcs[idx]);
    assert(idx < u32::MAX);
}

/// Entries `idx..n` of a written layout section pass their checks.
proof fn lemma_written_entries_pass(data: Seq<u8>, lo: int, fcs: Seq<u16>, idx: int)
    requires
        0 <= lo,
        0 <= idx <= fcs.len(),
        lo + spec_layout_section(fcs).len() <= data.len(),
        data.len() <= usize::MAX,
        spec_layout_section(fcs).len() <= u32::MAX,
        data.subrange(lo, lo + spec_layout_section(fcs).len()) == spec_layout_section(fcs),
    ensures
        spec_check_layouts(data, lo, lo + 4, fcs.len() as int, idx) == Ok::<(), Failure>(()),
    decreases fcs.len() - idx,
{
    if idx < fcs.len() {
        lemma_written_entry_passes(data, lo, fcs, idx);
        lemma_written_entries_pass(data, lo, fcs, idx + 1);
    }
}

/// A layout section written with its entries at the offsets its table records passes
/// validation wherever it is placed in the buffer: the count is read at the start, the
/// offset of entry `idx` from the table word `idx`, and each entry names its own place
/// and fits with its fields.
pub proof fn lemma_written_layout_section_validates(data: Seq<u8>, lo: int, fcs: Seq<u16>)
    requires
        0 <= lo,
        lo + spec_layout_section(fcs).len() <= data.len(),
        data.len() <= usize::MAX,
        spec_layout_section(fcs).len() <= u32::MAX,
        data.subrange(lo, lo + spec_layout_section(fcs).len()) == spec_layout_section(fcs),
    ensures
        spec_validate_layout_section(data, lo) == Ok::<(), Failure>(()),
{
    lemma_auto_spec_u32_to_from_le_bytes();
    let n = fcs.len() as int;
    let sec = spec_layout_section(fcs);
    let offs = spec_layout_offsets(fcs);
    lemma_table_len(offs);
    let e = spec_layout_entries(fcs);
    assert(sec.len() == 4 + 4 * n + e.len());
    lemma_window(data, lo, sec, 0, 4);
    assert(sec.subrange(0, 4) =~= spec_u32_to_le_bytes(n as u32));
    assert(lo + 0 == lo);
    assert(le_u32_at(data, lo) == n as u32);
    assert(n <= u32::MAX);
    lemma_written_entries_pass(data, lo, fcs, 0);
}

/// Once entries `from..n` pass their checks, each of them does.
proof fn lemma_checked_entries(data: Seq<u8>, lo: int, n: int, from: int, idx: int)
    requires
        from <= idx < n,
        spec_check_layouts(data, lo, lo + 4, n, from) == Ok::<(), Failure>(()),
    ensures
        spec_check_layout_entry(data, lo, lo + 4, idx) == Ok::<(), Failure>(()),
    decreases idx - from,
{
    if from < idx {
        lemma_checked_entries(data, lo, n, from + 1, idx);
    }
}

/// What a layout section that passes validation holds: a count at its start, a table of
/// that many 32-bit offsets after it, and for each table word `idx` an entry, at that
/// offset from the section, that names `idx` and whose fields lie inside the buffer.
pub proof fn lemma_validated_layout_section(data: Seq<u8>, lo: int, idx: int)
    requires
        spec_validate_layout_section(data, lo) == Ok::<(), Failure>(()),
        0 <= idx < le_u32_at(data, lo),
    ensures
        lo + 4 + 4 * le_u32_at(data, lo) <= data.len(),
        ({
            let entry = lo + le_u32_at(data, lo + 4 + 4 * idx);
            &&& entry + 8 <= data.len()
            &&& le_u32_at(data, entry) == idx
            &&& entry + 8 + 4 * le_u16_at(data, entry + 4) <= data.len()
        }),
{
    let n = le_u32_at(data, lo) as int;
    lemma_checked_entries(data, lo, n, 0, idx);
}

} // verus!
