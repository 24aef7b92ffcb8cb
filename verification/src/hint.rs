//! Hint files: for one read-only data file, the latest row of every key,
//! without the values, so that the key directory can be rebuilt without
//! reading the values.
//!
//! A record is `timestamp | key size | row size | row offset | tombstone flag
//! | key`, the integers big-endian, the flag one byte.

use crate::codec::{
    be_bytes_u64, lemma_u64_be_roundtrip, push_u64_be, read_u64_be, u64_from_be,
};
use crate::common::{recovered_views, RecoveredRow, RecoveredRowView};
use crate::file_id::FileId;
use vstd::prelude::*;
use vstd::slice::{slice_subrange, slice_to_vec};

verus! {

/// The bytes of a hint record in front of its key.
pub const HINT_FILE_KEY_OFFSET: usize = 33;

/// The byte that stands for the tombstone flag.
pub open spec fn flag_byte(is_tombstone: bool) -> u8 {
    if is_tombstone {
        1u8
    } else {
        0u8
    }
}

/// A hint record as it stands in a hint file.
#[verifier::opaque]
pub open spec fn hint_record_bytes(row: RecoveredRowView) -> Seq<u8> {
    be_bytes_u64(row.timestamp) + be_bytes_u64(row.key.len() as u64) + be_bytes_u64(row.row_size)
        + be_bytes_u64(row.row_offset) + seq![flag_byte(row.is_tombstone)] + row.key
}

/// The records of a hint file, one behind the other.
pub open spec fn hint_file_bytes(rows: Seq<RecoveredRowView>) -> Seq<u8>
    decreases rows.len(),
{
    if rows.len() == 0 {
        Seq::empty()
    } else {
        hint_record_bytes(rows[0]) + hint_file_bytes(rows.drop_first())
    }
}

/// The hint record that starts at `offset`, if one does and lies within the
/// bytes. The record is of the file `file_id`.
pub open spec fn hint_at(hint: Seq<u8>, offset: int, file_id: FileId) -> Option<RecoveredRowView> {
    if offset + 33 > hint.len() {
        None
    } else {
        let key_size = u64_from_be(hint.subrange(offset + 8, offset + 16));
        if offset + 33 + key_size > hint.len() {
            None
        } else {
            Some(
                RecoveredRowView {
                    file_id,
                    timestamp: u64_from_be(hint.subrange(offset, offset + 8)),
                    row_offset: u64_from_be(hint.subrange(offset + 24, offset + 32)),
                    row_size: u64_from_be(hint.subrange(offset + 16, offset + 24)),
                    key: hint.subrange(offset + 33, offset + 33 + key_size),
                    is_tombstone: hint[offset + 32] != 0u8,
                },
            )
        }
    }
}

/// The records of a hint file from `offset` on, up to the end or to the first
/// bytes that hold no whole record.
pub open spec fn parse_hint(hint: Seq<u8>, offset: int, file_id: FileId) -> Seq<RecoveredRowView>
    decreases hint.len() - offset,
{
    if offset < 0 {
        Seq::empty()
    } else {
        match hint_at(hint, offset, file_id) {
            Some(row) => seq![row] + parse_hint(hint, offset + 33 + row.key.len(), file_id),
            None => Seq::empty(),
        }
    }
}

/// A record reads back from where its bytes stand.
pub proof fn lemma_hint_at_record(before: Seq<u8>, row: RecoveredRowView, after: Seq<u8>)
    requires
        row.key.len() <= u64::MAX,
    ensures
        hint_record_bytes(row).len() == 33 + row.key.len(),
        hint_at(before + hint_record_bytes(row) + after, before.len() as int, row.file_id) == Some(
            row,
        ),
{
    reveal(hint_record_bytes);
    let record = hint_record_bytes(row);
    let all = before + record + after;
    let at = before.len() as int;
    lemma_u64_be_roundtrip(row.timestamp);
    lemma_u64_be_roundtrip(row.key.len() as u64);
    lemma_u64_be_roundtrip(row.row_size);
    lemma_u64_be_roundtrip(row.row_offset);
    assert(record.len() == 33 + row.key.len());
    assert(all.subrange(at, at + 8) =~= be_bytes_u64(row.timestamp));
    assert(all.subrange(at + 8, at + 16) =~= be_bytes_u64(row.key.len() as u64));
    assert(all.subrange(at + 16, at + 24) =~= be_bytes_u64(row.row_size));
    assert(all.subrange(at + 24, at + 32) =~= be_bytes_u64(row.row_offset));
    assert(all[at + 32] == flag_byte(row.is_tombstone));
    assert(all.subrange(at + 33, at + 33 + row.key.len() as int) =~= row.key);
}

/// The rows are of one file, and their keys are short enough for a record.
pub open spec fn hint_rows_wf(rows: Seq<RecoveredRowView>, file_id: FileId) -> bool {
    forall|i: int|
        0 <= i < rows.len() ==> (#[trigger] rows[i]).file_id == file_id && rows[i].key.len()
            <= u64::MAX
}

/// Reading a hint file gives the rows that were written into it.
pub proof fn lemma_parse_hint_roundtrip(before: Seq<u8>, rows: Seq<RecoveredRowView>, file_id: FileId)
    requires
        hint_rows_wf(rows, file_id),
    ensures
        parse_hint(before + hint_file_bytes(rows), before.len() as int, file_id) == rows,
    decreases rows.len(),
{
    let all = before + hint_file_bytes(rows);
    let at = before.len() as int;
    if rows.len() == 0 {
        assert(all =~= before);
        assert(hint_at(all, at, file_id).is_none());
        assert(parse_hint(all, at, file_id) =~= rows);
    } else {
        let first = rows[0];
        let rest = rows.drop_first();
        lemma_hint_at_record(before, first, hint_file_bytes(rest));
        assert(all =~= before + hint_record_bytes(first) + hint_file_bytes(rest));
        let next = before + hint_record_bytes(first);
        assert(hint_rows_wf(rest, file_id));
        lemma_parse_hint_roundtrip(next, rest, file_id);
        assert(next + hint_file_bytes(rest) =~= all);
        assert(parse_hint(all, at, file_id) =~= seq![first] + rest);
        assert(seq![first] + rest =~= rows);
    }
}

/// Reading and writing hint files.
pub struct HintFile {}

impl HintFile {
    /// Reads the records of the hint file of the data file `file_id`.
    pub fn read(file_id: FileId, hint: &[u8]) -> (rows: Vec<RecoveredRow>)
        ensures
            recovered_views(rows@) == parse_hint(hint@, 0, file_id),
    {
        let mut rows: Vec<RecoveredRow> = Vec::new();
        let mut offset: usize = 0;
        let n: usize = hint.len();
        loop
            invariant
                n == hint@.len(),
                offset <= n,
                recovered_views(rows@) + parse_hint(hint@, offset as int, file_id) == parse_hint(
                    hint@,
                    0,
                    file_id,
                ),
            ensures
                recovered_views(rows@) == parse_hint(hint@, 0, file_id),
            decreases n - offset,
        {
            if n - offset < HINT_FILE_KEY_OFFSET {
                assert(recovered_views(rows@) + Seq::<RecoveredRowView>::empty()
                    =~= recovered_views(rows@));
                break ;
            }
            let key_size: u64 = read_u64_be(hint, offset + 8);
            if key_size > (n - offset - HINT_FILE_KEY_OFFSET) as u64 {
                assert(recovered_views(rows@) + Seq::<RecoveredRowView>::empty()
                    =~= recovered_views(rows@));
                break ;
            }
            let timestamp: u64 = read_u64_be(hint, offset);
            let row_size: u64 = read_u64_be(hint, offset + 16);
            let row_offset: u64 = read_u64_be(hint, offset + 24);
            let is_tombstone: bool = hint[offset + 32] != 0u8;
            let key_start: usize = offset + HINT_FILE_KEY_OFFSET;
            let key_end: usize = key_start + key_size as usize;
            let key: Vec<u8> = slice_to_vec(slice_subrange(hint, key_start, key_end));
            let row = RecoveredRow { file_id, timestamp, row_offset, row_size, key, is_tombstone };
            proof {
                let found = hint_at(hint@, offset as int, file_id).unwrap();
                assert(row@ == found);
                assert(recovered_views(rows@.push(row)) =~= recovered_views(rows@) + seq![found]);
                assert(recovered_views(rows@.push(row)) + parse_hint(
                    hint@,
                    key_end as int,
                    file_id,
                ) =~= recovered_views(rows@) + parse_hint(hint@, offset as int, file_id));
            }
            rows.push(row);
            offset = key_end;
        }
        rows
    }

    /// The bytes of a hint file that holds a record for each of the rows.
    pub fn write(rows: &Vec<RecoveredRow>) -> (hint: Vec<u8>)
        ensures
            hint@ == hint_file_bytes(recovered_views(rows@)),
    {
        let mut hint: Vec<u8> = Vec::new();
        let ghost all = recovered_views(rows@);
        let mut j: usize = 0;
        assert(all.subrange(0, 0) =~= Seq::<RecoveredRowView>::empty());
        while j < rows.len()
            invariant
                j <= rows@.len(),
                all == recovered_views(rows@),
                hint@ == hint_file_bytes(all.subrange(0, j as int)),
            decreases rows@.len() - j,
        {
            let row = &rows[j];
            let ghost before = hint@;
            push_u64_be(&mut hint, row.timestamp);
            push_u64_be(&mut hint, row.key.len() as u64);
            push_u64_be(&mut hint, row.row_size);
            push_u64_be(&mut hint, row.row_offset);
            hint.push(if row.is_tombstone { 1u8 } else { 0u8 });
            hint.extend_from_slice(row.key.as_slice());
            proof {
                reveal(hint_record_bytes);
                assert(hint@ =~= before + hint_record_bytes(all[j as int]));
                lemma_hint_file_bytes_push(all.subrange(0, j as int), all[j as int]);
                assert(all.subrange(0, j as int).push(all[j as int]) =~= all.subrange(
                    0,
                    j + 1,
                ));
            }
            j += 1;
        }
        assert(all.subrange(0, rows@.len() as int) =~= all);
        hint
    }
}

/// The bytes of a hint file that got one more record are its bytes and, behind
/// them, the record.
pub proof fn lemma_hint_file_bytes_push(rows: Seq<RecoveredRowView>, row: RecoveredRowView)
    ensures
        hint_file_bytes(rows.push(row)) == hint_file_bytes(rows) + hint_record_bytes(row),
    decreases rows.len(),
{
    if rows.len() == 0 {
        assert(rows.push(row).drop_first() =~= Seq::<RecoveredRowView>::empty());
        assert(hint_file_bytes(rows.push(row).drop_first()) =~= Seq::<u8>::empty());
        assert(rows.push(row)[0] == row);
        assert(hint_file_bytes(rows.push(row)) =~= hint_record_bytes(row));
        assert(hint_file_bytes(rows) + hint_record_bytes(row) =~= hint_record_bytes(row));
    } else {
        lemma_hint_file_bytes_push(rows.drop_first(), row);
        assert(rows.push(row).drop_first() =~= rows.drop_first().push(row));
        assert(hint_file_bytes(rows.push(row)) =~= hint_file_bytes(rows) + hint_record_bytes(row));
    }
}

} // verus!
