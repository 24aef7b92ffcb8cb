//! The rows of a database as recovery and iteration see them, and how they
//! change with a write, a flush and a hint file.

use super::view::{lemma_rolled_extends, lemma_stable_index, DatabaseView, FileView};
use crate::common::RecoveredRowView;
use crate::data_storage::{
    lemma_header_is_clean, lemma_row_at_bounds, lemma_row_at_none, lemma_scan_appended, row_at,
    scan_rows, RowRecord,
};
use crate::file_id::FileId;
use crate::formatter::row_bytes;
use crate::hint::parse_hint;
use crate::recovery::{data_rows, rows_in_range};
use vstd::prelude::*;

verus! {

impl DatabaseView {
    /// The file at `index`, counting the read-only files first and the
    /// writable file last.
    pub open spec fn file_at(self, index: int) -> FileView {
        if index < self.stable.len() {
            self.stable[index]
        } else {
            self.writing
        }
    }

    /// The rows of the files before `n`, oldest first, as recovery sees them.
    pub open spec fn rows_upto(self, n: int) -> Seq<RecoveredRowView>
        decreases n,
    {
        if n <= 0 {
            Seq::empty()
        } else {
            self.rows_upto(n - 1) + file_rows(self.file_at(n - 1))
        }
    }

    /// The rows of all files, oldest first, as recovery sees them. Recovery
    /// takes them from the end.
    pub open spec fn recovery_rows(self) -> Seq<RecoveredRowView> {
        self.rows_upto(self.stable.len() as int + 1)
    }

    /// The rows of the file at `index` from `offset` on and of the files
    /// behind it, oldest first, each with the id of its file.
    pub open spec fn stored_rows_from(self, index: int, offset: int) -> Seq<(FileId, RowRecord)>
        decreases self.stable.len() + 1 - index,
    {
        if index > self.stable.len() || index < 0 {
            Seq::empty()
        } else {
            scan_rows(self.file_at(index).bytes, offset).map_values(
                |record: RowRecord| (self.file_at(index).id, record),
            ) + self.stored_rows_from(index + 1, 8)
        }
    }

    /// Every row of every file, oldest first.
    pub open spec fn stored_rows(self) -> Seq<(FileId, RowRecord)> {
        self.stored_rows_from(0, 8)
    }
}

/// The rows of one file as recovery sees them, first to last: the records of
/// its hint file if it has one and every record lies within the data file,
/// else the rows that a scan of the data file finds.
pub open spec fn file_rows(file: FileView) -> Seq<RecoveredRowView> {
    match file.hint {
        Some(hint) => if rows_in_range(parse_hint(hint, 0, file.id), file.bytes.len()) {
            parse_hint(hint, 0, file.id)
        } else {
            data_rows(file.bytes, file.id)
        },
        None => data_rows(file.bytes, file.id),
    }
}

/// The rows that are still to come at `offset` of the file at `index`: the row
/// that stands there, then what comes behind it; or, where no row stands
/// there, the rows of the files behind.
pub proof fn lemma_stored_rows_step(view: DatabaseView, index: int, offset: int)
    requires
        0 <= index <= view.stable.len(),
        0 <= offset,
    ensures
        match row_at(view.file_at(index).bytes, offset) {
            Ok(Some(first)) => view.stored_rows_from(index, offset).len() > 0
                && view.stored_rows_from(index, offset)[0] == (view.file_at(index).id, first)
                && view.stored_rows_from(index, offset).drop_first() == view.stored_rows_from(
                index,
                offset + first.size,
            ),
            _ => view.stored_rows_from(index, offset) == view.stored_rows_from(index + 1, 8),
        },
{
    let file = view.file_at(index);
    let tag = |record: RowRecord| (file.id, record);
    match row_at(file.bytes, offset) {
        Ok(Some(first)) => {
            lemma_row_at_bounds(file.bytes, offset);
            let rest = scan_rows(file.bytes, offset + first.size);
            assert(scan_rows(file.bytes, offset).map_values(tag) =~= seq![(file.id, first)]
                + rest.map_values(tag));
            assert(view.stored_rows_from(index, offset).drop_first() =~= rest.map_values(tag)
                + view.stored_rows_from(index + 1, 8));
        },
        _ => {
            lemma_row_at_none(file.bytes, offset);
            assert(scan_rows(file.bytes, offset).map_values(tag) =~= Seq::<
                (FileId, RowRecord),
            >::empty());
            assert(view.stored_rows_from(index, offset) =~= view.stored_rows_from(index + 1, 8));
        },
    }
}

/// Every row that recovery sees lies within the file that it names, and that
/// file is a file of the database.
pub proof fn lemma_recovery_rows_in_range(view: DatabaseView, n: int)
    requires
        view.wf(),
        0 <= n <= view.stable.len() + 1,
        forall|i: int| 0 <= i <= view.stable.len() ==> view.file_at(i).bytes.len() <= u64::MAX,
    ensures
        forall|k: int|
            0 <= k < view.rows_upto(n).len() ==> view.has_file(
                (#[trigger] view.rows_upto(n)[k]).file_id,
            ) && view.rows_upto(n)[k].row_offset + view.rows_upto(n)[k].row_size <= view.file(
                view.rows_upto(n)[k].file_id,
            ).len(),
    decreases n,
{
    if n > 0 {
        lemma_recovery_rows_in_range(view, n - 1);
        let file = view.file_at(n - 1);
        let rows = file_rows(file);
        crate::recovery::lemma_data_rows_in_range(file.bytes, file.id);
        if n - 1 < view.stable.len() {
            lemma_stable_index(view, n - 1);
        }
        assert(view.has_file(file.id) && view.file(file.id) == file.bytes);
        assert forall|k: int| 0 <= k < rows.len() implies (#[trigger] rows[k]).file_id == file.id
            && rows[k].row_offset + rows[k].row_size <= file.bytes.len() by {
            if file.hint.is_some() && rows_in_range(
                parse_hint(file.hint.unwrap(), 0, file.id),
                file.bytes.len(),
            ) {
                lemma_parse_hint_file_id(file.hint.unwrap(), 0, file.id);
            }
        }
        let before = view.rows_upto(n - 1);
        assert forall|k: int| 0 <= k < view.rows_upto(n).len() implies view.has_file(
            (#[trigger] view.rows_upto(n)[k]).file_id,
        ) && view.rows_upto(n)[k].row_offset + view.rows_upto(n)[k].row_size <= view.file(
            view.rows_upto(n)[k].file_id,
        ).len() by {
            if k < before.len() {
                assert(view.rows_upto(n)[k] == before[k]);
            } else {
                assert(view.rows_upto(n)[k] == rows[k - before.len()]);
            }
        }
    }
}

/// Every record read from a hint file carries the id that it was read for.
pub proof fn lemma_parse_hint_file_id(hint: Seq<u8>, offset: int, file_id: FileId)
    ensures
        forall|k: int|
            0 <= k < parse_hint(hint, offset, file_id).len() ==> (#[trigger] parse_hint(
                hint,
                offset,
                file_id,
            )[k]).file_id == file_id,
    decreases hint.len() - offset,
{
    if offset >= 0 {
        match crate::hint::hint_at(hint, offset, file_id) {
            Some(row) => {
                lemma_parse_hint_file_id(hint, offset + 33 + row.key.len(), file_id);
                let rest = parse_hint(hint, offset + 33 + row.key.len(), file_id);
                assert forall|k: int| 0 <= k < parse_hint(hint, offset, file_id).len() implies (
                #[trigger] parse_hint(hint, offset, file_id)[k]).file_id == file_id by {
                    if k > 0 {
                        assert(parse_hint(hint, offset, file_id)[k] == rest[k - 1]);
                    }
                }
            },
            None => {},
        }
    }
}

/// Databases with the same files give the same rows to recovery.
pub proof fn lemma_same_files_same_rows(one: DatabaseView, other: DatabaseView, n: int)
    requires
        0 <= n,
        forall|i: int| 0 <= i < n ==> one.file_at(i) == other.file_at(i),
    ensures
        one.rows_upto(n) == other.rows_upto(n),
    decreases n,
{
    if n > 0 {
        lemma_same_files_same_rows(one, other, n - 1);
    }
}

/// What recovery keeps of a row that was written.
pub open spec fn written_row(view: DatabaseView, key: Seq<u8>, value: Seq<u8>, timestamp: u64)
    -> RecoveredRowView {
    RecoveredRowView {
        file_id: view.written_at(key, value).file_id,
        timestamp,
        row_offset: view.written_at(key, value).row_offset,
        row_size: view.written_at(key, value).row_size,
        key,
        is_tombstone: value == crate::common::tombstone_bytes(),
    }
}

/// A flush adds no row and takes none away.
pub proof fn lemma_rolled_rows(view: DatabaseView)
    requires
        view.wf(),
    ensures
        view.rolled().recovery_rows() == view.recovery_rows(),
{
    let after = view.rolled();
    let n = view.stable.len() as int;
    assert forall|i: int| 0 <= i < n implies after.file_at(i) == view.file_at(i) by {
        assert(after.stable[i] == view.stable[i]);
    }
    lemma_same_files_same_rows(after, view, n);
    lemma_header_is_clean();
    assert(file_rows(after.file_at(n)) == file_rows(view.file_at(n)));
    assert(file_rows(after.file_at(n + 1)) =~= Seq::<RecoveredRowView>::empty());
    assert(after.rows_upto(n + 2) =~= after.rows_upto(n + 1));
    assert(after.rows_upto(n + 1) =~= view.rows_upto(n + 1));
}

/// A row that is appended to the writable file is, to recovery, one more row
/// behind all the rows that there were.
pub proof fn lemma_with_row_rows(view: DatabaseView, row: Seq<u8>)
    requires
        view.wf(),
        crate::formatter::decode_row_spec(row).is_ok(),
    ensures
        view.with_row(row).recovery_rows() == view.recovery_rows().push(
            crate::recovery::recovered_of(
                crate::data_storage::record_of(row, view.writing.bytes.len() as int),
                view.writing.id,
            ),
        ),
{
    let after = view.with_row(row);
    let n = view.stable.len() as int;
    assert(after.stable =~= view.stable);
    lemma_same_files_same_rows(after, view, n);
    lemma_scan_appended(view.writing.bytes, row, 8);
    let convert = |record: RowRecord| crate::recovery::recovered_of(record, view.writing.id);
    let added = crate::data_storage::record_of(row, view.writing.bytes.len() as int);
    assert(scan_rows(view.writing.bytes + row, 8).map_values(convert) =~= scan_rows(
        view.writing.bytes,
        8,
    ).map_values(convert).push(convert(added)));
    assert(file_rows(after.file_at(n)) =~= file_rows(view.file_at(n)).push(convert(added)));
    assert(after.rows_upto(n + 1) =~= view.rows_upto(n + 1).push(convert(added)));
}

/// A row that was written is, to recovery, one more row behind all the rows
/// that there were.
pub proof fn lemma_after_write_rows(
    view: DatabaseView,
    key: Seq<u8>,
    value: Seq<u8>,
    timestamp: u64,
)
    requires
        view.wf(),
        view.write_failure(key.len(), value.len()).is_none(),
    ensures
        view.after_write(key, value, timestamp).recovery_rows() == view.recovery_rows().push(
            written_row(view, key, value, timestamp),
        ),
{
    let row = row_bytes(timestamp, key, value);
    crate::formatter::lemma_row_bytes_fields(timestamp, key, value);
    crate::formatter::lemma_decode_row_of_row_bytes(timestamp, key, value);
    if view.rolls_for(row.len()) {
        lemma_rolled_extends(view);
        lemma_rolled_rows(view);
        lemma_with_row_rows(view.rolled(), row);
    } else {
        lemma_with_row_rows(view, row);
    }
}

/// The same files with the hint files that the library writes for them.
pub open spec fn with_hints(view: DatabaseView, hinted: Set<FileId>) -> DatabaseView {
    DatabaseView {
        stable: view.stable.map_values(
            |file: FileView|
                if hinted.contains(file.id) {
                    FileView {
                        hint: Some(crate::recovery::hint_of(file.bytes, file.id)),
                        ..file
                    }
                } else {
                    FileView { hint: None, ..file }
                },
        ),
        ..view
    }
}

/// The files of two databases give the same to a rebuild, file by file: onto
/// whatever newer rows have given, the rows of a file of the one give what
/// the rows of the file at the same place of the other give.
pub open spec fn files_rebuild_alike(one: DatabaseView, other: DatabaseView) -> bool {
    &&& one.stable.len() == other.stable.len()
    &&& forall|i: int, state: crate::recovery::RebuildState|
        0 <= i <= one.stable.len() ==> #[trigger] crate::recovery::rebuild_onto(
            state,
            file_rows(one.file_at(i)),
            0,
        ) == crate::recovery::rebuild_onto(state, file_rows(other.file_at(i)), 0)
}

/// Databases whose files give the same to a rebuild, file by file, give the
/// same key directory.
pub proof fn lemma_alike_files_rebuild(
    one: DatabaseView,
    other: DatabaseView,
    n: int,
    state: crate::recovery::RebuildState,
)
    requires
        files_rebuild_alike(one, other),
        0 <= n <= one.stable.len() + 1,
    ensures
        crate::recovery::rebuild_onto(state, one.rows_upto(n), 0) == crate::recovery::rebuild_onto(
            state,
            other.rows_upto(n),
            0,
        ),
    decreases n,
{
    if n > 0 {
        let rows_one = file_rows(one.file_at(n - 1));
        let rows_other = file_rows(other.file_at(n - 1));
        assert(crate::recovery::rebuild_onto(state, rows_one, 0) == crate::recovery::rebuild_onto(
            state,
            rows_other,
            0,
        ));
        let next = crate::recovery::rebuild_onto(state, rows_one, 0);
        lemma_alike_files_rebuild(one, other, n - 1, next);
        crate::recovery::lemma_rebuild_concat(state, one.rows_upto(n - 1), rows_one, 0);
        crate::recovery::lemma_rebuild_concat(state, other.rows_upto(n - 1), rows_other, 0);
    }
}

/// Hint equivalence: the key directory that is rebuilt from a database is
/// the same whether its read-only files have their hint files or not.
pub proof fn lemma_hints_do_not_change_rebuild(view: DatabaseView, hinted: Set<FileId>)
    requires
        view.wf(),
        forall|i: int| 0 <= i <= view.stable.len() ==> view.file_at(i).bytes.len() <= u64::MAX,
    ensures
        crate::recovery::rebuild(with_hints(view, hinted).recovery_rows())
            == crate::recovery::rebuild(with_hints(view, Set::empty()).recovery_rows()),
{
    let with = with_hints(view, hinted);
    let without = with_hints(view, Set::empty());
    assert forall|i: int, state: crate::recovery::RebuildState|
        0 <= i <= with.stable.len() implies #[trigger] crate::recovery::rebuild_onto(
        state,
        file_rows(with.file_at(i)),
        0,
    ) == crate::recovery::rebuild_onto(state, file_rows(without.file_at(i)), 0) by {
        let file = view.file_at(i);
        crate::recovery::lemma_hint_of_parses(file.bytes, file.id);
        crate::recovery::lemma_hint_equivalence(state, file.bytes, file.id);
    }
    lemma_alike_files_rebuild(
        with,
        without,
        view.stable.len() as int + 1,
        crate::recovery::rebuild_start(),
    );
}

/// A hint file that the library writes for a read-only file without one does
/// not change the key directory that is rebuilt from the database.
pub proof fn lemma_written_hint_keeps_rebuild(view: DatabaseView, at: int)
    requires
        view.wf(),
        0 <= at < view.stable.len(),
        view.stable[at].hint.is_none(),
        view.stable[at].bytes.len() <= u64::MAX,
    ensures
        crate::recovery::rebuild(
            (DatabaseView {
                stable: view.stable.update(
                    at,
                    FileView {
                        hint: Some(
                            crate::recovery::hint_of(view.stable[at].bytes, view.stable[at].id),
                        ),
                        ..view.stable[at]
                    },
                ),
                pending_hints: view.pending_hints.drop_first(),
                ..view
            }).recovery_rows(),
        ) == crate::recovery::rebuild(view.recovery_rows()),
{
    let file = view.stable[at];
    let after = DatabaseView {
        stable: view.stable.update(
            at,
            FileView { hint: Some(crate::recovery::hint_of(file.bytes, file.id)), ..file },
        ),
        pending_hints: view.pending_hints.drop_first(),
        ..view
    };
    assert forall|i: int, state: crate::recovery::RebuildState|
        0 <= i <= after.stable.len() implies #[trigger] crate::recovery::rebuild_onto(
        state,
        file_rows(after.file_at(i)),
        0,
    ) == crate::recovery::rebuild_onto(state, file_rows(view.file_at(i)), 0) by {
        if i == at {
            crate::recovery::lemma_hint_of_parses(file.bytes, file.id);
            crate::recovery::lemma_hint_equivalence(state, file.bytes, file.id);
        }
    }
    lemma_alike_files_rebuild(
        after,
        view,
        view.stable.len() as int + 1,
        crate::recovery::rebuild_start(),
    );
}

/// No read-only file has a hint file.
pub open spec fn unhinted(view: DatabaseView) -> bool {
    forall|i: int| 0 <= i < view.stable.len() ==> (#[trigger] view.stable[i]).hint.is_none()
}

/// What recovery keeps of a stored row.
pub open spec fn recovered_row(row: (FileId, RowRecord)) -> RecoveredRowView {
    crate::recovery::recovered_of(row.1, row.0)
}

/// Where no file has a hint file, the rows that recovery sees are the stored
/// rows, in their order.
pub proof fn lemma_unhinted_rows(view: DatabaseView, n: int)
    requires
        unhinted(view),
        0 <= n <= view.stable.len() + 1,
        view.writing.hint.is_none(),
    ensures
        view.recovery_rows() == view.rows_upto(n) + view.stored_rows_from(n, 8).map_values(
            |row: (FileId, RowRecord)| recovered_row(row),
        ),
    decreases view.stable.len() + 1 - n,
{
    let convert = |row: (FileId, RowRecord)| recovered_row(row);
    if n == view.stable.len() + 1 {
        assert(view.stored_rows_from(n, 8).map_values(convert) =~= Seq::<
            RecoveredRowView,
        >::empty());
        assert(view.rows_upto(n) + Seq::<RecoveredRowView>::empty() =~= view.rows_upto(n));
    } else {
        lemma_unhinted_rows(view, n + 1);
        let file = view.file_at(n);
        assert(file.hint.is_none());
        let scanned = scan_rows(file.bytes, 8);
        let tag = |record: RowRecord| (file.id, record);
        let rest = view.stored_rows_from(n + 1, 8);
        assert(view.stored_rows_from(n, 8) == scanned.map_values(tag) + rest);
        assert((scanned.map_values(tag) + rest).map_values(convert) =~= file_rows(file)
            + rest.map_values(convert));
        assert(view.rows_upto(n + 1) == view.rows_upto(n) + file_rows(file));
        assert(view.rows_upto(n + 1) + rest.map_values(convert) =~= view.rows_upto(n) + (
        file_rows(file) + rest.map_values(convert)));
    }
}

} // verus!
