//! Rebuilding the key directory from the rows of the data files.
//!
//! The rows are taken newest first: the files by descending id, the rows of a
//! file by descending offset. The first row seen for a key decides the key.

use crate::common::{
    is_tombstone, recovered_views, tombstone_bytes, RecoveredRow, RecoveredRowView,
};
use crate::data_storage::{
    lemma_row_at_bounds, lemma_row_at_none, read_row_at, row_at, scan_rows, DataStorage,
    RowRecord,
};
use crate::file_id::FileId;
use crate::hint::{
    hint_file_bytes, hint_rows_wf, lemma_parse_hint_roundtrip, parse_hint,
};
use crate::keydir::KeyDirEntry;
use vstd::prelude::*;

verus! {

/// What recovery keeps of a row that a scan of the file `file_id` found.
pub open spec fn recovered_of(record: RowRecord, file_id: FileId) -> RecoveredRowView {
    RecoveredRowView {
        file_id,
        timestamp: record.timestamp,
        row_offset: record.offset as u64,
        row_size: record.size as u64,
        key: record.key,
        is_tombstone: record.value == tombstone_bytes(),
    }
}

/// The rows of a data file as recovery sees them, first to last.
pub open spec fn data_rows(file: Seq<u8>, file_id: FileId) -> Seq<RecoveredRowView> {
    scan_rows(file, 8).map_values(|record: RowRecord| recovered_of(record, file_id))
}

/// A later row of the file has the key of the row at `i`.
pub open spec fn superseded(rows: Seq<RecoveredRowView>, i: int) -> bool {
    exists|j: int| i < j < rows.len() && (#[trigger] rows[j]).key == rows[i].key
}

/// Of the rows from `i` on, those that no later row supersedes: for every key
/// its latest row, in the order of the file.
pub open spec fn latest_rows(rows: Seq<RecoveredRowView>, i: int) -> Seq<RecoveredRowView>
    decreases rows.len() - i,
{
    if i >= rows.len() || i < 0 {
        Seq::empty()
    } else if superseded(rows, i) {
        latest_rows(rows, i + 1)
    } else {
        seq![rows[i]] + latest_rows(rows, i + 1)
    }
}

/// The hint file of a data file: a record for the latest row of every key.
pub open spec fn hint_of(file: Seq<u8>, file_id: FileId) -> Seq<u8> {
    hint_file_bytes(latest_rows(data_rows(file, file_id), 0))
}

/// Every row lies within a file of this length.
pub open spec fn rows_in_range(rows: Seq<RecoveredRowView>, file_len: nat) -> bool {
    forall|i: int|
        0 <= i < rows.len() ==> (#[trigger] rows[i]).row_offset + rows[i].row_size <= file_len
}

/// The key directory while it is rebuilt: the entries found so far, and the
/// keys found deleted.
pub struct RebuildState {
    pub index: Map<Seq<u8>, KeyDirEntry>,
    pub deleted: Set<Seq<u8>>,
}

/// The entry that points at a recovered row.
pub open spec fn entry_of(row: RecoveredRowView) -> KeyDirEntry {
    KeyDirEntry {
        file_id: row.file_id,
        row_offset: row.row_offset,
        row_size: row.row_size,
        timestamp: row.timestamp,
    }
}

/// Nothing found yet.
pub open spec fn rebuild_start() -> RebuildState {
    RebuildState { index: Map::empty(), deleted: Set::empty() }
}

/// Whether a newer row for the key was seen.
pub open spec fn key_seen(state: RebuildState, key: Seq<u8>) -> bool {
    state.index.contains_key(key) || state.deleted.contains(key)
}

/// Takes one row in. A row whose key was seen changes nothing: a newer row
/// has decided the key. Else a tombstone marks the key as deleted, and any
/// other row becomes the entry of the key.
pub open spec fn rebuild_step(state: RebuildState, row: RecoveredRowView) -> RebuildState {
    if state.index.contains_key(row.key) {
        state
    } else if row.is_tombstone {
        RebuildState { deleted: state.deleted.insert(row.key), ..state }
    } else if !state.deleted.contains(row.key) {
        RebuildState { index: state.index.insert(row.key, entry_of(row)), ..state }
    } else {
        state
    }
}

/// Takes the rows from `i` on in, the last one first.
pub open spec fn rebuild_onto(state: RebuildState, rows: Seq<RecoveredRowView>, i: int)
    -> RebuildState
    decreases rows.len() - i,
{
    if i >= rows.len() || i < 0 {
        state
    } else {
        rebuild_step(rebuild_onto(state, rows, i + 1), rows[i])
    }
}

/// The key directory that the rows give, taken newest first.
pub open spec fn rebuild(rows: Seq<RecoveredRowView>) -> Map<Seq<u8>, KeyDirEntry> {
    rebuild_onto(rebuild_start(), rows, 0).index
}

/// Every key of a row that was taken in counts as seen, and a key that was
/// seen stays seen.
pub proof fn lemma_rebuild_sees_keys(state: RebuildState, rows: Seq<RecoveredRowView>, i: int)
    requires
        0 <= i,
    ensures
        forall|j: int|
            i <= j < rows.len() ==> key_seen(rebuild_onto(state, rows, i), (#[trigger] rows[j]).key),
        forall|key: Seq<u8>|
            key_seen(state, key) ==> #[trigger] key_seen(rebuild_onto(state, rows, i), key),
    decreases rows.len() - i,
{
    if i < rows.len() {
        lemma_rebuild_sees_keys(state, rows, i + 1);
        let inner = rebuild_onto(state, rows, i + 1);
        assert forall|j: int| i <= j < rows.len() implies key_seen(
            rebuild_onto(state, rows, i),
            (#[trigger] rows[j]).key,
        ) by {
            if j > i {
                assert(key_seen(inner, rows[j].key));
            }
        }
        assert forall|key: Seq<u8>| key_seen(state, key) implies #[trigger] key_seen(
            rebuild_onto(state, rows, i),
            key,
        ) by {
            assert(key_seen(inner, key));
        }
    }
}

/// A row whose key was seen changes nothing.
pub proof fn lemma_seen_row_is_skipped(state: RebuildState, row: RecoveredRowView)
    requires
        key_seen(state, row.key),
    ensures
        rebuild_step(state, row) == state,
{
    if !state.index.contains_key(row.key) {
        assert(state.deleted.insert(row.key) =~= state.deleted);
    }
}

/// What the rows behind a prefix give does not depend on the prefix.
pub proof fn lemma_rebuild_shift(
    state: RebuildState,
    front: Seq<RecoveredRowView>,
    back: Seq<RecoveredRowView>,
    k: int,
)
    requires
        0 <= k,
    ensures
        rebuild_onto(state, front + back, front.len() + k) == rebuild_onto(state, back, k),
    decreases back.len() - k,
{
    if k < back.len() {
        lemma_rebuild_shift(state, front, back, k + 1);
        assert((front + back)[front.len() + k] == back[k]);
    }
}

/// Rows that stand behind others are taken in before them.
pub proof fn lemma_rebuild_concat(
    state: RebuildState,
    front: Seq<RecoveredRowView>,
    back: Seq<RecoveredRowView>,
    i: int,
)
    requires
        0 <= i <= front.len(),
    ensures
        rebuild_onto(state, front + back, i) == rebuild_onto(
            rebuild_onto(state, back, 0),
            front,
            i,
        ),
    decreases front.len() - i,
{
    if i < front.len() {
        lemma_rebuild_concat(state, front, back, i + 1);
        assert((front + back)[i] == front[i]);
    } else {
        lemma_rebuild_shift(state, front, back, 0);
    }
}

/// The latest rows of a file give what all its rows give: a row that a later
/// row supersedes changes nothing.
pub proof fn lemma_latest_rows_rebuild(state: RebuildState, rows: Seq<RecoveredRowView>, i: int)
    requires
        0 <= i,
    ensures
        rebuild_onto(state, latest_rows(rows, i), 0) == rebuild_onto(state, rows, i),
    decreases rows.len() - i,
{
    if i < rows.len() {
        lemma_latest_rows_rebuild(state, rows, i + 1);
        let rest = latest_rows(rows, i + 1);
        if superseded(rows, i) {
            let j = choose|j: int| i < j < rows.len() && (#[trigger] rows[j]).key == rows[i].key;
            lemma_rebuild_sees_keys(state, rows, i + 1);
            assert(key_seen(rebuild_onto(state, rows, i + 1), rows[j].key));
            lemma_seen_row_is_skipped(rebuild_onto(state, rows, i + 1), rows[i]);
        } else {
            let kept = seq![rows[i]] + rest;
            lemma_rebuild_shift(state, seq![rows[i]], rest, 0);
            assert(kept[0] == rows[i]);
            assert(rebuild_onto(state, kept, 0) == rebuild_step(
                rebuild_onto(state, kept, 1),
                kept[0],
            ));
        }
    }
}

/// The latest rows are rows of the file: they lie where the rows lie, and
/// they are of the same file.
pub proof fn lemma_latest_rows_are_rows(rows: Seq<RecoveredRowView>, i: int)
    requires
        0 <= i,
    ensures
        forall|k: int|
            0 <= k < latest_rows(rows, i).len() ==> exists|j: int|
                i <= j < rows.len() && rows[j] == #[trigger] latest_rows(rows, i)[k],
    decreases rows.len() - i,
{
    if i < rows.len() {
        lemma_latest_rows_are_rows(rows, i + 1);
        let rest = latest_rows(rows, i + 1);
        assert forall|k: int| 0 <= k < latest_rows(rows, i).len() implies exists|j: int|
            i <= j < rows.len() && rows[j] == #[trigger] latest_rows(rows, i)[k] by {
            if superseded(rows, i) {
                let j = choose|j: int| i + 1 <= j < rows.len() && rows[j] == rest[k];
                assert(i <= j < rows.len() && rows[j] == latest_rows(rows, i)[k]);
            } else if k == 0 {
                assert(rows[i] == latest_rows(rows, i)[k]);
            } else {
                let j = choose|j: int| i + 1 <= j < rows.len() && rows[j] == rest[k - 1];
                assert(i <= j < rows.len() && rows[j] == latest_rows(rows, i)[k]);
            }
        }
    }
}

/// The rows that a scan finds are of the scanned file, lie within it, and
/// have keys that a hint record can hold.
pub proof fn lemma_data_rows_in_range(file: Seq<u8>, file_id: FileId)
    requires
        file.len() <= u64::MAX,
    ensures
        hint_rows_wf(data_rows(file, file_id), file_id),
        rows_in_range(data_rows(file, file_id), file.len()),
{
    lemma_scan_rows_in_range(file, 8);
    assert forall|i: int| 0 <= i < data_rows(file, file_id).len() implies (#[trigger] data_rows(
        file,
        file_id,
    )[i]).row_offset + data_rows(file, file_id)[i].row_size <= file.len() && data_rows(
        file,
        file_id,
    )[i].file_id == file_id && data_rows(file, file_id)[i].key.len() <= u64::MAX by {
        let record = scan_rows(file, 8)[i];
        assert(record.offset + record.size <= file.len());
    }
}

/// Every row that a scan finds lies within the file, behind where the scan
/// began.
pub proof fn lemma_scan_rows_in_range(file: Seq<u8>, offset: int)
    requires
        0 <= offset,
    ensures
        forall|i: int|
            0 <= i < scan_rows(file, offset).len() ==> offset <= (#[trigger] scan_rows(
                file,
                offset,
            )[i]).offset && scan_rows(file, offset)[i].size >= 28 && scan_rows(
                file,
                offset,
            )[i].offset + scan_rows(file, offset)[i].size <= file.len() && scan_rows(
                file,
                offset,
            )[i].key.len() <= file.len(),
    decreases file.len() - offset,
{
    match crate::data_storage::row_at(file, offset) {
        Ok(Some(row)) => {
            crate::data_storage::lemma_row_at_bounds(file, offset);
            lemma_scan_rows_in_range(file, offset + row.size);
            let rest = scan_rows(file, offset + row.size);
            assert forall|i: int| 0 <= i < scan_rows(file, offset).len() implies offset <= (
            #[trigger] scan_rows(file, offset)[i]).offset && scan_rows(file, offset)[i].size >= 28
                && scan_rows(file, offset)[i].offset + scan_rows(file, offset)[i].size
                <= file.len() && scan_rows(file, offset)[i].key.len() <= file.len() by {
                if i > 0 {
                    assert(scan_rows(file, offset)[i] == rest[i - 1]);
                }
            }
        },
        _ => {},
    }
}

/// Reading the hint file of a data file gives the latest row of every key,
/// and every such row lies within the data file.
pub proof fn lemma_hint_of_parses(file: Seq<u8>, file_id: FileId)
    requires
        file.len() <= u64::MAX,
    ensures
        parse_hint(hint_of(file, file_id), 0, file_id) == latest_rows(data_rows(file, file_id), 0),
        rows_in_range(latest_rows(data_rows(file, file_id), 0), file.len()),
        hint_rows_wf(latest_rows(data_rows(file, file_id), 0), file_id),
{
    let rows = data_rows(file, file_id);
    let latest = latest_rows(rows, 0);
    lemma_data_rows_in_range(file, file_id);
    lemma_latest_rows_are_rows(rows, 0);
    assert forall|k: int| 0 <= k < latest.len() implies (#[trigger] latest[k]).file_id == file_id
        && latest[k].key.len() <= u64::MAX && latest[k].row_offset + latest[k].row_size
        <= file.len() by {
        let j = choose|j: int| 0 <= j < rows.len() && rows[j] == latest[k];
        assert(rows[j].file_id == file_id);
    }
    lemma_parse_hint_roundtrip(Seq::empty(), latest, file_id);
    assert(Seq::<u8>::empty() + hint_file_bytes(latest) =~= hint_file_bytes(latest));
}

/// Hint equivalence for one file: onto whatever was found in newer files, the
/// rows read from the hint file of a data file give what the rows of the data
/// file itself give.
pub proof fn lemma_hint_equivalence(state: RebuildState, file: Seq<u8>, file_id: FileId)
    requires
        file.len() <= u64::MAX,
    ensures
        rebuild_onto(state, parse_hint(hint_of(file, file_id), 0, file_id), 0) == rebuild_onto(
            state,
            data_rows(file, file_id),
            0,
        ),
{
    lemma_hint_of_parses(file, file_id);
    lemma_latest_rows_rebuild(state, data_rows(file, file_id), 0);
}

/// Scans a data file and gives what recovery keeps of each row, first to last.
pub fn scan_data_rows(storage: &DataStorage) -> (rows: Vec<RecoveredRow>)
    requires
        storage.wf(),
    ensures
        recovered_views(rows@) == data_rows(storage.bytes(), storage.id()),
{
    let file: &[u8] = storage.as_bytes();
    let file_id: FileId = storage.storage_id();
    let n: usize = file.len();
    let mut rows: Vec<RecoveredRow> = Vec::new();
    let mut offset: usize = 8;
    let ghost convert = |record: RowRecord| recovered_of(record, file_id);
    loop
        invariant
            n == file@.len(),
            8 <= offset <= n,
            convert == |record: RowRecord| recovered_of(record, file_id),
            recovered_views(rows@) + scan_rows(file@, offset as int).map_values(convert)
                == data_rows(file@, file_id),
        ensures
            recovered_views(rows@) == data_rows(file@, file_id),
        decreases n - offset,
    {
        match read_row_at(file, offset, file_id) {
            Ok(Some(row)) => {
                proof {
                    lemma_row_at_bounds(file@, offset as int);
                }
                let ghost record = row_at(file@, offset as int).unwrap().unwrap();
                let size: usize = row.row_position.row_size as usize;
                let recovered = RecoveredRow {
                    file_id,
                    timestamp: row.timestamp,
                    row_offset: row.row_position.row_offset,
                    row_size: row.row_position.row_size,
                    is_tombstone: is_tombstone(row.value.as_slice()),
                    key: row.key,
                };
                proof {
                    assert(recovered@ == recovered_of(record, file_id));
                    let rest = scan_rows(file@, offset + size);
                    assert(scan_rows(file@, offset as int).map_values(convert) =~= seq![
                        recovered@,
                    ] + rest.map_values(convert));
                    assert(recovered_views(rows@.push(recovered)) =~= recovered_views(rows@)
                        + seq![recovered@]);
                    assert(recovered_views(rows@.push(recovered)) + rest.map_values(convert)
                        =~= recovered_views(rows@) + scan_rows(file@, offset as int).map_values(
                        convert,
                    ));
                }
                rows.push(recovered);
                offset = offset + size;
            },
            _ => {
                proof {
                    lemma_row_at_none(file@, offset as int);
                    assert(recovered_views(rows@) + scan_rows(file@, offset as int).map_values(
                        convert,
                    ) =~= recovered_views(rows@));
                }
                break ;
            },
        }
    }
    rows
}

/// The set of the keys of the rows from `i` on.
pub open spec fn keys_from(rows: Seq<RecoveredRowView>, i: int) -> Set<Seq<u8>> {
    Set::new(|key: Seq<u8>| exists|j: int| i <= j < rows.len() && (#[trigger] rows[j]).key == key)
}

/// Of the rows of a data file, the latest row of every key, in the order of
/// the file.
pub fn latest_data_rows(storage: &DataStorage) -> (latest: Vec<RecoveredRow>)
    requires
        storage.wf(),
    ensures
        recovered_views(latest@) == latest_rows(data_rows(storage.bytes(), storage.id()), 0),
{
    let mut rows: Vec<RecoveredRow> = scan_data_rows(storage);
    let ghost all = recovered_views(rows@);
    let mut seen = crate::keydir::KeyDir::new_empty_key_dir();
    let mut newest_first: Vec<RecoveredRow> = Vec::new();
    proof {
        assert(seen@.dom() =~= keys_from(all, all.len() as int));
        assert(recovered_views(newest_first@).reverse() =~= latest_rows(all, all.len() as int));
    }
    while rows.len() > 0
        invariant
            rows@.len() <= all.len(),
            recovered_views(rows@) == all.subrange(0, rows@.len() as int),
            seen@.dom() == keys_from(all, rows@.len() as int),
            recovered_views(newest_first@).reverse() == latest_rows(all, rows@.len() as int),
        decreases rows@.len(),
    {
        let ghost i = rows@.len() - 1;
        let ghost before = rows@;
        let row: RecoveredRow = rows.pop().unwrap();
        proof {
            assert(row@ == recovered_views(before)[i]);
            assert(row@ == all[i]);
            assert(recovered_views(rows@) =~= all.subrange(0, i));
        }
        let held: bool = seen.contains_key(&row.key);
        proof {
            if held {
                let j = choose|j: int| i + 1 <= j < all.len() && (#[trigger] all[j]).key == row@.key;
                assert(superseded(all, i));
            } else {
                if superseded(all, i) {
                    let j = choose|j: int| i < j < all.len() && (#[trigger] all[j]).key == all[i].key;
                    assert(keys_from(all, i + 1).contains(all[j].key));
                }
            }
            assert(keys_from(all, i) =~= keys_from(all, i + 1).insert(all[i].key)) by {
                assert forall|key: Seq<u8>| keys_from(all, i).contains(key) implies keys_from(
                    all,
                    i + 1,
                ).insert(all[i].key).contains(key) by {
                    let j = choose|j: int| i <= j < all.len() && (#[trigger] all[j]).key == key;
                    if j > i {
                        assert(keys_from(all, i + 1).contains(key));
                    }
                }
                assert forall|key: Seq<u8>| keys_from(all, i + 1).insert(all[i].key).contains(
                    key,
                ) implies keys_from(all, i).contains(key) by {
                    if key == all[i].key {
                        assert(all[i].key == key);
                    } else {
                        let j = choose|j: int|
                            i + 1 <= j < all.len() && (#[trigger] all[j]).key == key;
                        assert(i <= j < all.len() && all[j].key == key);
                    }
                }
            }
        }
        if !held {
            seen.put(
                row.key.clone(),
                KeyDirEntry {
                    file_id: row.file_id,
                    row_offset: row.row_offset,
                    row_size: row.row_size,
                    timestamp: row.timestamp,
                },
            );
            proof {
                let kept = recovered_views(newest_first@);
                assert(recovered_views(newest_first@.push(row)) =~= kept.push(row@));
                assert(kept.push(row@).reverse() =~= seq![row@] + kept.reverse());
            }
            newest_first.push(row);
        } else {
            assert(seen@.dom().insert(all[i].key) =~= seen@.dom());
        }
    }
    let mut latest: Vec<RecoveredRow> = Vec::new();
    let ghost kept = recovered_views(newest_first@);
    proof {
        assert(kept.subrange(kept.len() as int, kept.len() as int).reverse() =~= Seq::<
            RecoveredRowView,
        >::empty());
    }
    while newest_first.len() > 0
        invariant
            newest_first@.len() <= kept.len(),
            recovered_views(newest_first@) == kept.subrange(0, newest_first@.len() as int),
            recovered_views(latest@) == kept.subrange(
                newest_first@.len() as int,
                kept.len() as int,
            ).reverse(),
        decreases newest_first@.len(),
    {
        let ghost i = newest_first@.len() - 1;
        let ghost before = newest_first@;
        let row: RecoveredRow = newest_first.pop().unwrap();
        proof {
            assert(row@ == recovered_views(before)[i]);
            assert(recovered_views(newest_first@) =~= kept.subrange(0, i));
            assert(recovered_views(latest@.push(row)) =~= recovered_views(latest@).push(row@));
            assert(recovered_views(latest@).push(row@) =~= kept.subrange(
                i,
                kept.len() as int,
            ).reverse());
        }
        latest.push(row);
    }
    proof {
        assert(kept.subrange(0, kept.len() as int) =~= kept);
    }
    latest
}

/// Every entry that the rows from `i` on add to the key directory points at
/// one of those rows, and has the key of that row.
pub proof fn lemma_rebuild_entries(state: RebuildState, rows: Seq<RecoveredRowView>, i: int)
    requires
        0 <= i,
    ensures
        forall|key: Seq<u8>| #[trigger]
            rebuild_onto(state, rows, i).index.contains_key(key) ==> (state.index.contains_key(key)
                && rebuild_onto(state, rows, i).index[key] == state.index[key]) || exists|j: int|
                i <= j < rows.len() && (#[trigger] rows[j]).key == key && rebuild_onto(
                    state,
                    rows,
                    i,
                ).index[key] == entry_of(rows[j]),
    decreases rows.len() - i,
{
    if i < rows.len() {
        lemma_rebuild_entries(state, rows, i + 1);
        let inner = rebuild_onto(state, rows, i + 1);
        let outer = rebuild_onto(state, rows, i);
        assert forall|key: Seq<u8>| #[trigger] outer.index.contains_key(key) implies (
        state.index.contains_key(key) && outer.index[key] == state.index[key]) || exists|j: int|
            i <= j < rows.len() && (#[trigger] rows[j]).key == key && outer.index[key] == entry_of(
                rows[j],
            ) by {
            if inner.index.contains_key(key) {
                assert(outer.index[key] == inner.index[key]);
                if !(state.index.contains_key(key) && inner.index[key] == state.index[key]) {
                    let j = choose|j: int|
                        i + 1 <= j < rows.len() && (#[trigger] rows[j]).key == key
                            && inner.index[key] == entry_of(rows[j]);
                    assert(i <= j < rows.len() && rows[j].key == key);
                }
            } else {
                assert(rows[i].key == key);
            }
        }
    }
}

/// A row that is newer than all others decides its key, whatever the others
/// say of the key, and leaves what they say of the other keys: where it is a
/// tombstone the key is gone, else the key has the row's entry.
pub proof fn lemma_rebuild_newest_row(rows: Seq<RecoveredRowView>, row: RecoveredRowView)
    ensures
        rebuild(rows.push(row)) == if row.is_tombstone {
            rebuild(rows).remove(row.key)
        } else {
            rebuild(rows).insert(row.key, entry_of(row))
        },
{
    let first = rebuild_step(rebuild_start(), row);
    lemma_rebuild_concat(rebuild_start(), rows, seq![row], 0);
    assert(rows + seq![row] =~= rows.push(row));
    assert(rebuild_onto(rebuild_start(), seq![row], 0) == rebuild_step(
        rebuild_onto(rebuild_start(), seq![row], 1),
        row,
    ));
    if row.is_tombstone {
        assert(first.index =~= rebuild_start().index.remove(row.key));
        assert(first.deleted =~= rebuild_start().deleted.insert(row.key));
    } else {
        assert(first.index =~= rebuild_start().index.insert(row.key, entry_of(row)));
        assert(first.deleted =~= rebuild_start().deleted.remove(row.key));
    }
    lemma_rebuild_decided_key(rebuild_start(), first, rows, 0, row);
    if row.is_tombstone {
        assert(rebuild(rows.push(row)) =~= rebuild(rows).remove(row.key));
    } else {
        assert(rebuild(rows.push(row)) =~= rebuild(rows).insert(row.key, entry_of(row)));
    }
}

/// Two states of a rebuild differ in that the one has taken a newer row in
/// and the other has not.
pub open spec fn decided(without: RebuildState, with: RebuildState, row: RecoveredRowView) -> bool {
    if row.is_tombstone {
        with.index == without.index.remove(row.key) && with.deleted == without.deleted.insert(
            row.key,
        )
    } else {
        with.index == without.index.insert(row.key, entry_of(row)) && with.deleted
            == without.deleted.remove(row.key)
    }
}

/// States that differ in a newer row differ in it still when both have taken
/// the same older rows in.
pub proof fn lemma_rebuild_decided_key(
    without: RebuildState,
    with: RebuildState,
    rows: Seq<RecoveredRowView>,
    i: int,
    row: RecoveredRowView,
)
    requires
        0 <= i,
        decided(without, with, row),
    ensures
        decided(rebuild_onto(without, rows, i), rebuild_onto(with, rows, i), row),
    decreases rows.len() - i,
{
    if i < rows.len() {
        lemma_rebuild_decided_key(without, with, rows, i + 1, row);
        let a = rebuild_onto(without, rows, i + 1);
        let b = rebuild_onto(with, rows, i + 1);
        let older = rows[i];
        let a2 = rebuild_step(a, older);
        let b2 = rebuild_step(b, older);
        if row.is_tombstone {
            assert(b2.index =~= a2.index.remove(row.key));
            assert(b2.deleted =~= a2.deleted.insert(row.key));
        } else {
            assert(b2.index =~= a2.index.insert(row.key, entry_of(row)));
            assert(b2.deleted =~= a2.deleted.remove(row.key));
        }
    } else {
    }
}

} // verus!
