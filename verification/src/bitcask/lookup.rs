//! What a lookup of a key gives, and what keeps it: a write for another key,
//! a flush, a hint file, a reopen.

use crate::common::tombstone_bytes;
use crate::data_storage::{DataStorageOptions, RowRecord};
use crate::database::{
    lemma_after_write, lemma_read_in_extension, load_result_matches, DataFileImage, DatabaseView,
    ReadFailure,
};
use crate::error::BitcaskResult;
use crate::file_id::FileId;
use crate::formatter::{row_fits, row_len};
use crate::keydir::KeyDirEntry;
use crate::recovery::rebuild;
use vstd::prelude::*;

verus! {

/// The entry lies within a file of the database.
pub open spec fn entry_in_range(db: DatabaseView, entry: KeyDirEntry) -> bool {
    db.has_file(entry.file_id) && entry.row_offset + entry.row_size <= db.file(
        entry.file_id,
    ).len()
}

/// Every entry lies within a file of the database.
pub open spec fn index_in_range(db: DatabaseView, index: Map<Seq<u8>, KeyDirEntry>) -> bool {
    forall|key: Seq<u8>| #[trigger] index.contains_key(key) ==> entry_in_range(db, index[key])
}

/// What a lookup of `key` gives: nothing for a key that the directory does
/// not hold or whose row carries the tombstone, else the value of the row
/// that the directory points at, or why that row cannot be read.
pub open spec fn lookup_in(db: DatabaseView, index: Map<Seq<u8>, KeyDirEntry>, key: Seq<u8>)
    -> Result<Option<Seq<u8>>, ReadFailure> {
    if !index.contains_key(key) {
        Ok(None)
    } else {
        match db.read(index[key].location()) {
            Ok((timestamp, value)) => if value == tombstone_bytes() {
                Ok(None)
            } else {
                Ok(Some(value))
            },
            Err(failure) => Err(failure),
        }
    }
}

/// What the store holds: every key whose row can be read and carries no
/// tombstone, with the value of that row.
pub open spec fn contents_of(db: DatabaseView, index: Map<Seq<u8>, KeyDirEntry>) -> Map<
    Seq<u8>,
    Seq<u8>,
> {
    Map::new(
        |key: Seq<u8>| lookup_in(db, index, key) matches Ok(Some(_)),
        |key: Seq<u8>| lookup_in(db, index, key).unwrap().unwrap(),
    )
}

/// Stores in which every key looks up alike hold the same.
pub proof fn lemma_same_lookups_same_contents(
    db: DatabaseView,
    index: Map<Seq<u8>, KeyDirEntry>,
    other_db: DatabaseView,
    other_index: Map<Seq<u8>, KeyDirEntry>,
)
    requires
        forall|key: Seq<u8>| #[trigger]
            lookup_in(other_db, other_index, key) == lookup_in(db, index, key),
    ensures
        contents_of(other_db, other_index) == contents_of(db, index),
{
    assert(contents_of(other_db, other_index) =~= contents_of(db, index));
}

/// A store in which one key looks up otherwise than before, and every other
/// key as before, holds what it held with that key put or taken out.
pub proof fn lemma_changed_key_changes_contents(
    db: DatabaseView,
    index: Map<Seq<u8>, KeyDirEntry>,
    after_db: DatabaseView,
    after_index: Map<Seq<u8>, KeyDirEntry>,
    key: Seq<u8>,
)
    requires
        lookup_in(after_db, after_index, key).is_ok(),
        forall|other: Seq<u8>|
            other != key ==> #[trigger] lookup_in(after_db, after_index, other) == lookup_in(
                db,
                index,
                other,
            ),
    ensures
        contents_of(after_db, after_index) == match lookup_in(after_db, after_index, key).unwrap() {
            Some(value) => contents_of(db, index).insert(key, value),
            None => contents_of(db, index).remove(key),
        },
{
    match lookup_in(after_db, after_index, key).unwrap() {
        Some(value) => {
            assert(contents_of(after_db, after_index) =~= contents_of(db, index).insert(
                key,
                value,
            ));
        },
        None => {
            assert(contents_of(after_db, after_index) =~= contents_of(db, index).remove(key));
        },
    }
}

/// The rows are one for every key of the key directory, each the row that the
/// key directory points at for its key, none a tombstone, and no other row is
/// among them.
pub open spec fn rows_one_per_key(
    rows: Seq<crate::common::RecoveredRowView>,
    index: Map<Seq<u8>, KeyDirEntry>,
) -> bool {
    &&& forall|i: int|
        0 <= i < rows.len() ==> index.contains_key((#[trigger] rows[i]).key) && index[rows[i].key]
            == crate::recovery::entry_of(rows[i]) && !rows[i].is_tombstone
    &&& forall|i: int, j: int|
        0 <= i < j < rows.len() ==> (#[trigger] rows[i]).key != (#[trigger] rows[j]).key
    &&& forall|key: Seq<u8>| #[trigger]
        index.contains_key(key) ==> exists|i: int|
            0 <= i < rows.len() && (#[trigger] rows[i]).key == key
}

/// The data files hold one row for every key of the key directory, the row
/// that the key directory points at for the key, and nothing else: no row
/// that a later row has superseded, and no tombstone.
pub open spec fn one_row_per_key(db: DatabaseView, index: Map<Seq<u8>, KeyDirEntry>) -> bool {
    rows_one_per_key(
        db.stored_rows().map_values(
            |row: (FileId, RowRecord)| crate::database::recovered_row(row),
        ),
        index,
    )
}

/// Files that hold one row for every key hold as many rows as the key
/// directory has keys: after a merge no row is left in the files but one for
/// each key.
pub proof fn lemma_one_row_per_key_count(db: DatabaseView, index: Map<Seq<u8>, KeyDirEntry>)
    requires
        one_row_per_key(db, index),
    ensures
        db.stored_rows().len() == index.dom().len(),
        index.dom().finite(),
{
    let rows = db.stored_rows().map_values(
        |row: (FileId, RowRecord)| crate::database::recovered_row(row),
    );
    let keys = rows.map_values(|row: crate::common::RecoveredRowView| row.key);
    assert(keys.no_duplicates()) by {
        assert forall|i: int, j: int|
            0 <= i < keys.len() && 0 <= j < keys.len() && i != j implies keys[i] != keys[j] by {
            if i < j {
                assert(rows[i].key != rows[j].key);
            } else {
                assert(rows[j].key != rows[i].key);
            }
        }
    }
    keys.unique_seq_to_set();
    assert(keys.to_set() =~= index.dom()) by {
        assert forall|key: Seq<u8>| keys.to_set().contains(key) implies index.dom().contains(
            key,
        ) by {
            let i = choose|i: int| 0 <= i < keys.len() && keys[i] == key;
            assert(index.contains_key(rows[i].key));
        }
        assert forall|key: Seq<u8>| index.dom().contains(key) implies keys.to_set().contains(
            key,
        ) by {
            assert(index.contains_key(key));
            let i = choose|i: int| 0 <= i < rows.len() && (#[trigger] rows[i]).key == key;
            assert(keys[i] == key);
        }
    }
}

/// A store as the contracts speak of it: the database and the key directory.
pub struct StoreView {
    pub db: DatabaseView,
    pub index: Map<Seq<u8>, KeyDirEntry>,
}

/// Every entry of the key directory is live: its row can be read, holds a
/// value and not the tombstone, and fits a fresh data file. A store that is
/// opened over no file is so, and `put`, `delete`, `merge`, `sync`, `drop`
/// and the writing of a hint file keep it so.
pub open spec fn all_live(store: StoreView) -> bool {
    forall|key: Seq<u8>| #[trigger]
        store.index.contains_key(key) ==> match lookup_in(store.db, store.index, key) {
            Ok(Some(value)) => row_fits(key.len(), value.len()) && 8 + row_len(
                key.len(),
                value.len(),
            ) <= store.db.max_file_size,
            Ok(None) => false,
            Err(_) => false,
        }
}

/// What one operation on the store does to the lookups: every key but the
/// one that the operation is about looks up afterwards as it did before. A
/// `put` and a `delete` are about their key; `merge`, `sync` and the writing
/// of a hint file are about no key. This is what the contract of each of
/// them says.
pub open spec fn keeps_other_keys(before: StoreView, after: StoreView, about: Option<Seq<u8>>)
    -> bool {
    forall|other: Seq<u8>|
        about != Some(other) ==> #[trigger] lookup_in(after.db, after.index, other) == lookup_in(
            before.db,
            before.index,
            other,
        )
}

/// Read-your-writes and delete semantics over any run of operations: what a
/// key looks up as after a `put` or a `delete` of it, it looks up as after
/// any number of later operations, as long as none of them is a `put` or a
/// `delete` of that key. `states[0]` is the store after the `put` or the
/// `delete`, `states[i + 1]` the store after the operation that `about[i]`
/// tells of.
pub proof fn lemma_lookup_lasts(states: Seq<StoreView>, about: Seq<Option<Seq<u8>>>, key: Seq<u8>)
    requires
        states.len() == about.len() + 1,
        forall|i: int|
            0 <= i < about.len() ==> #[trigger] about[i] != Some(key) && keeps_other_keys(
                states[i],
                states[i + 1],
                about[i],
            ),
    ensures
        lookup_in(states.last().db, states.last().index, key) == lookup_in(
            states[0].db,
            states[0].index,
            key,
        ),
        contents_of(states.last().db, states.last().index).contains_key(key) == contents_of(
            states[0].db,
            states[0].index,
        ).contains_key(key),
        contents_of(states.last().db, states.last().index).contains_key(key) ==> contents_of(
            states.last().db,
            states.last().index,
        )[key] == contents_of(states[0].db, states[0].index)[key],
    decreases states.len(),
{
    if about.len() > 0 {
        let n = about.len() as int;
        lemma_lookup_lasts(states.drop_last(), about.drop_last(), key);
        assert(about[n - 1] != Some(key) && keeps_other_keys(
            states[n - 1],
            states[n],
            about[n - 1],
        ));
        assert(states.drop_last().last() == states[n - 1]);
        assert(states.drop_last()[0] == states[0]);
        assert forall|i: int| 0 <= i < about.drop_last().len() implies #[trigger] about.drop_last()[i]
            != Some(key) && keeps_other_keys(
            states.drop_last()[i],
            states.drop_last()[i + 1],
            about.drop_last()[i],
        ) by {
            assert(about.drop_last()[i] == about[i]);
        }
    }
}

/// Where nothing that was written has changed, every entry still lies within
/// its file, and every key looks up as it did.
pub proof fn lemma_lookups_in_extension(
    before: DatabaseView,
    after: DatabaseView,
    index: Map<Seq<u8>, KeyDirEntry>,
)
    requires
        after.extends(before),
        index_in_range(before, index),
    ensures
        index_in_range(after, index),
        forall|key: Seq<u8>| #[trigger] lookup_in(after, index, key) == lookup_in(before, index, key),
{
    assert forall|key: Seq<u8>| #[trigger] index.contains_key(key) implies entry_in_range(
        after,
        index[key],
    ) && after.read(index[key].location()) == before.read(index[key].location()) by {
        lemma_read_in_extension(before, after, index[key].location());
    }
    assert forall|key: Seq<u8>| #[trigger]
        lookup_in(after, index, key) == lookup_in(before, index, key) by {
        if index.contains_key(key) {
            lemma_read_in_extension(before, after, index[key].location());
        }
    }
}

/// After a row for `key` was written and the key directory was pointed at it
/// (or, for a tombstone, the key was taken out), a lookup of the key gives the
/// value, every other key looks up as before, and every entry still lies
/// within its file.
pub proof fn lemma_put_keeps_lookups(
    db: DatabaseView,
    index: Map<Seq<u8>, KeyDirEntry>,
    key: Seq<u8>,
    value: Seq<u8>,
    timestamp: u64,
)
    requires
        db.wf(),
        index_in_range(db, index),
        db.write_failure(key.len(), value.len()).is_none(),
    ensures
        ({
            let after = db.after_write(key, value, timestamp);
            let at = db.written_at(key, value);
            let entry = KeyDirEntry {
                file_id: at.file_id,
                row_offset: at.row_offset,
                row_size: at.row_size,
                timestamp,
            };
            &&& index_in_range(after, index.insert(key, entry))
            &&& index_in_range(after, index.remove(key))
            &&& lookup_in(after, index.remove(key), key) == Ok::<Option<Seq<u8>>, ReadFailure>(
                None,
            )
            &&& lookup_in(after, index.insert(key, entry), key) == Ok::<
                Option<Seq<u8>>,
                ReadFailure,
            >(if value == tombstone_bytes() {
                None
            } else {
                Some(value)
            })
            &&& forall|other: Seq<u8>|
                other != key ==> #[trigger] lookup_in(after, index.insert(key, entry), other)
                    == lookup_in(db, index, other)
            &&& forall|other: Seq<u8>|
                other != key ==> #[trigger] lookup_in(after, index.remove(key), other) == lookup_in(
                    db,
                    index,
                    other,
                )
        }),
{
    let after = db.after_write(key, value, timestamp);
    let at = db.written_at(key, value);
    let entry = KeyDirEntry {
        file_id: at.file_id,
        row_offset: at.row_offset,
        row_size: at.row_size,
        timestamp,
    };
    lemma_after_write(db, key, value, timestamp);
    assert(entry.location() == at);
    assert forall|other: Seq<u8>| #[trigger] index.contains_key(other) implies entry_in_range(
        after,
        index[other],
    ) && after.read(index[other].location()) == db.read(index[other].location()) by {
        lemma_read_in_extension(db, after, index[other].location());
    }
    assert(index_in_range(after, index.insert(key, entry)));
    assert(index_in_range(after, index.remove(key)));
    assert forall|other: Seq<u8>| other != key implies #[trigger] lookup_in(
        after,
        index.insert(key, entry),
        other,
    ) == lookup_in(db, index, other) by {
        if index.contains_key(other) {
            lemma_read_in_extension(db, after, index[other].location());
        }
    }
    assert forall|other: Seq<u8>| other != key implies #[trigger] lookup_in(
        after,
        index.remove(key),
        other,
    ) == lookup_in(db, index, other) by {
        if index.contains_key(other) {
            lemma_read_in_extension(db, after, index[other].location());
        }
    }
}

/// After a row for `key` was written, a rebuild gives the key directory
/// that it gave before with the key pointed at the row, or, for a tombstone,
/// with the key taken out.
pub proof fn lemma_put_keeps_rebuild(db: DatabaseView, key: Seq<u8>, value: Seq<u8>, timestamp: u64)
    requires
        db.wf(),
        db.write_failure(key.len(), value.len()).is_none(),
    ensures
        rebuild(db.after_write(key, value, timestamp).recovery_rows()) == if value
            == tombstone_bytes() {
            rebuild(db.recovery_rows()).remove(key)
        } else {
            rebuild(db.recovery_rows()).insert(
                key,
                KeyDirEntry {
                    file_id: db.written_at(key, value).file_id,
                    row_offset: db.written_at(key, value).row_offset,
                    row_size: db.written_at(key, value).row_size,
                    timestamp,
                },
            )
        },
{
    crate::database::lemma_after_write_rows(db, key, value, timestamp);
    crate::recovery::lemma_rebuild_newest_row(
        db.recovery_rows(),
        crate::database::written_row(db, key, value, timestamp),
    );
}

/// Recording a failure leaves every entry within its file, and every row as
/// recovery sees it.
pub proof fn lemma_broken_keeps_index_in_range(
    before: DatabaseView,
    after: DatabaseView,
    index: Map<Seq<u8>, KeyDirEntry>,
)
    requires
        index_in_range(before, index),
        after == (DatabaseView { error: after.error, ..before }),
    ensures
        index_in_range(after, index),
        after.recovery_rows() == before.recovery_rows(),
{
    crate::database::lemma_same_files_same_rows(after, before, before.stable.len() as int + 1);
    assert forall|key: Seq<u8>| #[trigger] index.contains_key(key) implies entry_in_range(
        after,
        index[key],
    ) by {
        assert(entry_in_range(before, index[key]));
        let id = index[key].file_id;
        assert(before.has_stable(id) == after.has_stable(id));
        assert(after.file(id) == before.file(id));
    }
}

/// A database that differs from another only in hint files and in which of
/// them are still to be written holds the same bytes in the same files.
pub proof fn lemma_hint_keeps_files(before: DatabaseView, after: DatabaseView)
    requires
        before.wf(),
        after.wf(),
        after.writing == before.writing,
        after.stable.len() == before.stable.len(),
        forall|i: int|
            0 <= i < before.stable.len() ==> (#[trigger] after.stable[i]).id == before.stable[i].id
                && after.stable[i].bytes == before.stable[i].bytes,
    ensures
        after.extends(before),
{
    assert forall|id: FileId| #[trigger] before.has_file(id) implies after.has_file(id)
        && crate::data_storage::is_prefix(before.file(id), after.file(id)) by {
        if id != before.writing.id {
            let i = before.stable_index(id);
            crate::database::lemma_stable_index(before, i);
            assert(after.stable[i].id == id);
            crate::database::lemma_stable_index(after, i);
        }
        assert(before.file(id).subrange(0, before.file(id).len() as int) =~= before.file(id));
    }
}

/// Hint equivalence, at the opening of a store: a store that is opened over a
/// directory with hint files has the key directory of the store that is
/// opened over the directory without them, and looks every key up as that
/// store does. (That either both are opened or both are refused is
/// `lemma_hint_files_load_alike`.)
pub proof fn lemma_hint_files_open_alike(
    plain: Seq<DataFileImage>,
    hinted: Seq<DataFileImage>,
    options: DataStorageOptions,
    opened_plain: DatabaseView,
    opened_hinted: DatabaseView,
)
    requires
        crate::database::with_hint_files(hinted, plain),
        load_result_matches(plain, 0, options, Ok(opened_plain)),
        load_result_matches(hinted, 0, options, Ok(opened_hinted)),
        opened_plain.wf(),
        opened_hinted.wf(),
        index_in_range(opened_plain, rebuild(opened_plain.recovery_rows())),
    ensures
        rebuild(opened_hinted.recovery_rows()) == rebuild(opened_plain.recovery_rows()),
        forall|key: Seq<u8>| #[trigger]
            lookup_in(opened_hinted, rebuild(opened_hinted.recovery_rows()), key) == lookup_in(
                opened_plain,
                rebuild(opened_plain.recovery_rows()),
                key,
            ),
{
    crate::database::lemma_hint_files_load_alike(
        plain,
        hinted,
        0,
        options,
        Ok(opened_plain),
        Ok(opened_hinted),
    );
    lemma_hint_keeps_files(opened_plain, opened_hinted);
    lemma_lookups_in_extension(opened_plain, opened_hinted, rebuild(opened_plain.recovery_rows()));
}

/// Durability under reopen, whatever the order in which the directory hands
/// its files out: a store that is opened over the files of another is not
/// refused, has the same files and the same key directory, and looks every
/// key up as the other does.
pub proof fn lemma_reopen_any_order_keeps_store(
    db: DatabaseView,
    index: Map<Seq<u8>, KeyDirEntry>,
    images: Seq<DataFileImage>,
    options: DataStorageOptions,
    reopened: BitcaskResult<DatabaseView>,
)
    requires
        db.wf(),
        index == rebuild(db.recovery_rows()),
        crate::database::images_hold(images, db),
        load_result_matches(images, 0, options, reopened),
    ensures
        reopened.is_ok(),
        reopened.unwrap().stable == db.stable,
        reopened.unwrap().writing == db.writing,
        rebuild(reopened.unwrap().recovery_rows()) == index,
        forall|key: Seq<u8>| #[trigger]
            lookup_in(reopened.unwrap(), rebuild(reopened.unwrap().recovery_rows()), key)
                == lookup_in(db, index, key),
        all_live(StoreView { db, index }) && db.max_file_size <= options.max_data_file_size
            ==> all_live(
            StoreView {
                db: reopened.unwrap(),
                index: rebuild(reopened.unwrap().recovery_rows()),
            },
        ),
{
    crate::database::lemma_reopened_any_order(db, images, 0, options, reopened);
    let view = reopened.unwrap();
    assert forall|key: Seq<u8>| #[trigger]
        lookup_in(view, index, key) == lookup_in(db, index, key) by {
        if index.contains_key(key) {
            let id = index[key].file_id;
            assert(view.has_file(id) == db.has_file(id) && view.file(id) == db.file(id));
        }
    }
}

/// Crash safety of a merge, at the opening of a store. A merge leaves every
/// lookup as it was, and recovery leaves in the directory the files from
/// before the merge or the merged files (`lemma_commit_recovers`), each with
/// the bytes that the store held for it. So the store that is opened after a
/// kill in the middle of a merge is not refused, has the key directory from
/// before the merge or the one from after it, whole, and looks every key up
/// as the store did before the merge.
pub proof fn lemma_reopen_after_merge_crash(
    before: StoreView,
    after: StoreView,
    images: Seq<DataFileImage>,
    options: DataStorageOptions,
    reopened: BitcaskResult<DatabaseView>,
)
    requires
        before.db.wf(),
        before.index == rebuild(before.db.recovery_rows()),
        after.db.wf(),
        after.index == rebuild(after.db.recovery_rows()),
        forall|key: Seq<u8>| #[trigger]
            lookup_in(after.db, after.index, key) == lookup_in(before.db, before.index, key),
        crate::database::images_hold(images, before.db) || crate::database::images_hold(
            images,
            after.db,
        ),
        load_result_matches(images, 0, options, reopened),
    ensures
        reopened.is_ok(),
        rebuild(reopened.unwrap().recovery_rows()) == before.index || rebuild(
            reopened.unwrap().recovery_rows(),
        ) == after.index,
        forall|key: Seq<u8>| #[trigger]
            lookup_in(reopened.unwrap(), rebuild(reopened.unwrap().recovery_rows()), key)
                == lookup_in(before.db, before.index, key),
{
    if crate::database::images_hold(images, before.db) {
        lemma_reopen_any_order_keeps_store(before.db, before.index, images, options, reopened);
    } else {
        lemma_reopen_any_order_keeps_store(after.db, after.index, images, options, reopened);
    }
}

/// A database that is opened over no file gives no row to recovery.
pub proof fn lemma_fresh_has_no_row(options: DataStorageOptions, opened: DatabaseView)
    requires
        load_result_matches(
            Seq::<DataFileImage>::empty(),
            0,
            options,
            Ok::<DatabaseView, crate::error::BitcaskError>(opened),
        ),
    ensures
        rebuild(opened.recovery_rows()) == Map::<Seq<u8>, KeyDirEntry>::empty(),
{
    crate::data_storage::lemma_header_is_clean();
    assert(opened.stable.len() == 0);
    assert(opened.writing.bytes == crate::formatter::file_header_bytes());
    assert(crate::data_storage::row_at(opened.writing.bytes, 8) == Ok::<
        Option<RowRecord>,
        crate::error::FormatterError,
    >(None));
    assert(crate::database::file_rows(opened.file_at(0)) =~= Seq::<
        crate::common::RecoveredRowView,
    >::empty());
    assert(opened.rows_upto(0) =~= Seq::<crate::common::RecoveredRowView>::empty());
    assert(opened.recovery_rows() =~= Seq::<crate::common::RecoveredRowView>::empty());
}

/// A database that has given up its files gives no row to recovery.
pub proof fn lemma_dropped_has_no_row(db: DatabaseView)
    requires
        db.wf(),
        db.writing_holds_rows() ==> db.last_id < u32::MAX,
    ensures
        rebuild(db.flushed().without_stable().recovery_rows()) == Map::<
            Seq<u8>,
            KeyDirEntry,
        >::empty(),
{
    let after = db.flushed().without_stable();
    crate::data_storage::lemma_header_is_clean();
    if !db.writing_holds_rows() {
        assert(crate::data_storage::row_at(db.writing.bytes, 8) == Ok::<
            Option<RowRecord>,
            crate::error::FormatterError,
        >(None));
    }
    assert(crate::database::file_rows(after.file_at(0)) =~= Seq::<
        crate::common::RecoveredRowView,
    >::empty());
    assert(after.rows_upto(0) =~= Seq::<crate::common::RecoveredRowView>::empty());
    assert(after.recovery_rows() =~= Seq::<crate::common::RecoveredRowView>::empty());
}

/// Checksum coverage: where the bytes of the row that a key points at were
/// changed anywhere behind the checksum and the checksum, which is what the
/// row still carries, does not match them any more, a lookup of the key fails
/// with the two checksums.
pub proof fn lemma_lookup_of_changed_row(
    db: DatabaseView,
    index: Map<Seq<u8>, KeyDirEntry>,
    key: Seq<u8>,
    written: Seq<u8>,
)
    requires
        index.contains_key(key),
        entry_in_range(db, index[key]),
        crate::formatter::decode_row_spec(written).is_ok(),
        written.len() == index[key].row_size,
        db.file(index[key].file_id).subrange(
            index[key].row_offset as int,
            index[key].row_offset + 4,
        ) == written.subrange(0, 4),
        crate::checksum::crc32_cksum(
            db.file(index[key].file_id).subrange(
                index[key].row_offset + 4,
                index[key].row_offset + index[key].row_size,
            ),
        ) != crate::checksum::crc32_cksum(written.subrange(4, written.len() as int)),
    ensures
        lookup_in(db, index, key) == Err::<Option<Seq<u8>>, ReadFailure>(
            ReadFailure::Checksum(
                crate::formatter::stored_crc(written),
                crate::checksum::crc32_cksum(
                    db.file(index[key].file_id).subrange(
                        index[key].row_offset + 4,
                        index[key].row_offset + index[key].row_size,
                    ),
                ),
            ),
        ),
{
    let entry = index[key];
    let file = db.file(entry.file_id);
    let changed = file.subrange(entry.row_offset as int, entry.row_offset + entry.row_size);
    assert(changed.subrange(0, 4) =~= file.subrange(
        entry.row_offset as int,
        entry.row_offset + 4,
    ));
    assert(changed.subrange(4, changed.len() as int) =~= file.subrange(
        entry.row_offset + 4,
        entry.row_offset + entry.row_size,
    ));
    crate::formatter::lemma_changed_row_fails_checksum(written, changed);
}

/// Durability under reopen: a store that is opened over the files of another,
/// as `export` hands them out, is not refused, has the same files and the
/// same key directory, and looks every key up as the other does.
pub proof fn lemma_reopen_keeps_store(
    db: DatabaseView,
    index: Map<Seq<u8>, KeyDirEntry>,
    images: Seq<DataFileImage>,
    options: DataStorageOptions,
    reopened: BitcaskResult<DatabaseView>,
)
    requires
        db.wf(),
        index == rebuild(db.recovery_rows()),
        images.len() == db.stable.len() + 1,
        forall|i: int|
            0 <= i < images.len() ==> crate::database::exported(#[trigger] images[i])
                == db.file_at(i),
        load_result_matches(images, 0, options, reopened),
    ensures
        reopened.is_ok(),
        reopened.unwrap().stable == db.stable,
        reopened.unwrap().writing == db.writing,
        rebuild(reopened.unwrap().recovery_rows()) == index,
        forall|key: Seq<u8>| #[trigger]
            lookup_in(reopened.unwrap(), rebuild(reopened.unwrap().recovery_rows()), key)
                == lookup_in(db, index, key),
{
    crate::database::lemma_reopened_files(db, images, 0, options, reopened);
    let view = reopened.unwrap();
    assert forall|key: Seq<u8>| #[trigger]
        lookup_in(view, index, key) == lookup_in(db, index, key) by {
        if index.contains_key(key) {
            let id = index[key].file_id;
            assert(view.has_file(id) == db.has_file(id) && view.file(id) == db.file(id));
        }
    }
}

} // verus!
