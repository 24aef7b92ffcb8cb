//! How a merge goes on, key by key, and why it changes no lookup.

use crate::bitcask::{
    entry_in_range, index_in_range, lemma_lookups_in_extension, lemma_put_keeps_lookups, lookup_in,
};
use crate::common::{tombstone_bytes, RowLocation};
use crate::database::{
    failure_matches, files_of_images, lemma_after_write, lemma_rolled_extends,
    load_result_matches, loaded_view, stable_views, DataFileImage, DatabaseView, FileView,
    ReadFailure, StableFile,
};
use crate::error::{BitcaskError, BitcaskResult};
use crate::file_id::FileId;
use crate::formatter::{file_header_bytes, row_fits, row_len};
use crate::keydir::KeyDirEntry;
use vstd::prelude::*;

verus! {

/// A merge of this database and key directory is owed its success: every
/// entry can be read, every live row fits a fresh data file, and enough file
/// ids are left for the files that the merge may begin.
pub open spec fn merge_is_owed(db: DatabaseView, index: Map<Seq<u8>, KeyDirEntry>) -> bool {
    &&& db.last_id + index.dom().len() + 3 <= u32::MAX
    &&& forall|key: Seq<u8>| #[trigger]
        index.contains_key(key) ==> match lookup_in(db, index, key) {
            Ok(Some(value)) => row_fits(key.len(), value.len()) && 8 + row_len(
                key.len(),
                value.len(),
            ) <= db.max_file_size,
            Ok(None) => true,
            Err(_) => false,
        }
}

/// The row of `key` cannot be read, and `error` tells why.
pub open spec fn unreadable(
    db: DatabaseView,
    index: Map<Seq<u8>, KeyDirEntry>,
    key: Seq<u8>,
    error: BitcaskError,
) -> bool {
    &&& index.contains_key(key)
    &&& db.read(index[key].location()) matches Err(failure) && failure_matches(
        failure,
        index[key].location(),
        error,
    )
}

/// The live row of `key` fits no fresh data file.
pub open spec fn oversized(db: DatabaseView, index: Map<Seq<u8>, KeyDirEntry>, key: Seq<u8>)
    -> bool {
    &&& index.contains_key(key)
    &&& lookup_in(db, index, key) matches Ok(Some(value)) && (!row_fits(key.len(), value.len())
        || 8 + row_len(key.len(), value.len()) > db.max_file_size)
}

/// What the error of a failed merge tells: a row could not be read, a live
/// row fits no fresh data file, or the file ids may run out.
pub open spec fn merge_error_matches(
    db: DatabaseView,
    index: Map<Seq<u8>, KeyDirEntry>,
    error: BitcaskError,
) -> bool {
    ||| exists|key: Seq<u8>| #[trigger] unreadable(db, index, key, error)
    ||| error matches BitcaskError::InvalidParameter(_, _) && exists|key: Seq<u8>| #[trigger]
        oversized(db, index, key)
    ||| error matches BitcaskError::DatabaseBroken(_) && db.last_id + index.dom().len() + 3
        > u32::MAX
}

/// Why one step of a merge fails: the row cannot be read, it fits no fresh
/// data file, or the file ids ran out.
pub open spec fn step_error_matches(
    db: DatabaseView,
    index: Map<Seq<u8>, KeyDirEntry>,
    error: BitcaskError,
) -> bool {
    ||| exists|key: Seq<u8>| #[trigger] unreadable(db, index, key, error)
    ||| error matches BitcaskError::InvalidParameter(_, _) && exists|key: Seq<u8>| #[trigger]
        oversized(db, index, key)
    ||| error matches BitcaskError::DatabaseBroken(_) && db.last_id + index.dom().len() + 2
        > u32::MAX
}

/// A merge that is owed its success does not fail.
pub proof fn lemma_owed_merge_has_no_error(
    db: DatabaseView,
    index: Map<Seq<u8>, KeyDirEntry>,
    error: BitcaskError,
)
    requires
        merge_error_matches(db, index, error),
    ensures
        !merge_is_owed(db, index),
{
    if exists|key: Seq<u8>| #[trigger] unreadable(db, index, key, error) {
        let key = choose|key: Seq<u8>| #[trigger] unreadable(db, index, key, error);
        assert(index.contains_key(key));
        assert(lookup_in(db, index, key).is_err());
    } else if exists|key: Seq<u8>| #[trigger] oversized(db, index, key) {
        let key = choose|key: Seq<u8>| #[trigger] oversized(db, index, key);
        assert(index.contains_key(key));
    }
}

/// What one step of a merge does with the row of one key: a row that cannot
/// be read or written fails the merge and changes nothing, a tombstone is
/// passed over, and any other row is written into the merge database, with
/// the new key directory pointed at it.
pub open spec fn merge_step_matches(
    read: Result<(u64, Seq<u8>), ReadFailure>,
    location: RowLocation,
    key: Seq<u8>,
    timestamp: u64,
    db_before: DatabaseView,
    index_before: Map<Seq<u8>, KeyDirEntry>,
    done: BitcaskResult<()>,
    db_after: DatabaseView,
    index_after: Map<Seq<u8>, KeyDirEntry>,
) -> bool {
    match read {
        Err(failure) => done.is_err() && failure_matches(failure, location, done.unwrap_err())
            && db_after == db_before && index_after == index_before,
        Ok((stamp, value)) => if value == tombstone_bytes() {
            done.is_ok() && db_after == db_before && index_after == index_before
        } else {
            match db_before.write_failure(key.len(), value.len()) {
                Some(crate::database::WriteFailure::RowTooLarge) => done matches Err(
                    BitcaskError::InvalidParameter(_, _),
                ) && db_after == db_before && index_after == index_before,
                Some(crate::database::WriteFailure::OutOfFileIds) => done matches Err(
                    BitcaskError::DatabaseBroken(_),
                ) && db_after == db_before && index_after == index_before,
                None => done.is_ok() && db_after == db_before.after_write(key, value, timestamp)
                    && index_after == index_before.insert(
                    key,
                    KeyDirEntry {
                        file_id: db_before.written_at(key, value).file_id,
                        row_offset: db_before.written_at(key, value).row_offset,
                        row_size: db_before.written_at(key, value).row_size,
                        timestamp,
                    },
                ),
            }
        },
    }
}

/// The keys of the entries, in the order of the entries.
pub open spec fn keys_of(entries: Seq<(Vec<u8>, KeyDirEntry)>) -> Seq<Seq<u8>> {
    entries.map_values(|entry: (Vec<u8>, KeyDirEntry)| entry.0@)
}

/// How far a merge has come when it has dealt with the first `k` keys: the
/// merge database holds the live rows of those keys and nothing else, in
/// files begun after the merge began; the new key directory points at them;
/// and each of those keys looks up in the two as it does in the database that
/// is merged.
#[verifier::opaque]
pub open spec fn merge_progress(
    db: DatabaseView,
    index: Map<Seq<u8>, KeyDirEntry>,
    keys: Seq<Seq<u8>>,
    k: int,
    merge_db: DatabaseView,
    merged: Map<Seq<u8>, KeyDirEntry>,
) -> bool {
    &&& merge_db.wf()
    &&& merge_db.error.is_none()
    &&& merge_db.max_file_size == db.max_file_size
    &&& db.last_id < merge_db.last_id <= db.last_id + 1 + k
    &&& files_are_new(merge_db, db.last_id)
    &&& index_in_range(merge_db, merged)
    &&& merged == crate::recovery::rebuild(merge_db.recovery_rows())
    &&& forall|key: Seq<u8>| #[trigger]
        merged.contains_key(key) ==> exists|i: int| 0 <= i < k && #[trigger] keys[i] == key
    &&& forall|i: int|
        0 <= i < k ==> lookup_in(merge_db, merged, #[trigger] keys[i]) == lookup_in(
            db,
            index,
            keys[i],
        ) && (merged.contains_key(keys[i]) <==> lookup_in(db, index, keys[i]) matches Ok(
            Some(_),
        ))
}

/// A merge that has begun has dealt with no key: the merge database holds an
/// empty file, and the new key directory holds no key.
pub proof fn lemma_merge_begins(
    db: DatabaseView,
    index: Map<Seq<u8>, KeyDirEntry>,
    keys: Seq<Seq<u8>>,
    merge_db: DatabaseView,
)
    requires
        merge_db.wf(),
        merge_db.error.is_none(),
        merge_db.max_file_size == db.max_file_size,
        merge_db.last_id == db.last_id + 1,
        files_are_new(merge_db, db.last_id),
        merge_db.stable.len() == 0,
        merge_db.writing.bytes == file_header_bytes(),
    ensures
        merge_progress(db, index, keys, 0, merge_db, Map::<Seq<u8>, KeyDirEntry>::empty()),
{
    reveal(merge_progress);
    crate::data_storage::lemma_header_is_clean();
    assert(crate::database::file_rows(merge_db.file_at(0)) =~= Seq::<
        crate::common::RecoveredRowView,
    >::empty());
    assert(merge_db.rows_upto(0) =~= Seq::<crate::common::RecoveredRowView>::empty());
    assert(merge_db.recovery_rows() =~= Seq::<crate::common::RecoveredRowView>::empty());
}

/// The new key directory does not hold the key that the merge deals with
/// next: it holds keys that the merge has dealt with, and no key comes twice.
pub proof fn lemma_merge_key_is_new(
    db: DatabaseView,
    index: Map<Seq<u8>, KeyDirEntry>,
    keys: Seq<Seq<u8>>,
    k: int,
    merge_db: DatabaseView,
    merged: Map<Seq<u8>, KeyDirEntry>,
)
    requires
        0 <= k < keys.len(),
        forall|i: int, j: int| 0 <= i < j < keys.len() ==> #[trigger] keys[i] != #[trigger] keys[j],
        merge_progress(db, index, keys, k, merge_db, merged),
    ensures
        !merged.contains_key(keys[k]),
{
    reveal(merge_progress);
    if merged.contains_key(keys[k]) {
        let i = choose|i: int| 0 <= i < k && #[trigger] keys[i] == keys[k];
        assert(keys[i] != keys[k]);
    }
}

/// One step of a merge takes the merge one key further, or fails for a reason
/// that lies in the database that is merged.
pub proof fn lemma_merge_step(
    db: DatabaseView,
    index: Map<Seq<u8>, KeyDirEntry>,
    keys: Seq<Seq<u8>>,
    k: int,
    merge_db: DatabaseView,
    merged: Map<Seq<u8>, KeyDirEntry>,
    done: BitcaskResult<()>,
    merge_db_after: DatabaseView,
    merged_after: Map<Seq<u8>, KeyDirEntry>,
)
    requires
        0 <= k < keys.len(),
        keys.len() == index.dom().len(),
        forall|i: int, j: int| 0 <= i < j < keys.len() ==> #[trigger] keys[i] != #[trigger] keys[j],
        index.contains_key(keys[k]),
        merge_progress(db, index, keys, k, merge_db, merged),
        merge_step_matches(
            db.read(index[keys[k]].location()),
            index[keys[k]].location(),
            keys[k],
            index[keys[k]].timestamp,
            merge_db,
            merged,
            done,
            merge_db_after,
            merged_after,
        ),
    ensures
        done.is_ok() ==> merge_progress(db, index, keys, k + 1, merge_db_after, merged_after),
        done matches Err(e) ==> step_error_matches(db, index, e),
{
    reveal(merge_progress);
    let key = keys[k];
    let entry = index[key];
    if merged.contains_key(key) {
        let i = choose|i: int| 0 <= i < k && #[trigger] keys[i] == key;
        assert(keys[i] != keys[k]);
    }
    match db.read(entry.location()) {
        Err(failure) => {
            assert(unreadable(db, index, key, done.unwrap_err()));
        },
        Ok((stamp, value)) => {
            if value == tombstone_bytes() {
                assert forall|i: int| 0 <= i < k + 1 implies lookup_in(
                    merge_db_after,
                    merged_after,
                    #[trigger] keys[i],
                ) == lookup_in(db, index, keys[i]) && (merged_after.contains_key(keys[i])
                    <==> lookup_in(db, index, keys[i]) matches Ok(Some(_))) by {}
                assert forall|other: Seq<u8>| #[trigger]
                    merged_after.contains_key(other) implies exists|i: int|
                    0 <= i < k + 1 && #[trigger] keys[i] == other by {
                    let i = choose|i: int| 0 <= i < k && #[trigger] keys[i] == other;
                    assert(0 <= i < k + 1 && keys[i] == other);
                }
            } else {
                match merge_db.write_failure(key.len(), value.len()) {
                    Some(crate::database::WriteFailure::RowTooLarge) => {
                        assert(oversized(db, index, key));
                    },
                    Some(crate::database::WriteFailure::OutOfFileIds) => {},
                    None => {
                        lemma_after_write(merge_db, key, value, entry.timestamp);
                        lemma_put_keeps_lookups(merge_db, merged, key, value, entry.timestamp);
                        crate::bitcask::lemma_put_keeps_rebuild(
                            merge_db,
                            key,
                            value,
                            entry.timestamp,
                        );
                        lemma_write_keeps_new(merge_db, key, value, entry.timestamp, db.last_id);
                        assert forall|i: int| 0 <= i < k + 1 implies lookup_in(
                            merge_db_after,
                            merged_after,
                            #[trigger] keys[i],
                        ) == lookup_in(db, index, keys[i]) && (merged_after.contains_key(
                            keys[i],
                        ) <==> lookup_in(db, index, keys[i]) matches Ok(Some(_))) by {
                            if i < k {
                                assert(keys[i] != keys[k]);
                                assert(lookup_in(merge_db_after, merged_after, keys[i])
                                    == lookup_in(merge_db, merged, keys[i]));
                            }
                        }
                        assert forall|other: Seq<u8>| #[trigger]
                            merged_after.contains_key(other) implies exists|i: int|
                            0 <= i < k + 1 && #[trigger] keys[i] == other by {
                            if other == key {
                                assert(keys[k] == other);
                            } else {
                                let i = choose|i: int| 0 <= i < k && #[trigger] keys[i] == other;
                                assert(0 <= i < k + 1 && keys[i] == other);
                            }
                        }
                    },
                }
            }
        },
    }
}

/// When a merge has dealt with every key, every key looks up in the merge
/// database and the new key directory as it does in the database that is
/// merged, and the new key directory holds the keys with a live row.
pub proof fn lemma_merge_complete(
    db: DatabaseView,
    index: Map<Seq<u8>, KeyDirEntry>,
    keys: Seq<Seq<u8>>,
    merge_db: DatabaseView,
    merged: Map<Seq<u8>, KeyDirEntry>,
)
    requires
        merge_progress(db, index, keys, keys.len() as int, merge_db, merged),
        forall|i: int| 0 <= i < keys.len() ==> index.contains_key(#[trigger] keys[i]),
        forall|key: Seq<u8>| #[trigger]
            index.contains_key(key) ==> exists|i: int|
                0 <= i < keys.len() && #[trigger] keys[i] == key,
    ensures
        forall|key: Seq<u8>| #[trigger]
            lookup_in(merge_db, merged, key) == lookup_in(db, index, key),
        forall|key: Seq<u8>| #[trigger]
            merged.contains_key(key) <==> lookup_in(db, index, key) matches Ok(Some(_)),
        merge_db.wf(),
        merge_db.error.is_none(),
        merge_db.max_file_size == db.max_file_size,
        db.last_id < merge_db.last_id <= db.last_id + 1 + keys.len(),
        files_are_new(merge_db, db.last_id),
        index_in_range(merge_db, merged),
        merged == crate::recovery::rebuild(merge_db.recovery_rows()),
{
    reveal(merge_progress);
    assert forall|key: Seq<u8>| #[trigger]
        lookup_in(merge_db, merged, key) == lookup_in(db, index, key) && (merged.contains_key(key)
            <==> lookup_in(db, index, key) matches Ok(Some(_))) by {
        if index.contains_key(key) {
            let i = choose|i: int| 0 <= i < keys.len() && #[trigger] keys[i] == key;
            assert(lookup_in(merge_db, merged, keys[i]) == lookup_in(db, index, keys[i]));
        } else if merged.contains_key(key) {
            let i = choose|i: int| 0 <= i < keys.len() && #[trigger] keys[i] == key;
            assert(index.contains_key(keys[i]));
        }
    }
}

/// A reason to fail that lies in the database after its flush lies in the
/// database before it.
pub proof fn lemma_merge_error_from_flushed(
    db0: DatabaseView,
    db1: DatabaseView,
    index: Map<Seq<u8>, KeyDirEntry>,
    error: BitcaskError,
)
    requires
        db0.wf(),
        index_in_range(db0, index),
        db1.extends(db0),
        db1.max_file_size == db0.max_file_size,
        db0.last_id <= db1.last_id <= db0.last_id + 1,
        step_error_matches(db1, index, error),
    ensures
        merge_error_matches(db0, index, error),
{
    lemma_lookups_in_extension(db0, db1, index);
    if exists|key: Seq<u8>| #[trigger] unreadable(db1, index, key, error) {
        let key = choose|key: Seq<u8>| #[trigger] unreadable(db1, index, key, error);
        crate::database::lemma_read_in_extension(db0, db1, index[key].location());
        assert(unreadable(db0, index, key, error));
    } else if error matches BitcaskError::InvalidParameter(_, _) && exists|key: Seq<u8>| #[trigger]
        oversized(db1, index, key) {
        let key = choose|key: Seq<u8>| #[trigger] oversized(db1, index, key);
        assert(lookup_in(db1, index, key) == lookup_in(db0, index, key));
        assert(oversized(db0, index, key));
    }
}

/// A database that was opened over no file holds one file, the writable one,
/// begun with the next id; it is refused only where no id is left.
pub proof fn lemma_empty_load(
    last_id: FileId,
    options: crate::data_storage::DataStorageOptions,
    loaded: BitcaskResult<DatabaseView>,
)
    requires
        load_result_matches(Seq::<DataFileImage>::empty(), last_id, options, loaded),
    ensures
        match loaded {
            Ok(view) => last_id < u32::MAX && view.stable.len() == 0 && view.writing.id == last_id
                + 1 && view.last_id == last_id + 1 && view.error.is_none() && view.max_file_size
                == options.max_data_file_size && view.writing.bytes == file_header_bytes()
                && files_are_new(view, last_id),
            Err(e) => e matches BitcaskError::DatabaseBroken(_) && last_id == u32::MAX,
        },
{
    let images = Seq::<DataFileImage>::empty();
    assert(crate::database::images_ok(images));
    let files = choose|files: Seq<StableFile>|
        #![trigger files_of_images(files, images, 0, options)]
        files_of_images(files, images, 0, options);
    assert(files.len() == 0);
    assert(stable_views(files) =~= Seq::<FileView>::empty());
    match loaded {
        Ok(view) => {
            let other = choose|files: Seq<StableFile>|
                #![trigger files_of_images(files, images, 0, options)]
                files_of_images(files, images, 0, options) && view == loaded_view(
                    stable_views(files),
                    last_id,
                    options.max_data_file_size,
                );
            assert(other.len() == 0);
            assert(stable_views(other) =~= Seq::<FileView>::empty());
        },
        Err(e) => {
            let other = choose|files: Seq<StableFile>|
                #![trigger files_of_images(files, images, 0, options)]
                files_of_images(files, images, 0, options) && !crate::database::reuses_last(
                    stable_views(files),
                ) && crate::database::top_id(stable_views(files), last_id) == u32::MAX;
            assert(other.len() == 0);
            assert(stable_views(other) =~= Seq::<FileView>::empty());
        },
    }
}

/// Every file of the database has an id above `last_id`.
pub open spec fn files_are_new(db: DatabaseView, last_id: FileId) -> bool {
    &&& db.writing.id > last_id
    &&& forall|i: int| 0 <= i < db.stable.len() ==> (#[trigger] db.stable[i]).id > last_id
}

/// A flush keeps what was written and begins at most one file, with an id
/// that was not given out before.
pub proof fn lemma_flushed_extends(view: DatabaseView)
    requires
        view.wf(),
        view.writing_holds_rows() ==> view.last_id < u32::MAX,
    ensures
        view.flushed().wf(),
        view.flushed().extends(view),
        view.flushed().error == view.error,
        view.flushed().max_file_size == view.max_file_size,
        view.last_id <= view.flushed().last_id <= view.last_id + 1,
        !view.flushed().writing_holds_rows(),
        forall|last_id: FileId|
            files_are_new(view, last_id) ==> #[trigger] files_are_new(view.flushed(), last_id),
        view.flushed().recovery_rows() == view.recovery_rows(),
{
    if view.writing_holds_rows() {
        lemma_rolled_extends(view);
        crate::database::lemma_rolled_rows(view);
        crate::formatter::lemma_file_header_decodes();
        assert forall|last_id: FileId| files_are_new(view, last_id) implies #[trigger] files_are_new(
            view.flushed(),
            last_id,
        ) by {
            assert forall|i: int| 0 <= i < view.flushed().stable.len() implies (
            #[trigger] view.flushed().stable[i]).id > last_id by {
                if i < view.stable.len() {
                    assert(view.flushed().stable[i] == view.stable[i]);
                }
            }
        }
    } else {
        assert forall|id: FileId| #[trigger] view.has_file(id) implies view.has_file(id)
            && crate::data_storage::is_prefix(view.file(id), view.file(id)) by {
            assert(view.file(id).subrange(0, view.file(id).len() as int) =~= view.file(id));
        }
    }
}

/// A write begins at most one file, with an id that was not given out before.
pub proof fn lemma_write_keeps_new(
    view: DatabaseView,
    key: Seq<u8>,
    value: Seq<u8>,
    timestamp: u64,
    last_id: FileId,
)
    requires
        view.wf(),
        view.write_failure(key.len(), value.len()).is_none(),
        files_are_new(view, last_id),
    ensures
        files_are_new(view.after_write(key, value, timestamp), last_id),
        view.last_id <= view.after_write(key, value, timestamp).last_id <= view.last_id + 1,
{
    let after = view.after_write(key, value, timestamp);
    crate::formatter::lemma_row_bytes_fields(timestamp, key, value);
    assert forall|i: int| 0 <= i < after.stable.len() implies (#[trigger] after.stable[i]).id
        > last_id by {
        if i < view.stable.len() {
            assert(after.stable[i] == view.stable[i]);
        }
    }
}

/// A file that the database has is the writable file or one of the read-only
/// files, so that its id is above `last_id` where theirs are.
pub proof fn lemma_new_files_by_id(db: DatabaseView, last_id: FileId)
    requires
        files_are_new(db, last_id),
    ensures
        forall|id: FileId| #[trigger] db.has_file(id) ==> id > last_id,
{
    assert forall|id: FileId| #[trigger] db.has_file(id) implies id > last_id by {
        if id != db.writing.id {
            let i = db.stable_index(id);
            assert(db.stable[i].id == id);
        }
    }
}

/// What a lookup gives depends on the files alone, not on the failure on
/// record.
pub proof fn lemma_lookup_ignores_error(
    db: DatabaseView,
    other: DatabaseView,
    index: Map<Seq<u8>, KeyDirEntry>,
)
    requires
        other == (DatabaseView { error: other.error, ..db }),
    ensures
        forall|key: Seq<u8>| #[trigger] lookup_in(other, index, key) == lookup_in(db, index, key),
        index_in_range(db, index) ==> index_in_range(other, index),
        forall|id: FileId| #[trigger] other.has_file(id) == db.has_file(id),
{
    assert forall|id: FileId| #[trigger] other.has_file(id) == db.has_file(id) && other.file(id)
        == db.file(id) by {
        assert(other.has_stable(id) == db.has_stable(id));
    }
    assert forall|key: Seq<u8>| #[trigger]
        lookup_in(other, index, key) == lookup_in(db, index, key) by {
        if index.contains_key(key) {
            let id = index[key].file_id;
            assert(other.has_file(id) == db.has_file(id) && other.file(id) == db.file(id));
        }
    }
    if index_in_range(db, index) {
        assert forall|key: Seq<u8>| #[trigger] index.contains_key(key) implies entry_in_range(
            other,
            index[key],
        ) by {
            let id = index[key].file_id;
            assert(other.has_file(id) == db.has_file(id) && other.file(id) == db.file(id));
        }
    }
}

/// What a merge keeps to while it writes: no file of the merge database has a
/// hint file, the merge database holds one row for every key of the new key
/// directory and nothing else, and every entry of the new key directory has
/// the timestamp of the entry that it takes the place of.
#[verifier::opaque]
pub open spec fn merged_rows(
    index: Map<Seq<u8>, KeyDirEntry>,
    merge_db: DatabaseView,
    merged: Map<Seq<u8>, KeyDirEntry>,
) -> bool {
    &&& crate::database::unhinted(merge_db)
    &&& crate::bitcask::rows_one_per_key(merge_db.recovery_rows(), merged)
    &&& forall|key: Seq<u8>| #[trigger]
        merged.contains_key(key) ==> index.contains_key(key) && merged[key].timestamp
            == index[key].timestamp
}

/// A merge database that holds an empty file, with a key directory that
/// holds no key, keeps to what a merge keeps to.
pub proof fn lemma_merged_rows_begin(index: Map<Seq<u8>, KeyDirEntry>, merge_db: DatabaseView)
    requires
        merge_db.wf(),
        merge_db.stable.len() == 0,
        merge_db.writing.bytes == file_header_bytes(),
    ensures
        merged_rows(index, merge_db, Map::<Seq<u8>, KeyDirEntry>::empty()),
{
    reveal(merged_rows);
    crate::data_storage::lemma_header_is_clean();
    assert(crate::database::file_rows(merge_db.file_at(0)) =~= Seq::<
        crate::common::RecoveredRowView,
    >::empty());
    assert(merge_db.rows_upto(0) =~= Seq::<crate::common::RecoveredRowView>::empty());
    assert(merge_db.recovery_rows() =~= Seq::<crate::common::RecoveredRowView>::empty());
}

/// One step of a merge keeps to what a merge keeps to: the row that it writes
/// is the one row of its key and has the timestamp of the entry.
pub proof fn lemma_merged_rows_step(
    read: Result<(u64, Seq<u8>), ReadFailure>,
    location: RowLocation,
    key: Seq<u8>,
    index: Map<Seq<u8>, KeyDirEntry>,
    merge_db: DatabaseView,
    merged: Map<Seq<u8>, KeyDirEntry>,
    done: BitcaskResult<()>,
    merge_db_after: DatabaseView,
    merged_after: Map<Seq<u8>, KeyDirEntry>,
)
    requires
        merge_db.wf(),
        index.contains_key(key),
        !merged.contains_key(key),
        merged_rows(index, merge_db, merged),
        merge_step_matches(
            read,
            location,
            key,
            index[key].timestamp,
            merge_db,
            merged,
            done,
            merge_db_after,
            merged_after,
        ),
    ensures
        done.is_ok() ==> merged_rows(index, merge_db_after, merged_after),
{
    reveal(merged_rows);
    match read {
        Ok((stamp, value)) => {
            if value != tombstone_bytes() && merge_db.write_failure(
                key.len(),
                value.len(),
            ).is_none() {
                let timestamp = index[key].timestamp;
                crate::database::lemma_after_write_rows(merge_db, key, value, timestamp);
                crate::formatter::lemma_row_bytes_fields(timestamp, key, value);
                let rows = merge_db.recovery_rows();
                let added = crate::database::written_row(merge_db, key, value, timestamp);
                let after = merge_db_after.recovery_rows();
                assert(after == rows.push(added));
                assert forall|i: int| 0 <= i < after.len() implies merged_after.contains_key(
                    (#[trigger] after[i]).key,
                ) && merged_after[after[i].key] == crate::recovery::entry_of(after[i])
                    && !after[i].is_tombstone by {
                    if i < rows.len() {
                        assert(after[i] == rows[i]);
                        assert(merged.contains_key(rows[i].key));
                    }
                }
                assert forall|i: int, j: int| 0 <= i < j < after.len() implies (
                #[trigger] after[i]).key != (#[trigger] after[j]).key by {
                    assert(after[i] == rows[i]);
                    assert(merged.contains_key(rows[i].key));
                    if j < rows.len() {
                        assert(after[j] == rows[j]);
                    }
                }
                assert forall|other: Seq<u8>| #[trigger]
                    merged_after.contains_key(other) implies exists|i: int|
                    0 <= i < after.len() && (#[trigger] after[i]).key == other by {
                    if other == key {
                        assert(after[rows.len() as int].key == other);
                    } else {
                        let i = choose|i: int|
                            0 <= i < rows.len() && (#[trigger] rows[i]).key == other;
                        assert(after[i] == rows[i]);
                    }
                }
                assert(crate::database::unhinted(merge_db_after)) by {
                    assert forall|i: int| 0 <= i < merge_db_after.stable.len() implies (
                    #[trigger] merge_db_after.stable[i]).hint.is_none() by {
                        if i < merge_db.stable.len() {
                            assert(merge_db_after.stable[i] == merge_db.stable[i]);
                        }
                    }
                }
            }
        },
        Err(_) => {},
    }
}

/// A flush of the merge database keeps to what a merge keeps to.
pub proof fn lemma_merged_rows_flushed(
    index: Map<Seq<u8>, KeyDirEntry>,
    merge_db: DatabaseView,
    merged: Map<Seq<u8>, KeyDirEntry>,
)
    requires
        merge_db.wf(),
        merge_db.writing_holds_rows() ==> merge_db.last_id < u32::MAX,
        merged_rows(index, merge_db, merged),
    ensures
        merged_rows(index, merge_db.flushed(), merged),
{
    reveal(merged_rows);
    lemma_flushed_extends(merge_db);
    assert forall|i: int| 0 <= i < merge_db.flushed().stable.len() implies (
    #[trigger] merge_db.flushed().stable[i]).hint.is_none() by {
        if i < merge_db.stable.len() {
            assert(merge_db.flushed().stable[i] == merge_db.stable[i]);
        }
    }
}

/// When the database has taken the files of the merge database over, its
/// data files hold one row for every key of the new key directory and nothing
/// else, and every entry has the timestamp of the entry that it took the
/// place of.
pub proof fn lemma_merged_rows_adopted(
    index: Map<Seq<u8>, KeyDirEntry>,
    merge_db: DatabaseView,
    merged: Map<Seq<u8>, KeyDirEntry>,
    adopted: DatabaseView,
)
    requires
        merge_db.wf(),
        merged_rows(index, merge_db, merged),
        adopted == (DatabaseView { error: adopted.error, ..merge_db }),
    ensures
        crate::bitcask::one_row_per_key(adopted, merged),
        forall|key: Seq<u8>| #[trigger]
            merged.contains_key(key) ==> index.contains_key(key) && merged[key].timestamp
                == index[key].timestamp,
{
    reveal(merged_rows);
    crate::database::lemma_unhinted_rows(adopted, 0);
    crate::database::lemma_same_files_same_rows(
        adopted,
        merge_db,
        merge_db.stable.len() as int + 1,
    );
    assert(adopted.rows_upto(0) =~= Seq::<crate::common::RecoveredRowView>::empty());
    assert(adopted.recovery_rows() =~= adopted.stored_rows().map_values(
        |row: (FileId, crate::data_storage::RowRecord)| crate::database::recovered_row(row),
    ));
}

} // verus!
