//! Merge: the live rows are written into fresh files, the database takes the
//! fresh files in place of its own, and the key directory is switched over to
//! the rows in the fresh files. What a lookup gives does not change.

use super::meta::MergeMeta;
use super::progress::{
    keys_of, lemma_empty_load, lemma_flushed_extends, lemma_lookup_ignores_error,
    lemma_merge_begins, lemma_merge_complete, lemma_merge_error_from_flushed,
    lemma_merge_key_is_new, lemma_merge_step, lemma_merged_rows_adopted,
    lemma_merged_rows_begin, lemma_merged_rows_flushed, lemma_merged_rows_step,
    lemma_new_files_by_id, lemma_owed_merge_has_no_error, merge_error_matches, merge_is_owed,
    merge_progress, merge_step_matches, merged_rows, step_error_matches,
};
use crate::bitcask::{index_in_range, lemma_lookups_in_extension, lookup_in, one_row_per_key};
use crate::common::{is_tombstone, RowLocation};
use crate::database::Database;
use crate::error::BitcaskResult;
use crate::file_id::{FileId, FileIdGenerator};
use crate::keydir::{KeyDir, KeyDirEntry};
use vstd::prelude::*;

verus! {

/// Runs merges and keeps what the last one left on record.
#[derive(Debug)]
pub struct MergeManager {
    last_meta: Option<MergeMeta>,
}

impl MergeManager {
    /// What the last merge that succeeded left on record.
    pub closed spec fn meta(&self) -> Option<MergeMeta> {
        self.last_meta
    }

    pub fn new() -> (manager: MergeManager)
        ensures
            manager.meta().is_none(),
    {
        MergeManager { last_meta: None }
    }

    /// What the last merge that succeeded left on record.
    pub fn get_meta(&self) -> (meta: Option<MergeMeta>)
        ensures
            meta == self.meta(),
    {
        self.last_meta
    }

    /// Writes the row that `entry` points at into the merge database, under
    /// `key` and with the timestamp of the entry, and points the new key
    /// directory at it. A row that carries the tombstone is passed over.
    fn merge_entry(
        database: &Database,
        merge_db: &mut Database,
        merged: &mut KeyDir,
        key: &Vec<u8>,
        entry: KeyDirEntry,
    ) -> (done: BitcaskResult<()>)
        requires
            database.wf(),
            old(merge_db).wf(),
            old(merged).wf(),
            !old(merged)@.contains_key(key@),
        ensures
            final(merge_db).wf(),
            final(merge_db).options() == old(merge_db).options(),
            final(merged).wf(),
            merge_step_matches(
                database@.read(entry.location()),
                entry.location(),
                key@,
                entry.timestamp,
                old(merge_db)@,
                old(merged)@,
                done,
                final(merge_db)@,
                final(merged)@,
            ),
    {
        let location: RowLocation = entry.row_location();
        let found = match database.read_value(&location) {
            Ok(found) => found,
            Err(e) => {
                return Err(e);
            },
        };
        if is_tombstone(found.value.as_slice()) {
            return Ok(());
        }
        let written: RowLocation = match merge_db.write_with_timestamp(
            key,
            found.value.into_vec(),
            entry.timestamp,
        ) {
            Ok(written) => written,
            Err(e) => {
                return Err(e);
            },
        };
        merged.checked_put(key.clone(), KeyDirEntry::new(written, entry.timestamp));
        Ok(())
    }
}

impl MergeManager {
    /// Writes the live rows that the entries point at into the merge
    /// database, and points the new key directory at them.
    fn merge_entries(
        database: &Database,
        entries: &Vec<(Vec<u8>, KeyDirEntry)>,
        merge_db: &mut Database,
        merged: &mut KeyDir,
        Ghost(index): Ghost<Map<Seq<u8>, KeyDirEntry>>,
    ) -> (done: BitcaskResult<()>)
        requires
            database.wf(),
            old(merge_db).wf(),
            old(merged).wf(),
            keys_of(entries@).len() == index.dom().len(),
            forall|i: int|
                0 <= i < entries@.len() ==> index.contains_key(#[trigger] entries@[i].0@)
                    && index[entries@[i].0@] == entries@[i].1,
            forall|i: int, j: int|
                0 <= i < j < entries@.len() ==> #[trigger] entries@[i].0@
                    != #[trigger] entries@[j].0@,
            merge_progress(database@, index, keys_of(entries@), 0, old(merge_db)@, old(merged)@),
            merged_rows(index, old(merge_db)@, old(merged)@),
        ensures
            final(merge_db).wf(),
            final(merge_db).options() == old(merge_db).options(),
            final(merged).wf(),
            match done {
                Ok(_) => merge_progress(
                    database@,
                    index,
                    keys_of(entries@),
                    entries@.len() as int,
                    final(merge_db)@,
                    final(merged)@,
                ) && merged_rows(index, final(merge_db)@, final(merged)@),
                Err(e) => step_error_matches(database@, index, e),
            },
    {
        let ghost keys = keys_of(entries@);
        proof {
            assert forall|i: int, j: int| 0 <= i < j < keys.len() implies #[trigger] keys[i]
                != #[trigger] keys[j] by {
                assert(entries@[i].0@ != entries@[j].0@);
            }
        }
        let mut k: usize = 0;
        while k < entries.len()
            invariant
                k <= entries@.len(),
                database.wf(),
                keys == keys_of(entries@),
                keys.len() == index.dom().len(),
                forall|i: int|
                    0 <= i < entries@.len() ==> index.contains_key(#[trigger] entries@[i].0@)
                        && index[entries@[i].0@] == entries@[i].1,
                forall|i: int, j: int|
                    0 <= i < j < keys.len() ==> #[trigger] keys[i] != #[trigger] keys[j],
                merge_db.wf(),
                merge_db.options() == old(merge_db).options(),
                merged.wf(),
                merge_progress(database@, index, keys, k as int, merge_db@, merged@),
                merged_rows(index, merge_db@, merged@),
            decreases entries@.len() - k,
        {
            let key: &Vec<u8> = &entries[k].0;
            let entry: KeyDirEntry = entries[k].1;
            let ghost merge_before = merge_db@;
            let ghost merged_before = merged@;
            assert(keys[k as int] == key@);
            assert(index.contains_key(entries@[k as int].0@));
            proof {
                lemma_merge_key_is_new(database@, index, keys, k as int, merge_db@, merged@);
            }
            let step = MergeManager::merge_entry(database, merge_db, merged, key, entry);
            proof {
                lemma_merge_step(
                    database@,
                    index,
                    keys,
                    k as int,
                    merge_before,
                    merged_before,
                    step,
                    merge_db@,
                    merged@,
                );
                lemma_merged_rows_step(
                    database@.read(entry.location()),
                    entry.location(),
                    key@,
                    index,
                    merge_before,
                    merged_before,
                    step,
                    merge_db@,
                    merged@,
                );
            }
            match step {
                Err(e) => {
                    return Err(e);
                },
                Ok(_) => {},
            }
            k += 1;
        }
        Ok(())
    }

    /// Merges the database: writes the live rows into fresh files, lets the
    /// database take the fresh files in place of its own, and switches the
    /// key directory over to them. Whether the merge succeeds or fails, every
    /// key looks up as it did.
    pub fn merge(&mut self, database: &mut Database, keydir: &mut KeyDir) -> (done: BitcaskResult<
        (),
    >)
        requires
            old(database).wf(),
            old(keydir).wf(),
            index_in_range(old(database)@, old(keydir)@),
            old(database)@.error.is_none(),
        ensures
            final(database).wf(),
            final(database).options() == old(database).options(),
            final(database)@.error == old(database)@.error,
            final(database)@.max_file_size == old(database)@.max_file_size,
            final(database)@.last_id >= old(database)@.last_id,
            final(keydir).wf(),
            index_in_range(final(database)@, final(keydir)@),
            old(keydir)@ == crate::recovery::rebuild(old(database)@.recovery_rows())
                ==> final(keydir)@ == crate::recovery::rebuild(final(database)@.recovery_rows()),
            forall|key: Seq<u8>| #[trigger]
                lookup_in(final(database)@, final(keydir)@, key) == lookup_in(
                    old(database)@,
                    old(keydir)@,
                    key,
                ),
            forall|key: Seq<u8>| #[trigger]
                final(keydir)@.contains_key(key) ==> old(keydir)@.contains_key(key)
                    && final(keydir)@[key].timestamp == old(keydir)@[key].timestamp,
            merge_is_owed(old(database)@, old(keydir)@) ==> done.is_ok(),
            match done {
                Ok(_) => {
                    &&& one_row_per_key(final(database)@, final(keydir)@)
                    &&& forall|key: Seq<u8>| #[trigger]
                        final(keydir)@.contains_key(key) <==> (lookup_in(
                            old(database)@,
                            old(keydir)@,
                            key,
                        ) matches Ok(Some(_)))
                    &&& forall|id: FileId| #[trigger]
                        final(database)@.has_file(id) ==> id > old(database)@.last_id
                    &&& final(self).meta().is_some()
                    &&& old(database)@.has_file(final(self).meta().unwrap().known_min_file_id)
                    &&& forall|id: FileId| #[trigger]
                        old(database)@.has_file(id) ==> final(self).meta().unwrap().known_min_file_id
                            <= id
                },
                Err(e) => {
                    &&& final(keydir)@ == old(keydir)@
                    &&& (final(database)@ == old(database)@ || final(database)@ == old(
                        database,
                    )@.flushed())
                    &&& final(self).meta() == old(self).meta()
                    &&& merge_error_matches(old(database)@, old(keydir)@, e)
                },
            },
    {
        let ghost db0 = database@;
        let ghost index = keydir@;
        let known_min_file_id: FileId = database.min_file_id();
        match database.flush_writing_file() {
            Err(e) => {
                proof {
                    lemma_lookup_ignores_error(db0, database@, index);
                    lemma_owed_merge_has_no_error(db0, index, e);
                }
                return Err(e);
            },
            Ok(_) => {},
        }
        let ghost db1 = database@;
        proof {
            lemma_flushed_extends(db0);
            lemma_lookups_in_extension(db0, db1, index);
        }
        let mut generator = FileIdGenerator::new();
        generator.update_file_id(database.last_file_id());
        let mut merge_db: Database = match Database::open(
            Vec::new(),
            generator,
            database.get_options(),
        ) {
            Ok(merge_db) => merge_db,
            Err(e) => {
                proof {
                    lemma_empty_load(db1.last_id, database.options().storage_options, Err(e));
                    lemma_owed_merge_has_no_error(db0, index, e);
                }
                return Err(e);
            },
        };
        proof {
            lemma_empty_load(db1.last_id, database.options().storage_options, Ok(merge_db@));
        }
        let mut merged = KeyDir::new_empty_key_dir();
        let entries = keydir.entries();
        let ghost keys = keys_of(entries@);
        proof {
            assert forall|i: int, j: int| 0 <= i < j < keys.len() implies #[trigger] keys[i]
                != #[trigger] keys[j] by {
                assert(entries@[i].0@ != entries@[j].0@);
            }
            assert forall|key: Seq<u8>| #[trigger] index.contains_key(key) implies exists|i: int|
                0 <= i < keys.len() && #[trigger] keys[i] == key by {
                let i = choose|i: int| 0 <= i < entries@.len() && #[trigger] entries@[i].0@ == key;
                assert(keys[i] == key);
            }
            assert forall|i: int| 0 <= i < keys.len() implies index.contains_key(
                #[trigger] keys[i],
            ) by {
                assert(index.contains_key(entries@[i].0@));
            }
        }
        proof {
            lemma_merge_begins(db1, index, keys, merge_db@);
            lemma_merged_rows_begin(index, merge_db@);
        }
        match MergeManager::merge_entries(
            database,
            &entries,
            &mut merge_db,
            &mut merged,
            Ghost(index),
        ) {
            Err(e) => {
                proof {
                    lemma_merge_error_from_flushed(db0, db1, index, e);
                    lemma_owed_merge_has_no_error(db0, index, e);
                }
                return Err(e);
            },
            Ok(_) => {},
        }
        let ghost merge1 = merge_db@;
        proof {
            lemma_merge_complete(db1, index, keys, merge1, merged@);
        }
        match merge_db.flush_writing_file() {
            Err(e) => {
                proof {
                    lemma_owed_merge_has_no_error(db0, index, e);
                }
                return Err(e);
            },
            Ok(_) => {},
        }
        proof {
            lemma_flushed_extends(merge1);
            lemma_lookups_in_extension(merge1, merge_db@, merged@);
            lemma_merged_rows_flushed(index, merge1, merged@);
        }
        let ghost merged_view = merge_db@;
        let ghost merged_index = merged@;
        database.adopt(merge_db);
        std::mem::swap(keydir, &mut merged);
        self.last_meta = Some(MergeMeta { known_min_file_id });
        proof {
            lemma_lookup_ignores_error(merged_view, database@, keydir@);
            lemma_new_files_by_id(merged_view, db1.last_id);
            crate::database::lemma_same_files_same_rows(
                database@,
                merged_view,
                merged_view.stable.len() as int + 1,
            );
            lemma_merged_rows_adopted(index, merged_view, merged_index, database@);
        }
        Ok(())
    }
}

} // verus!
