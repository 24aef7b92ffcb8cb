//! The store: `put`, `get`, `has`, `delete` and `merge` over the database and
//! the key directory.

use super::fold::{
    applied_to_keys, applied_to_pairs, each_key_once, each_live_pair, entries_of, folded_over_keys,
    folded_over_pairs, in_row_order, key_among, lemma_live_pair_added, lemma_live_pair_skipped,
    lemma_live_pairs_done, live_pairs_upto,
};
use super::lookup::{
    all_live, contents_of, index_in_range, keeps_other_keys, lemma_broken_keeps_index_in_range,
    lemma_changed_key_changes_contents, lemma_dropped_has_no_row, lemma_fresh_has_no_row,
    lemma_hint_keeps_files, lemma_lookups_in_extension, lemma_put_keeps_lookups,
    lemma_put_keeps_rebuild, lemma_same_lookups_same_contents, lookup_in, one_row_per_key,
    StoreView,
};
use super::options::{option_name, BitcaskOptions};
use crate::clock::now_millis;
use crate::common::{is_tombstone, tombstone_bytes, tombstone_value, RowLocation};
use crate::data_storage::DataStorageOptions;
use crate::database::{
    failure_matches, lemma_after_write, load_result_matches, saturate_usize, write_error_matches,
    DataFileImage, Database, DatabaseView, ReadFailure, WriteFailure,
};
use crate::error::{BitcaskError, BitcaskResult};
use crate::file_id::{FileId, FileIdGenerator};
use crate::keydir::{KeyDir, KeyDirEntry};
use crate::merge::{merge_error_matches, merge_is_owed, MergeManager, MergeMeta};
use crate::recovery::rebuild;
use vstd::prelude::*;
use vstd::slice::slice_to_vec;

verus! {

/// Counts of a store.
#[derive(PartialEq, Eq, Debug)]
pub struct BitcaskStats {
    pub number_of_data_files: usize,
    pub number_of_keys: usize,
    pub number_of_pending_hint_files: usize,
}

/// Whether an iteration goes on.
#[derive(Debug, PartialEq, Eq, Clone, Copy, Structural)]
pub enum FoldStatus {
    Stopped,
    Continue,
}

/// What one step of an iteration hands back: what it has gathered so far, and
/// whether the iteration goes on.
#[derive(Debug)]
pub struct FoldResult<T> {
    pub accumulator: T,
    pub status: FoldStatus,
}

/// Why a `put` is refused.
pub enum PutFailure {
    KeyTooLarge,
    ValueTooLarge,
    Broken,
    Write(WriteFailure),
}

/// The store.
#[derive(Debug)]
pub struct Bitcask {
    keydir: KeyDir,
    options: BitcaskOptions,
    database: Database,
    merge_manager: MergeManager,
}

impl Bitcask {
    /// The database under the store.
    pub closed spec fn db(&self) -> DatabaseView {
        self.database@
    }

    /// The key directory of the store.
    pub closed spec fn index(&self) -> Map<Seq<u8>, KeyDirEntry> {
        self.keydir@
    }

    /// The options that the store was opened with.
    pub closed spec fn options(&self) -> BitcaskOptions {
        self.options
    }

    /// What the last merge that succeeded left on record.
    pub closed spec fn merge_meta(&self) -> Option<MergeMeta> {
        self.merge_manager.meta()
    }

    /// Whether the store holds a row that was written since it was last
    /// synced: a row that is still to be handed on to the directory.
    pub closed spec fn unsynced(&self) -> bool {
        self.database.unsynced()
    }

    /// Opens the store over the files that the directory holds, and rebuilds
    /// the key directory from their rows.
    pub fn open(images: Vec<DataFileImage>, options: BitcaskOptions) -> (opened: BitcaskResult<
        Bitcask,
    >)
        ensures
            match options.invalid_option() {
                Some(option) => opened matches Err(BitcaskError::InvalidParameter(name, reason))
                    && name@ == option_name(option) && reason@ == "need a positive value"@,
                None => match opened {
                    Ok(store) => {
                        &&& store.wf()
                        &&& store.options() == options
                        &&& load_result_matches(
                            images@,
                            0,
                            DataStorageOptions {
                                max_data_file_size: options.max_data_file_size,
                                init_data_file_capacity: options.init_data_file_capacity,
                            },
                            Ok(store.db()),
                        )
                        &&& store.index() == rebuild(store.db().recovery_rows())
                        &&& store.merge_meta().is_none()
                        &&& images@.len() == 0 ==> all_live(store.store())
                    },
                    Err(e) => load_result_matches(
                        images@,
                        0,
                        DataStorageOptions {
                            max_data_file_size: options.max_data_file_size,
                            init_data_file_capacity: options.init_data_file_capacity,
                        },
                        Err(e),
                    ),
                },
            },
    {
        match options.validate() {
            Some(e) => {
                return Err(e);
            },
            None => {},
        }
        let database = match Database::open(
            images,
            FileIdGenerator::new(),
            options.get_database_options(),
        ) {
            Ok(database) => database,
            Err(e) => {
                return Err(e);
            },
        };
        let keydir = match KeyDir::new(&database) {
            Ok(keydir) => keydir,
            Err(e) => {
                return Err(e);
            },
        };
        let store = Bitcask { keydir, options, database, merge_manager: MergeManager::new() };
        proof {
            assert(index_in_range(store.db(), store.index()));
            if images@.len() == 0 {
                assert(images@ =~= Seq::<DataFileImage>::empty());
                lemma_fresh_has_no_row(
                    DataStorageOptions {
                        max_data_file_size: options.max_data_file_size,
                        init_data_file_capacity: options.init_data_file_capacity,
                    },
                    store.db(),
                );
            }
        }
        Ok(store)
    }

    /// The database and the key directory are well formed.
    pub closed spec fn parts_wf(&self) -> bool {
        &&& self.database.wf()
        &&& self.keydir.wf()
        &&& self.database.options().storage_options.max_data_file_size
            == self.options.max_data_file_size
    }

    /// The store is well formed: so are its parts, every entry of the key
    /// directory lies within a file of the database, and the key directory
    /// is the one that a rebuild from the rows of the database gives.
    pub open spec fn wf(&self) -> bool {
        &&& self.parts_wf()
        &&& self.db().wf()
        &&& self.db().max_file_size == self.options().max_data_file_size
        &&& self.index().dom().finite()
        &&& index_in_range(self.db(), self.index())
        &&& self.index() == rebuild(self.db().recovery_rows())
    }

    /// What `get` gives for `key` while the database is not broken.
    pub open spec fn lookup(&self, key: Seq<u8>) -> Result<Option<Seq<u8>>, ReadFailure> {
        lookup_in(self.db(), self.index(), key)
    }

    /// The database and the key directory of the store.
    pub open spec fn store(&self) -> StoreView {
        StoreView { db: self.db(), index: self.index() }
    }

    /// What the store holds: every key that `get` finds a value for, with
    /// that value.
    pub open spec fn contents(&self) -> Map<Seq<u8>, Seq<u8>> {
        contents_of(self.db(), self.index())
    }

    /// Why a `put` of a key and a value of these lengths is refused, if it
    /// is: the first, in this order, of a key that is too long, a value that
    /// is too long, a broken database, and a row that cannot be written.
    pub open spec fn put_failure(&self, key_len: nat, value_len: nat) -> Option<PutFailure> {
        if key_len > self.options().max_key_size {
            Some(PutFailure::KeyTooLarge)
        } else if value_len > self.options().max_value_size {
            Some(PutFailure::ValueTooLarge)
        } else if self.db().error.is_some() {
            Some(PutFailure::Broken)
        } else {
            match self.db().write_failure(key_len, value_len) {
                Some(failure) => Some(PutFailure::Write(failure)),
                None => None,
            }
        }
    }

    /// Stores the value under the key. A value that is the tombstone deletes
    /// the key. A `put` that fails in the database breaks the database.
    pub fn put(&mut self, key: Vec<u8>, value: &[u8]) -> (done: BitcaskResult<()>)
        requires
            old(self).wf(),
        ensures
            final(self).wf(),
            final(self).options() == old(self).options(),
            all_live(old(self).store()) ==> all_live(final(self).store()),
            final(self).merge_meta() == old(self).merge_meta(),
            keeps_other_keys(old(self).store(), final(self).store(), Some(key@)),
            match old(self).put_failure(key@.len(), value@.len()) {
                None => {
                    &&& done.is_ok()
                    &&& final(self).unsynced()
                    &&& exists|timestamp: u64|
                        {
                            &&& final(self).db() == old(self).db().after_write(
                                key@,
                                value@,
                                timestamp,
                            )
                            &&& final(self).index() == if value@ == tombstone_bytes() {
                                old(self).index().remove(key@)
                            } else {
                                old(self).index().insert(
                                    key@,
                                    KeyDirEntry {
                                        file_id: old(self).db().written_at(key@, value@).file_id,
                                        row_offset: old(self).db().written_at(
                                            key@,
                                            value@,
                                        ).row_offset,
                                        row_size: old(self).db().written_at(key@, value@).row_size,
                                        timestamp,
                                    },
                                )
                            }
                        }
                    &&& final(self).lookup(key@) == Ok::<Option<Seq<u8>>, ReadFailure>(
                        if value@ == tombstone_bytes() {
                            None
                        } else {
                            Some(value@)
                        },
                    )
                    &&& forall|other: Seq<u8>|
                        other != key@ ==> #[trigger] final(self).lookup(other) == old(self).lookup(
                            other,
                        )
                    &&& final(self).contents() == if value@ == tombstone_bytes() {
                        old(self).contents().remove(key@)
                    } else {
                        old(self).contents().insert(key@, value@)
                    }
                },
                Some(PutFailure::KeyTooLarge) => {
                    &&& done matches Err(BitcaskError::InvalidParameter(name, _)) && name@ == "key"@
                    &&& final(self).db() == old(self).db()
                    &&& final(self).index() == old(self).index()
                },
                Some(PutFailure::ValueTooLarge) => {
                    &&& done matches Err(BitcaskError::InvalidParameter(name, _)) && name@
                        == "value"@
                    &&& final(self).db() == old(self).db()
                    &&& final(self).index() == old(self).index()
                },
                Some(PutFailure::Broken) => {
                    &&& done matches Err(BitcaskError::DatabaseBroken(message)) && Some(message@)
                        == old(self).db().error
                    &&& final(self).db() == old(self).db()
                    &&& final(self).index() == old(self).index()
                },
                Some(PutFailure::Write(failure)) => {
                    &&& done.is_err()
                    &&& write_error_matches(failure, done.unwrap_err())
                    &&& final(self).db().error == Some("put data failed"@)
                    &&& final(self).db() == (DatabaseView {
                        error: final(self).db().error,
                        ..old(self).db()
                    })
                    &&& final(self).index() == old(self).index()
                },
            },
    {
        if key.len() > self.options.max_key_size {
            return Err(
                BitcaskError::InvalidParameter("key".to_string(), "key size overflow".to_string()),
            );
        }
        if value.len() > self.options.max_value_size {
            return Err(
                BitcaskError::InvalidParameter(
                    "value".to_string(),
                    "values size overflow".to_string(),
                ),
            );
        }
        match self.database.check_db_error() {
            Err(e) => {
                return Err(e);
            },
            Ok(_) => {},
        }
        let timestamp: u64 = now_millis();
        let deletes: bool = is_tombstone(value);
        let location: RowLocation = match self.database.write_with_timestamp(
            &key,
            slice_to_vec(value),
            timestamp,
        ) {
            Ok(location) => location,
            Err(e) => {
                self.database.mark_db_error("put data failed".to_string());
                proof {
                    lemma_broken_keeps_index_in_range(old(self).db(), self.db(), self.index());
                    crate::merge::lemma_lookup_ignores_error(
                        old(self).db(),
                        self.db(),
                        self.index(),
                    );
                }
                return Err(e);
            },
        };
        proof {
            lemma_after_write(old(self).db(), key@, value@, timestamp);
            lemma_put_keeps_lookups(
                old(self).db(),
                old(self).index(),
                key@,
                value@,
                timestamp,
            );
            lemma_put_keeps_rebuild(old(self).db(), key@, value@, timestamp);
        }
        let ghost put_key = key@;
        if deletes {
            self.keydir.delete(&key);
        } else {
            self.keydir.put(key, KeyDirEntry::new(location, timestamp));
        }
        proof {
            lemma_changed_key_changes_contents(
                old(self).db(),
                old(self).index(),
                self.db(),
                self.index(),
                put_key,
            );
        }
        Ok(())
    }

    /// The value that is stored under the key, or `None` if there is none.
    pub fn get(&self, key: &Vec<u8>) -> (value: BitcaskResult<Option<Vec<u8>>>)
        requires
            self.wf(),
        ensures
            match self.db().error {
                Some(message) => value matches Err(BitcaskError::DatabaseBroken(m)) && m@
                    == message,
                None => match self.lookup(key@) {
                    Ok(Some(bytes)) => value matches Ok(Some(found)) && found@ == bytes
                        && self.contents().contains_key(key@) && self.contents()[key@] == bytes,
                    Ok(None) => value matches Ok(None) && !self.contents().contains_key(key@),
                    Err(failure) => value.is_err() && failure_matches(
                        failure,
                        self.index()[key@].location(),
                        value.unwrap_err(),
                    ),
                },
            },
    {
        match self.database.check_db_error() {
            Err(e) => {
                return Err(e);
            },
            Ok(_) => {},
        }
        match self.keydir.get(key) {
            Some(entry) => {
                let location: RowLocation = entry.row_location();
                match self.database.read_value(&location) {
                    Ok(found) => {
                        if is_tombstone(found.value.as_slice()) {
                            return Ok(None);
                        }
                        Ok(Some(found.value.into_vec()))
                    },
                    Err(e) => Err(e),
                }
            },
            None => Ok(None),
        }
    }

    /// Whether the key directory holds the key.
    pub fn has(&self, key: &Vec<u8>) -> (held: BitcaskResult<bool>)
        requires
            self.wf(),
        ensures
            match self.db().error {
                Some(message) => held matches Err(BitcaskError::DatabaseBroken(m)) && m@
                    == message,
                None => held == Ok::<bool, BitcaskError>(self.index().contains_key(key@)),
            },
    {
        match self.database.check_db_error() {
            Err(e) => {
                return Err(e);
            },
            Ok(_) => {},
        }
        Ok(self.keydir.contains_key(key))
    }

    /// Deletes the key: writes a tombstone for it and takes it out of the key
    /// directory. A key that the directory does not hold is left alone.
    pub fn delete(&mut self, key: &Vec<u8>) -> (done: BitcaskResult<()>)
        requires
            old(self).wf(),
        ensures
            final(self).wf(),
            final(self).options() == old(self).options(),
            all_live(old(self).store()) ==> all_live(final(self).store()),
            final(self).merge_meta() == old(self).merge_meta(),
            keeps_other_keys(old(self).store(), final(self).store(), Some(key@)),
            match old(self).delete_failure(key@) {
                None => {
                    &&& done.is_ok()
                    &&& final(self).unsynced() == (old(self).unsynced() || old(
                        self,
                    ).index().contains_key(key@))
                    &&& final(self).index() == old(self).index().remove(key@)
                    &&& if old(self).index().contains_key(key@) {
                        exists|timestamp: u64|
                            final(self).db() == old(self).db().after_write(
                                key@,
                                tombstone_bytes(),
                                timestamp,
                            )
                    } else {
                        final(self).db() == old(self).db()
                    }
                    &&& final(self).lookup(key@) == Ok::<Option<Seq<u8>>, ReadFailure>(None)
                    &&& forall|other: Seq<u8>|
                        other != key@ ==> #[trigger] final(self).lookup(other) == old(self).lookup(
                            other,
                        )
                    &&& final(self).contents() == old(self).contents().remove(key@)
                },
                Some(failure) => {
                    &&& match failure {
                        PutFailure::Write(failure) => done.is_err() && write_error_matches(
                            failure,
                            done.unwrap_err(),
                        ),
                        _ => done matches Err(BitcaskError::DatabaseBroken(message)) && Some(
                            message@,
                        ) == old(self).db().error,
                    }
                    &&& final(self).db() == old(self).db()
                    &&& final(self).index() == old(self).index()
                },
            },
    {
        match self.database.check_db_error() {
            Err(e) => {
                return Err(e);
            },
            Ok(_) => {},
        }
        if self.keydir.contains_key(key) {
            let timestamp: u64 = now_millis();
            match self.database.write_with_timestamp(key, tombstone_value(), timestamp) {
                Err(e) => {
                    return Err(e);
                },
                Ok(_) => {},
            }
            proof {
                lemma_after_write(old(self).db(), key@, tombstone_bytes(), timestamp);
                lemma_put_keeps_lookups(
                    old(self).db(),
                    old(self).index(),
                    key@,
                    tombstone_bytes(),
                    timestamp,
                );
                lemma_put_keeps_rebuild(old(self).db(), key@, tombstone_bytes(), timestamp);
            }
            self.keydir.delete(key);
        } else {
            assert(self.index().remove(key@) =~= self.index());
        }
        proof {
            lemma_changed_key_changes_contents(
                old(self).db(),
                old(self).index(),
                self.db(),
                self.index(),
                key@,
            );
        }
        Ok(())
    }

    /// Merges the data files: the live rows are written into fresh files,
    /// and the files from before go. Whether the merge succeeds or fails,
    /// every key looks up as it did.
    pub fn merge(&mut self) -> (done: BitcaskResult<()>)
        requires
            old(self).wf(),
        ensures
            final(self).wf(),
            final(self).options() == old(self).options(),
            all_live(old(self).store()) ==> all_live(final(self).store()),
            all_live(old(self).store()) && old(self).db().error.is_none() && old(
                self,
            ).db().last_id + old(self).index().dom().len() + 3 <= u32::MAX ==> done.is_ok(),
            all_live(old(self).store()) && done.is_ok() ==> final(self).index().dom() == old(
                self,
            ).index().dom(),
            final(self).db().error == old(self).db().error,
            forall|key: Seq<u8>| #[trigger] final(self).lookup(key) == old(self).lookup(key),
            keeps_other_keys(old(self).store(), final(self).store(), None),
            final(self).contents() == old(self).contents(),
            forall|key: Seq<u8>| #[trigger]
                final(self).index().contains_key(key) ==> old(self).index().contains_key(key)
                    && final(self).index()[key].timestamp == old(self).index()[key].timestamp,
            match old(self).db().error {
                Some(message) => {
                    &&& done matches Err(BitcaskError::DatabaseBroken(m)) && m@ == message
                    &&& final(self).db() == old(self).db()
                    &&& final(self).index() == old(self).index()
                    &&& final(self).merge_meta() == old(self).merge_meta()
                },
                None => {
                    &&& merge_is_owed(old(self).db(), old(self).index()) ==> done.is_ok()
                    &&& match done {
                        Ok(_) => {
                            &&& one_row_per_key(final(self).db(), final(self).index())
                            &&& forall|key: Seq<u8>| #[trigger]
                                final(self).index().contains_key(key) <==> (old(self).lookup(
                                    key,
                                ) matches Ok(Some(_)))
                            &&& forall|id: FileId| #[trigger]
                                final(self).db().has_file(id) ==> id > old(self).db().last_id
                            &&& final(self).merge_meta().is_some()
                            &&& old(self).db().has_file(
                                final(self).merge_meta().unwrap().known_min_file_id,
                            )
                            &&& forall|id: FileId| #[trigger]
                                old(self).db().has_file(id) ==> final(self).merge_meta().unwrap().known_min_file_id
                                    <= id
                        },
                        Err(e) => {
                            &&& final(self).index() == old(self).index()
                            &&& (final(self).db() == old(self).db() || final(self).db() == old(
                                self,
                            ).db().flushed())
                            &&& final(self).merge_meta() == old(self).merge_meta()
                            &&& merge_error_matches(old(self).db(), old(self).index(), e)
                        },
                    }
                },
            },
    {
        match self.database.check_db_error() {
            Err(e) => {
                return Err(e);
            },
            Ok(_) => {},
        }
        let done = self.merge_manager.merge(&mut self.database, &mut self.keydir);
        proof {
            lemma_same_lookups_same_contents(
                old(self).db(),
                old(self).index(),
                self.db(),
                self.index(),
            );
        }
        done
    }

    /// What the last merge that succeeded left on record: the least id among
    /// the files that the database had when that merge began.
    pub fn last_merge_meta(&self) -> (meta: Option<MergeMeta>)
        ensures
            meta == self.merge_meta(),
    {
        self.merge_manager.get_meta()
    }

    /// Marks what the writable file holds as handed on: the store holds what
    /// it held, and no row is unsynced any more.
    pub fn sync(&mut self) -> (done: BitcaskResult<()>)
        requires
            old(self).wf(),
        ensures
            done.is_ok(),
            final(self).wf(),
            final(self).options() == old(self).options(),
            all_live(old(self).store()) ==> all_live(final(self).store()),
            final(self).db() == old(self).db(),
            final(self).index() == old(self).index(),
            final(self).merge_meta() == old(self).merge_meta(),
            keeps_other_keys(old(self).store(), final(self).store(), None),
            !final(self).unsynced(),
    {
        self.database.sync()
    }

    /// Whether the store holds a row that was written since it was last
    /// synced.
    pub fn is_dirty(&self) -> (dirty: bool)
        ensures
            dirty == self.unsynced(),
    {
        self.database.is_dirty()
    }

    /// Gives up every key and every row. A failure to do so breaks the
    /// database.
    pub fn drop(&mut self) -> (done: BitcaskResult<()>)
        requires
            old(self).wf(),
        ensures
            final(self).wf(),
            final(self).options() == old(self).options(),
            all_live(old(self).store()) ==> all_live(final(self).store()),
            final(self).merge_meta() == old(self).merge_meta(),
            if old(self).db().writing_holds_rows() && old(self).db().last_id == u32::MAX {
                &&& done matches Err(BitcaskError::DatabaseBroken(_))
                &&& final(self).index() == old(self).index()
                &&& final(self).db().error.is_some()
                &&& final(self).db() == (DatabaseView {
                    error: final(self).db().error,
                    ..old(self).db()
                })
            } else {
                &&& done.is_ok()
                &&& final(self).index() == Map::<Seq<u8>, KeyDirEntry>::empty()
                &&& final(self).db() == old(self).db().flushed().without_stable()
                &&& forall|key: Seq<u8>| #[trigger]
                    final(self).lookup(key) == Ok::<Option<Seq<u8>>, ReadFailure>(None)
                &&& final(self).contents() == Map::<Seq<u8>, Seq<u8>>::empty()
            },
    {
        match self.database.drop() {
            Err(e) => {
                self.database.mark_db_error("drop database failed".to_string());
                proof {
                    lemma_broken_keeps_index_in_range(old(self).db(), self.db(), self.index());
                }
                return Err(e);
            },
            Ok(_) => {},
        }
        self.keydir.clear();
        proof {
            lemma_dropped_has_no_row(old(self).db());
            assert(self.contents() =~= Map::<Seq<u8>, Seq<u8>>::empty());
        }
        Ok(())
    }

    /// Counts the data files, the keys and the hint files that are still to
    /// be written.
    pub fn stats(&self) -> (stats: BitcaskResult<BitcaskStats>)
        requires
            self.wf(),
        ensures
            stats.is_ok(),
            stats.unwrap().number_of_data_files == saturate_usize(self.db().stable.len() + 1),
            stats.unwrap().number_of_keys == self.index().dom().len(),
            stats.unwrap().number_of_pending_hint_files == self.db().pending_hints.len(),
    {
        let number_of_keys: usize = self.keydir.len();
        match self.database.stats() {
            Ok(stats) => Ok(
                BitcaskStats {
                    number_of_data_files: stats.number_of_data_files,
                    number_of_pending_hint_files: stats.number_of_pending_hint_files,
                    number_of_keys,
                },
            ),
            Err(e) => Err(e),
        }
    }

    /// Every key of the key directory, each once, in no particular order.
    #[verifier::loop_isolation(false)]
    pub fn keys(&self) -> (keys: BitcaskResult<Vec<Vec<u8>>>)
        requires
            self.wf(),
        ensures
            match self.db().error {
                Some(message) => keys matches Err(BitcaskError::DatabaseBroken(m)) && m@
                    == message,
                None => {
                    &&& keys.is_ok()
                    &&& keys.unwrap()@.len() == self.index().dom().len()
                    &&& forall|i: int|
                        0 <= i < keys.unwrap()@.len() ==> self.index().contains_key(
                            #[trigger] keys.unwrap()@[i]@,
                        )
                    &&& forall|i: int, j: int|
                        0 <= i < j < keys.unwrap()@.len() ==> #[trigger] keys.unwrap()@[i]@
                            != #[trigger] keys.unwrap()@[j]@
                    &&& forall|key: Seq<u8>| #[trigger]
                        self.index().contains_key(key) ==> exists|i: int|
                            0 <= i < keys.unwrap()@.len() && #[trigger] keys.unwrap()@[i]@ == key
                },
            },
    {
        match self.database.check_db_error() {
            Err(e) => {
                return Err(e);
            },
            Ok(_) => {},
        }
        let mut entries = self.keydir.entries();
        let ghost all = entries@;
        let mut keys: Vec<Vec<u8>> = Vec::new();
        let mut i: usize = 0;
        while i < entries.len()
            invariant
                i <= entries@.len(),
                keys@.len() == i,
                forall|j: int| 0 <= j < i ==> #[trigger] keys@[j]@ == entries@[j].0@,
            decreases entries@.len() - i,
        {
            keys.push(entries[i].0.clone());
            i += 1;
        }
        proof {
            assert forall|key: Seq<u8>| #[trigger] self.index().contains_key(key) implies exists|
                i: int,
            | 0 <= i < keys@.len() && #[trigger] keys@[i]@ == key by {
                let i = choose|i: int| 0 <= i < entries@.len() && #[trigger] entries@[i].0@ == key;
                assert(keys@[i]@ == key);
            }
            assert forall|i: int| 0 <= i < keys@.len() implies self.index().contains_key(
                #[trigger] keys@[i]@,
            ) by {
                assert(self.index().contains_key(entries@[i].0@));
            }
            assert forall|i: int, j: int| 0 <= i < j < keys@.len() implies #[trigger] keys@[i]@
                != #[trigger] keys@[j]@ by {
                assert(entries@[i].0@ != entries@[j].0@);
            }
        }
        Ok(keys)
    }

    /// Every row of every data file, oldest first, as a key and a value.
    /// Rows that a later row has superseded are among them, and tombstones.
    pub fn pairs(&self) -> (pairs: BitcaskResult<Vec<(Vec<u8>, Vec<u8>)>>)
        requires
            self.wf(),
        ensures
            match self.db().error {
                Some(message) => pairs matches Err(BitcaskError::DatabaseBroken(m)) && m@
                    == message,
                None => {
                    &&& pairs.is_ok()
                    &&& pairs.unwrap()@.len() == self.db().stored_rows().len()
                    &&& forall|i: int|
                        0 <= i < pairs.unwrap()@.len() ==> (#[trigger] pairs.unwrap()@[i]).0@
                            == self.db().stored_rows()[i].1.key && pairs.unwrap()@[i].1@
                            == self.db().stored_rows()[i].1.value
                },
            },
    {
        match self.database.check_db_error() {
            Err(e) => {
                return Err(e);
            },
            Ok(_) => {},
        }
        let mut iter = match self.database.iter() {
            Ok(iter) => iter,
            Err(e) => {
                return Err(e);
            },
        };
        let ghost all = self.db().stored_rows();
        let mut pairs: Vec<(Vec<u8>, Vec<u8>)> = Vec::new();
        proof {
            assert(all.subrange(0, all.len() as int) =~= all);
        }
        loop
            invariant
                iter.wf(),
                pairs@.len() + iter.remaining().len() == all.len(),
                iter.remaining() == all.subrange(pairs@.len() as int, all.len() as int),
                forall|i: int|
                    0 <= i < pairs@.len() ==> (#[trigger] pairs@[i]).0@ == all[i].1.key
                        && pairs@[i].1@ == all[i].1.value,
            ensures
                pairs@.len() == all.len(),
                forall|i: int|
                    0 <= i < pairs@.len() ==> (#[trigger] pairs@[i]).0@ == all[i].1.key
                        && pairs@[i].1@ == all[i].1.value,
            decreases iter.remaining().len(),
        {
            let ghost at = pairs@.len() as int;
            match iter.next() {
                Some(Ok(row)) => {
                    proof {
                        assert(all.subrange(at, all.len() as int)[0] == all[at]);
                        assert(all.subrange(at, all.len() as int).drop_first() =~= all.subrange(
                            at + 1,
                            all.len() as int,
                        ));
                    }
                    pairs.push((row.key, row.value));
                },
                Some(Err(e)) => {
                    return Err(e);
                },
                None => {
                    break ;
                },
            }
        }
        Ok(pairs)
    }

    /// Applies `f` to every key of the key directory, each once, in no
    /// particular order.
    pub fn foreach_key<F: FnMut(&Vec<u8>)>(&self, f: F) -> (done: BitcaskResult<()>)
        requires
            self.wf(),
            forall|key: &Vec<u8>| #[trigger] call_requires(f, (key,)),
        ensures
            match self.db().error {
                Some(message) => done matches Err(BitcaskError::DatabaseBroken(m)) && m@
                    == message,
                None => done.is_ok() && exists|keys: Seq<Vec<u8>>|
                    #![trigger applied_to_keys(f, keys)]
                    each_key_once(keys, self.index()) && applied_to_keys(f, keys),
            },
    {
        let keys = match self.keys() {
            Ok(keys) => keys,
            Err(e) => {
                return Err(e);
            },
        };
        let mut apply = f;
        let mut i: usize = 0;
        while i < keys.len()
            invariant
                i <= keys@.len(),
                apply == f,
                forall|key: &Vec<u8>| #[trigger] call_requires(f, (key,)),
                forall|j: int| 0 <= j < i ==> call_ensures(f, (&#[trigger] keys@[j],), ()),
            decreases keys@.len() - i,
        {
            apply(&keys[i]);
            i += 1;
        }
        proof {
            assert(each_key_once(keys@, self.index()));
            assert(applied_to_keys(f, keys@));
        }
        Ok(())
    }

    /// Folds `f` over the keys of the key directory, each once, in no
    /// particular order, from `init`. An error of `f` ends the fold and is
    /// handed on.
    pub fn fold_key<T, F: FnMut(&Vec<u8>, Option<T>) -> BitcaskResult<Option<T>>>(
        &self,
        f: F,
        init: Option<T>,
    ) -> (folded: BitcaskResult<Option<T>>)
        requires
            self.wf(),
            forall|key: &Vec<u8>, acc: Option<T>| #[trigger] call_requires(f, (key, acc)),
        ensures
            self.db().error matches Some(message) ==> folded matches Err(
                BitcaskError::DatabaseBroken(m),
            ) && m@ == message,
            self.db().error.is_none() ==> exists|keys: Seq<Vec<u8>>, accs: Seq<Option<T>>|
                #![trigger folded_over_keys(f, keys, accs, folded)]
                each_key_once(keys, self.index()) && folded_over_keys(f, keys, accs, folded)
                    && accs[0] == init,
            self.db().error.is_none() && self.index().dom().len() == 0 ==> folded == Ok::<
                Option<T>,
                BitcaskError,
            >(init),
    {
        let keys = match self.keys() {
            Ok(keys) => keys,
            Err(e) => {
                return Err(e);
            },
        };
        proof {
            assert(each_key_once(keys@, self.index()));
        }
        let mut apply = f;
        let mut acc: Option<T> = init;
        let ghost mut accs: Seq<Option<T>> = seq![init];
        let mut i: usize = 0;
        while i < keys.len()
            invariant
                i <= keys@.len(),
                apply == f,
                forall|key: &Vec<u8>, acc: Option<T>| #[trigger] call_requires(f, (key, acc)),
                self.db().error.is_none(),
                each_key_once(keys@, self.index()),
                keys@.len() == 0 ==> acc == init,
                accs.len() == i + 1,
                accs[0] == init,
                accs[i as int] == acc,
                forall|j: int|
                    0 <= j < i ==> call_ensures(
                        f,
                        (&keys@[j], #[trigger] accs[j]),
                        Ok::<Option<T>, BitcaskError>(accs[j + 1]),
                    ),
            decreases keys@.len() - i,
        {
            let ghost given = acc;
            let step = apply(&keys[i], acc);
            proof {
                assert(call_ensures(f, (&keys@[i as int], given), step));
            }
            acc = match step {
                Ok(next) => {
                    proof {
                        let before = accs;
                        accs = accs.push(next);
                        assert forall|j: int| 0 <= j < i + 1 implies call_ensures(
                            f,
                            (&keys@[j], #[trigger] accs[j]),
                            Ok::<Option<T>, BitcaskError>(accs[j + 1]),
                        ) by {
                            assert(accs[j] == before[j]);
                            if j < i {
                                assert(accs[j + 1] == before[j + 1]);
                                assert(call_ensures(
                                    f,
                                    (&keys@[j], before[j]),
                                    Ok::<Option<T>, BitcaskError>(before[j + 1]),
                                ));
                            }
                        }
                    }
                    next
                },
                Err(e) => {
                    proof {
                        assert(folded_over_keys(f, keys@, accs, Err::<Option<T>, BitcaskError>(e)));
                    }
                    return Err(e);
                },
            };
            i += 1;
        }
        proof {
            assert(folded_over_keys(f, keys@, accs, Ok::<Option<T>, BitcaskError>(acc)));
        }
        Ok(acc)
    }

    /// Whether every key of the key directory has a row that can be read.
    pub open spec fn all_readable(&self) -> bool {
        forall|key: Seq<u8>| (#[trigger] self.lookup(key)).is_ok()
    }

    /// Whether the lookup of the key fails, and with this error.
    pub open spec fn lookup_fails_with(&self, key: Seq<u8>, error: BitcaskError) -> bool {
        match self.lookup(key) {
            Ok(_) => false,
            Err(failure) => failure_matches(failure, self.index()[key].location(), error),
        }
    }

    /// Whether the error is the one that the lookup of a key fails with.
    pub open spec fn read_fails_with(&self, error: BitcaskError) -> bool {
        exists|key: Seq<u8>| #[trigger] self.lookup_fails_with(key, error)
    }

    /// What the store holds: every key that has a value, once, with the
    /// value that `get` gives for it, in the order in which their rows stand
    /// in the files. A superseded value is not among them, nor a deleted
    /// key, nor a tombstone. A row that cannot be read ends the walk, and
    /// its error is handed on.
    pub fn live_pairs(&self) -> (pairs: BitcaskResult<Vec<(Vec<u8>, Vec<u8>)>>)
        requires
            self.wf(),
        ensures
            match self.db().error {
                Some(message) => pairs matches Err(BitcaskError::DatabaseBroken(m)) && m@
                    == message,
                None => match pairs {
                    Ok(found) => self.all_readable() && each_live_pair(found@, self.contents())
                        && in_row_order(found@, self.index()),
                    Err(e) => self.read_fails_with(e),
                },
            },
            self.db().error.is_none() && all_live(self.store()) ==> pairs.is_ok(),
    {
        match self.database.check_db_error() {
            Err(e) => {
                return Err(e);
            },
            Ok(_) => {},
        }
        let entries = self.keydir.entries_in_row_order();
        let mut pairs: Vec<(Vec<u8>, Vec<u8>)> = Vec::new();
        proof {
            assert forall|key: Seq<u8>| #[trigger] self.index().contains_key(key) implies key_among(
                entries@,
                entries@.len() as int,
                key,
            ) by {
                let j = choose|j: int| 0 <= j < entries@.len() && #[trigger] entries@[j].0@ == key;
                assert(entries@[j].0@ == key);
            }
            assert(entries_of(entries@, self.index()));
        }
        let mut i: usize = 0;
        while i < entries.len()
            invariant
                i <= entries@.len(),
                self.wf(),
                self.db().error.is_none(),
                entries_of(entries@, self.index()),
                live_pairs_upto(pairs@, entries@, i as int, self.db(), self.index()),
            decreases entries@.len() - i,
        {
            let location: RowLocation = entries[i].1.row_location();
            proof {
                assert(self.index().contains_key(entries@[i as int].0@));
                assert(self.index()[entries@[i as int].0@] == entries@[i as int].1);
            }
            match self.database.read_value(&location) {
                Ok(found) => {
                    if is_tombstone(found.value.as_slice()) {
                        proof {
                            lemma_live_pair_skipped(
                                pairs@,
                                entries@,
                                i as int,
                                self.db(),
                                self.index(),
                            );
                        }
                    } else {
                        let ghost before = pairs@;
                        let pair = (entries[i].0.clone(), found.value.into_vec());
                        proof {
                            lemma_live_pair_added(
                                before,
                                entries@,
                                i as int,
                                self.db(),
                                self.index(),
                                pair,
                            );
                        }
                        pairs.push(pair);
                    }
                },
                Err(e) => {
                    proof {
                        assert(self.lookup_fails_with(entries@[i as int].0@, e));
                    }
                    return Err(e);
                },
            }
            i += 1;
        }
        proof {
            lemma_live_pairs_done(pairs@, entries@, self.db(), self.index());
        }
        Ok(pairs)
    }

    /// Applies `f` to the key and the value of every live pair, as
    /// `live_pairs` gives them: once for every key that has a value, with
    /// the value that `get` gives for it, and never to a superseded value, a
    /// deleted key or a tombstone. Where a row cannot be read, `f` is not
    /// applied at all and the error of the read is handed on.
    pub fn foreach<F: FnMut(&Vec<u8>, &Vec<u8>)>(&self, f: F) -> (done: BitcaskResult<()>)
        requires
            self.wf(),
            forall|key: &Vec<u8>, value: &Vec<u8>| #[trigger] call_requires(f, (key, value)),
        ensures
            match self.db().error {
                Some(message) => done matches Err(BitcaskError::DatabaseBroken(m)) && m@
                    == message,
                None => match done {
                    Ok(_) => self.all_readable() && exists|pairs: Seq<(Vec<u8>, Vec<u8>)>|
                        #![trigger applied_to_pairs(f, pairs)]
                        each_live_pair(pairs, self.contents()) && in_row_order(
                            pairs,
                            self.index(),
                        ) && applied_to_pairs(f, pairs),
                    Err(e) => self.read_fails_with(e),
                },
            },
            self.db().error.is_none() && all_live(self.store()) ==> done.is_ok(),
    {
        let pairs = match self.live_pairs() {
            Ok(pairs) => pairs,
            Err(e) => {
                return Err(e);
            },
        };
        let mut apply = f;
        let mut i: usize = 0;
        while i < pairs.len()
            invariant
                i <= pairs@.len(),
                apply == f,
                forall|key: &Vec<u8>, value: &Vec<u8>| #[trigger] call_requires(f, (key, value)),
                forall|j: int|
                    0 <= j < i ==> call_ensures(f, (&(#[trigger] pairs@[j]).0, &pairs@[j].1), ()),
            decreases pairs@.len() - i,
        {
            apply(&pairs[i].0, &pairs[i].1);
            i += 1;
        }
        proof {
            assert(applied_to_pairs(f, pairs@));
        }
        Ok(())
    }

    /// Folds `f` over the key and the value of every live pair, as
    /// `live_pairs` gives them, from `init`. Where a row cannot be read, `f`
    /// is not applied at all and the error of the read is handed on. An
    /// error of `f` ends the fold and is handed on.
    pub fn fold<T, F: FnMut(&Vec<u8>, &Vec<u8>, Option<T>) -> BitcaskResult<Option<T>>>(
        &self,
        f: F,
        init: Option<T>,
    ) -> (folded: BitcaskResult<Option<T>>)
        requires
            self.wf(),
            forall|key: &Vec<u8>, value: &Vec<u8>, acc: Option<T>| #[trigger]
                call_requires(f, (key, value, acc)),
        ensures
            self.db().error matches Some(message) ==> folded matches Err(
                BitcaskError::DatabaseBroken(m),
            ) && m@ == message,
            self.db().error.is_none() && !self.all_readable() ==> (folded matches Err(e)
                && self.read_fails_with(e)),
            self.db().error.is_none() && self.all_readable() ==> exists|
                pairs: Seq<(Vec<u8>, Vec<u8>)>,
                accs: Seq<Option<T>>,
            |
                #![trigger folded_over_pairs(f, pairs, accs, folded)]
                each_live_pair(pairs, self.contents()) && in_row_order(pairs, self.index())
                    && folded_over_pairs(f, pairs, accs, folded) && accs[0] == init,
    {
        let pairs = match self.live_pairs() {
            Ok(pairs) => pairs,
            Err(e) => {
                proof {
                    if self.db().error.is_none() {
                        let key = choose|key: Seq<u8>| #[trigger]
                            self.lookup_fails_with(key, e);
                        assert(self.lookup(key).is_err());
                    }
                }
                return Err(e);
            },
        };
        let mut apply = f;
        let mut acc: Option<T> = init;
        let ghost mut accs: Seq<Option<T>> = seq![init];
        let mut i: usize = 0;
        while i < pairs.len()
            invariant
                i <= pairs@.len(),
                apply == f,
                forall|key: &Vec<u8>, value: &Vec<u8>, acc: Option<T>| #[trigger]
                    call_requires(f, (key, value, acc)),
                self.db().error.is_none(),
                self.all_readable(),
                each_live_pair(pairs@, self.contents()),
                in_row_order(pairs@, self.index()),
                accs.len() == i + 1,
                accs[0] == init,
                accs[i as int] == acc,
                forall|j: int|
                    0 <= j < i ==> call_ensures(
                        f,
                        (&pairs@[j].0, &pairs@[j].1, #[trigger] accs[j]),
                        Ok::<Option<T>, BitcaskError>(accs[j + 1]),
                    ),
            decreases pairs@.len() - i,
        {
            let ghost given = acc;
            let step = apply(&pairs[i].0, &pairs[i].1, acc);
            proof {
                assert(call_ensures(f, (&pairs@[i as int].0, &pairs@[i as int].1, given), step));
            }
            acc = match step {
                Ok(next) => {
                    proof {
                        let before = accs;
                        accs = accs.push(next);
                        assert forall|j: int| 0 <= j < i + 1 implies call_ensures(
                            f,
                            (&pairs@[j].0, &pairs@[j].1, #[trigger] accs[j]),
                            Ok::<Option<T>, BitcaskError>(accs[j + 1]),
                        ) by {
                            assert(accs[j] == before[j]);
                            if j < i {
                                assert(accs[j + 1] == before[j + 1]);
                                assert(call_ensures(
                                    f,
                                    (&pairs@[j].0, &pairs@[j].1, before[j]),
                                    Ok::<Option<T>, BitcaskError>(before[j + 1]),
                                ));
                            }
                        }
                    }
                    next
                },
                Err(e) => {
                    proof {
                        assert(folded_over_pairs(
                            f,
                            pairs@,
                            accs,
                            Err::<Option<T>, BitcaskError>(e),
                        ));
                    }
                    return Err(e);
                },
            };
            i += 1;
        }
        proof {
            assert(folded_over_pairs(f, pairs@, accs, Ok::<Option<T>, BitcaskError>(acc)));
        }
        Ok(acc)
    }

    /// The database under the store, to read from.
    pub fn database(&self) -> (database: &Database)
        requires
            self.wf(),
        ensures
            database@ == self.db(),
            database.wf(),
    {
        &self.database
    }

    /// The files of the store as the directory is to hold them, by ascending
    /// id, the writable file last.
    pub fn export(&self) -> (images: Vec<DataFileImage>)
        requires
            self.wf(),
        ensures
            images@.len() == self.db().stable.len() + 1,
            forall|i: int|
                0 <= i < images@.len() ==> crate::database::exported(#[trigger] images@[i])
                    == self.db().file_at(i),
    {
        self.database.export()
    }

    /// Writes the hint file of the read-only file that has waited longest
    /// for it, and hands out the id of that file and the bytes of the hint
    /// file. No key looks up otherwise for it.
    pub fn write_pending_hint_file(&mut self) -> (written: Option<(FileId, Vec<u8>)>)
        requires
            old(self).wf(),
        ensures
            final(self).wf(),
            final(self).options() == old(self).options(),
            all_live(old(self).store()) ==> all_live(final(self).store()),
            final(self).unsynced() == old(self).unsynced(),
            final(self).index() == old(self).index(),
            final(self).merge_meta() == old(self).merge_meta(),
            forall|key: Seq<u8>| #[trigger] final(self).lookup(key) == old(self).lookup(key),
            keeps_other_keys(old(self).store(), final(self).store(), None),
            final(self).contents() == old(self).contents(),
            old(self).db().pending_hints.len() == 0 ==> written.is_none() && final(self).db()
                == old(self).db(),
            old(self).db().pending_hints.len() > 0 ==> final(self).db().pending_hints == old(
                self,
            ).db().pending_hints.drop_first(),
            match written {
                Some((id, hint)) => old(self).db().pending_hints.len() > 0 && id == old(
                    self,
                ).db().pending_hints[0] && old(self).db().awaits_hint(id) && hint@
                    == crate::recovery::hint_of(old(self).db().file(id), id),
                None => old(self).db().pending_hints.len() == 0 || !old(self).db().awaits_hint(
                    old(self).db().pending_hints[0],
                ),
            },
    {
        proof {
            self.database.lemma_files_fit();
        }
        let written = self.database.write_pending_hint_file();
        proof {
            lemma_hint_keeps_files(old(self).db(), self.db());
            lemma_lookups_in_extension(old(self).db(), self.db(), self.index());
            lemma_same_lookups_same_contents(
                old(self).db(),
                old(self).index(),
                self.db(),
                self.index(),
            );
            if old(self).db().pending_hints.len() > 0 {
                let id = old(self).db().pending_hints[0];
                if old(self).db().awaits_hint(id) {
                    let at = old(self).db().stable_index(id);
                    crate::database::lemma_stable_index(old(self).db(), at);
                    assert(old(self).db().file_at(at) == old(self).db().stable[at]);
                    crate::database::lemma_written_hint_keeps_rebuild(old(self).db(), at);
                } else {
                    crate::database::lemma_same_files_same_rows(
                        self.db(),
                        old(self).db(),
                        old(self).db().stable.len() as int + 1,
                    );
                }
            }
        }
        written
    }

    /// Why a `delete` of `key` is refused, if it is: the database is broken,
    /// or the key is held and its tombstone cannot be written.
    pub open spec fn delete_failure(&self, key: Seq<u8>) -> Option<PutFailure> {
        if self.db().error.is_some() {
            Some(PutFailure::Broken)
        } else if !self.index().contains_key(key) {
            None
        } else {
            match self.db().write_failure(key.len(), tombstone_bytes().len()) {
                Some(failure) => Some(PutFailure::Write(failure)),
                None => None,
            }
        }
    }
}

} // verus!
