//! The database: one writable data file, the read-only files before it, and
//! the rule that a row goes into the writable file or, when that file is
//! full, into a new one.

use super::files::StableFiles;
use super::load::{
    exported, files_ascend, load_result_matches, parts_view, prepare_load_storages, stable_view,
    stable_views, DataFileImage, StableFile,
};
use super::rows::{file_rows, lemma_stored_rows_step};
use super::view::{
    flush_result_matches, lemma_rolled_extends, lemma_stable_count, lemma_stable_index,
    lemma_with_row_extends, read_result_matches, saturate_u64, saturate_usize, total_size,
    write_result_matches, DatabaseView, FileView,
};
use crate::clock::now_millis;
use crate::common::{
    recovered_views, RecoveredRow, RecoveredRowView, RowLocation, RowToRead, RowToWrite,
    TimedValue, Value,
};
use crate::data_storage::{
    lemma_row_at_bounds, read_row_at, row_matches, DataStorage, DataStorageOptions,
    DataStorageReader, DataStorageWriter, RowRecord,
};
use crate::error::{BitcaskError, BitcaskResult, DataStorageError, FormatterError};
use crate::file_id::{FileId, FileIdGenerator};
use crate::formatter::{
    lemma_file_header_decodes, row_bytes, DATA_FILE_KEY_OFFSET, FILE_HEADER_SIZE,
};
use crate::hint::HintFile;
use crate::recovery::{hint_of, latest_data_rows, rows_in_range, scan_data_rows};
use vstd::prelude::*;

verus! {

/// The options of a database.
#[derive(Debug, Clone, Copy)]
pub struct DataBaseOptions {
    pub storage_options: DataStorageOptions,
    /// How often, in seconds, the writable file is synced; zero for never.
    pub sync_interval_sec: u64,
}

/// Counts of a database.
#[derive(Debug)]
pub struct DatabaseStats {
    /// The number of data files.
    pub number_of_data_files: usize,
    /// The bytes that the data files hold, all together; `u64::MAX` when the
    /// sum is greater than that.
    pub total_data_size_in_bytes: u64,
    /// The number of read-only files whose hint file has not been written.
    pub number_of_pending_hint_files: usize,
}

/// The ids of the files of a database.
#[derive(Debug)]
pub struct FileIds {
    pub stable_file_ids: Vec<FileId>,
    pub writing_file_id: FileId,
}

/// The database: the writable file, the read-only files by ascending id,
/// held in a concurrent map under their ids, the allocator of file ids, and
/// the message of the failure that broke the database, if one did.
#[derive(Debug)]
pub struct Database {
    file_id_generator: FileIdGenerator,
    writing_storage: DataStorage,
    stable_storages: StableFiles,
    pending_hint_files: Vec<FileId>,
    options: DataBaseOptions,
    is_error: Option<String>,
}

impl View for Database {
    type V = DatabaseView;

    closed spec fn view(&self) -> DatabaseView {
        DatabaseView {
            stable: self.stable_storages@.map_values(|file: StableFile| stable_view(file)),
            writing: FileView {
                id: self.writing_storage.id(),
                bytes: self.writing_storage.bytes(),
                readonly: self.writing_storage.readonly(),
                hint: None,
            },
            last_id: self.file_id_generator.current(),
            pending_hints: self.pending_hint_files@,
            max_file_size: self.options.storage_options.max_data_file_size,
            error: match self.is_error {
                Some(message) => Some(message@),
                None => None,
            },
        }
    }
}

impl Database {
    /// Every file is well formed and has the options of the database.
    pub closed spec fn files_wf(&self) -> bool {
        &&& self.writing_storage.wf()
        &&& self.writing_storage.clean()
        &&& self.writing_storage.options() == self.options.storage_options
        &&& forall|i: int|
            0 <= i < self.stable_storages@.len() ==> (
            #[trigger] self.stable_storages@[i]).storage.wf() && self.stable_storages@[i].storage.clean()
        &&& self.stable_storages.wf()
    }

    /// The database is well formed: its view is, and so is every file.
    pub open spec fn wf(&self) -> bool {
        self@.wf() && self.files_wf()
    }

    /// The options that the database was opened with.
    pub closed spec fn options(&self) -> DataBaseOptions {
        self.options
    }

    /// Whether the writable file holds a row that was appended since the
    /// database was last synced: a row that is still to be handed on to the
    /// directory.
    pub closed spec fn unsynced(&self) -> bool {
        self.writing_storage.dirty()
    }

    /// No file is longer than a vector can be.
    pub proof fn lemma_files_fit(&self)
        ensures
            forall|i: int|
                0 <= i <= self@.stable.len() ==> (#[trigger] self@.file_at(i)).bytes.len()
                    <= usize::MAX,
    {
        assert forall|i: int| 0 <= i <= self@.stable.len() implies (#[trigger] self@.file_at(
            i,
        )).bytes.len() <= usize::MAX by {
            if i < self@.stable.len() {
                self.stable_storages@[i].storage.lemma_size_fits();
            } else {
                self.writing_storage.lemma_size_fits();
            }
        }
    }

    /// The options that the database was opened with.
    pub fn get_options(&self) -> (options: DataBaseOptions)
        ensures
            options == self.options(),
            options.storage_options.max_data_file_size == self@.max_file_size,
    {
        self.options
    }

    /// The least of the ids of the files.
    pub fn min_file_id(&self) -> (id: FileId)
        requires
            self.wf(),
        ensures
            self@.has_file(id),
            forall|other: FileId| #[trigger] self@.has_file(other) ==> id <= other,
    {
        if self.stable_storages.len() > 0 {
            let id: FileId = self.stable_storages.id_at(0);
            proof {
                lemma_stable_index(self@, 0);
                assert forall|other: FileId| #[trigger] self@.has_file(other) implies id
                    <= other by {
                    if other != self@.writing.id {
                        let at = self@.stable_index(other);
                        assert(self@.stable[at].id == other);
                        if at > 0 {
                            assert(self@.stable[0].id < self@.stable[at].id);
                        }
                    } else {
                        assert(self@.stable[0].id < self@.writing.id);
                    }
                }
            }
            id
        } else {
            self.writing_storage.file_id()
        }
    }

    /// Whether the writable file holds a row that was appended since the
    /// database was last synced.
    pub fn is_dirty(&self) -> (dirty: bool)
        ensures
            dirty == self.unsynced(),
    {
        self.writing_storage.is_dirty()
    }

    /// The id of the writable file.
    pub fn get_max_file_id(&self) -> (id: FileId)
        ensures
            id == self@.writing.id,
    {
        self.writing_storage.file_id()
    }

    /// Appends a row for `key` and `value`, stamped with the time of the
    /// call.
    pub fn write(&mut self, key: &Vec<u8>, value: TimedValue<Vec<u8>>) -> (location: BitcaskResult<
        RowLocation,
    >)
        requires
            old(self).wf(),
        ensures
            final(self).wf(),
            exists|timestamp: u64|
                write_result_matches(
                    old(self)@,
                    key@,
                    value.value@,
                    timestamp,
                    location,
                    final(self)@,
                ),
            final(self).options() == old(self).options(),
            location.is_ok() ==> final(self).unsynced(),
            location.is_err() ==> final(self).unsynced() == old(self).unsynced(),
    {
        let now: u64 = now_millis();
        self.write_with_timestamp(key, value.value, now)
    }

    /// Appends a row for `key` and `value` with the given timestamp.
    pub fn write_with_timestamp(&mut self, key: &Vec<u8>, value: Vec<u8>, timestamp: u64) -> (location:
        BitcaskResult<RowLocation>)
        requires
            old(self).wf(),
        ensures
            final(self).wf(),
            final(self).options() == old(self).options(),
            write_result_matches(old(self)@, key@, value@, timestamp, location, final(self)@),
            location.is_ok() ==> final(self).unsynced(),
            location.is_err() ==> final(self).unsynced() == old(self).unsynced(),
    {
        let max: usize = self.options.storage_options.max_data_file_size;
        if max < FILE_HEADER_SIZE + DATA_FILE_KEY_OFFSET || key.len() > max - FILE_HEADER_SIZE
            - DATA_FILE_KEY_OFFSET || value.len() > max - FILE_HEADER_SIZE - DATA_FILE_KEY_OFFSET
            - key.len() {
            return Err(
                BitcaskError::InvalidParameter(
                    "row".to_string(),
                    "row does not fit a data file".to_string(),
                ),
            );
        }
        let row = RowToWrite::new_with_timestamp(key, value, timestamp);
        proof {
            crate::formatter::lemma_row_bytes_fields(timestamp, key@, value@);
            crate::formatter::lemma_decode_row_of_row_bytes(timestamp, key@, value@);
            assert(row.encoded() =~= row_bytes(timestamp, key@, value@));
            lemma_with_row_extends(self@, row.encoded());
            lemma_file_header_decodes();
        }
        match self.writing_storage.write_row(&row) {
            Ok(location) => {
                return Ok(location);
            },
            Err(_) => {},
        }
        match self.do_flush_writing_file() {
            Err(e) => {
                return Err(e);
            },
            Ok(_) => {},
        }
        proof {
            lemma_rolled_extends(old(self)@);
            lemma_with_row_extends(self@, row.encoded());
        }
        match self.writing_storage.write_row(&row) {
            Ok(location) => Ok(location),
            Err(_) => Err(BitcaskError::DatabaseBroken("writable file refused a row".to_string())),
        }
    }

    /// Closes the writable file and begins a new one, if the writable file
    /// holds a row.
    pub fn flush_writing_file(&mut self) -> (done: BitcaskResult<()>)
        requires
            old(self).wf(),
        ensures
            final(self).wf(),
            final(self).options() == old(self).options(),
            flush_result_matches(old(self)@, done, final(self)@),
            final(self).unsynced() == (old(self).unsynced() && !(done.is_ok() && old(
                self,
            )@.writing_holds_rows())),
    {
        self.do_flush_writing_file()
    }

    fn do_flush_writing_file(&mut self) -> (done: BitcaskResult<()>)
        requires
            old(self).wf(),
        ensures
            final(self).wf(),
            final(self).options() == old(self).options(),
            flush_result_matches(old(self)@, done, final(self)@),
            final(self).unsynced() == (old(self).unsynced() && !(done.is_ok() && old(
                self,
            )@.writing_holds_rows())),
    {
        if self.writing_storage.file_size() <= FILE_HEADER_SIZE {
            return Ok(());
        }
        let next_file_id: FileId = match self.file_id_generator.try_generate_next_file_id() {
            Some(id) => id,
            None => {
                return Err(BitcaskError::DatabaseBroken("file ids are used up".to_string()));
            },
        };
        let mut storage: DataStorage = DataStorage::new(
            next_file_id,
            self.options.storage_options,
        ).unwrap();
        std::mem::swap(&mut self.writing_storage, &mut storage);
        let file_id: FileId = storage.file_id();
        let stable: DataStorage = storage.transit_to_readonly().unwrap();
        proof {
            assert forall|i: int| 0 <= i < self.stable_storages@.len() implies (
            #[trigger] self.stable_storages@[i]).storage.id() != file_id by {
                assert(old(self)@.stable[i] == stable_view(self.stable_storages@[i]));
                assert(old(self)@.stable[i].id < old(self)@.writing.id);
            }
        }
        self.stable_storages.push(StableFile { storage: stable, hint: None });
        self.pending_hint_files.push(file_id);
        proof {
            lemma_rolled_extends(old(self)@);
            assert(self@.stable =~= old(self)@.rolled().stable);
            assert(self@ == old(self)@.rolled());
        }
        Ok(())
    }
}

impl Database {
    /// Reads the value of the row at `row_position`.
    pub fn read_value(&self, row_position: &RowLocation) -> (value: BitcaskResult<
        TimedValue<Value>,
    >)
        requires
            self.wf(),
        ensures
            read_result_matches(self@.read(*row_position), *row_position, value),
    {
        let read = if row_position.file_id == self.writing_storage.file_id() {
            self.writing_storage.read_value(row_position.row_offset, row_position.row_size)
        } else {
            match self.stable_storages.with_file_of(
                row_position.file_id,
                (row_position.row_offset, row_position.row_size),
                read_in,
            ) {
                Some(read) => {
                    proof {
                        let at = choose|i: int|
                            0 <= i < self.stable_storages@.len() && (
                            #[trigger] self.stable_storages@[i]).storage.id()
                                == row_position.file_id && call_ensures(
                                read_in,
                                (
                                    &self.stable_storages@[i],
                                    (row_position.row_offset, row_position.row_size),
                                ),
                                read,
                            );
                        assert(self@.stable[at] == stable_view(self.stable_storages@[at]));
                        lemma_stable_index(self@, at);
                    }
                    read
                },
                None => {
                    proof {
                        if self@.has_stable(row_position.file_id) {
                            let at = self@.stable_index(row_position.file_id);
                            assert(self@.stable[at] == stable_view(self.stable_storages@[at]));
                        }
                    }
                    return Err(BitcaskError::TargetFileIdNotFound(row_position.file_id));
                },
            }
        };
        match read {
            Ok(value) => Ok(value),
            Err(DataStorageError::DataStorageFormatter(FormatterError::ChecksumMismatch(
                expected,
                actual,
            ))) => Err(
                BitcaskError::CrcCheckFailed(
                    row_position.file_id,
                    row_position.row_offset,
                    expected,
                    actual,
                ),
            ),
            Err(_) => Err(
                BitcaskError::DataFileCorrupted(
                    String::new(),
                    row_position.file_id,
                    "the location does not hold a row".to_string(),
                ),
            ),
        }
    }

    /// The ids of the files.
    pub fn get_file_ids(&self) -> (ids: FileIds)
        requires
            self.wf(),
        ensures
            ids.writing_file_id == self@.writing.id,
            ids.stable_file_ids@.len() == self@.stable.len(),
            forall|i: int|
                0 <= i < self@.stable.len() ==> ids.stable_file_ids@[i] == (
                #[trigger] self@.stable[i]).id,
    {
        let mut stable_file_ids: Vec<FileId> = Vec::new();
        let mut i: usize = 0;
        while i < self.stable_storages.len()
            invariant
                i <= self.stable_storages@.len(),
                self.wf(),
                stable_file_ids@.len() == i,
                forall|j: int|
                    0 <= j < i ==> stable_file_ids@[j] == (#[trigger] self@.stable[j]).id,
            decreases self.stable_storages@.len() - i,
        {
            stable_file_ids.push(self.stable_storages.id_at(i));
            i += 1;
        }
        FileIds { stable_file_ids, writing_file_id: self.writing_storage.file_id() }
    }

    /// Counts the files, their bytes and the hint files that are still to be
    /// written.
    pub fn stats(&self) -> (stats: BitcaskResult<DatabaseStats>)
        requires
            self.wf(),
        ensures
            stats.is_ok(),
            stats.unwrap().number_of_data_files == saturate_usize(self@.stable.len() + 1),
            stats.unwrap().total_data_size_in_bytes == saturate_u64(
                total_size(self@.stable, self@.stable.len() as int) + self@.writing.bytes.len(),
            ),
            stats.unwrap().number_of_pending_hint_files == self@.pending_hints.len(),
    {
        let mut total: u64 = 0;
        let mut i: usize = 0;
        while i < self.stable_storages.len()
            invariant
                i <= self.stable_storages@.len(),
                self.wf(),
                total == saturate_u64(total_size(self@.stable, i as int)),
            decreases self.stable_storages@.len() - i,
        {
            let size: u64 = self.stable_storages.with_file(i, (), size_of_file) as u64;
            assert(self@.stable[i as int].bytes.len() == size);
            total = total.saturating_add(size);
            i += 1;
        }
        total = total.saturating_add(self.writing_storage.file_size() as u64);
        Ok(
            DatabaseStats {
                number_of_data_files: self.stable_storages.len().saturating_add(1),
                total_data_size_in_bytes: total,
                number_of_pending_hint_files: self.pending_hint_files.len(),
            },
        )
    }

    /// Marks what the writable file holds as handed on: the files stay as
    /// they are, and no row is unsynced any more.
    pub fn close(&mut self) -> (done: BitcaskResult<()>)
        requires
            old(self).wf(),
        ensures
            done.is_ok(),
            final(self).wf(),
            final(self)@ == old(self)@,
            final(self).options() == old(self).options(),
            !final(self).unsynced(),
    {
        self.sync()
    }

    /// Marks what the writable file holds as handed on: the files stay as
    /// they are, and no row is unsynced any more.
    pub fn sync(&mut self) -> (done: BitcaskResult<()>)
        requires
            old(self).wf(),
        ensures
            done.is_ok(),
            final(self).wf(),
            final(self)@ == old(self)@,
            final(self).options() == old(self).options(),
            !final(self).unsynced(),
    {
        let _ = self.writing_storage.flush();
        Ok(())
    }

    /// Gives up every row: the writable file is flushed, then the read-only
    /// files go.
    pub fn drop(&mut self) -> (done: BitcaskResult<()>)
        requires
            old(self).wf(),
        ensures
            final(self).wf(),
            final(self).options() == old(self).options(),
            if old(self)@.writing_holds_rows() && old(self)@.last_id == u32::MAX {
                done matches Err(BitcaskError::DatabaseBroken(_)) && final(self)@ == old(self)@
            } else {
                done.is_ok() && final(self)@ == old(self)@.flushed().without_stable()
            },
    {
        match self.do_flush_writing_file() {
            Err(e) => {
                return Err(e);
            },
            Ok(_) => {},
        }
        self.stable_storages.clear();
        self.pending_hint_files.clear();
        assert(self@.stable =~= Seq::<FileView>::empty());
        Ok(())
    }

    /// Records the failure that breaks the database.
    pub fn mark_db_error(&mut self, error_string: String)
        ensures
            final(self).unsynced() == old(self).unsynced(),
            final(self)@ == (DatabaseView { error: Some(error_string@), ..old(self)@ }),
            old(self).wf() ==> final(self).wf(),
            final(self).options() == old(self).options(),
    {
        self.is_error = Some(error_string);
    }

    /// Fails with `DatabaseBroken` if a failure has broken the database.
    pub fn check_db_error(&self) -> (checked: Result<(), BitcaskError>)
        ensures
            match self@.error {
                Some(message) => checked matches Err(BitcaskError::DatabaseBroken(m)) && m@
                    == message,
                None => checked.is_ok(),
            },
    {
        match &self.is_error {
            Some(message) => Err(BitcaskError::DatabaseBroken(message.clone())),
            None => Ok(()),
        }
    }
}

impl Database {
    /// Opens a database over the files that the directory holds. The last
    /// file by id goes on as the writable file if it is not read-only; else a
    /// new file is begun.
    pub fn open(
        images: Vec<DataFileImage>,
        file_id_generator: FileIdGenerator,
        options: DataBaseOptions,
    ) -> (opened: BitcaskResult<Database>)
        ensures
            match opened {
                Ok(database) => database.wf() && database.options() == options
                    && load_result_matches(
                    images@,
                    file_id_generator.current(),
                    options.storage_options,
                    Ok(database@),
                ),
                Err(e) => load_result_matches(
                    images@,
                    file_id_generator.current(),
                    options.storage_options,
                    Err(e),
                ),
            },
    {
        let mut file_id_generator = file_id_generator;
        let (writing_storage, stable_storages) = match prepare_load_storages(
            images,
            &mut file_id_generator,
            options.storage_options,
        ) {
            Ok(parts) => parts,
            Err(e) => {
                return Err(e);
            },
        };
        proof {
            lemma_files_ascend(
                parts_view(
                    writing_storage,
                    stable_storages@,
                    file_id_generator.current(),
                    options.storage_options.max_data_file_size,
                ),
                stable_storages@,
            );
        }
        let stable_storages = StableFiles::of(stable_storages);
        let database = Database {
            file_id_generator,
            writing_storage,
            stable_storages,
            pending_hint_files: Vec::new(),
            options,
            is_error: None,
        };
        proof {
            assert(database@.stable =~= stable_views(database.stable_storages@));
            assert(database@.pending_hints =~= Seq::<FileId>::empty());
            assert(database@ == parts_view(
                database.writing_storage,
                database.stable_storages@,
                database.file_id_generator.current(),
                options.storage_options.max_data_file_size,
            ));
        }
        Ok(database)
    }

    /// Gives up the files of the database and loads the given ones in their
    /// place, as `open` does. What was given out of file ids stays given out.
    pub fn reload_data_files(&mut self, images: Vec<DataFileImage>) -> (done: BitcaskResult<()>)
        requires
            old(self).wf(),
        ensures
            final(self).wf(),
            final(self).options() == old(self).options(),
            match done {
                Ok(_) => exists|view: DatabaseView|
                    #![trigger load_result_matches(images@, old(self)@.last_id, old(self).options().storage_options, Ok(view))]
                    load_result_matches(
                        images@,
                        old(self)@.last_id,
                        old(self).options().storage_options,
                        Ok(view),
                    ) && final(self)@ == (DatabaseView { error: old(self)@.error, ..view }),
                Err(e) => final(self)@ == old(self)@ && load_result_matches(
                    images@,
                    old(self)@.last_id,
                    old(self).options().storage_options,
                    Err(e),
                ),
            },
    {
        let mut generator = FileIdGenerator::new();
        generator.update_file_id(self.file_id_generator.get_file_id());
        let (writing, stables) = match prepare_load_storages(
            images,
            &mut generator,
            self.options.storage_options,
        ) {
            Ok(parts) => parts,
            Err(e) => {
                return Err(e);
            },
        };
        let ghost view = parts_view(
            writing,
            stables@,
            generator.current(),
            self.options.storage_options.max_data_file_size,
        );
        proof {
            lemma_files_ascend(view, stables@);
        }
        self.writing_storage = writing;
        self.stable_storages = StableFiles::of(stables);
        self.file_id_generator = generator;
        self.pending_hint_files.clear();
        proof {
            assert(self@.stable =~= view.stable);
            assert(self@ == (DatabaseView { error: old(self)@.error, ..view }));
            assert(load_result_matches(
                images@,
                old(self)@.last_id,
                old(self).options().storage_options,
                Ok(view),
            ));
        }
        Ok(())
    }

    /// The files of the database as the directory is to hold them, by
    /// ascending id, the writable file last.
    pub fn export(&self) -> (images: Vec<DataFileImage>)
        requires
            self.wf(),
        ensures
            images@.len() == self@.stable.len() + 1,
            forall|i: int|
                0 <= i < images@.len() ==> exported(#[trigger] images@[i]) == self@.file_at(i),
    {
        let mut images: Vec<DataFileImage> = Vec::new();
        let mut i: usize = 0;
        while i < self.stable_storages.len()
            invariant
                i <= self.stable_storages@.len(),
                self.wf(),
                images@.len() == i,
                forall|j: int|
                    0 <= j < i ==> exported(#[trigger] images@[j]) == self@.stable[j],
            decreases self.stable_storages@.len() - i,
        {
            assert(self@.stable[i as int] == stable_view(self.stable_storages@[i as int]));
            images.push(self.stable_storages.with_file(i, (), image_of));
            i += 1;
        }
        images.push(
            DataFileImage {
                file_id: self.writing_storage.file_id(),
                content: vstd::slice::slice_to_vec(self.writing_storage.as_bytes()),
                readonly: false,
                hint: None,
            },
        );
        images
    }

    /// Takes over the files of `merged` in place of its own: the files of
    /// `merged` are then the files of this database, and what `merged` gave
    /// out of file ids is given out here. The failure that broke this
    /// database, if one did, stays on record.
    pub fn adopt(&mut self, merged: Database)
        requires
            old(self).wf(),
            merged.wf(),
            merged.options() == old(self).options(),
        ensures
            final(self).wf(),
            final(self).options() == old(self).options(),
            final(self)@ == (DatabaseView { error: old(self)@.error, ..merged@ }),
    {
        self.writing_storage = merged.writing_storage;
        self.stable_storages = merged.stable_storages;
        self.file_id_generator = merged.file_id_generator;
        self.pending_hint_files = merged.pending_hint_files;
        assert(self@.stable =~= merged@.stable);
    }

    /// The number of files, the writable one among them.
    pub fn file_count(&self) -> (count: usize)
        requires
            self.wf(),
        ensures
            count == self@.stable.len() + 1,
    {
        proof {
            lemma_stable_count(self@);
        }
        self.stable_storages.len() + 1
    }

    /// The writable file.
    pub fn writing_file(&self) -> (storage: &DataStorage)
        ensures
            storage.id() == self@.writing.id,
            storage.bytes() == self@.writing.bytes,
            storage.readonly() == self@.writing.readonly,
            self.wf() ==> storage.wf(),
    {
        &self.writing_storage
    }

    /// A copy of the hint file of the read-only file at `index`, if it has
    /// one.
    pub fn hint_at(&self, index: usize) -> (hint: Option<Vec<u8>>)
        requires
            self.wf(),
        ensures
            match hint {
                Some(bytes) => index < self@.stable.len() && self@.stable[index as int].hint
                    == Some(bytes@),
                None => index >= self@.stable.len() || self@.stable[index as int].hint.is_none(),
            },
    {
        if index < self.stable_storages.len() {
            assert(self@.stable[index as int] == stable_view(self.stable_storages@[index as int]));
            self.stable_storages.with_file(index, (), hint_copy_of)
        } else {
            None
        }
    }

    /// The last file id that was given out.
    pub fn last_file_id(&self) -> (id: FileId)
        ensures
            id == self@.last_id,
    {
        self.file_id_generator.get_file_id()
    }

    /// Writes the hint file of the read-only file that has waited longest
    /// for it, and hands out the id of that file and the bytes of the hint
    /// file. A file that has gone meanwhile gets none, nor does a file that
    /// has a hint file.
    pub fn write_pending_hint_file(&mut self) -> (written: Option<(FileId, Vec<u8>)>)
        requires
            old(self).wf(),
        ensures
            final(self).wf(),
            final(self).options() == old(self).options(),
            final(self).unsynced() == old(self).unsynced(),
            old(self)@.pending_hints.len() == 0 ==> written.is_none() && final(self)@ == old(
                self,
            )@,
            old(self)@.pending_hints.len() > 0 ==> {
                let id = old(self)@.pending_hints[0];
                if old(self)@.awaits_hint(id) {
                    let at = old(self)@.stable_index(id);
                    &&& written matches Some((file_id, hint)) && file_id == id && hint@
                        == crate::recovery::hint_of(old(self)@.stable[at].bytes, id)
                    &&& final(self)@ == (DatabaseView {
                        stable: old(self)@.stable.update(
                            at,
                            FileView {
                                hint: Some(crate::recovery::hint_of(old(self)@.stable[at].bytes, id)),
                                ..old(self)@.stable[at]
                            },
                        ),
                        pending_hints: old(self)@.pending_hints.drop_first(),
                        ..old(self)@
                    })
                } else {
                    written.is_none() && final(self)@ == (DatabaseView {
                        pending_hints: old(self)@.pending_hints.drop_first(),
                        ..old(self)@
                    })
                }
            },
    {
        if self.pending_hint_files.len() == 0 {
            return None;
        }
        let file_id: FileId = self.pending_hint_files.remove(0);
        assert(self.pending_hint_files@ =~= old(self)@.pending_hints.drop_first());
        let at: usize = match self.find_stable(file_id) {
            Some(at) => at,
            None => {
                assert(self@.stable =~= old(self)@.stable);
                return None;
            },
        };
        assert(self@.stable[at as int] == stable_view(self.stable_storages@[at as int]));
        let hint: Vec<u8> = match self.stable_storages.with_file(at, (), hint_for) {
            Some(hint) => hint,
            None => {
                assert(self@.stable =~= old(self)@.stable);
                return None;
            },
        };
        let copy: Vec<u8> = hint.clone();
        let ghost before = self.stable_storages@;
        proof {
            assert forall|j: int| 0 <= j < before.len() && j != at implies (#[trigger] before[j]).storage.id()
                != before[at as int].storage.id() by {
                assert(self@.stable[j] == stable_view(before[j]));
                if j < at {
                    assert(self@.stable[j].id < self@.stable[at as int].id);
                } else {
                    assert(self@.stable[at as int].id < self@.stable[j].id);
                }
            }
        }
        self.stable_storages.set_hint(at, hint);
        proof {
            assert(self@.stable =~= old(self)@.stable.update(
                at as int,
                FileView {
                    hint: Some(crate::recovery::hint_of(old(self)@.stable[at as int].bytes, file_id)),
                    ..old(self)@.stable[at as int]
                },
            ));
            assert forall|i: int| 0 <= i < self.stable_storages@.len() implies (
            #[trigger] self.stable_storages@[i]).storage.wf() && self.stable_storages@[i].storage.clean() by {
                if i != at {
                    assert(self.stable_storages@[i] == before[i]);
                }
            }
        }
        Some((file_id, copy))
    }

    /// The place of the read-only file with the id `file_id`.
    fn find_stable(&self, file_id: FileId) -> (place: Option<usize>)
        requires
            self.wf(),
        ensures
            match place {
                Some(at) => self@.has_stable(file_id) && at == self@.stable_index(file_id) && at
                    < self@.stable.len(),
                None => !self@.has_stable(file_id),
            },
    {
        let place = self.stable_storages.find(file_id);
        proof {
            match place {
                Some(at) => {
                    assert(self@.stable[at as int] == stable_view(
                        self.stable_storages@[at as int],
                    ));
                    lemma_stable_index(self@, at as int);
                },
                None => {
                    if self@.has_stable(file_id) {
                        let i = self@.stable_index(file_id);
                        assert(self@.stable[i] == stable_view(self.stable_storages@[i]));
                    }
                },
            }
        }
        place
    }
}

/// Files whose views ascend by id ascend by id.
proof fn lemma_files_ascend(view: DatabaseView, files: Seq<StableFile>)
    requires
        view.wf(),
        view.stable == stable_views(files),
    ensures
        files_ascend(files),
{
    assert forall|i: int, j: int| 0 <= i < j < files.len() implies (
    #[trigger] files[i]).storage.id() < (#[trigger] files[j]).storage.id() by {
        assert(view.stable[i] == stable_view(files[i]));
        assert(view.stable[j] == stable_view(files[j]));
        assert(view.stable[i].id < view.stable[j].id);
    }
}

/// Whether every row lies within a file of this length.
fn all_in_range(rows: &Vec<RecoveredRow>, file_len: usize) -> (within: bool)
    ensures
        within == rows_in_range(recovered_views(rows@), file_len as nat),
{
    let mut i: usize = 0;
    while i < rows.len()
        invariant
            i <= rows@.len(),
            forall|j: int|
                0 <= j < i ==> (#[trigger] recovered_views(rows@)[j]).row_offset + recovered_views(
                    rows@,
                )[j].row_size <= file_len,
        decreases rows@.len() - i,
    {
        let row = &rows[i];
        assert(recovered_views(rows@)[i as int] == row@);
        if row.row_offset > file_len as u64 || row.row_size > file_len as u64 - row.row_offset {
            return false;
        }
        i += 1;
    }
    true
}

impl Database {
    /// The rows of the file at `index` as recovery takes them, first to last.
    fn recovered_iter(&self, index: usize) -> (rows: Vec<RecoveredRow>)
        requires
            self.wf(),
            index <= self@.stable.len(),
        ensures
            recovered_views(rows@) == file_rows(self@.file_at(index as int)),
    {
        if index < self.stable_storages.len() {
            assert(self@.stable[index as int] == stable_view(self.stable_storages@[index as int]));
            self.stable_storages.with_file(index, (), recovered_rows_of)
        } else {
            scan_data_rows(&self.writing_storage)
        }
    }

    /// An iterator over what recovery needs of the rows, newest first.
    pub fn recovery_iter(&self) -> (iter: BitcaskResult<DatabaseRecoverIter<'_>>)
        requires
            self.wf(),
        ensures
            iter.is_ok(),
            iter.unwrap().wf(),
            iter.unwrap().database() == self@,
            iter.unwrap().remaining() == self@.recovery_rows(),
    {
        let iter = DatabaseRecoverIter::new(self);
        Ok(iter)
    }

    /// An iterator over every row of every file, oldest first.
    pub fn iter(&self) -> (iter: BitcaskResult<DatabaseIter<'_>>)
        requires
            self.wf(),
        ensures
            iter.is_ok(),
            iter.unwrap().wf(),
            iter.unwrap().database() == self@,
            iter.unwrap().remaining() == self@.stored_rows(),
    {
        Ok(DatabaseIter::new(self))
    }
}

/// An iterator over every row of a database, the files by ascending id, the
/// rows of a file first to last.
#[derive(Debug)]
pub struct DatabaseIter<'a> {
    database: &'a Database,
    file_index: usize,
    offset: usize,
}

impl<'a> DatabaseIter<'a> {
    /// The database that the iterator walks.
    pub closed spec fn database(&self) -> DatabaseView {
        self.database@
    }

    pub closed spec fn wf(&self) -> bool {
        &&& self.database.wf()
        &&& self.file_index <= self.database@.stable.len() + 1
        &&& self.file_index <= self.database@.stable.len() ==> 8 <= self.offset
            <= self.database@.file_at(self.file_index as int).bytes.len()
    }

    /// The rows that are still to come, each with the id of its file.
    pub closed spec fn remaining(&self) -> Seq<(FileId, RowRecord)> {
        self.database@.stored_rows_from(self.file_index as int, self.offset as int)
    }

    fn new(database: &'a Database) -> (iter: Self)
        requires
            database.wf(),
        ensures
            iter.wf(),
            iter.database() == database@,
            iter.remaining() == database@.stored_rows(),
    {
        DatabaseIter { database, file_index: 0, offset: FILE_HEADER_SIZE }
    }

    /// The next row, or `None` when no row is left.
    pub fn next(&mut self) -> (item: Option<BitcaskResult<RowToRead>>)
        requires
            old(self).wf(),
        ensures
            final(self).wf(),
            final(self).database() == old(self).database(),
            old(self).remaining().len() == 0 ==> item.is_none() && final(self).remaining().len()
                == 0,
            old(self).remaining().len() > 0 ==> {
                &&& item.is_some()
                &&& item.unwrap().is_ok()
                &&& row_matches(
                    item.unwrap().unwrap(),
                    old(self).remaining()[0].1,
                    old(self).remaining()[0].0,
                )
                &&& final(self).remaining() == old(self).remaining().drop_first()
            },
    {
        let stable_count: usize = self.database.stable_storages.len();
        proof {
            lemma_stable_count(self.database@);
        }
        loop
            invariant
                self.wf(),
                self.database == old(self).database,
                stable_count == self.database@.stable.len(),
                stable_count < u32::MAX,
                self.remaining() == old(self).remaining(),
            decreases stable_count + 1 - self.file_index,
        {
            if self.file_index > stable_count {
                return None;
            }
            let ghost file = self.database@.file_at(self.file_index as int);
            proof {
                lemma_stored_rows_step(
                    self.database@,
                    self.file_index as int,
                    self.offset as int,
                );
                if self.file_index < stable_count {
                    assert(self.database@.stable[self.file_index as int] == stable_view(
                        self.database.stable_storages@[self.file_index as int],
                    ));
                }
            }
            let found = if self.file_index < stable_count {
                self.database.stable_storages.with_file(self.file_index, self.offset, row_in)
            } else {
                row_of(&self.database.writing_storage, self.offset)
            };
            proof {
                self.database.lemma_files_fit();
                assert(file.bytes.len() <= usize::MAX);
                if self.file_index < stable_count {
                    let held = self.database.stable_storages@[self.file_index as int];
                    assert(file == stable_view(held));
                    assert(call_ensures(row_in, (&held, self.offset), found));
                } else {
                    assert(file.bytes == self.database.writing_storage.bytes());
                    assert(file.id == self.database.writing_storage.id());
                }
            }
            match found {
                Ok(Some(row)) => {
                    proof {
                        lemma_row_at_bounds(file.bytes, self.offset as int);
                    }
                    self.offset = self.offset + row.row_position.row_size as usize;
                    return Some(Ok(row));
                },
                _ => {
                    self.file_index = self.file_index + 1;
                    self.offset = FILE_HEADER_SIZE;
                },
            }
        }
    }
}

/// An iterator over what recovery needs of every row of a database: the files
/// by descending id, the rows of a file last to first.
#[derive(Debug)]
pub struct DatabaseRecoverIter<'a> {
    database: &'a Database,
    next_file: usize,
    current: Vec<RecoveredRow>,
}

impl<'a> DatabaseRecoverIter<'a> {
    /// The database that the iterator walks.
    pub closed spec fn database(&self) -> DatabaseView {
        self.database@
    }

    pub closed spec fn wf(&self) -> bool {
        &&& self.database.wf()
        &&& self.next_file <= self.database@.stable.len() + 1
    }

    /// The rows that are still to come, oldest first. The iterator hands them
    /// out from the end.
    pub closed spec fn remaining(&self) -> Seq<RecoveredRowView> {
        self.database@.rows_upto(self.next_file as int) + recovered_views(self.current@)
    }

    fn new(database: &'a Database) -> (iter: Self)
        requires
            database.wf(),
        ensures
            iter.wf(),
            iter.database() == database@,
            iter.remaining() == database@.recovery_rows(),
    {
        proof {
            lemma_stable_count(database@);
        }
        let iter = DatabaseRecoverIter {
            database,
            next_file: database.stable_storages.len() + 1,
            current: Vec::new(),
        };
        assert(iter.remaining() =~= database@.recovery_rows());
        iter
    }

    /// The newest row that was not handed out yet, or `None` when no row is
    /// left.
    pub fn next(&mut self) -> (item: Option<BitcaskResult<RecoveredRow>>)
        requires
            old(self).wf(),
        ensures
            final(self).wf(),
            final(self).database() == old(self).database(),
            old(self).remaining().len() == 0 ==> item.is_none() && final(self).remaining().len()
                == 0,
            old(self).remaining().len() > 0 ==> {
                &&& item.is_some()
                &&& item.unwrap().is_ok()
                &&& item.unwrap().unwrap()@ == old(self).remaining().last()
                &&& final(self).remaining() == old(self).remaining().drop_last()
            },
    {
        loop
            invariant
                self.wf(),
                self.database == old(self).database,
                self.remaining() == old(self).remaining(),
            decreases self.next_file,
        {
            let ghost before = self.current@;
            match self.current.pop() {
                Some(row) => {
                    proof {
                        assert(recovered_views(before).last() == row@);
                        assert(recovered_views(self.current@) =~= recovered_views(
                            before,
                        ).drop_last());
                        assert(self.remaining() =~= old(self).remaining().drop_last());
                    }
                    return Some(Ok(row));
                },
                None => {},
            }
            if self.next_file == 0 {
                assert(self.remaining() =~= Seq::<RecoveredRowView>::empty());
                return None;
            }
            proof {
                assert(recovered_views(self.current@) =~= Seq::<RecoveredRowView>::empty());
                assert(self.remaining() =~= self.database@.rows_upto(self.next_file as int));
            }
            self.next_file = self.next_file - 1;
            self.current = self.database.recovered_iter(self.next_file);
        }
    }
}

/// The value of the row of `place.1` bytes at `place.0` in a read-only file.
fn read_in(file: &StableFile, place: (u64, u64)) -> (value: std::result::Result<
    TimedValue<Value>,
    DataStorageError,
>)
    ensures
        match crate::data_storage::read_value_spec(
            file.storage.bytes(),
            place.0 as int,
            place.1 as int,
        ) {
            Ok((timestamp, bytes)) => value.is_ok() && value.unwrap().timestamp == timestamp
                && value.unwrap().value@ == bytes,
            Err(e) => value == Err::<TimedValue<Value>, DataStorageError>(e),
        },
{
    file.storage.read_value(place.0, place.1)
}

/// The length of a read-only file.
fn size_of_file(file: &StableFile, unit: ()) -> (size: usize)
    ensures
        size == file.storage.bytes().len(),
{
    file.storage.file_size()
}

/// A read-only file as the directory is to hold it.
fn image_of(file: &StableFile, unit: ()) -> (image: DataFileImage)
    ensures
        exported(image) == stable_view(*file),
{
    let hint: Option<Vec<u8>> = match &file.hint {
        Some(hint) => Some(hint.clone()),
        None => None,
    };
    let readonly: bool = match file.storage.is_readonly() {
        Ok(readonly) => readonly,
        Err(_) => true,
    };
    DataFileImage {
        file_id: file.storage.file_id(),
        content: vstd::slice::slice_to_vec(file.storage.as_bytes()),
        readonly,
        hint,
    }
}

/// A copy of the hint file of a read-only file, if it has one.
fn hint_copy_of(file: &StableFile, unit: ()) -> (hint: Option<Vec<u8>>)
    ensures
        match hint {
            Some(bytes) => file.hint.is_some() && file.hint.unwrap()@ == bytes@,
            None => file.hint.is_none(),
        },
{
    match &file.hint {
        Some(hint) => Some(hint.clone()),
        None => None,
    }
}

/// The hint file of a read-only file that has none yet.
fn hint_for(file: &StableFile, unit: ()) -> (hint: Option<Vec<u8>>)
    requires
        file.storage.wf(),
    ensures
        match hint {
            Some(bytes) => file.hint.is_none() && bytes@ == hint_of(
                file.storage.bytes(),
                file.storage.id(),
            ),
            None => file.hint.is_some(),
        },
{
    if file.hint.is_some() {
        return None;
    }
    let rows = latest_data_rows(&file.storage);
    Some(HintFile::write(&rows))
}

/// The rows of a read-only file as recovery takes them, first to last: those
/// of its hint file where it has one that fits the file, else those of a
/// scan.
fn recovered_rows_of(file: &StableFile, unit: ()) -> (rows: Vec<RecoveredRow>)
    requires
        file.storage.wf(),
    ensures
        recovered_views(rows@) == file_rows(stable_view(*file)),
{
    match &file.hint {
        Some(hint) => {
            let rows = HintFile::read(file.storage.file_id(), hint.as_slice());
            if all_in_range(&rows, file.storage.file_size()) {
                return rows;
            }
        },
        None => {},
    }
    scan_data_rows(&file.storage)
}

/// The row that starts at `offset` in a file, if one does.
fn row_of(storage: &DataStorage, offset: usize) -> (row: std::result::Result<
    Option<RowToRead>,
    FormatterError,
>)
    ensures
        match crate::data_storage::row_at(storage.bytes(), offset as int) {
            Ok(Some(record)) => row.is_ok() && row.unwrap().is_some() && row_matches(
                row.unwrap().unwrap(),
                record,
                storage.id(),
            ),
            Ok(None) => row.is_ok() && row.unwrap().is_none(),
            Err(e) => row.is_err() && row.unwrap_err() == e,
        },
{
    read_row_at(storage.as_bytes(), offset, storage.storage_id())
}

/// The row that starts at `offset` in a read-only file, if one does.
fn row_in(file: &StableFile, offset: usize) -> (row: std::result::Result<
    Option<RowToRead>,
    FormatterError,
>)
    ensures
        match crate::data_storage::row_at(file.storage.bytes(), offset as int) {
            Ok(Some(record)) => row.is_ok() && row.unwrap().is_some() && row_matches(
                row.unwrap().unwrap(),
                record,
                file.storage.id(),
            ),
            Ok(None) => row.is_ok() && row.unwrap().is_none(),
            Err(e) => row.is_err() && row.unwrap_err() == e,
        },
{
    row_of(&file.storage, offset)
}

} // verus!
