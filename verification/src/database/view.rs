//! The database as the contracts speak of it: the files and their bytes, and
//! what a write, a flush and a read make of them.

use crate::common::{RowLocation, TimedValue, Value};
use crate::data_storage::{
    is_clean, is_prefix, lemma_header_in_prefix, lemma_header_is_clean, lemma_scan_appended,
    read_value_spec,
};
use crate::error::{BitcaskError, BitcaskResult, DataStorageError, FormatterError};
use crate::file_id::FileId;
use crate::formatter::{
    decode_file_header_spec, file_header_bytes, lemma_file_header_decodes, row_bytes, row_fits,
    row_len,
};
use vstd::prelude::*;

verus! {

/// A data file as the contracts speak of it.
pub struct FileView {
    pub id: FileId,
    pub bytes: Seq<u8>,
    pub readonly: bool,
    pub hint: Option<Seq<u8>>,
}

/// A database as the contracts speak of it.
pub struct DatabaseView {
    /// The read-only files, by ascending id.
    pub stable: Seq<FileView>,
    /// The file that rows are appended to.
    pub writing: FileView,
    /// The last file id that was given out.
    pub last_id: FileId,
    /// The read-only files that wait for their hint file, first come first.
    pub pending_hints: Seq<FileId>,
    /// The size that no data file may grow beyond.
    pub max_file_size: usize,
    /// The message of the failure that broke the database, if one did.
    pub error: Option<Seq<char>>,
}

impl DatabaseView {
    /// The files have distinct, positive, ascending ids, the writable file
    /// has the greatest, no id is beyond the last one given out, every file
    /// starts with a header, and every file that is not read-only holds rows
    /// up to its last byte.
    pub open spec fn wf(self) -> bool {
        &&& forall|i: int, j: int|
            0 <= i < j < self.stable.len() ==> (#[trigger] self.stable[i]).id
                < (#[trigger] self.stable[j]).id
        &&& forall|i: int|
            0 <= i < self.stable.len() ==> (#[trigger] self.stable[i]).id < self.writing.id
        &&& forall|i: int|
            0 <= i < self.stable.len() ==> decode_file_header_spec(
                (#[trigger] self.stable[i]).bytes,
            ).is_ok()
        &&& forall|i: int| 0 <= i < self.stable.len() ==> (#[trigger] self.stable[i]).id >= 1
        &&& 1 <= self.writing.id <= self.last_id
        &&& !self.writing.readonly
        &&& self.writing.hint.is_none()
        &&& decode_file_header_spec(self.writing.bytes).is_ok()
        &&& is_clean(self.writing.bytes)
        &&& forall|i: int|
            0 <= i < self.stable.len() && !(#[trigger] self.stable[i]).readonly ==> is_clean(
                self.stable[i].bytes,
            )
    }

    /// Whether a read-only file has this id.
    pub open spec fn has_stable(self, id: FileId) -> bool {
        exists|i: int| 0 <= i < self.stable.len() && (#[trigger] self.stable[i]).id == id
    }

    /// The place of the read-only file with this id.
    pub open spec fn stable_index(self, id: FileId) -> int {
        choose|i: int| 0 <= i < self.stable.len() && (#[trigger] self.stable[i]).id == id
    }

    /// Whether a read-only file has this id and no hint file.
    pub open spec fn awaits_hint(self, id: FileId) -> bool {
        self.has_stable(id) && self.stable[self.stable_index(id)].hint.is_none()
    }

    /// Whether the database has a file with this id.
    pub open spec fn has_file(self, id: FileId) -> bool {
        id == self.writing.id || self.has_stable(id)
    }

    /// The bytes of the file with this id.
    pub open spec fn file(self, id: FileId) -> Seq<u8> {
        if id == self.writing.id {
            self.writing.bytes
        } else {
            self.stable[self.stable_index(id)].bytes
        }
    }

    /// Whether the writable file holds a row.
    pub open spec fn writing_holds_rows(self) -> bool {
        self.writing.bytes.len() > 8
    }

    /// The database after `row` was appended to the writable file.
    pub open spec fn with_row(self, row: Seq<u8>) -> DatabaseView {
        DatabaseView {
            writing: FileView { bytes: self.writing.bytes + row, ..self.writing },
            ..self
        }
    }

    /// The database after the writable file was closed and a new one begun:
    /// the old one is the last of the read-only files and waits for its hint
    /// file, the new one has the next id and holds a header.
    pub open spec fn rolled(self) -> DatabaseView {
        DatabaseView {
            stable: self.stable.push(FileView { readonly: true, ..self.writing }),
            writing: FileView {
                id: (self.last_id + 1) as u32,
                bytes: file_header_bytes(),
                readonly: false,
                hint: None,
            },
            last_id: (self.last_id + 1) as u32,
            pending_hints: self.pending_hints.push(self.writing.id),
            ..self
        }
    }

    /// The database after a flush of the writable file: rolled if the file
    /// holds a row, else as it was.
    pub open spec fn flushed(self) -> DatabaseView {
        if self.writing_holds_rows() {
            self.rolled()
        } else {
            self
        }
    }

    /// Every file of `old` is a file of `self` and starts as it did in `old`:
    /// nothing that was written has changed or gone.
    pub open spec fn extends(self, old: DatabaseView) -> bool {
        forall|id: FileId| #[trigger]
            old.has_file(id) ==> self.has_file(id) && is_prefix(old.file(id), self.file(id))
    }

    /// What reading the row at `location` gives.
    pub open spec fn read(self, location: RowLocation) -> Result<(u64, Seq<u8>), ReadFailure> {
        if !self.has_file(location.file_id) {
            Err(ReadFailure::NoSuchFile)
        } else {
            match read_value_spec(
                self.file(location.file_id),
                location.row_offset as int,
                location.row_size as int,
            ) {
                Ok(found) => Ok(found),
                Err(DataStorageError::DataStorageFormatter(
                    FormatterError::ChecksumMismatch(expected, actual),
                )) => Err(ReadFailure::Checksum(expected, actual)),
                Err(_) => Err(ReadFailure::Corrupted),
            }
        }
    }
}

/// Why a row could not be written.
#[derive(Debug)]
pub enum WriteFailure {
    /// The row does not fit a data file, not even an empty one.
    RowTooLarge,
    /// The writable file is full and every file id has been given out.
    OutOfFileIds,
}

impl DatabaseView {
    /// Why a row with a key and a value of these lengths cannot be written,
    /// if it cannot: it fits no data file, or the writable file is full and
    /// no file id is left for a new one.
    pub open spec fn write_failure(self, key_len: nat, value_len: nat) -> Option<WriteFailure> {
        if !row_fits(key_len, value_len) || 8 + row_len(key_len, value_len) > self.max_file_size {
            Some(WriteFailure::RowTooLarge)
        } else if self.writing.bytes.len() + row_len(key_len, value_len) > self.max_file_size
            && self.last_id == u32::MAX {
            Some(WriteFailure::OutOfFileIds)
        } else {
            None
        }
    }

    /// Whether a row of this length goes into a new file.
    pub open spec fn rolls_for(self, row_len: nat) -> bool {
        self.writing.bytes.len() + row_len > self.max_file_size
    }

    /// The database after a row was written: the row stands behind the rows
    /// of the writable file, or, if it did not fit there, in a new file
    /// behind the header.
    pub open spec fn after_write(self, key: Seq<u8>, value: Seq<u8>, timestamp: u64)
        -> DatabaseView {
        let row = row_bytes(timestamp, key, value);
        if self.rolls_for(row.len()) {
            self.rolled().with_row(row)
        } else {
            self.with_row(row)
        }
    }

    /// Where a row stands after it was written.
    pub open spec fn written_at(self, key: Seq<u8>, value: Seq<u8>) -> RowLocation {
        if self.rolls_for(row_len(key.len(), value.len())) {
            RowLocation {
                file_id: (self.last_id + 1) as u32,
                row_offset: 8,
                row_size: row_len(key.len(), value.len()) as u64,
            }
        } else {
            RowLocation {
                file_id: self.writing.id,
                row_offset: self.writing.bytes.len() as u64,
                row_size: row_len(key.len(), value.len()) as u64,
            }
        }
    }
}

/// Why a row could not be read.
#[derive(Debug)]
pub enum ReadFailure {
    /// The database has no file with the id of the location.
    NoSuchFile,
    /// The checksum that the row carries, and the checksum of its bytes.
    Checksum(u32, u32),
    /// The location does not hold a row.
    Corrupted,
}

impl DatabaseView {
    /// The database without its read-only files.
    pub open spec fn without_stable(self) -> DatabaseView {
        DatabaseView { stable: Seq::empty(), pending_hints: Seq::empty(), ..self }
    }
}

/// The read-only file with the id `id` stands at `i`.
pub proof fn lemma_stable_index(view: DatabaseView, i: int)
    requires
        view.wf(),
        0 <= i < view.stable.len(),
    ensures
        view.has_stable(view.stable[i].id),
        view.has_file(view.stable[i].id),
        view.stable_index(view.stable[i].id) == i,
        view.file(view.stable[i].id) == view.stable[i].bytes,
{
    let id = view.stable[i].id;
    let j = view.stable_index(id);
    assert(0 <= j < view.stable.len() && view.stable[j].id == id);
    if j < i {
        assert(view.stable[j].id < view.stable[i].id);
    } else if i < j {
        assert(view.stable[i].id < view.stable[j].id);
    }
}

/// There are fewer read-only files than the id of the writable file: the ids
/// are positive and ascend.
pub proof fn lemma_stable_count(view: DatabaseView)
    requires
        view.wf(),
    ensures
        view.stable.len() < view.writing.id,
{
    lemma_ids_ascend(view, view.stable.len() as int);
    if view.stable.len() > 0 {
        assert(view.stable[view.stable.len() - 1].id < view.writing.id);
    }
}

/// The read-only file at `n - 1` has an id of at least `n`.
pub proof fn lemma_ids_ascend(view: DatabaseView, n: int)
    requires
        view.wf(),
        0 <= n <= view.stable.len(),
    ensures
        n > 0 ==> view.stable[n - 1].id >= n,
    decreases n,
{
    if n > 1 {
        lemma_ids_ascend(view, n - 1);
        assert(view.stable[n - 2].id < view.stable[n - 1].id);
    } else if n == 1 {
        assert(view.stable[0].id >= 1);
    }
}

/// Appending a row keeps what was written.
pub proof fn lemma_with_row_extends(view: DatabaseView, row: Seq<u8>)
    requires
        view.wf(),
        crate::formatter::decode_row_spec(row).is_ok(),
    ensures
        view.with_row(row).wf(),
        view.with_row(row).extends(view),
        view.with_row(row).file(view.writing.id) == view.writing.bytes + row,
{
    let after = view.with_row(row);
    assert((view.writing.bytes + row).subrange(0, view.writing.bytes.len() as int)
        =~= view.writing.bytes);
    lemma_header_in_prefix(view.writing.bytes, view.writing.bytes + row);
    lemma_scan_appended(view.writing.bytes, row, 8);
    assert(after.stable =~= view.stable);
    assert forall|id: FileId| #[trigger] view.has_file(id) implies after.has_file(id)
        && is_prefix(view.file(id), after.file(id)) by {
        if id != view.writing.id {
            assert(after.stable =~= view.stable);
            assert(after.file(id) == view.file(id));
            assert(view.file(id).subrange(0, view.file(id).len() as int) =~= view.file(id));
        }
    }
}

/// Closing the writable file and beginning a new one keeps what was written.
pub proof fn lemma_rolled_extends(view: DatabaseView)
    requires
        view.wf(),
        view.last_id < u32::MAX,
    ensures
        view.rolled().wf(),
        view.rolled().extends(view),
        view.rolled().writing.bytes == file_header_bytes(),
        !view.rolled().has_stable(view.rolled().writing.id),
{
    let after = view.rolled();
    lemma_file_header_decodes();
    lemma_header_is_clean();
    lemma_stable_count(view);
    let n = view.stable.len() as int;
    assert(after.stable.len() == n + 1);
    assert(after.stable[n].id == view.writing.id);
    assert forall|i: int| 0 <= i < n implies #[trigger] after.stable[i] == view.stable[i] by {}
    assert(after.wf());
    assert forall|id: FileId| #[trigger] view.has_file(id) implies after.has_file(id)
        && is_prefix(view.file(id), after.file(id)) by {
        if id == view.writing.id {
            lemma_stable_index(after, n);
        } else {
            let i = view.stable_index(id);
            lemma_stable_index(view, i);
            lemma_stable_index(after, i);
        }
        assert(view.file(id).subrange(0, view.file(id).len() as int) =~= view.file(id));
    }
}

/// What was written stays written over any number of steps that each keep it.
pub proof fn lemma_extends_transitive(first: DatabaseView, second: DatabaseView, third: DatabaseView)
    requires
        second.extends(first),
        third.extends(second),
    ensures
        third.extends(first),
{
    assert forall|id: FileId| #[trigger] first.has_file(id) implies third.has_file(id)
        && is_prefix(first.file(id), third.file(id)) by {
        assert(second.has_file(id));
        let a = first.file(id);
        let b = second.file(id);
        let c = third.file(id);
        assert(c.subrange(0, a.len() as int) =~= c.subrange(0, b.len() as int).subrange(
            0,
            a.len() as int,
        ));
    }
}

/// The bytes that the first `n` files hold, all together.
pub open spec fn total_size(files: Seq<FileView>, n: int) -> nat
    decreases n,
{
    if n <= 0 {
        0
    } else {
        total_size(files, n - 1) + files[n - 1].bytes.len()
    }
}

/// `n`, or the greatest `u64` if `n` is greater.
pub open spec fn saturate_u64(n: nat) -> u64 {
    if n > u64::MAX {
        u64::MAX
    } else {
        n as u64
    }
}

/// `n`, or the greatest `usize` if `n` is greater.
pub open spec fn saturate_usize(n: nat) -> usize {
    if n > usize::MAX {
        usize::MAX
    } else {
        n as usize
    }
}

/// The error that tells of a failure to read the row at `location`.
pub open spec fn failure_matches(failure: ReadFailure, location: RowLocation, error: BitcaskError)
    -> bool {
    match failure {
        ReadFailure::NoSuchFile => error == BitcaskError::TargetFileIdNotFound(location.file_id),
        ReadFailure::Checksum(stored, actual) => error == BitcaskError::CrcCheckFailed(
            location.file_id,
            location.row_offset,
            stored,
            actual,
        ),
        ReadFailure::Corrupted => error matches BitcaskError::DataFileCorrupted(_, id, _) && id
            == location.file_id,
    }
}

/// What a read hands back is what the view's `read` says.
pub open spec fn read_result_matches(
    expected: Result<(u64, Seq<u8>), ReadFailure>,
    location: RowLocation,
    value: BitcaskResult<TimedValue<Value>>,
) -> bool {
    match expected {
        Ok((timestamp, bytes)) => value.is_ok() && value.unwrap().timestamp == timestamp
            && value.unwrap().value@ == bytes,
        Err(failure) => value.is_err() && failure_matches(failure, location, value.unwrap_err()),
    }
}

/// What a write leaves behind: the row in its place, or the database as it
/// was and the error that tells why.
pub open spec fn write_result_matches(
    before: DatabaseView,
    key: Seq<u8>,
    value: Seq<u8>,
    timestamp: u64,
    location: BitcaskResult<RowLocation>,
    after: DatabaseView,
) -> bool {
    match before.write_failure(key.len(), value.len()) {
        None => location == Ok::<RowLocation, BitcaskError>(before.written_at(key, value))
            && after == before.after_write(key, value, timestamp),
        Some(failure) => location.is_err() && write_error_matches(failure, location.unwrap_err())
            && after == before,
    }
}

/// The error that tells why a row was not written: a row that fits no data
/// file is an invalid parameter named `row`, and file ids that are used up
/// break the database.
pub open spec fn write_error_matches(failure: WriteFailure, error: BitcaskError) -> bool {
    match failure {
        WriteFailure::RowTooLarge => error matches BitcaskError::InvalidParameter(name, reason)
            && name@ == "row"@ && reason@ == "row does not fit a data file"@,
        WriteFailure::OutOfFileIds => error matches BitcaskError::DatabaseBroken(message)
            && message@ == "file ids are used up"@,
    }
}

/// What a flush leaves behind: the database rolled if the writable file held
/// a row, or the database as it was and an error if no file id was left.
pub open spec fn flush_result_matches(
    before: DatabaseView,
    done: BitcaskResult<()>,
    after: DatabaseView,
) -> bool {
    if before.writing_holds_rows() && before.last_id == u32::MAX {
        done.is_err() && write_error_matches(WriteFailure::OutOfFileIds, done.unwrap_err())
            && after == before
    } else {
        done.is_ok() && after == before.flushed()
    }
}

/// A row that was written stands where the write says, nothing that stood
/// before has changed, and the row reads back as it was written.
pub proof fn lemma_after_write(before: DatabaseView, key: Seq<u8>, value: Seq<u8>, timestamp: u64)
    requires
        before.wf(),
        before.write_failure(key.len(), value.len()).is_none(),
    ensures
        before.after_write(key, value, timestamp).wf(),
        before.after_write(key, value, timestamp).extends(before),
        before.after_write(key, value, timestamp).error == before.error,
        before.after_write(key, value, timestamp).max_file_size == before.max_file_size,
        before.after_write(key, value, timestamp).has_file(before.written_at(key, value).file_id),
        before.written_at(key, value).row_offset + before.written_at(key, value).row_size
            == before.after_write(key, value, timestamp).file(
            before.written_at(key, value).file_id,
        ).len(),
        before.after_write(key, value, timestamp).file(
            before.written_at(key, value).file_id,
        ).subrange(
            before.written_at(key, value).row_offset as int,
            before.written_at(key, value).row_offset + before.written_at(key, value).row_size,
        ) == row_bytes(timestamp, key, value),
        before.after_write(key, value, timestamp).read(before.written_at(key, value)) == Ok::<
            (u64, Seq<u8>),
            ReadFailure,
        >((timestamp, value)),
{
    let row = row_bytes(timestamp, key, value);
    crate::formatter::lemma_row_bytes_fields(timestamp, key, value);
    crate::formatter::lemma_decode_row_of_row_bytes(timestamp, key, value);
    if before.rolls_for(row.len()) {
        lemma_rolled_extends(before);
        lemma_with_row_extends(before.rolled(), row);
        lemma_extends_transitive(before, before.rolled(), before.rolled().with_row(row));
        lemma_file_header_decodes();
        crate::data_storage::lemma_read_value_appended(file_header_bytes(), timestamp, key, value);
    } else {
        lemma_with_row_extends(before, row);
        crate::data_storage::lemma_read_value_appended(
            before.writing.bytes,
            timestamp,
            key,
            value,
        );
    }
}

/// Where nothing that was written has changed, a row that stood within a file
/// reads as it did.
pub proof fn lemma_read_in_extension(before: DatabaseView, after: DatabaseView, at: RowLocation)
    requires
        after.extends(before),
        before.has_file(at.file_id),
        at.row_offset + at.row_size <= before.file(at.file_id).len(),
    ensures
        after.has_file(at.file_id),
        at.row_offset + at.row_size <= after.file(at.file_id).len(),
        after.read(at) == before.read(at),
        after.file(at.file_id).subrange(at.row_offset as int, at.row_offset + at.row_size)
            == before.file(at.file_id).subrange(at.row_offset as int, at.row_offset + at.row_size),
{
    crate::data_storage::lemma_read_value_in_prefix(
        before.file(at.file_id),
        after.file(at.file_id),
        at.row_offset as int,
        at.row_size as int,
    );
}

/// File ids never repeat and never decrease: a file that a flush or a write
/// begins has an id greater than the id of every file of the database and
/// than every id given out before, and the files from before keep their ids.
pub proof fn lemma_new_file_id_is_greatest(view: DatabaseView)
    requires
        view.wf(),
        view.last_id < u32::MAX,
    ensures
        view.rolled().writing.id == view.last_id + 1,
        view.rolled().last_id == view.last_id + 1,
        forall|id: FileId| #[trigger] view.has_file(id) ==> id <= view.last_id && id
            < view.rolled().writing.id && view.rolled().has_file(id),
        forall|id: FileId| #[trigger]
            view.rolled().has_file(id) ==> view.has_file(id) || id == view.rolled().writing.id,
{
    lemma_rolled_extends(view);
    let after = view.rolled();
    assert forall|id: FileId| #[trigger] view.has_file(id) implies id <= view.last_id && id
        < after.writing.id && after.has_file(id) by {
        if id != view.writing.id {
            let i = view.stable_index(id);
            assert(view.stable[i].id == id);
        }
    }
    assert forall|id: FileId| #[trigger] after.has_file(id) implies view.has_file(id) || id
        == after.writing.id by {
        if id != after.writing.id {
            let i = after.stable_index(id);
            assert(after.stable[i].id == id);
            if i < view.stable.len() {
                assert(after.stable[i] == view.stable[i]);
                lemma_stable_index(view, i);
            }
        }
    }
}

} // verus!
