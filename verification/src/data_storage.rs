//! One data file: a header, then rows, appended and never changed.
//!
//! The file is held as its bytes. Whoever owns the directory reads the bytes
//! in when the store opens and writes them out when they have grown.

use crate::common::{
    bytes_as_slice, BitcaskDataFile, RowLocation, RowToRead, RowToWrite, TimedValue, Value,
};
use crate::error::{BitcaskError, BitcaskResult, DataStorageError, FormatterError};
use crate::formatter::{
    decode_file_header, decode_file_header_spec, decode_row, decode_row_spec,
    lemma_file_header_decodes, stored_key, stored_key_size, stored_timestamp, stored_value,
    stored_value_size, write_file_header, DATA_FILE_KEY_OFFSET, FILE_HEADER_SIZE,
};
use crate::codec::read_u64_be;
use vstd::prelude::*;
use vstd::slice::slice_subrange;

verus! {

pub type StorageId = u32;

pub type Result<T> = std::result::Result<T, DataStorageError>;

/// How large a data file may grow, and how much room a new one is given.
#[derive(Debug, Clone, Copy)]
pub struct DataStorageOptions {
    pub max_data_file_size: usize,
    pub init_data_file_capacity: usize,
}

impl Default for DataStorageOptions {
    fn default() -> (options: Self)
        ensures
            options.max_data_file_size == 128 * 1024 * 1024,
            options.init_data_file_capacity == 1024 * 1024,
    {
        Self { max_data_file_size: 134217728, init_data_file_capacity: 1048576 }
    }
}

impl DataStorageOptions {
    pub fn max_data_file_size(self, size: usize) -> (options: DataStorageOptions)
        requires
            size > 0,
        ensures
            options.max_data_file_size == size,
            options.init_data_file_capacity == self.init_data_file_capacity,
    {
        let mut options: DataStorageOptions = self;
        options.max_data_file_size = size;
        options
    }

    pub fn init_data_file_capacity(self, capacity: usize) -> (options: DataStorageOptions)
        requires
            capacity > 0,
        ensures
            options.init_data_file_capacity == capacity,
            options.max_data_file_size == self.max_data_file_size,
    {
        let mut options: DataStorageOptions = self;
        options.init_data_file_capacity = capacity;
        options
    }
}

/// A row as a scan of a file finds it.
pub struct RowRecord {
    pub offset: int,
    pub size: int,
    pub timestamp: u64,
    pub key: Seq<u8>,
    pub value: Seq<u8>,
}

/// What stands at `offset` of a file: nothing more (the end), a row, or bytes
/// that are no row.
pub open spec fn row_at(file: Seq<u8>, offset: int) -> std::result::Result<
    Option<RowRecord>,
    FormatterError,
> {
    if offset >= file.len() {
        Ok(None)
    } else if offset + 28 > file.len() {
        Err(FormatterError::Truncated)
    } else {
        let head = file.subrange(offset, offset + 28);
        let size = 28 + stored_key_size(head) + stored_value_size(head);
        if offset + size > file.len() {
            Err(FormatterError::Truncated)
        } else {
            match decode_row_spec(file.subrange(offset, offset + size)) {
                Ok((timestamp, key, value)) => Ok(
                    Some(RowRecord { offset, size, timestamp, key, value }),
                ),
                Err(e) => Err(e),
            }
        }
    }
}

/// The rows of a file from `offset` on, up to the end or to the first bytes
/// that are no row.
pub open spec fn scan_rows(file: Seq<u8>, offset: int) -> Seq<RowRecord>
    decreases file.len() - offset,
{
    match row_at(file, offset) {
        Ok(Some(row)) => seq![row] + scan_rows(file, offset + row.size),
        _ => Seq::empty(),
    }
}

/// Where a scan from `offset` stops: behind the last row that it finds.
pub open spec fn scan_end(file: Seq<u8>, offset: int) -> int
    decreases file.len() - offset,
{
    match row_at(file, offset) {
        Ok(Some(row)) => scan_end(file, offset + row.size),
        _ => offset,
    }
}

/// A row that a scan finds lies within the file and is at least a row header
/// long.
pub proof fn lemma_row_at_bounds(file: Seq<u8>, offset: int)
    requires
        0 <= offset,
        row_at(file, offset) matches Ok(Some(_)),
    ensures
        row_at(file, offset).unwrap().unwrap().offset == offset,
        row_at(file, offset).unwrap().unwrap().size >= 28,
        offset + row_at(file, offset).unwrap().unwrap().size <= file.len(),
        scan_rows(file, offset) == seq![row_at(file, offset).unwrap().unwrap()] + scan_rows(
            file,
            offset + row_at(file, offset).unwrap().unwrap().size,
        ),
        scan_end(file, offset) == scan_end(
            file,
            offset + row_at(file, offset).unwrap().unwrap().size,
        ),
{
}

/// Where nothing decodes, the scan is over.
pub proof fn lemma_row_at_none(file: Seq<u8>, offset: int)
    requires
        !(row_at(file, offset) matches Ok(Some(_))),
    ensures
        scan_rows(file, offset) == Seq::<RowRecord>::empty(),
        scan_end(file, offset) == offset,
{
}

/// What reading `size` bytes at `offset` as one row gives: the timestamp and
/// the value, or why the bytes are no row.
pub open spec fn read_value_spec(file: Seq<u8>, offset: int, size: int) -> std::result::Result<
    (u64, Seq<u8>),
    DataStorageError,
> {
    if offset + size > file.len() {
        Err(DataStorageError::DataStorageFormatter(FormatterError::Truncated))
    } else {
        match decode_row_spec(file.subrange(offset, offset + size)) {
            Ok((timestamp, key, value)) => Ok((timestamp, value)),
            Err(e) => Err(DataStorageError::DataStorageFormatter(e)),
        }
    }
}

/// Reads the row that starts at `offset`, if one does.
pub fn read_row_at(file: &[u8], offset: usize, storage_id: StorageId) -> (row: std::result::Result<
    Option<RowToRead>,
    FormatterError,
>)
    ensures
        match row_at(file@, offset as int) {
            Ok(Some(record)) => row.is_ok() && row.unwrap().is_some() && row_matches(
                row.unwrap().unwrap(),
                record,
                storage_id,
            ),
            Ok(None) => row.is_ok() && row.unwrap().is_none(),
            Err(e) => row.is_err() && row.unwrap_err() == e,
        },
{
    let n: usize = file.len();
    if offset >= n {
        return Ok(None);
    }
    if n - offset < DATA_FILE_KEY_OFFSET {
        return Err(FormatterError::Truncated);
    }
    let key_size: u64 = read_u64_be(file, offset + 12);
    let value_size: u64 = read_u64_be(file, offset + 20);
    proof {
        let head = file@.subrange(offset as int, offset + 28);
        assert(head.subrange(12, 20) =~= file@.subrange(offset + 12, offset + 20));
        assert(head.subrange(20, 28) =~= file@.subrange(offset + 20, offset + 28));
    }
    let room: u64 = (n - offset - DATA_FILE_KEY_OFFSET) as u64;
    if key_size > room || value_size > room - key_size {
        return Err(FormatterError::Truncated);
    }
    let size: usize = DATA_FILE_KEY_OFFSET + key_size as usize + value_size as usize;
    match decode_row(slice_subrange(file, offset, offset + size)) {
        Ok(decoded) => Ok(
            Some(
                RowToRead {
                    key: decoded.key,
                    value: decoded.value,
                    row_position: RowLocation {
                        file_id: storage_id,
                        row_offset: offset as u64,
                        row_size: size as u64,
                    },
                    timestamp: decoded.timestamp,
                },
            ),
        ),
        Err(e) => Err(e),
    }
}

/// A row that was read is the row that the scan finds.
pub open spec fn row_matches(row: RowToRead, record: RowRecord, storage_id: StorageId) -> bool {
    &&& row.key@ == record.key
    &&& row.value@ == record.value
    &&& row.timestamp == record.timestamp
    &&& row.row_position.file_id == storage_id
    &&& row.row_position.row_offset == record.offset
    &&& row.row_position.row_size == record.size
}



/// A data file, held as its bytes.
#[derive(Debug)]
pub struct DataStorage {
    storage_id: StorageId,
    content: Vec<u8>,
    read_offset: usize,
    readonly: bool,
    options: DataStorageOptions,
    dirty: bool,
}

impl DataStorage {
    /// The id of the file.
    pub closed spec fn id(&self) -> StorageId {
        self.storage_id
    }

    /// The bytes of the file: the header, then the rows.
    pub closed spec fn bytes(&self) -> Seq<u8> {
        self.content@
    }

    /// Where the next sequential read starts.
    pub closed spec fn cursor(&self) -> int {
        self.read_offset as int
    }

    pub closed spec fn readonly(&self) -> bool {
        self.readonly
    }

    pub closed spec fn dirty(&self) -> bool {
        self.dirty
    }

    pub closed spec fn options(&self) -> DataStorageOptions {
        self.options
    }

    /// The file starts with a header, and the read cursor stands behind it.
    pub open spec fn wf(&self) -> bool {
        &&& decode_file_header_spec(self.bytes()).is_ok()
        &&& 8 <= self.cursor() <= self.bytes().len()
    }

    /// The rows of the file, first to last.
    pub open spec fn rows(&self) -> Seq<RowRecord> {
        scan_rows(self.bytes(), 8)
    }

    /// A file that can be written to holds rows up to its last byte: what is
    /// appended to it follows a row, or the header.
    pub open spec fn clean(&self) -> bool {
        !self.readonly() ==> is_clean(self.bytes())
    }

    /// The file is no longer than a vector can be.
    pub proof fn lemma_size_fits(&self)
        ensures
            self.bytes().len() <= usize::MAX,
    {
        vstd::std_specs::vec::axiom_spec_len(&self.content);
    }

    /// A new, writable file that holds a header and no row. Room for the
    /// initial capacity of the options is set aside where it can be had.
    pub fn new(storage_id: StorageId, options: DataStorageOptions) -> (storage: Result<
        Self,
    >)
        ensures
            storage.is_ok(),
            storage.unwrap().wf(),
            storage.unwrap().clean(),
            storage.unwrap().id() == storage_id,
            storage.unwrap().bytes() == crate::formatter::file_header_bytes(),
            storage.unwrap().cursor() == 8,
            !storage.unwrap().readonly(),
            !storage.unwrap().dirty(),
            storage.unwrap().options() == options,
    {
        let mut content: Vec<u8> = Vec::new();
        let _ = content.try_reserve(options.init_data_file_capacity);
        write_file_header(&mut content);
        proof {
            lemma_file_header_decodes();
            lemma_header_is_clean();
        }
        Ok(
            DataStorage {
                storage_id,
                content,
                read_offset: FILE_HEADER_SIZE,
                readonly: false,
                options,
                dirty: false,
            },
        )
    }

    /// Takes up a file from the bytes that were found for it. A read-only
    /// file is kept as it is. A writable file is cut behind its last row that
    /// decodes, so that what is appended later follows a row and not the torn
    /// rest of an append that did not finish.
    pub fn open(
        storage_id: StorageId,
        image: Vec<u8>,
        readonly: bool,
        options: DataStorageOptions,
    ) -> (storage: Result<Self>)
        ensures
            match decode_file_header_spec(image@) {
                Ok(_) => {
                    &&& storage.is_ok()
                    &&& storage.unwrap().wf()
                    &&& storage.unwrap().clean()
                    &&& storage.unwrap().id() == storage_id
                    &&& storage.unwrap().bytes() == if readonly {
                        image@
                    } else {
                        image@.subrange(0, scan_end(image@, 8))
                    }
                    &&& storage.unwrap().cursor() == 8
                    &&& storage.unwrap().readonly() == readonly
                    &&& !storage.unwrap().dirty()
                    &&& storage.unwrap().options() == options
                },
                Err(e) => storage == Err::<Self, DataStorageError>(
                    DataStorageError::ReadFileHeaderError(e, storage_id),
                ),
            },
    {
        let mut content: Vec<u8> = image;
        match decode_file_header(content.as_slice()) {
            Err(e) => {
                return Err(DataStorageError::ReadFileHeaderError(e, storage_id));
            },
            Ok(_) => {},
        }
        if !readonly {
            let end: usize = find_scan_end(content.as_slice(), storage_id);
            content.truncate(end);
            assert(content@ =~= image@.subrange(0, end as int));
            assert(content@.subrange(0, 4) =~= image@.subrange(0, 4));
            assert(content@.subrange(4, 8) =~= image@.subrange(4, 8));
            proof {
                lemma_scan_cut(image@, 8);
            }
        }
        Ok(
            DataStorage {
                storage_id,
                content,
                read_offset: FILE_HEADER_SIZE,
                readonly,
                options,
                dirty: false,
            },
        )
    }

    pub fn storage_id(&self) -> (id: StorageId)
        ensures
            id == self.id(),
    {
        self.storage_id
    }

    pub fn file_id(&self) -> (id: StorageId)
        ensures
            id == self.id(),
    {
        self.storage_id
    }

    pub fn is_readonly(&self) -> (readonly: Result<bool>)
        ensures
            readonly == Ok::<bool, DataStorageError>(self.readonly()),
    {
        Ok(self.readonly)
    }

    /// Whether a row was appended since the file was last flushed.
    pub fn is_dirty(&self) -> (dirty: bool)
        ensures
            dirty == self.dirty(),
    {
        self.dirty
    }

    /// The length of the file, header included.
    pub fn file_size(&self) -> (size: usize)
        ensures
            size == self.bytes().len(),
    {
        self.content.len()
    }

    /// The bytes of the file, as they are to stand on disk.
    pub fn as_bytes(&self) -> (bytes: &[u8])
        ensures
            bytes@ == self.bytes(),
    {
        self.content.as_slice()
    }

    /// An iterator over the rows of the file, from the first one.
    pub fn iter(&self) -> (iter: Result<StorageIter<'_>>)
        requires
            self.wf(),
        ensures
            iter.is_ok(),
            iter.unwrap().wf(),
            iter.unwrap().file() == self.bytes(),
            iter.unwrap().storage_id() == self.id(),
            iter.unwrap().position() == 8,
            iter.unwrap().remaining() == self.rows(),
    {
        Ok(StorageIter { storage: self, offset: FILE_HEADER_SIZE })
    }
}

/// One byte string is the start of another.
pub open spec fn is_prefix(short: Seq<u8>, long: Seq<u8>) -> bool {
    short.len() <= long.len() && long.subrange(0, short.len() as int) == short
}

/// What stands within a file reads the same after the file has grown.
pub proof fn lemma_read_value_in_prefix(short: Seq<u8>, long: Seq<u8>, offset: int, size: int)
    requires
        is_prefix(short, long),
        0 <= offset,
        0 <= size,
        offset + size <= short.len(),
    ensures
        long.subrange(offset, offset + size) == short.subrange(offset, offset + size),
        read_value_spec(long, offset, size) == read_value_spec(short, offset, size),
{
    assert(long.subrange(offset, offset + size) =~= long.subrange(0, short.len() as int).subrange(
        offset,
        offset + size,
    ));
}

/// The header of a file is the header of every file that starts with it.
pub proof fn lemma_header_in_prefix(short: Seq<u8>, long: Seq<u8>)
    requires
        is_prefix(short, long),
        decode_file_header_spec(short).is_ok(),
    ensures
        decode_file_header_spec(long).is_ok(),
{
    assert(long.subrange(0, 4) =~= short.subrange(0, 4));
    assert(long.subrange(4, 8) =~= short.subrange(4, 8));
}

/// A row that was appended to a file reads back as it was written.
pub proof fn lemma_read_value_appended(
    file: Seq<u8>,
    timestamp: u64,
    key: Seq<u8>,
    value: Seq<u8>,
)
    requires
        crate::formatter::row_fits(key.len(), value.len()),
    ensures
        is_prefix(file, file + crate::formatter::row_bytes(timestamp, key, value)),
        (file + crate::formatter::row_bytes(timestamp, key, value)).subrange(
            file.len() as int,
            file.len() as int + crate::formatter::row_bytes(timestamp, key, value).len(),
        ) == crate::formatter::row_bytes(timestamp, key, value),
        read_value_spec(
            file + crate::formatter::row_bytes(timestamp, key, value),
            file.len() as int,
            crate::formatter::row_bytes(timestamp, key, value).len() as int,
        ) == Ok::<(u64, Seq<u8>), DataStorageError>((timestamp, value)),
{
    let row = crate::formatter::row_bytes(timestamp, key, value);
    let long = file + row;
    assert(long.subrange(0, file.len() as int) =~= file);
    assert(long.subrange(file.len() as int, file.len() as int + row.len()) =~= row);
    crate::formatter::lemma_decode_row_of_row_bytes(timestamp, key, value);
}

/// The file is a header and, behind it, rows up to its last byte: a scan finds
/// a row wherever the row before it ends.
pub open spec fn is_clean(file: Seq<u8>) -> bool {
    file.len() >= 8 && scan_end(file, 8) == file.len()
}

/// The record of a row that stands at `offset`.
pub open spec fn record_of(row: Seq<u8>, offset: int) -> RowRecord {
    RowRecord {
        offset,
        size: row.len() as int,
        timestamp: stored_timestamp(row),
        key: stored_key(row),
        value: stored_value(row),
    }
}

/// A scan of a file that ends with a row finds, from any place within the
/// rows before, the rows that it found without that row, and then that row.
pub proof fn lemma_scan_appended(file: Seq<u8>, row: Seq<u8>, offset: int)
    requires
        8 <= offset <= file.len(),
        scan_end(file, offset) == file.len(),
        decode_row_spec(row).is_ok(),
    ensures
        scan_rows(file + row, offset) == scan_rows(file, offset).push(
            record_of(row, file.len() as int),
        ),
        scan_end(file + row, offset) == file.len() + row.len(),
    decreases file.len() - offset,
{
    let long = file + row;
    if offset == file.len() {
        crate::formatter::lemma_decoded_row_is_row_bytes(row);
        assert(long.subrange(offset, offset + 28) =~= row.subrange(0, 28));
        let head = long.subrange(offset, offset + 28);
        assert(head.subrange(12, 20) =~= row.subrange(12, 20));
        assert(head.subrange(20, 28) =~= row.subrange(20, 28));
        assert(long.subrange(offset, offset + row.len()) =~= row);
        assert(row_at(long, offset) == Ok::<Option<RowRecord>, FormatterError>(
            Some(record_of(row, offset)),
        ));
        assert(row_at(long, offset + row.len()) == Ok::<Option<RowRecord>, FormatterError>(None));
        assert(scan_rows(long, offset + row.len()) =~= Seq::<RowRecord>::empty());
        assert(scan_end(long, offset + row.len()) == offset + row.len());
        assert(scan_end(long, offset) == scan_end(long, offset + row.len()));
        assert(scan_rows(file, offset) =~= Seq::<RowRecord>::empty());
        assert(scan_rows(long, offset) =~= scan_rows(file, offset).push(
            record_of(row, file.len() as int),
        ));
    } else {
        match row_at(file, offset) {
            Ok(Some(found)) => {
                lemma_row_at_bounds(file, offset);
                let head = file.subrange(offset, offset + 28);
                assert(long.subrange(offset, offset + 28) =~= head);
                assert(long.subrange(offset, offset + found.size) =~= file.subrange(
                    offset,
                    offset + found.size,
                ));
                assert(row_at(long, offset) == Ok::<Option<RowRecord>, FormatterError>(
                    Some(found),
                ));
                lemma_scan_end_bounds(file, offset + found.size);
                lemma_scan_appended(file, row, offset + found.size);
                assert(scan_end(long, offset) == scan_end(long, offset + found.size));
                assert(scan_rows(long, offset) =~= scan_rows(file, offset).push(
                    record_of(row, file.len() as int),
                ));
            },
            _ => {
                lemma_row_at_none(file, offset);
            },
        }
    }
}

/// A file that holds rows up to some byte and, behind it, bytes that begin no
/// row — the rest of an append that did not finish — is cut at that byte when
/// it is taken up for writing: the rows are kept, the rest goes.
pub proof fn lemma_torn_tail_is_cut(file: Seq<u8>, tail: Seq<u8>, offset: int)
    requires
        8 <= offset <= file.len(),
        scan_end(file, offset) == file.len(),
        !(row_at(file + tail, file.len() as int) matches Ok(Some(_))),
    ensures
        scan_end(file + tail, offset) == file.len(),
        scan_rows(file + tail, offset) == scan_rows(file, offset),
        (file + tail).subrange(0, file.len() as int) == file,
    decreases file.len() - offset,
{
    let long = file + tail;
    assert(long.subrange(0, file.len() as int) =~= file);
    if offset == file.len() {
        lemma_row_at_none(long, offset);
        assert(row_at(file, offset) == Ok::<Option<RowRecord>, FormatterError>(None));
    } else {
        match row_at(file, offset) {
            Ok(Some(found)) => {
                lemma_row_at_bounds(file, offset);
                assert(long.subrange(offset, offset + 28) =~= file.subrange(offset, offset + 28));
                assert(long.subrange(offset, offset + found.size) =~= file.subrange(
                    offset,
                    offset + found.size,
                ));
                assert(row_at(long, offset) == Ok::<Option<RowRecord>, FormatterError>(
                    Some(found),
                ));
                lemma_scan_end_bounds(file, offset + found.size);
                lemma_torn_tail_is_cut(file, tail, offset + found.size);
            },
            _ => {
                lemma_row_at_none(file, offset);
            },
        }
    }
}

/// A scan ends at or behind where it began, and within the file where it
/// began within the file.
pub proof fn lemma_scan_end_bounds(file: Seq<u8>, offset: int)
    requires
        0 <= offset,
    ensures
        offset <= scan_end(file, offset),
        offset <= file.len() ==> scan_end(file, offset) <= file.len(),
    decreases file.len() - offset,
{
    match row_at(file, offset) {
        Ok(Some(found)) => {
            lemma_row_at_bounds(file, offset);
            lemma_scan_end_bounds(file, offset + found.size);
        },
        _ => {},
    }
}

/// A file that is cut where the scan of its rows ends holds the rows that the
/// scan found, and is clean.
pub proof fn lemma_scan_cut(file: Seq<u8>, offset: int)
    requires
        8 <= offset <= file.len(),
    ensures
        offset <= scan_end(file, 8) && scan_end(file, offset) == scan_end(file, 8) ==> scan_end(
            file.subrange(0, scan_end(file, 8)),
            offset,
        ) == scan_end(file, 8) && scan_rows(file.subrange(0, scan_end(file, 8)), offset)
            == scan_rows(file, offset),
    decreases file.len() - offset,
{
    lemma_scan_end_bounds(file, 8);
    let end = scan_end(file, 8);
    let cut = file.subrange(0, end);
    if offset <= end && scan_end(file, offset) == end {
        match row_at(file, offset) {
            Ok(Some(found)) => {
                lemma_row_at_bounds(file, offset);
                lemma_scan_end_bounds(file, offset + found.size);
                assert(offset + found.size <= end);
                assert(cut.subrange(offset, offset + 28) =~= file.subrange(offset, offset + 28));
                assert(cut.subrange(offset, offset + found.size) =~= file.subrange(
                    offset,
                    offset + found.size,
                ));
                assert(row_at(cut, offset) == Ok::<Option<RowRecord>, FormatterError>(
                    Some(found),
                ));
                lemma_scan_cut(file, offset + found.size);
            },
            _ => {
                lemma_row_at_none(file, offset);
                assert(offset == end);
                assert(row_at(cut, offset) == Ok::<Option<RowRecord>, FormatterError>(None));
            },
        }
    }
}

/// A file that holds a header and nothing else is clean and has no row.
pub proof fn lemma_header_is_clean()
    ensures
        is_clean(crate::formatter::file_header_bytes()),
        scan_rows(crate::formatter::file_header_bytes(), 8) == Seq::<RowRecord>::empty(),
{
    lemma_file_header_decodes();
    assert(row_at(crate::formatter::file_header_bytes(), 8) == Ok::<
        Option<RowRecord>,
        FormatterError,
    >(None));
}

/// What appending `row` to a file gives: where the row stands, or why it was
/// not appended.
pub open spec fn write_row_spec(
    id: StorageId,
    file: Seq<u8>,
    readonly: bool,
    max_size: usize,
    row: Seq<u8>,
) -> Result<RowLocation> {
    if readonly {
        Err(DataStorageError::PermissionDenied(id))
    } else if file.len() + row.len() > max_size {
        Err(DataStorageError::StorageOverflow(id))
    } else {
        Ok(RowLocation { file_id: id, row_offset: file.len() as u64, row_size: row.len() as u64 })
    }
}

/// Appending to a data file and closing it for writing.
pub trait DataStorageWriter: Sized {
    /// What the methods expect of the storage, and keep.
    spec fn writer_valid(&self) -> bool;

    /// Appends a row and says where it stands. A row that would take the
    /// file over its maximum size is not appended.
    fn write_row(&mut self, row: &RowToWrite<'_>) -> (location: Result<RowLocation>)
        requires
            old(self).writer_valid(),
        ensures
            final(self).writer_valid(),
    ;

    /// Closes the file for writing.
    fn transit_to_readonly(self) -> (storage: Result<DataStorage>)
        requires
            self.writer_valid(),
    ;

    /// Marks everything appended so far as handed on.
    fn flush(&mut self) -> (done: Result<()>)
        requires
            old(self).writer_valid(),
        ensures
            final(self).writer_valid(),
    ;
}

/// Reading rows back from a data file.
pub trait DataStorageReader {
    /// What the methods expect of the storage, and keep.
    spec fn reader_valid(&self) -> bool;

    /// Reads the value of the row of `row_size` bytes at `row_offset`.
    fn read_value(&self, row_offset: u64, row_size: u64) -> (value: Result<
        TimedValue<Value>,
    >)
    ;

    /// Reads the row at the read cursor and moves the cursor behind it.
    fn read_next_row(&mut self) -> (row: Result<Option<RowToRead>>)
        requires
            old(self).reader_valid(),
        ensures
            final(self).reader_valid(),
    ;
}

impl DataStorageWriter for DataStorage {
    open spec fn writer_valid(&self) -> bool {
        self.wf()
    }

    fn write_row(&mut self, row: &RowToWrite<'_>) -> (location: Result<RowLocation>)
        ensures
            final(self).wf(),
            final(self).id() == old(self).id(),
            final(self).options() == old(self).options(),
            final(self).readonly() == old(self).readonly(),
            final(self).cursor() == old(self).cursor(),
            location == write_row_spec(
                old(self).id(),
                old(self).bytes(),
                old(self).readonly(),
                old(self).options().max_data_file_size,
                row.encoded(),
            ),
            location.is_ok() ==> final(self).bytes() == old(self).bytes() + row.encoded()
                && final(self).dirty(),
            old(self).clean() && row.wf() ==> final(self).clean(),
            location.is_err() ==> final(self).bytes() == old(self).bytes() && final(self).dirty()
                == old(self).dirty(),
    {
        if self.readonly {
            return Err(DataStorageError::PermissionDenied(self.storage_id));
        }
        let encoded = row.to_bytes();
        let bytes: &[u8] = bytes_as_slice(&encoded);
        let len: usize = self.content.len();
        if bytes.len() > self.options.max_data_file_size || len > self.options.max_data_file_size
            - bytes.len() {
            return Err(DataStorageError::StorageOverflow(self.storage_id));
        }
        self.content.extend_from_slice(bytes);
        self.dirty = true;
        proof {
            assert(self.content@ =~= old(self).content@ + row.encoded());
            assert(self.content@.subrange(0, 4) =~= old(self).content@.subrange(0, 4));
            assert(self.content@.subrange(4, 8) =~= old(self).content@.subrange(4, 8));
            if old(self).clean() && row.wf() {
                assert(row.encoded() =~= crate::formatter::row_bytes(
                    row.timestamp,
                    row.key@,
                    row.value@,
                ));
                crate::formatter::lemma_decode_row_of_row_bytes(
                    row.timestamp,
                    row.key@,
                    row.value@,
                );
                lemma_scan_appended(old(self).content@, row.encoded(), 8);
            }
        }
        Ok(
            RowLocation {
                file_id: self.storage_id,
                row_offset: len as u64,
                row_size: bytes.len() as u64,
            },
        )
    }

    fn transit_to_readonly(self) -> (storage: Result<DataStorage>)
        ensures
            storage.is_ok(),
            storage.unwrap().wf(),
            storage.unwrap().clean(),
            storage.unwrap().id() == self.id(),
            storage.unwrap().bytes() == self.bytes(),
            storage.unwrap().options() == self.options(),
            storage.unwrap().cursor() == self.cursor(),
            storage.unwrap().readonly(),
            !storage.unwrap().dirty(),
    {
        let mut storage: DataStorage = self;
        storage.readonly = true;
        storage.dirty = false;
        Ok(storage)
    }

    fn flush(&mut self) -> (done: Result<()>)
        ensures
            done.is_ok(),
            final(self).wf(),
            final(self).clean() == old(self).clean(),
            final(self).id() == old(self).id(),
            final(self).bytes() == old(self).bytes(),
            final(self).options() == old(self).options(),
            final(self).readonly() == old(self).readonly(),
            final(self).cursor() == old(self).cursor(),
            !final(self).dirty(),
    {
        self.dirty = false;
        Ok(())
    }
}

impl DataStorageReader for DataStorage {
    open spec fn reader_valid(&self) -> bool {
        self.wf()
    }

    fn read_value(&self, row_offset: u64, row_size: u64) -> (value: Result<
        TimedValue<Value>,
    >)
        ensures
            match read_value_spec(self.bytes(), row_offset as int, row_size as int) {
                Ok((timestamp, bytes)) => value.is_ok() && value.unwrap().timestamp == timestamp
                    && value.unwrap().value@ == bytes,
                Err(e) => value == Err::<TimedValue<Value>, DataStorageError>(e),
            },
    {
        let len: usize = self.content.len();
        if row_offset > len as u64 || row_size > len as u64 - row_offset {
            return Err(DataStorageError::DataStorageFormatter(FormatterError::Truncated));
        }
        let start: usize = row_offset as usize;
        let end: usize = start + row_size as usize;
        match decode_row(slice_subrange(self.content.as_slice(), start, end)) {
            Ok(decoded) => Ok(
                TimedValue::has_time_value(Value::VectorBytes(decoded.value), decoded.timestamp),
            ),
            Err(e) => Err(DataStorageError::DataStorageFormatter(e)),
        }
    }

    fn read_next_row(&mut self) -> (row: Result<Option<RowToRead>>)
        ensures
            final(self).wf(),
            final(self).clean() == old(self).clean(),
            final(self).id() == old(self).id(),
            final(self).bytes() == old(self).bytes(),
            final(self).options() == old(self).options(),
            final(self).readonly() == old(self).readonly(),
            final(self).dirty() == old(self).dirty(),
            match row_at(old(self).bytes(), old(self).cursor()) {
                Ok(Some(record)) => row.is_ok() && row.unwrap().is_some() && row_matches(
                    row.unwrap().unwrap(),
                    record,
                    old(self).id(),
                ) && final(self).cursor() == old(self).cursor() + record.size,
                Ok(None) => row.is_ok() && row.unwrap().is_none() && final(self).cursor() == old(
                    self,
                ).cursor(),
                Err(e) => row == Err::<Option<RowToRead>, DataStorageError>(
                    DataStorageError::DataStorageFormatter(e),
                ) && final(self).cursor() == old(self).cursor(),
            },
    {
        let n: usize = self.content.len();
        match read_row_at(self.content.as_slice(), self.read_offset, self.storage_id) {
            Ok(Some(row)) => {
                proof {
                    lemma_row_at_bounds(self.content@, self.read_offset as int);
                }
                self.read_offset = self.read_offset + row.row_position.row_size as usize;
                Ok(Some(row))
            },
            Ok(None) => Ok(None),
            Err(e) => Err(DataStorageError::DataStorageFormatter(e)),
        }
    }
}

/// What a storage error becomes when it leaves the database: a checksum that
/// does not match is reported with the place of the row, and anything else as
/// a corrupted data file.
pub open spec fn storage_error_matches(
    error: DataStorageError,
    file_id: StorageId,
    offset: u64,
    reported: BitcaskError,
) -> bool {
    match error {
        DataStorageError::DataStorageFormatter(FormatterError::ChecksumMismatch(stored, actual)) => reported
            == BitcaskError::CrcCheckFailed(file_id, offset, stored, actual),
        _ => reported matches BitcaskError::DataFileCorrupted(_, id, _) && id == file_id,
    }
}

impl BitcaskDataFile for DataStorage {
    fn read_value(&mut self, value_offset: u64, size: usize) -> (value: BitcaskResult<Vec<u8>>)
        ensures
            *final(self) == *old(self),
            match read_value_spec(old(self).bytes(), value_offset as int, size as int) {
                Ok((timestamp, bytes)) => value matches Ok(found) && found@ == bytes,
                Err(e) => value matches Err(reported) && storage_error_matches(
                    e,
                    old(self).id(),
                    value_offset,
                    reported,
                ),
            },
    {
        match DataStorageReader::read_value(&*self, value_offset, size as u64) {
            Ok(found) => Ok(found.value.into_vec()),
            Err(DataStorageError::DataStorageFormatter(FormatterError::ChecksumMismatch(
                stored,
                actual,
            ))) => Err(BitcaskError::CrcCheckFailed(self.storage_id, value_offset, stored, actual)),
            Err(_) => Err(
                BitcaskError::DataFileCorrupted(
                    String::new(),
                    self.storage_id,
                    "the location does not hold a row".to_string(),
                ),
            ),
        }
    }
}

/// Finds where the rows of a file end: behind the last row of the unbroken
/// run that starts behind the header.
fn find_scan_end(file: &[u8], storage_id: StorageId) -> (end: usize)
    requires
        file@.len() >= 8,
    ensures
        end == scan_end(file@, 8),
        8 <= end <= file@.len(),
{
    let mut offset: usize = FILE_HEADER_SIZE;
    let n: usize = file.len();
    loop
        invariant
            n == file@.len(),
            8 <= offset <= file@.len(),
            scan_end(file@, offset as int) == scan_end(file@, 8),
        ensures
            offset == scan_end(file@, 8),
            8 <= offset <= file@.len(),
        decreases file@.len() - offset,
    {
        match read_row_at(file, offset, storage_id) {
            Ok(Some(row)) => {
                proof {
                    lemma_row_at_bounds(file@, offset as int);
                }
                offset = offset + row.row_position.row_size as usize;
            },
            _ => {
                proof {
                    lemma_row_at_none(file@, offset as int);
                }
                break ;
            },
        }
    }
    offset
}

/// An iterator over the rows of one data file. It ends at the end of the file
/// or at the first bytes that are no row.
#[derive(Debug)]
pub struct StorageIter<'a> {
    storage: &'a DataStorage,
    offset: usize,
}

impl<'a> StorageIter<'a> {
    /// The bytes of the file that the iterator walks.
    pub closed spec fn file(&self) -> Seq<u8> {
        self.storage.bytes()
    }

    pub closed spec fn storage_id(&self) -> StorageId {
        self.storage.id()
    }

    /// The offset of the row that comes next.
    pub closed spec fn position(&self) -> int {
        self.offset as int
    }

    pub open spec fn wf(&self) -> bool {
        8 <= self.position() <= self.file().len()
    }

    /// The rows that are still to come.
    pub open spec fn remaining(&self) -> Seq<RowRecord> {
        scan_rows(self.file(), self.position())
    }

    /// The next row, or `None` when no row is left.
    pub fn next(&mut self) -> (item: Option<Result<RowToRead>>)
        requires
            old(self).wf(),
        ensures
            final(self).wf(),
            final(self).file() == old(self).file(),
            final(self).storage_id() == old(self).storage_id(),
            old(self).remaining().len() == 0 ==> item.is_none() && final(self).remaining().len()
                == 0,
            old(self).remaining().len() > 0 ==> {
                &&& item.is_some()
                &&& item.unwrap().is_ok()
                &&& row_matches(
                    item.unwrap().unwrap(),
                    old(self).remaining()[0],
                    old(self).storage_id(),
                )
                &&& final(self).remaining() == old(self).remaining().drop_first()
            },
    {
        let n: usize = self.storage.file_size();
        match read_row_at(self.storage.as_bytes(), self.offset, self.storage.storage_id()) {
            Ok(Some(row)) => {
                proof {
                    lemma_row_at_bounds(self.file(), self.position());
                    let first = row_at(self.file(), self.position()).unwrap().unwrap();
                    assert(old(self).remaining().drop_first() =~= scan_rows(
                        self.file(),
                        self.position() + first.size,
                    ));
                }
                self.offset = self.offset + row.row_position.row_size as usize;
                Some(Ok(row))
            },
            _ => {
                proof {
                    lemma_row_at_none(self.file(), self.position());
                }
                None
            },
        }
    }
}

} // verus!
