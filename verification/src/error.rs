//! The error kinds of the store.

use vstd::prelude::*;

verus! {

/// Why a file header or a row could not be decoded.
#[derive(Debug, PartialEq, Eq, Clone)]
pub enum FormatterError {
    /// The file does not start with the magic number of a data file.
    MagicNotMatch,
    /// The header names a codec version that this library does not know.
    UnknownFormatterVersion(u32),
    /// The bytes end before the header or the row that they announce.
    Truncated,
    /// The sizes in a row header do not add up to the bytes that were read.
    RowSizeMismatch,
    /// The stored checksum differs from the checksum of the stored bytes.
    /// The fields are the stored checksum and the recomputed one.
    ChecksumMismatch(u32, u32),
}

/// An error of a single data file.
#[derive(Debug, PartialEq, Eq, Clone)]
pub enum DataStorageError {
    WriteRowFailed(u32, String),
    ReadRowFailed(u32, String),
    FlushStorageFailed(u32, String),
    TransitToReadOnlyFailed(u32, String),
    /// Appending the row would take the file over its maximum size. Nothing
    /// was written.
    StorageOverflow(u32),
    /// The file is read-only.
    PermissionDenied(u32),
    IoError(String),
    /// A row in the file could not be decoded.
    DataStorageFormatter(FormatterError),
    /// The header of the file could not be decoded.
    ReadFileHeaderError(FormatterError, u32),
}

/// An error of the store.
#[derive(Debug, PartialEq, Eq, Clone)]
pub enum BitcaskError {
    IoError(String),
    PermissionDenied(String),
    /// An earlier failure left the database unusable until it is reopened.
    DatabaseBroken(String),
    /// A parameter, by name, and why it is refused.
    InvalidParameter(String, String),
    InvalidDatabaseFileName(String),
    /// File id, row offset, stored checksum, recomputed checksum.
    CrcCheckFailed(u32, u64, u32, u32),
    /// Path, file id, and a hint at what is wrong.
    DataFileCorrupted(String, u32, String),
    TargetFileIdNotFound(u32),
    MergeFileDirectoryNotEmpty(String),
    MergeInProgress(),
    LockDirectoryFailed(String),
    /// A file id found among the merged files, and the least id that the merge
    /// recorded.
    InvalidMergeDataFile(u32, u32),
}

pub type BitcaskResult<T> = Result<T, BitcaskError>;

} // verus!
