//! An embedded key-value store in the Bitcask style: an append-only log of
//! checksummed rows, an in-memory key directory that points at the latest row
//! of every live key, and a merge that rewrites the live rows into fresh files.

pub mod bitcask;
pub mod checksum;
pub mod clock;
pub mod codec;
pub mod common;
pub mod data_storage;
pub mod database;
pub mod error;
pub mod file_id;
pub mod formatter;
pub mod hint;
pub mod keydir;
pub mod merge;
pub mod recovery;
