//! The rows that go into a data file and the values that come out of it.

use crate::checksum::{checksum, crc32_cksum};
use crate::codec::{be_bytes_u32, be_bytes_u64, push_u32_be, push_u64_be};
use crate::error::BitcaskResult;
use crate::file_id::FileId;
use crate::formatter::{row_bytes, row_fits, row_payload};
use crate::clock::now_millis;
use bytes::Bytes;
use vstd::prelude::*;

verus! {

/// `bytes::Bytes`, carried as it is: what it holds is known through
/// `bytes_contents` alone.
#[verifier::external_type_specification]
#[verifier::external_body]
pub struct ExBytes(Bytes);

/// The bytes that a `Bytes` holds, first to last.
pub uninterp spec fn bytes_contents(bytes: Bytes) -> Seq<u8>;

/// `Bytes::from(Vec<u8>)`: the buffer takes the vector over as it is.
#[verifier::external_body]
pub(crate) fn bytes_from_vec(vec: Vec<u8>) -> (bytes: Bytes)
    ensures
        bytes_contents(bytes) == vec@,
{
    Bytes::from(vec)
}

/// `Bytes::as_ref`: the slice of everything the buffer holds.
#[verifier::external_body]
pub(crate) fn bytes_as_slice(bytes: &Bytes) -> (slice: &[u8])
    ensures
        slice@ == bytes_contents(*bytes),
{
    bytes.as_ref()
}

/// The value that marks a key as deleted: the text `bitcask_tombstone`.
pub open spec fn tombstone_bytes() -> Seq<u8> {
    seq![
        0x62u8, 0x69u8, 0x74u8, 0x63u8, 0x61u8, 0x73u8, 0x6bu8, 0x5fu8, 0x74u8, 0x6fu8, 0x6du8,
        0x62u8, 0x73u8, 0x74u8, 0x6fu8, 0x6eu8, 0x65u8,
    ]
}

/// Whether two byte strings are the same.
pub fn bytes_equal(a: &[u8], b: &[u8]) -> (same: bool)
    ensures
        same == (a@ == b@),
{
    if a.len() != b.len() {
        return false;
    }
    let mut i: usize = 0;
    while i < a.len()
        invariant
            a@.len() == b@.len(),
            i <= a@.len(),
            forall|j: int| 0 <= j < i ==> a@[j] == b@[j],
        decreases a@.len() - i,
    {
        if a[i] != b[i] {
            return false;
        }
        i += 1;
    }
    assert(a@ =~= b@);
    true
}

/// Whether a value is the one that marks a deleted key.
pub fn is_tombstone(value: &[u8]) -> (deleted: bool)
    ensures
        deleted == (value@ == tombstone_bytes()),
{
    let mark: Vec<u8> = tombstone_value();
    bytes_equal(value, mark.as_slice())
}

/// The value that marks a deleted key.
pub fn tombstone_value() -> (value: Vec<u8>)
    ensures
        value@ == tombstone_bytes(),
{
    let value: Vec<u8> = vec![
        0x62u8, 0x69u8, 0x74u8, 0x63u8, 0x61u8, 0x73u8, 0x6bu8, 0x5fu8, 0x74u8, 0x6fu8, 0x6du8,
        0x62u8, 0x73u8, 0x74u8, 0x6fu8, 0x6eu8, 0x65u8,
    ];
    assert(value@ =~= tombstone_bytes());
    value
}

/// Turns a value into the bytes that stand for it.
pub trait Encoder<T> {
    fn encode(obj: T) -> Bytes;
}

/// Reads a value out of the bytes that stand for it.
pub trait Decoder<T> {
    fn decode(bytes: Bytes) -> T;
}

/// A row that is ready to be appended to a data file.
#[derive(Debug)]
pub struct RowToWrite<'a> {
    pub crc: u32,
    pub timestamp: u64,
    pub key_size: u64,
    pub value_size: u64,
    pub key: &'a Vec<u8>,
    pub value: Vec<u8>,
    pub size: u64,
}

impl<'a> RowToWrite<'a> {
    /// The checksum and the sizes are those of the key, the value and the
    /// timestamp.
    pub open spec fn wf(&self) -> bool {
        &&& row_fits(self.key@.len(), self.value@.len())
        &&& self.crc == crc32_cksum(row_payload(self.timestamp, self.key@, self.value@))
        &&& self.key_size == self.key@.len()
        &&& self.value_size == self.value@.len()
        &&& self.size == 28 + self.key@.len() + self.value@.len()
    }

    /// The bytes of the row, field by field.
    pub open spec fn encoded(&self) -> Seq<u8> {
        be_bytes_u32(self.crc) + be_bytes_u64(self.timestamp) + be_bytes_u64(self.key_size)
            + be_bytes_u64(self.value_size) + self.key@ + self.value@
    }

    /// A row for `key` and `value`, stamped with the time of the call.
    pub fn new(key: &'a Vec<u8>, value: Vec<u8>) -> (row: RowToWrite<'a>)
        requires
            row_fits(key@.len(), value@.len()),
        ensures
            row.wf(),
            row.key == key,
            row.value == value,
    {
        let now: u64 = now_millis();
        RowToWrite::new_with_timestamp(key, value, now)
    }

    /// A row for `key` and `value` with the given timestamp.
    pub fn new_with_timestamp(key: &'a Vec<u8>, value: Vec<u8>, timestamp: u64) -> (row:
        RowToWrite<'a>)
        requires
            row_fits(key@.len(), value@.len()),
        ensures
            row.wf(),
            row.key == key,
            row.value == value,
            row.timestamp == timestamp,
    {
        let key_size: u64 = key.len() as u64;
        let value_size: u64 = value.len() as u64;
        let mut payload: Vec<u8> = Vec::new();
        push_u64_be(&mut payload, timestamp);
        push_u64_be(&mut payload, key_size);
        push_u64_be(&mut payload, value_size);
        payload.extend_from_slice(key.as_slice());
        payload.extend_from_slice(value.as_slice());
        assert(payload@ =~= row_payload(timestamp, key@, value@));
        let crc: u32 = checksum(payload.as_slice());
        RowToWrite {
            crc,
            timestamp,
            key_size,
            value_size,
            key,
            value,
            size: 28 + key_size + value_size,
        }
    }

    /// The bytes of the row as they go into the file.
    pub fn to_bytes(&self) -> (bytes: Bytes)
        ensures
            bytes_contents(bytes) == self.encoded(),
            self.wf() ==> bytes_contents(bytes) == row_bytes(
                self.timestamp,
                self.key@,
                self.value@,
            ),
    {
        let mut buf: Vec<u8> = Vec::new();
        push_u32_be(&mut buf, self.crc);
        push_u64_be(&mut buf, self.timestamp);
        push_u64_be(&mut buf, self.key_size);
        push_u64_be(&mut buf, self.value_size);
        buf.extend_from_slice(self.key.as_slice());
        buf.extend_from_slice(self.value.as_slice());
        assert(buf@ =~= self.encoded());
        proof {
            if self.wf() {
                assert(self.encoded() =~= row_bytes(self.timestamp, self.key@, self.value@));
            }
        }
        bytes_from_vec(buf)
    }
}

/// A data file that values can be read from.
pub trait BitcaskDataFile {
    fn read_value(&mut self, value_offset: u64, size: usize) -> BitcaskResult<Vec<u8>>;
}

/// Where a row stands: the file, the offset of its first byte, its length.
#[derive(Debug, PartialEq, Eq, Clone, Copy, Structural)]
pub struct RowLocation {
    pub file_id: FileId,
    pub row_offset: u64,
    pub row_size: u64,
}

/// A value read from a data file.
#[derive(Debug)]
pub enum Value {
    VectorBytes(Vec<u8>),
}

impl View for Value {
    type V = Seq<u8>;

    open spec fn view(&self) -> Seq<u8> {
        match self {
            Value::VectorBytes(v) => v@,
        }
    }
}

impl std::ops::Deref for Value {
    type Target = [u8];

    fn deref(&self) -> (bytes: &[u8])
        ensures
            bytes@ == self@,
    {
        match self {
            Value::VectorBytes(v) => v.as_slice(),
        }
    }
}

impl Value {
    /// The bytes of the value.
    pub fn as_slice(&self) -> (bytes: &[u8])
        ensures
            bytes@ == self@,
    {
        match self {
            Value::VectorBytes(v) => v.as_slice(),
        }
    }

    /// The bytes of the value, owned.
    pub fn into_vec(self) -> (bytes: Vec<u8>)
        ensures
            bytes@ == self@,
    {
        match self {
            Value::VectorBytes(v) => v,
        }
    }
}

/// A value and the timestamp of the row that holds it.
#[derive(Debug)]
pub struct TimedValue<V> {
    pub value: V,
    pub timestamp: u64,
}

impl<V: std::ops::Deref<Target = [u8]>> std::ops::Deref for TimedValue<V> {
    type Target = [u8];

    /// The bytes of the value: what the value itself dereferences to.
    fn deref(&self) -> (bytes: &[u8])
        ensures
            call_ensures(V::deref, (&self.value,), bytes),
    {
        self.value.deref()
    }
}

/// The value that a deleted key's row carries.
pub fn deleted_value() -> (deleted: TimedValue<Vec<u8>>)
    ensures
        deleted.value@ == tombstone_bytes(),
        deleted.timestamp == 0,
{
    TimedValue::immortal_value(tombstone_value())
}

impl<V> TimedValue<V> {
    /// A value without a timestamp.
    pub fn immortal_value(value: V) -> (timed: TimedValue<V>)
        ensures
            timed.value == value,
            timed.timestamp == 0,
    {
        TimedValue { value, timestamp: 0 }
    }

    /// A value with its timestamp.
    pub fn has_time_value(value: V, timestamp: u64) -> (timed: TimedValue<V>)
        ensures
            timed.value == value,
            timed.timestamp == timestamp,
    {
        TimedValue { value, timestamp }
    }
}

/// A row read from a data file.
#[derive(Debug)]
pub struct RowToRead {
    pub key: Vec<u8>,
    pub value: Vec<u8>,
    pub row_position: RowLocation,
    pub timestamp: u64,
}

/// What recovery needs of a row: where it stands, whose it is, and whether it
/// deletes.
#[derive(Debug)]
pub struct RecoveredRow {
    pub file_id: FileId,
    pub timestamp: u64,
    pub row_offset: u64,
    pub row_size: u64,
    pub key: Vec<u8>,
    pub is_tombstone: bool,
}

/// A recovered row as the contracts speak of it.
pub struct RecoveredRowView {
    pub file_id: FileId,
    pub timestamp: u64,
    pub row_offset: u64,
    pub row_size: u64,
    pub key: Seq<u8>,
    pub is_tombstone: bool,
}

impl View for RecoveredRow {
    type V = RecoveredRowView;

    open spec fn view(&self) -> RecoveredRowView {
        RecoveredRowView {
            file_id: self.file_id,
            timestamp: self.timestamp,
            row_offset: self.row_offset,
            row_size: self.row_size,
            key: self.key@,
            is_tombstone: self.is_tombstone,
        }
    }
}

/// The rows of a vector as the contracts speak of them.
pub open spec fn recovered_views(rows: Seq<RecoveredRow>) -> Seq<RecoveredRowView> {
    rows.map_values(|row: RecoveredRow| row@)
}

} // verus!
