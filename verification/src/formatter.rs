//! The layout of a data file: a file header, then rows.
//!
//! A row is `crc | timestamp | key size | value size | key | value`, the
//! integers big-endian, the checksum taken over everything behind it.

use crate::checksum::{checksum, crc32_cksum};
use crate::codec::{
    be_bytes_u32, be_bytes_u64, lemma_u32_be_roundtrip, lemma_u64_be_roundtrip, push_u32_be,
    read_u32_be, read_u64_be, u32_from_be, u64_from_be,
};
use crate::error::FormatterError;
use vstd::prelude::*;
use vstd::slice::{slice_subrange, slice_to_vec};

verus! {

/// The bytes of a row in front of its key: checksum, timestamp and two sizes.
pub const DATA_FILE_KEY_OFFSET: usize = 28;

/// The bytes of a data file in front of its first row.
pub const FILE_HEADER_SIZE: usize = 8;

/// The codec version that this library writes.
pub const FORMATTER_VERSION: u32 = 1;

/// What the checksum of a row covers: everything from the timestamp to the end
/// of the value.
pub open spec fn row_payload(timestamp: u64, key: Seq<u8>, value: Seq<u8>) -> Seq<u8> {
    be_bytes_u64(timestamp) + be_bytes_u64(key.len() as u64) + be_bytes_u64(value.len() as u64)
        + key + value
}

/// A row as it stands in a data file.
pub open spec fn row_bytes(timestamp: u64, key: Seq<u8>, value: Seq<u8>) -> Seq<u8> {
    be_bytes_u32(crc32_cksum(row_payload(timestamp, key, value))) + row_payload(
        timestamp,
        key,
        value,
    )
}

/// The length of a row with a key and a value of these lengths.
pub open spec fn row_len(key_len: nat, value_len: nat) -> nat {
    28 + key_len + value_len
}

/// A key and a value are small enough for their row's length to fit the size
/// fields.
pub open spec fn row_fits(key_len: nat, value_len: nat) -> bool {
    28 + key_len + value_len <= u64::MAX
}

/// The checksum that a row's bytes carry in front.
pub open spec fn stored_crc(row: Seq<u8>) -> u32 {
    u32_from_be(row.subrange(0, 4))
}

pub open spec fn stored_timestamp(row: Seq<u8>) -> u64 {
    u64_from_be(row.subrange(4, 12))
}

pub open spec fn stored_key_size(row: Seq<u8>) -> u64 {
    u64_from_be(row.subrange(12, 20))
}

pub open spec fn stored_value_size(row: Seq<u8>) -> u64 {
    u64_from_be(row.subrange(20, 28))
}

pub open spec fn stored_key(row: Seq<u8>) -> Seq<u8> {
    row.subrange(28, 28 + stored_key_size(row))
}

pub open spec fn stored_value(row: Seq<u8>) -> Seq<u8> {
    row.subrange(28 + stored_key_size(row), 28 + stored_key_size(row) + stored_value_size(row))
}

/// A row taken out of its bytes.
#[derive(Debug)]
pub struct DecodedRow {
    pub timestamp: u64,
    pub key: Vec<u8>,
    pub value: Vec<u8>,
}

/// What decoding makes of bytes that are meant to hold exactly one row: the
/// timestamp, key and value, or the first thing that is wrong with them.
pub open spec fn decode_row_spec(row: Seq<u8>) -> Result<(u64, Seq<u8>, Seq<u8>), FormatterError> {
    if row.len() < 28 {
        Err(FormatterError::Truncated)
    } else if stored_crc(row) != crc32_cksum(row.subrange(4, row.len() as int)) {
        Err(
            FormatterError::ChecksumMismatch(
                stored_crc(row),
                crc32_cksum(row.subrange(4, row.len() as int)),
            ),
        )
    } else if 28 + stored_key_size(row) + stored_value_size(row) != row.len() {
        Err(FormatterError::RowSizeMismatch)
    } else {
        Ok((stored_timestamp(row), stored_key(row), stored_value(row)))
    }
}

/// Decodes bytes that are meant to hold exactly one row.
pub fn decode_row(row: &[u8]) -> (decoded: Result<DecodedRow, FormatterError>)
    ensures
        match decode_row_spec(row@) {
            Ok((timestamp, key, value)) => decoded.is_ok() && decoded.unwrap().timestamp
                == timestamp && decoded.unwrap().key@ == key && decoded.unwrap().value@ == value,
            Err(e) => decoded == Err::<DecodedRow, FormatterError>(e),
        },
{
    let n: usize = row.len();
    if n < DATA_FILE_KEY_OFFSET {
        return Err(FormatterError::Truncated);
    }
    let crc: u32 = read_u32_be(row, 0);
    let timestamp: u64 = read_u64_be(row, 4);
    let key_size: u64 = read_u64_be(row, 12);
    let value_size: u64 = read_u64_be(row, 20);
    let actual: u32 = checksum(slice_subrange(row, 4, n));
    if actual != crc {
        return Err(FormatterError::ChecksumMismatch(crc, actual));
    }
    let body: u64 = (n - DATA_FILE_KEY_OFFSET) as u64;
    if key_size > body || value_size != body - key_size {
        return Err(FormatterError::RowSizeMismatch);
    }
    let key_end: usize = DATA_FILE_KEY_OFFSET + key_size as usize;
    let key: Vec<u8> = slice_to_vec(slice_subrange(row, DATA_FILE_KEY_OFFSET, key_end));
    let value: Vec<u8> = slice_to_vec(slice_subrange(row, key_end, n));
    Ok(DecodedRow { timestamp, key, value })
}

/// The parts of an encoded row can be read back from its bytes.
pub proof fn lemma_row_bytes_fields(timestamp: u64, key: Seq<u8>, value: Seq<u8>)
    requires
        row_fits(key.len(), value.len()),
    ensures
        row_bytes(timestamp, key, value).len() == row_len(key.len(), value.len()),
        stored_crc(row_bytes(timestamp, key, value)) == crc32_cksum(
            row_payload(timestamp, key, value),
        ),
        stored_timestamp(row_bytes(timestamp, key, value)) == timestamp,
        stored_key_size(row_bytes(timestamp, key, value)) == key.len(),
        stored_value_size(row_bytes(timestamp, key, value)) == value.len(),
        stored_key(row_bytes(timestamp, key, value)) == key,
        stored_value(row_bytes(timestamp, key, value)) == value,
        row_bytes(timestamp, key, value).subrange(
            4,
            row_bytes(timestamp, key, value).len() as int,
        ) == row_payload(timestamp, key, value),
{
    let payload = row_payload(timestamp, key, value);
    let crc = crc32_cksum(payload);
    let row = row_bytes(timestamp, key, value);
    lemma_u32_be_roundtrip(crc);
    lemma_u64_be_roundtrip(timestamp);
    lemma_u64_be_roundtrip(key.len() as u64);
    lemma_u64_be_roundtrip(value.len() as u64);
    assert(row.subrange(0, 4) =~= be_bytes_u32(crc));
    assert(row.subrange(4, 12) =~= be_bytes_u64(timestamp));
    assert(row.subrange(12, 20) =~= be_bytes_u64(key.len() as u64));
    assert(row.subrange(20, 28) =~= be_bytes_u64(value.len() as u64));
    assert(row.subrange(28, 28 + key.len() as int) =~= key);
    assert(row.subrange(28 + key.len() as int, 28 + key.len() as int + value.len() as int) =~= value);
    assert(row.subrange(4, row.len() as int) =~= payload);
}

/// Decoding an encoded row gives back the timestamp, the key and the value.
pub proof fn lemma_decode_row_of_row_bytes(timestamp: u64, key: Seq<u8>, value: Seq<u8>)
    requires
        row_fits(key.len(), value.len()),
    ensures
        decode_row_spec(row_bytes(timestamp, key, value)) == Ok::<
            (u64, Seq<u8>, Seq<u8>),
            FormatterError,
        >((timestamp, key, value)),
{
    lemma_row_bytes_fields(timestamp, key, value);
}

/// Bytes that decode as a row are the encoding of what they decode to.
pub proof fn lemma_decoded_row_is_row_bytes(row: Seq<u8>)
    requires
        decode_row_spec(row).is_ok(),
    ensures
        row == row_bytes(stored_timestamp(row), stored_key(row), stored_value(row)),
        stored_key(row).len() == stored_key_size(row),
        stored_value(row).len() == stored_value_size(row),
{
    crate::codec::lemma_u32_be_bytes_of_from(row.subrange(0, 4));
    crate::codec::lemma_u64_be_bytes_of_from(row.subrange(4, 12));
    crate::codec::lemma_u64_be_bytes_of_from(row.subrange(12, 20));
    crate::codec::lemma_u64_be_bytes_of_from(row.subrange(20, 28));
    let payload = row_payload(stored_timestamp(row), stored_key(row), stored_value(row));
    assert(payload =~= row.subrange(4, row.len() as int));
    assert(row =~= row_bytes(stored_timestamp(row), stored_key(row), stored_value(row)));
}

/// A row whose bytes behind the checksum were changed, and whose checksum no
/// longer matches them, is refused for its checksum, whatever else the change
/// did to it.
pub proof fn lemma_changed_row_fails_checksum(row: Seq<u8>, changed: Seq<u8>)
    requires
        decode_row_spec(row).is_ok(),
        changed.len() == row.len(),
        changed.subrange(0, 4) == row.subrange(0, 4),
        crc32_cksum(changed.subrange(4, changed.len() as int)) != crc32_cksum(
            row.subrange(4, row.len() as int),
        ),
    ensures
        decode_row_spec(changed) == Err::<(u64, Seq<u8>, Seq<u8>), FormatterError>(
            FormatterError::ChecksumMismatch(
                stored_crc(row),
                crc32_cksum(changed.subrange(4, changed.len() as int)),
            ),
        ),
{
}

/// The four bytes that every data file starts with.
pub open spec fn file_magic() -> Seq<u8> {
    seq![0x62u8, 0x63u8, 0x73u8, 0x6bu8]
}

/// The header of a data file that this library writes.
pub open spec fn file_header_bytes() -> Seq<u8> {
    file_magic() + be_bytes_u32(FORMATTER_VERSION)
}

/// What reading a file header gives: the codec version, or why the bytes are
/// no header.
pub open spec fn decode_file_header_spec(file: Seq<u8>) -> Result<u32, FormatterError> {
    if file.len() < 8 {
        Err(FormatterError::Truncated)
    } else if file.subrange(0, 4) != file_magic() {
        Err(FormatterError::MagicNotMatch)
    } else if u32_from_be(file.subrange(4, 8)) != FORMATTER_VERSION {
        Err(FormatterError::UnknownFormatterVersion(u32_from_be(file.subrange(4, 8))))
    } else {
        Ok(FORMATTER_VERSION)
    }
}

/// Appends the file header to an empty buffer.
pub fn write_file_header(file: &mut Vec<u8>)
    requires
        old(file)@.len() == 0,
    ensures
        final(file)@ == file_header_bytes(),
        decode_file_header_spec(final(file)@) == Ok::<u32, FormatterError>(FORMATTER_VERSION),
{
    file.push(0x62u8);
    file.push(0x63u8);
    file.push(0x73u8);
    file.push(0x6bu8);
    push_u32_be(file, FORMATTER_VERSION);
    proof {
        assert(file@ =~= file_header_bytes());
        lemma_file_header_decodes();
    }
}

/// The header that this library writes is one that it reads.
pub proof fn lemma_file_header_decodes()
    ensures
        file_header_bytes().len() == 8,
        decode_file_header_spec(file_header_bytes()) == Ok::<u32, FormatterError>(
            FORMATTER_VERSION,
        ),
{
    lemma_u32_be_roundtrip(FORMATTER_VERSION);
    assert(file_header_bytes().subrange(0, 4) =~= file_magic());
    assert(file_header_bytes().subrange(4, 8) =~= be_bytes_u32(FORMATTER_VERSION));
}

/// Reads the header that a data file starts with.
pub fn decode_file_header(file: &[u8]) -> (version: Result<u32, FormatterError>)
    ensures
        version == decode_file_header_spec(file@),
{
    if file.len() < FILE_HEADER_SIZE {
        return Err(FormatterError::Truncated);
    }
    if file[0] != 0x62u8 || file[1] != 0x63u8 || file[2] != 0x73u8 || file[3] != 0x6bu8 {
        assert(file@.subrange(0, 4)[0] == file@[0]);
        assert(file@.subrange(0, 4)[1] == file@[1]);
        assert(file@.subrange(0, 4)[2] == file@[2]);
        assert(file@.subrange(0, 4)[3] == file@[3]);
        return Err(FormatterError::MagicNotMatch);
    }
    assert(file@.subrange(0, 4) =~= file_magic());
    let version: u32 = read_u32_be(file, 4);
    if version != FORMATTER_VERSION {
        return Err(FormatterError::UnknownFormatterVersion(version));
    }
    Ok(version)
}

} // verus!
