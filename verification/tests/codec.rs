use std::time::Duration;

use bitcask::clock::millis_since_epoch;
use bitcask::codec::{push_u32_be, push_u64_be, read_u32_be, read_u64_be};
use bitcask::common::{
    bytes_equal, deleted_value, is_tombstone, tombstone_value, RowToWrite, TimedValue, Value,
};
use bitcask::error::FormatterError;
use bitcask::formatter::{
    decode_file_header, decode_row, write_file_header, DATA_FILE_KEY_OFFSET, FILE_HEADER_SIZE,
};

#[test]
fn big_endian_integers() {
    let mut buf = Vec::new();
    push_u32_be(&mut buf, 0x01020304);
    push_u64_be(&mut buf, 0x05060708090a0b0c);
    assert_eq!(buf, vec![1, 2, 3, 4, 5, 6, 7, 8, 9, 10, 11, 12]);
    assert_eq!(read_u32_be(&buf, 0), 0x01020304);
    assert_eq!(read_u64_be(&buf, 4), 0x05060708090a0b0c);
    assert_eq!(read_u32_be(&buf, 8), 0x090a0b0c);
    let mut buf = Vec::new();
    push_u64_be(&mut buf, u64::MAX);
    push_u32_be(&mut buf, 0);
    assert_eq!(read_u64_be(&buf, 0), u64::MAX);
    assert_eq!(read_u32_be(&buf, 8), 0);
}

#[test]
fn row_layout() {
    let key = b"k1".to_vec();
    let row = RowToWrite::new_with_timestamp(&key, b"value1".to_vec(), 0x0102);
    assert_eq!(row.timestamp, 0x0102);
    assert_eq!(row.key_size, 2);
    assert_eq!(row.value_size, 6);
    assert_eq!(row.size, 36);
    let mut payload = Vec::new();
    payload.extend_from_slice(&0x0102u64.to_be_bytes());
    payload.extend_from_slice(&2u64.to_be_bytes());
    payload.extend_from_slice(&6u64.to_be_bytes());
    payload.extend_from_slice(b"k1");
    payload.extend_from_slice(b"value1");
    let crc = crc::Crc::<u32>::new(&crc::CRC_32_CKSUM).checksum(&payload);
    assert_eq!(row.crc, crc);
    assert_eq!(row.crc, 3841579633);
    let mut expected = crc.to_be_bytes().to_vec();
    expected.extend_from_slice(&payload);
    let bytes = row.to_bytes();
    assert_eq!(bytes.as_ref(), expected.as_slice());
    assert_eq!(bytes.len(), DATA_FILE_KEY_OFFSET + 8);
}

#[test]
fn row_round_trip() {
    let key = b"key".to_vec();
    let row = RowToWrite::new_with_timestamp(&key, b"the value".to_vec(), 77);
    let bytes = row.to_bytes();
    let decoded = decode_row(bytes.as_ref()).unwrap();
    assert_eq!(decoded.timestamp, 77);
    assert_eq!(decoded.key, b"key".to_vec());
    assert_eq!(decoded.value, b"the value".to_vec());

    let empty_key = Vec::new();
    let row = RowToWrite::new_with_timestamp(&empty_key, Vec::new(), 0);
    let bytes = row.to_bytes();
    assert_eq!(bytes.len(), 28);
    let decoded = decode_row(bytes.as_ref()).unwrap();
    assert_eq!(decoded.timestamp, 0);
    assert!(decoded.key.is_empty());
    assert!(decoded.value.is_empty());
}

#[test]
fn row_stamped_with_the_clock() {
    let key = b"key".to_vec();
    let row = RowToWrite::new(&key, b"value".to_vec());
    assert!(row.timestamp > 1_600_000_000_000);
    assert_eq!(row.size, 28 + 3 + 5);
    let decoded = decode_row(row.to_bytes().as_ref()).unwrap();
    assert_eq!(decoded.timestamp, row.timestamp);
    assert_eq!(decoded.value, b"value".to_vec());
}

#[test]
fn decode_row_names_what_is_wrong() {
    assert_eq!(decode_row(&[0u8; 27]).err(), Some(FormatterError::Truncated));
    let key = b"key".to_vec();
    let row = RowToWrite::new_with_timestamp(&key, b"the value".to_vec(), 77);
    let good = row.to_bytes().as_ref().to_vec();
    for at in 4..good.len() {
        let mut bad = good.clone();
        bad[at] ^= 0x01;
        match decode_row(&bad) {
            Err(FormatterError::ChecksumMismatch(stored, actual)) => {
                assert_eq!(stored, row.crc);
                assert_ne!(actual, row.crc);
            }
            other => panic!("byte {}: unexpected result {:?}", at, other),
        }
    }
    let mut bad = good.clone();
    bad[0] ^= 0x80;
    assert_eq!(
        decode_row(&bad).err(),
        Some(FormatterError::ChecksumMismatch(row.crc ^ 0x80000000, row.crc))
    );
    let mut longer = good.clone();
    longer.push(0);
    assert!(matches!(
        decode_row(&longer),
        Err(FormatterError::ChecksumMismatch(_, _))
    ));
    let mut sizes = Vec::new();
    sizes.extend_from_slice(&1u64.to_be_bytes());
    sizes.extend_from_slice(&5u64.to_be_bytes());
    sizes.extend_from_slice(&0u64.to_be_bytes());
    sizes.extend_from_slice(b"abc");
    let crc = crc::Crc::<u32>::new(&crc::CRC_32_CKSUM).checksum(&sizes);
    let mut mismatched = crc.to_be_bytes().to_vec();
    mismatched.extend_from_slice(&sizes);
    assert_eq!(
        decode_row(&mismatched).err(),
        Some(FormatterError::RowSizeMismatch)
    );
}

#[test]
fn file_header() {
    let mut file = Vec::new();
    write_file_header(&mut file);
    assert_eq!(file, vec![0x62, 0x63, 0x73, 0x6b, 0, 0, 0, 1]);
    assert_eq!(file.len(), FILE_HEADER_SIZE);
    assert_eq!(decode_file_header(&file), Ok(1));
    assert_eq!(
        decode_file_header(&file[..7]),
        Err(FormatterError::Truncated)
    );
    let mut other_magic = file.clone();
    other_magic[3] = 0;
    assert_eq!(
        decode_file_header(&other_magic),
        Err(FormatterError::MagicNotMatch)
    );
    let mut other_version = file.clone();
    other_version[7] = 2;
    assert_eq!(
        decode_file_header(&other_version),
        Err(FormatterError::UnknownFormatterVersion(2))
    );
    file.extend_from_slice(b"rows");
    assert_eq!(decode_file_header(&file), Ok(1));
}

#[test]
fn tombstone() {
    assert_eq!(tombstone_value(), b"bitcask_tombstone".to_vec());
    assert!(is_tombstone(b"bitcask_tombstone"));
    assert!(!is_tombstone(b"bitcask_tombston"));
    assert!(!is_tombstone(b"bitcask_tombstone "));
    assert!(!is_tombstone(b""));
    let deleted = deleted_value();
    assert_eq!(deleted.value, b"bitcask_tombstone".to_vec());
    assert_eq!(deleted.timestamp, 0);
    assert!(bytes_equal(b"abc", b"abc"));
    assert!(!bytes_equal(b"abc", b"abd"));
    assert!(!bytes_equal(b"abc", b"ab"));
    assert!(bytes_equal(b"", b""));
}

#[test]
fn timed_values() {
    let immortal = TimedValue::immortal_value(b"v".to_vec());
    assert_eq!(immortal.value, b"v".to_vec());
    assert_eq!(immortal.timestamp, 0);
    let timed = TimedValue::has_time_value(Value::VectorBytes(b"w".to_vec()), 99);
    assert_eq!(timed.timestamp, 99);
    assert_eq!(timed.value.as_slice(), b"w");
    assert_eq!(&*timed.value, b"w");
    assert_eq!(&*timed, b"w");
    assert_eq!(timed.len(), 1);
    assert_eq!(timed.value.into_vec(), b"w".to_vec());
    let plain = TimedValue::has_time_value(b"abc".to_vec(), 5);
    assert_eq!(&*plain, b"abc");
}

#[test]
fn timestamp_of_a_reading_of_the_clock() {
    assert_eq!(millis_since_epoch(None), 0);
    assert_eq!(millis_since_epoch(Some(Duration::from_millis(1234))), 1234);
    assert_eq!(millis_since_epoch(Some(Duration::new(3, 999_999_999))), 3999);
    assert_eq!(millis_since_epoch(Some(Duration::ZERO)), 0);
    let greatest = Duration::new(u64::MAX, 999_999_999);
    assert_eq!(
        millis_since_epoch(Some(greatest)),
        (u64::MAX as u128 * 1000 + 999) as u64
    );
}
