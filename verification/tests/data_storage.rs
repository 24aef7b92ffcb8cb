use bitcask::common::{BitcaskDataFile, RowLocation, RowToWrite};
use bitcask::data_storage::{
    read_row_at, DataStorage, DataStorageOptions, DataStorageReader, DataStorageWriter,
};
use bitcask::error::{BitcaskError, DataStorageError, FormatterError};

fn options(max_data_file_size: usize) -> DataStorageOptions {
    DataStorageOptions {
        max_data_file_size,
        init_data_file_capacity: 10,
    }
}

#[test]
fn storage_options() {
    let options = DataStorageOptions::default();
    assert_eq!(options.max_data_file_size, 128 * 1024 * 1024);
    assert_eq!(options.init_data_file_capacity, 1024 * 1024);
    let options = options.max_data_file_size(7).init_data_file_capacity(9);
    assert_eq!(options.max_data_file_size, 7);
    assert_eq!(options.init_data_file_capacity, 9);
}

#[test]
fn new_storage_holds_a_header() {
    let mut storage = DataStorage::new(5, options(100)).unwrap();
    assert_eq!(storage.storage_id(), 5);
    assert_eq!(storage.file_id(), 5);
    assert_eq!(storage.is_readonly(), Ok(false));
    assert!(!storage.is_dirty());
    assert_eq!(storage.file_size(), 8);
    assert_eq!(storage.as_bytes(), &[0x62, 0x63, 0x73, 0x6b, 0, 0, 0, 1]);
    assert!(storage.read_next_row().unwrap().is_none());
    assert!(storage.iter().unwrap().next().is_none());
}

#[test]
fn write_then_read() {
    let mut storage = DataStorage::new(5, options(100)).unwrap();
    let key = b"k1".to_vec();
    let row = RowToWrite::new_with_timestamp(&key, b"value1".to_vec(), 3);
    let first = storage.write_row(&row).unwrap();
    assert_eq!(
        first,
        RowLocation {
            file_id: 5,
            row_offset: 8,
            row_size: 36
        }
    );
    assert!(storage.is_dirty());
    let key2 = b"k2".to_vec();
    let row2 = RowToWrite::new_with_timestamp(&key2, b"v".to_vec(), 4);
    let second = storage.write_row(&row2).unwrap();
    assert_eq!(
        second,
        RowLocation {
            file_id: 5,
            row_offset: 44,
            row_size: 31
        }
    );
    assert_eq!(storage.file_size(), 75);

    let read = DataStorageReader::read_value(&storage, 8, 36).unwrap();
    assert_eq!(read.timestamp, 3);
    assert_eq!(read.value.as_slice(), b"value1");
    let read = DataStorageReader::read_value(&storage, 44, 31).unwrap();
    assert_eq!(read.timestamp, 4);
    assert_eq!(read.value.as_slice(), b"v");
    assert_eq!(
        BitcaskDataFile::read_value(&mut storage, 44, 31).unwrap(),
        b"v".to_vec()
    );

    let next = storage.read_next_row().unwrap().unwrap();
    assert_eq!(next.key, b"k1".to_vec());
    assert_eq!(next.value, b"value1".to_vec());
    assert_eq!(next.timestamp, 3);
    assert_eq!(next.row_position, first);
    let next = storage.read_next_row().unwrap().unwrap();
    assert_eq!(next.key, b"k2".to_vec());
    assert_eq!(next.row_position, second);
    assert!(storage.read_next_row().unwrap().is_none());

    let mut iter = storage.iter().unwrap();
    assert_eq!(iter.next().unwrap().unwrap().row_position, first);
    assert_eq!(iter.next().unwrap().unwrap().row_position, second);
    assert!(iter.next().is_none());
    assert!(iter.next().is_none());

    storage.flush().unwrap();
    assert!(!storage.is_dirty());
    assert_eq!(storage.file_size(), 75);
}

#[test]
fn overflow_writes_nothing() {
    let mut storage = DataStorage::new(5, options(50)).unwrap();
    let key = b"k1".to_vec();
    let fits = RowToWrite::new_with_timestamp(&key, b"value1".to_vec(), 3);
    assert!(storage.write_row(&fits).is_ok());
    let before = storage.as_bytes().to_vec();
    assert_eq!(
        storage.write_row(&fits).err(),
        Some(DataStorageError::StorageOverflow(5))
    );
    assert_eq!(storage.as_bytes(), before.as_slice());
    let exact = RowToWrite::new_with_timestamp(&key, Vec::new(), 3);
    let mut storage = DataStorage::new(6, options(38)).unwrap();
    assert!(storage.write_row(&exact).is_ok());
    assert_eq!(storage.file_size(), 38);
}

#[test]
fn a_read_only_storage_refuses_rows() {
    let mut storage = DataStorage::new(5, options(100)).unwrap();
    let key = b"k1".to_vec();
    let row = RowToWrite::new_with_timestamp(&key, b"value1".to_vec(), 3);
    storage.write_row(&row).unwrap();
    let mut stable = storage.transit_to_readonly().unwrap();
    assert_eq!(stable.is_readonly(), Ok(true));
    assert!(!stable.is_dirty());
    assert_eq!(stable.file_size(), 44);
    assert_eq!(
        stable.write_row(&row).err(),
        Some(DataStorageError::PermissionDenied(5))
    );
    assert_eq!(
        DataStorageReader::read_value(&stable, 8, 36)
            .unwrap()
            .value
            .as_slice(),
        b"value1"
    );
}

#[test]
fn reads_that_find_no_row() {
    let mut storage = DataStorage::new(5, options(100)).unwrap();
    let key = b"k1".to_vec();
    let row = RowToWrite::new_with_timestamp(&key, b"value1".to_vec(), 3);
    storage.write_row(&row).unwrap();
    assert_eq!(
        DataStorageReader::read_value(&storage, 8, 37).err(),
        Some(DataStorageError::DataStorageFormatter(
            FormatterError::Truncated
        ))
    );
    assert_eq!(
        DataStorageReader::read_value(&storage, u64::MAX, 2).err(),
        Some(DataStorageError::DataStorageFormatter(
            FormatterError::Truncated
        ))
    );
    assert_eq!(
        DataStorageReader::read_value(&storage, 8, 20).err(),
        Some(DataStorageError::DataStorageFormatter(
            FormatterError::Truncated
        ))
    );
    assert!(matches!(
        DataStorageReader::read_value(&storage, 9, 35),
        Err(DataStorageError::DataStorageFormatter(
            FormatterError::ChecksumMismatch(_, _)
        ))
    ));
    assert!(matches!(
        BitcaskDataFile::read_value(&mut storage, 9, 35),
        Err(BitcaskError::CrcCheckFailed(5, 9, _, _))
    ));
    assert!(matches!(
        BitcaskDataFile::read_value(&mut storage, 8, 37),
        Err(BitcaskError::DataFileCorrupted(_, 5, _))
    ));
}

#[test]
fn open_keeps_a_read_only_file_and_cuts_a_writable_one() {
    let mut storage = DataStorage::new(5, options(100)).unwrap();
    let key = b"k1".to_vec();
    let row = RowToWrite::new_with_timestamp(&key, b"value1".to_vec(), 3);
    storage.write_row(&row).unwrap();
    let mut image = storage.as_bytes().to_vec();
    image.extend_from_slice(&row.to_bytes().as_ref()[..20]);

    let writable = DataStorage::open(5, image.clone(), false, options(100)).unwrap();
    assert_eq!(writable.file_size(), 44);
    assert_eq!(writable.is_readonly(), Ok(false));
    let readonly = DataStorage::open(5, image.clone(), true, options(100)).unwrap();
    assert_eq!(readonly.file_size(), 64);
    assert_eq!(readonly.is_readonly(), Ok(true));
    let mut iter = readonly.iter().unwrap();
    assert_eq!(iter.next().unwrap().unwrap().key, b"k1".to_vec());
    assert!(iter.next().is_none());

    assert_eq!(
        DataStorage::open(5, vec![1, 2, 3], true, options(100)).err(),
        Some(DataStorageError::ReadFileHeaderError(
            FormatterError::Truncated,
            5
        ))
    );
    image[0] = 0;
    assert_eq!(
        DataStorage::open(5, image, true, options(100)).err(),
        Some(DataStorageError::ReadFileHeaderError(
            FormatterError::MagicNotMatch,
            5
        ))
    );
}

#[test]
fn rows_are_read_where_they_stand() {
    let mut storage = DataStorage::new(5, options(100)).unwrap();
    let key = b"k1".to_vec();
    let row = RowToWrite::new_with_timestamp(&key, b"value1".to_vec(), 3);
    storage.write_row(&row).unwrap();
    let file = storage.as_bytes();
    let found = read_row_at(file, 8, 5).unwrap().unwrap();
    assert_eq!(found.value, b"value1".to_vec());
    assert!(read_row_at(file, 44, 5).unwrap().is_none());
    assert_eq!(
        read_row_at(file, 30, 5).err(),
        Some(FormatterError::Truncated)
    );
    assert!(read_row_at(file, 9, 5).is_err());
}
