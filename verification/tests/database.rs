use bitcask::common::{RowLocation, TimedValue};
use bitcask::data_storage::DataStorageOptions;
use bitcask::database::{DataBaseOptions, DataFileImage, Database};
use bitcask::error::BitcaskError;
use bitcask::file_id::FileIdGenerator;
use bitcask::formatter::FILE_HEADER_SIZE;

fn default_options() -> DataBaseOptions {
    DataBaseOptions {
        storage_options: DataStorageOptions {
            max_data_file_size: 1024,
            init_data_file_capacity: 100,
        },
        sync_interval_sec: 60,
    }
}

struct TestingKV {
    key: Vec<u8>,
    value: Vec<u8>,
}

impl TestingKV {
    fn new(key: &str, value: &str) -> TestingKV {
        TestingKV {
            key: key.as_bytes().to_vec(),
            value: value.as_bytes().to_vec(),
        }
    }
}

struct TestingRow {
    kv: TestingKV,
    pos: RowLocation,
}

fn write_kvs_to_db(db: &mut Database, kvs: Vec<TestingKV>) -> Vec<TestingRow> {
    let mut rows = Vec::new();
    for kv in kvs {
        let pos = db
            .write(&kv.key, TimedValue::immortal_value(kv.value.clone()))
            .unwrap();
        rows.push(TestingRow { kv, pos });
    }
    rows
}

fn assert_rows_value(db: &Database, expect: &Vec<TestingRow>) {
    for row in expect {
        let actual = db.read_value(&row.pos).unwrap();
        assert_eq!(row.kv.value.as_slice(), actual.value.as_slice());
    }
}

fn assert_database_rows(db: &Database, expect_rows: &Vec<TestingRow>) {
    let mut iter = db.iter().unwrap();
    let mut i = 0;
    while let Some(actual_row) = iter.next() {
        let actual_row = actual_row.unwrap();
        let expect_row = expect_rows.get(i).unwrap();
        assert_eq!(expect_row.kv.key, actual_row.key);
        assert_eq!(expect_row.kv.value, actual_row.value);
        assert_eq!(expect_row.pos, actual_row.row_position);
        i += 1;
    }
    assert_eq!(expect_rows.len(), i);
}

#[test]
fn core_test_read_write_writing_file() {
    let mut db = Database::open(Vec::new(), FileIdGenerator::new(), default_options()).unwrap();
    let kvs = vec![
        TestingKV::new("k1", "value1"),
        TestingKV::new("k2", "value2"),
        TestingKV::new("k3", "value3"),
        TestingKV::new("k1", "value4"),
    ];
    let rows = write_kvs_to_db(&mut db, kvs);
    assert_rows_value(&db, &rows);
    assert_database_rows(&db, &rows);
}

#[test]
fn test_read_write_with_stable_files() {
    let mut rows: Vec<TestingRow> = vec![];
    let mut db = Database::open(Vec::new(), FileIdGenerator::new(), default_options()).unwrap();
    let kvs = vec![
        TestingKV::new("k1", "value1"),
        TestingKV::new("k2", "value2"),
    ];
    rows.append(&mut write_kvs_to_db(&mut db, kvs));
    db.flush_writing_file().unwrap();

    let kvs = vec![
        TestingKV::new("k3", "hello world"),
        TestingKV::new("k1", "value4"),
    ];
    rows.append(&mut write_kvs_to_db(&mut db, kvs));
    db.flush_writing_file().unwrap();

    assert_eq!(3, db.last_file_id());
    assert_eq!(2, db.get_file_ids().stable_file_ids.len());
    assert_rows_value(&db, &rows);
    assert_database_rows(&db, &rows);
}

#[test]
fn core_test_recovery() {
    let mut rows: Vec<TestingRow> = vec![];
    let images;
    {
        let mut db =
            Database::open(Vec::new(), FileIdGenerator::new(), default_options()).unwrap();
        let kvs = vec![
            TestingKV::new("k1", "value1"),
            TestingKV::new("k2", "value2"),
        ];
        rows.append(&mut write_kvs_to_db(&mut db, kvs));
        images = db.export();
    }
    let images2;
    {
        let mut generator = FileIdGenerator::new();
        generator.update_file_id(1);
        let mut db = Database::open(images, generator, default_options()).unwrap();
        let kvs = vec![
            TestingKV::new("k3", "hello world"),
            TestingKV::new("k1", "value4"),
        ];
        rows.append(&mut write_kvs_to_db(&mut db, kvs));
        images2 = db.export();
    }

    let mut generator = FileIdGenerator::new();
    generator.update_file_id(1);
    let db = Database::open(images2, generator, default_options()).unwrap();
    assert_eq!(1, db.last_file_id());
    assert_eq!(0, db.get_file_ids().stable_file_ids.len());
    assert_rows_value(&db, &rows);
    assert_database_rows(&db, &rows);
}

#[test]
fn test_wrap_file() {
    let mut db = Database::open(
        Vec::new(),
        FileIdGenerator::new(),
        DataBaseOptions {
            storage_options: DataStorageOptions {
                max_data_file_size: 100,
                init_data_file_capacity: 100,
            },
            sync_interval_sec: 60,
        },
    )
    .unwrap();
    let kvs = vec![
        TestingKV::new("k1", "value1_value1_value1"),
        TestingKV::new("k2", "value2_value2_value2"),
        TestingKV::new("k3", "value3_value3_value3"),
        TestingKV::new("k1", "value4_value4_value4"),
    ];
    assert_eq!(0, db.get_file_ids().stable_file_ids.len());
    let rows = write_kvs_to_db(&mut db, kvs);
    assert_rows_value(&db, &rows);
    assert_eq!(3, db.get_file_ids().stable_file_ids.len());
    assert_database_rows(&db, &rows);
}

#[test]
fn two_rows_share_a_file_that_has_room_for_both() {
    let mut db = Database::open(
        Vec::new(),
        FileIdGenerator::new(),
        DataBaseOptions {
            storage_options: DataStorageOptions {
                max_data_file_size: 100 + FILE_HEADER_SIZE,
                init_data_file_capacity: 100,
            },
            sync_interval_sec: 60,
        },
    )
    .unwrap();
    let kvs = vec![
        TestingKV::new("k1", "value1_value1_value1"),
        TestingKV::new("k2", "value2_value2_value2"),
        TestingKV::new("k3", "value3_value3_value3"),
        TestingKV::new("k1", "value4_value4_value4"),
    ];
    assert_eq!(0, db.get_file_ids().stable_file_ids.len());
    let rows = write_kvs_to_db(&mut db, kvs);
    assert_rows_value(&db, &rows);
    assert_eq!(1, db.get_file_ids().stable_file_ids.len());
    assert_database_rows(&db, &rows);
}

#[test]
fn rollover_puts_each_large_row_in_its_own_file() {
    let mut db = Database::open(
        Vec::new(),
        FileIdGenerator::new(),
        DataBaseOptions {
            storage_options: DataStorageOptions {
                max_data_file_size: 100,
                init_data_file_capacity: 100,
            },
            sync_interval_sec: 60,
        },
    )
    .unwrap();
    let value = "0123456789012345678901234567890123456789012345678901";
    let kvs = vec![
        TestingKV::new("k1", value),
        TestingKV::new("k2", value),
        TestingKV::new("k3", value),
        TestingKV::new("k4", value),
    ];
    let rows = write_kvs_to_db(&mut db, kvs);
    assert_eq!(3, db.get_file_ids().stable_file_ids.len());
    assert_eq!(4, db.get_max_file_id());
    assert_eq!(
        rows[3].pos,
        RowLocation {
            file_id: 4,
            row_offset: 8,
            row_size: 82
        }
    );
    assert_rows_value(&db, &rows);
    assert_database_rows(&db, &rows);
}

#[test]
fn write_gives_the_location_of_the_row() {
    let mut db = Database::open(Vec::new(), FileIdGenerator::new(), default_options()).unwrap();
    let first = db
        .write_with_timestamp(&b"k1".to_vec(), b"value1".to_vec(), 7)
        .unwrap();
    assert_eq!(
        first,
        RowLocation {
            file_id: 1,
            row_offset: 8,
            row_size: 36
        }
    );
    let second = db
        .write_with_timestamp(&b"key2".to_vec(), b"v".to_vec(), 8)
        .unwrap();
    assert_eq!(
        second,
        RowLocation {
            file_id: 1,
            row_offset: 44,
            row_size: 33
        }
    );
    let read = db.read_value(&second).unwrap();
    assert_eq!(read.timestamp, 8);
    assert_eq!(read.value.as_slice(), b"v");
}

#[test]
fn a_row_that_fits_no_file_is_refused() {
    let mut db = Database::open(
        Vec::new(),
        FileIdGenerator::new(),
        DataBaseOptions {
            storage_options: DataStorageOptions {
                max_data_file_size: 40,
                init_data_file_capacity: 100,
            },
            sync_interval_sec: 60,
        },
    )
    .unwrap();
    let refused = db.write_with_timestamp(&b"k1".to_vec(), b"value".to_vec(), 7);
    assert!(matches!(refused, Err(BitcaskError::InvalidParameter(_, _))));
    assert_eq!(db.stats().unwrap().total_data_size_in_bytes, 8);
    let taken = db.write_with_timestamp(&b"k1".to_vec(), b"v2".to_vec(), 7);
    assert!(taken.is_ok());
}

#[test]
fn read_of_an_unknown_file_fails() {
    let db = Database::open(Vec::new(), FileIdGenerator::new(), default_options()).unwrap();
    let missing = db.read_value(&RowLocation {
        file_id: 9,
        row_offset: 8,
        row_size: 36,
    });
    assert_eq!(missing.err(), Some(BitcaskError::TargetFileIdNotFound(9)));
}

#[test]
fn read_of_a_corrupted_row_fails_its_checksum() {
    let mut db = Database::open(Vec::new(), FileIdGenerator::new(), default_options()).unwrap();
    let at = db
        .write_with_timestamp(&b"k1".to_vec(), b"value1".to_vec(), 7)
        .unwrap();
    let mut images = db.export();
    let last = images[0].content.len() - 1;
    images[0].content[last] ^= 0xff;
    images[0].readonly = true;
    let db = Database::open(images, FileIdGenerator::new(), default_options()).unwrap();
    match db.read_value(&at) {
        Err(BitcaskError::CrcCheckFailed(file_id, offset, _, _)) => {
            assert_eq!(file_id, 1);
            assert_eq!(offset, 8);
        }
        other => panic!("unexpected result: {:?}", other),
    }
}

#[test]
fn read_out_of_range_is_reported_as_corruption() {
    let mut db = Database::open(Vec::new(), FileIdGenerator::new(), default_options()).unwrap();
    db.write_with_timestamp(&b"k1".to_vec(), b"value1".to_vec(), 7)
        .unwrap();
    let beyond = db.read_value(&RowLocation {
        file_id: 1,
        row_offset: 40,
        row_size: 36,
    });
    assert!(matches!(
        beyond,
        Err(BitcaskError::DataFileCorrupted(_, 1, _))
    ));
}

#[test]
fn open_refuses_bad_images() {
    let no_header = DataFileImage {
        file_id: 1,
        content: vec![1, 2, 3],
        readonly: true,
        hint: None,
    };
    let opened = Database::open(vec![no_header], FileIdGenerator::new(), default_options());
    assert!(matches!(
        opened.err(),
        Some(BitcaskError::DataFileCorrupted(_, 1, _))
    ));

    let db = Database::open(Vec::new(), FileIdGenerator::new(), default_options()).unwrap();
    let mut twice = db.export();
    twice.append(&mut db.export());
    let opened = Database::open(twice, FileIdGenerator::new(), default_options());
    assert!(matches!(
        opened.err(),
        Some(BitcaskError::InvalidParameter(_, _))
    ));

    let mut zero = db.export();
    zero[0].file_id = 0;
    let opened = Database::open(zero, FileIdGenerator::new(), default_options());
    assert!(matches!(
        opened.err(),
        Some(BitcaskError::InvalidDatabaseFileName(_))
    ));
}

#[test]
fn open_sorts_files_and_cuts_a_torn_tail() {
    let mut db = Database::open(Vec::new(), FileIdGenerator::new(), default_options()).unwrap();
    db.write_with_timestamp(&b"a".to_vec(), b"1".to_vec(), 1)
        .unwrap();
    db.flush_writing_file().unwrap();
    db.write_with_timestamp(&b"b".to_vec(), b"2".to_vec(), 2)
        .unwrap();
    db.flush_writing_file().unwrap();
    let at = db
        .write_with_timestamp(&b"c".to_vec(), b"3".to_vec(), 3)
        .unwrap();
    let mut images = db.export();
    images.reverse();
    images[0].content.extend_from_slice(&[0u8; 40]);
    let db = Database::open(images, FileIdGenerator::new(), default_options()).unwrap();
    let ids = db.get_file_ids();
    assert_eq!(ids.stable_file_ids, vec![1, 2]);
    assert_eq!(ids.writing_file_id, 3);
    assert_eq!(db.last_file_id(), 3);
    assert_eq!(db.read_value(&at).unwrap().value.as_slice(), b"3");
    let stats = db.stats().unwrap();
    assert_eq!(stats.number_of_data_files, 3);
    assert_eq!(stats.total_data_size_in_bytes, 3 * (8 + 30));
}

#[test]
fn sticky_error_is_reported() {
    let mut db = Database::open(Vec::new(), FileIdGenerator::new(), default_options()).unwrap();
    assert!(db.check_db_error().is_ok());
    db.mark_db_error("broken".to_string());
    assert_eq!(
        db.check_db_error().err(),
        Some(BitcaskError::DatabaseBroken("broken".to_string()))
    );
}

#[test]
fn drop_gives_up_every_stable_file() {
    let mut db = Database::open(Vec::new(), FileIdGenerator::new(), default_options()).unwrap();
    db.write_with_timestamp(&b"a".to_vec(), b"1".to_vec(), 1)
        .unwrap();
    db.flush_writing_file().unwrap();
    db.write_with_timestamp(&b"b".to_vec(), b"2".to_vec(), 2)
        .unwrap();
    db.drop().unwrap();
    let ids = db.get_file_ids();
    assert!(ids.stable_file_ids.is_empty());
    assert_eq!(ids.writing_file_id, 3);
    assert_eq!(db.stats().unwrap().total_data_size_in_bytes, 8);
}

#[test]
fn recovery_iterator_walks_newest_first() {
    let mut db = Database::open(Vec::new(), FileIdGenerator::new(), default_options()).unwrap();
    db.write_with_timestamp(&b"a".to_vec(), b"1".to_vec(), 1)
        .unwrap();
    db.write_with_timestamp(&b"b".to_vec(), b"2".to_vec(), 2)
        .unwrap();
    db.flush_writing_file().unwrap();
    db.write_with_timestamp(&b"a".to_vec(), b"bitcask_tombstone".to_vec(), 3)
        .unwrap();
    let mut iter = db.recovery_iter().unwrap();
    let mut seen = Vec::new();
    while let Some(row) = iter.next() {
        let row = row.unwrap();
        seen.push((row.file_id, row.row_offset, row.key, row.is_tombstone));
    }
    assert_eq!(
        seen,
        vec![
            (2, 8, b"a".to_vec(), true),
            (1, 38, b"b".to_vec(), false),
            (1, 8, b"a".to_vec(), false),
        ]
    );
}

#[test]
fn hint_file_takes_the_place_of_a_scan() {
    let mut db = Database::open(Vec::new(), FileIdGenerator::new(), default_options()).unwrap();
    db.write_with_timestamp(&b"a".to_vec(), b"1".to_vec(), 1)
        .unwrap();
    db.write_with_timestamp(&b"b".to_vec(), b"2".to_vec(), 2)
        .unwrap();
    db.write_with_timestamp(&b"a".to_vec(), b"3".to_vec(), 3)
        .unwrap();
    db.flush_writing_file().unwrap();
    assert_eq!(db.stats().unwrap().number_of_pending_hint_files, 1);
    let (file_id, hint) = db.write_pending_hint_file().unwrap();
    assert_eq!(file_id, 1);
    assert_eq!(hint.len(), 2 * 34);
    assert_eq!(db.stats().unwrap().number_of_pending_hint_files, 0);
    assert!(db.write_pending_hint_file().is_none());
    let mut iter = db.recovery_iter().unwrap();
    let mut seen = Vec::new();
    while let Some(row) = iter.next() {
        let row = row.unwrap();
        seen.push((row.file_id, row.row_offset, row.row_size, row.timestamp, row.key));
    }
    assert_eq!(
        seen,
        vec![(1, 68, 30, 3, b"a".to_vec()), (1, 38, 30, 2, b"b".to_vec())]
    );
}

#[test]
fn sync_and_close_leave_no_row_unsynced() {
    let mut db = Database::open(Vec::new(), FileIdGenerator::new(), default_options()).unwrap();
    assert!(!db.is_dirty());
    db.write_with_timestamp(&b"a".to_vec(), b"1".to_vec(), 1)
        .unwrap();
    assert!(db.is_dirty());
    let before = db.export();
    db.sync().unwrap();
    assert!(!db.is_dirty());
    let after = db.export();
    assert_eq!(before.len(), after.len());
    assert_eq!(before[0].content, after[0].content);
    db.sync().unwrap();
    assert!(!db.is_dirty());

    db.write_with_timestamp(&b"b".to_vec(), b"2".to_vec(), 2)
        .unwrap();
    assert!(db.is_dirty());
    db.close().unwrap();
    assert!(!db.is_dirty());
    assert_eq!(db.export()[0].content.len(), 8 + 30 + 30);

    db.write_with_timestamp(&b"c".to_vec(), b"3".to_vec(), 3)
        .unwrap();
    assert!(db.is_dirty());
    db.flush_writing_file().unwrap();
    assert!(!db.is_dirty());
    db.flush_writing_file().unwrap();
    assert_eq!(db.get_max_file_id(), 2);
}

#[test]
fn a_write_that_is_refused_leaves_the_mark_as_it_was() {
    let mut db = Database::open(
        Vec::new(),
        FileIdGenerator::new(),
        DataBaseOptions {
            storage_options: DataStorageOptions {
                max_data_file_size: 40,
                init_data_file_capacity: 100,
            },
            sync_interval_sec: 60,
        },
    )
    .unwrap();
    assert!(db
        .write_with_timestamp(&b"k1".to_vec(), b"value".to_vec(), 7)
        .is_err());
    assert!(!db.is_dirty());
    db.write_with_timestamp(&b"k".to_vec(), b"v".to_vec(), 7)
        .unwrap();
    assert!(db.is_dirty());
    assert!(db
        .write_with_timestamp(&b"k1".to_vec(), b"value".to_vec(), 7)
        .is_err());
    assert!(db.is_dirty());
}

#[test]
fn each_stable_file_is_found_by_its_id() {
    let options = DataBaseOptions {
        storage_options: DataStorageOptions {
            max_data_file_size: 100,
            init_data_file_capacity: 100,
        },
        sync_interval_sec: 60,
    };
    let mut db = Database::open(Vec::new(), FileIdGenerator::new(), options).unwrap();
    let mut rows = Vec::new();
    for i in 0..5u8 {
        let value = vec![i; 52];
        let pos = db
            .write(&vec![b'k', i], TimedValue::immortal_value(value.clone()))
            .unwrap();
        assert_eq!(pos.file_id, u32::from(i) + 1);
        rows.push((pos, value));
    }
    for (pos, value) in &rows {
        assert_eq!(db.read_value(pos).unwrap().value.as_slice(), value.as_slice());
    }
    let images = db.export();
    let mut reopened = Database::open(images, FileIdGenerator::new(), options).unwrap();
    for (pos, value) in &rows {
        assert_eq!(reopened.read_value(pos).unwrap().value.as_slice(), value.as_slice());
    }
    reopened.drop().unwrap();
    for (pos, _) in &rows {
        assert_eq!(
            reopened.read_value(pos).err(),
            Some(BitcaskError::TargetFileIdNotFound(pos.file_id))
        );
    }
}
