use bitcask::common::RowLocation;
use bitcask::data_storage::DataStorageOptions;
use bitcask::database::{DataBaseOptions, Database};
use bitcask::file_id::FileIdGenerator;
use bitcask::hint::HintFile;
use bitcask::keydir::{KeyDir, KeyDirEntry};
use bitcask::recovery::{latest_data_rows, scan_data_rows};

fn entry(file_id: u32, row_offset: u64) -> KeyDirEntry {
    KeyDirEntry {
        file_id,
        row_offset,
        row_size: 30,
        timestamp: 9,
    }
}

fn database_options() -> DataBaseOptions {
    DataBaseOptions {
        storage_options: DataStorageOptions {
            max_data_file_size: 1024,
            init_data_file_capacity: 100,
        },
        sync_interval_sec: 60,
    }
}

#[test]
fn key_directory_operations() {
    let mut keydir = KeyDir::new_empty_key_dir();
    assert_eq!(keydir.len(), 0);
    assert_eq!(keydir.get(&b"a".to_vec()), None);
    assert!(!keydir.contains_key(&b"a".to_vec()));

    keydir.put(b"a".to_vec(), entry(1, 8));
    keydir.put(b"b".to_vec(), entry(1, 38));
    assert_eq!(keydir.len(), 2);
    assert_eq!(keydir.get(&b"a".to_vec()), Some(entry(1, 8)));
    assert_eq!(keydir.get(&b"b".to_vec()), Some(entry(1, 38)));
    assert!(keydir.contains_key(&b"a".to_vec()));

    keydir.put(b"a".to_vec(), entry(2, 8));
    assert_eq!(keydir.len(), 2);
    assert_eq!(keydir.get(&b"a".to_vec()), Some(entry(2, 8)));

    keydir.checked_put(b"a".to_vec(), entry(3, 8));
    assert_eq!(keydir.get(&b"a".to_vec()), Some(entry(2, 8)));
    keydir.checked_put(b"c".to_vec(), entry(3, 8));
    assert_eq!(keydir.get(&b"c".to_vec()), Some(entry(3, 8)));
    assert_eq!(keydir.len(), 3);

    let mut entries = keydir.entries();
    entries.sort_by(|x, y| x.0.cmp(&y.0));
    assert_eq!(
        entries,
        vec![
            (b"a".to_vec(), entry(2, 8)),
            (b"b".to_vec(), entry(1, 38)),
            (b"c".to_vec(), entry(3, 8)),
        ]
    );

    keydir.delete(&b"b".to_vec());
    assert_eq!(keydir.get(&b"b".to_vec()), None);
    assert_eq!(keydir.len(), 2);
    keydir.delete(&b"b".to_vec());
    assert_eq!(keydir.len(), 2);

    keydir.clear();
    assert_eq!(keydir.len(), 0);
    assert!(keydir.entries().is_empty());
    assert_eq!(keydir.get(&b"a".to_vec()), None);
}

#[test]
fn key_directory_entry() {
    let location = RowLocation {
        file_id: 4,
        row_offset: 8,
        row_size: 33,
    };
    let entry = KeyDirEntry::new(location, 12);
    assert_eq!(
        entry,
        KeyDirEntry {
            file_id: 4,
            row_offset: 8,
            row_size: 33,
            timestamp: 12
        }
    );
    assert_eq!(entry.row_location(), location);
}

#[test]
fn rebuild_takes_the_newest_row_of_every_key() {
    let mut db = Database::open(Vec::new(), FileIdGenerator::new(), database_options()).unwrap();
    db.write_with_timestamp(&b"a".to_vec(), b"1".to_vec(), 1)
        .unwrap();
    db.write_with_timestamp(&b"b".to_vec(), b"2".to_vec(), 2)
        .unwrap();
    db.write_with_timestamp(&b"c".to_vec(), b"3".to_vec(), 3)
        .unwrap();
    db.flush_writing_file().unwrap();
    db.write_with_timestamp(&b"a".to_vec(), b"4".to_vec(), 4)
        .unwrap();
    db.write_with_timestamp(&b"b".to_vec(), b"bitcask_tombstone".to_vec(), 5)
        .unwrap();
    db.write_with_timestamp(&b"d".to_vec(), b"bitcask_tombstone".to_vec(), 6)
        .unwrap();
    db.write_with_timestamp(&b"d".to_vec(), b"7".to_vec(), 7)
        .unwrap();
    let keydir = KeyDir::new(&db).unwrap();
    assert_eq!(keydir.len(), 3);
    assert_eq!(
        keydir.get(&b"a".to_vec()),
        Some(KeyDirEntry {
            file_id: 2,
            row_offset: 8,
            row_size: 30,
            timestamp: 4
        })
    );
    assert_eq!(keydir.get(&b"b".to_vec()), None);
    assert_eq!(
        keydir.get(&b"c".to_vec()),
        Some(KeyDirEntry {
            file_id: 1,
            row_offset: 68,
            row_size: 30,
            timestamp: 3
        })
    );
    assert_eq!(
        keydir.get(&b"d".to_vec()),
        Some(KeyDirEntry {
            file_id: 2,
            row_offset: 130,
            row_size: 30,
            timestamp: 7
        })
    );
}

#[test]
fn rebuild_is_the_same_with_hint_files() {
    let mut db = Database::open(Vec::new(), FileIdGenerator::new(), database_options()).unwrap();
    for round in 0..4u8 {
        for key in 0..10u8 {
            if (round + key) % 4 == 0 {
                db.write_with_timestamp(&vec![key], b"bitcask_tombstone".to_vec(), 1)
                    .unwrap();
            } else {
                db.write_with_timestamp(&vec![key], vec![round; 20], 1)
                    .unwrap();
            }
        }
        if round % 2 == 1 {
            db.flush_writing_file().unwrap();
        }
    }
    let mut without = KeyDir::new(&db).unwrap().entries();
    without.sort_by(|x, y| x.0.cmp(&y.0));
    assert_eq!(db.stats().unwrap().number_of_pending_hint_files, 2);
    while db.write_pending_hint_file().is_some() {}
    assert!(db.hint_at(0).is_some());
    assert!(db.hint_at(1).is_some());
    assert!(db.hint_at(2).is_none());
    let mut with = KeyDir::new(&db).unwrap().entries();
    with.sort_by(|x, y| x.0.cmp(&y.0));
    assert_eq!(with, without);
    assert_eq!(with.len(), 7);
}

#[test]
fn hint_file_layout() {
    let mut db = Database::open(Vec::new(), FileIdGenerator::new(), database_options()).unwrap();
    db.write_with_timestamp(&b"ab".to_vec(), b"1".to_vec(), 0x0102)
        .unwrap();
    db.write_with_timestamp(&b"c".to_vec(), b"bitcask_tombstone".to_vec(), 3)
        .unwrap();
    db.write_with_timestamp(&b"ab".to_vec(), b"22".to_vec(), 4)
        .unwrap();
    let storage = db.writing_file();
    let all = scan_data_rows(storage);
    assert_eq!(all.len(), 3);
    assert_eq!(all[0].row_offset, 8);
    assert!(all[1].is_tombstone);
    let latest = latest_data_rows(storage);
    assert_eq!(latest.len(), 2);
    assert_eq!(latest[0].key, b"c".to_vec());
    assert_eq!(latest[1].key, b"ab".to_vec());
    let hint = HintFile::write(&latest);
    let mut expected = Vec::new();
    expected.extend_from_slice(&3u64.to_be_bytes());
    expected.extend_from_slice(&1u64.to_be_bytes());
    expected.extend_from_slice(&46u64.to_be_bytes());
    expected.extend_from_slice(&39u64.to_be_bytes());
    expected.push(1);
    expected.extend_from_slice(b"c");
    expected.extend_from_slice(&4u64.to_be_bytes());
    expected.extend_from_slice(&2u64.to_be_bytes());
    expected.extend_from_slice(&32u64.to_be_bytes());
    expected.extend_from_slice(&85u64.to_be_bytes());
    expected.push(0);
    expected.extend_from_slice(b"ab");
    assert_eq!(hint, expected);

    let read = HintFile::read(1, &hint);
    assert_eq!(read.len(), 2);
    assert_eq!(read[0].file_id, 1);
    assert_eq!(read[0].timestamp, 3);
    assert_eq!(read[0].row_offset, 39);
    assert_eq!(read[0].row_size, 46);
    assert_eq!(read[0].key, b"c".to_vec());
    assert!(read[0].is_tombstone);
    assert_eq!(read[1].key, b"ab".to_vec());
    assert!(!read[1].is_tombstone);

    let torn = HintFile::read(1, &hint[..hint.len() - 1]);
    assert_eq!(torn.len(), 1);
    assert!(HintFile::read(1, &[]).is_empty());
}
