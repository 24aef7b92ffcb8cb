use std::time::Duration;

use bitcask::bitcask::{Bitcask, BitcaskOptions};
use bitcask::data_storage::DataStorageOptions;
use bitcask::database::{DataBaseOptions, Database};
use bitcask::error::BitcaskError;
use bitcask::file_id::FileIdGenerator;
use bitcask::keydir::KeyDir;
use bitcask::merge::{recover_merge, MergeManager, MergeMeta, MergeRecovery};

fn options() -> BitcaskOptions {
    BitcaskOptions {
        max_data_file_size: 200,
        init_data_file_capacity: 100,
        max_key_size: 64,
        max_value_size: 1024,
        sync_interval: Duration::from_secs(1),
    }
}

fn bytes_on_disk(bc: &Bitcask) -> usize {
    bc.export().iter().map(|image| image.content.len()).sum()
}

#[test]
fn merge_of_duplicates_and_a_tombstone() {
    let mut bc = Bitcask::open(Vec::new(), options()).unwrap();
    bc.put(b"a".to_vec(), b"1").unwrap();
    bc.put(b"a".to_vec(), b"2").unwrap();
    bc.put(b"b".to_vec(), b"1").unwrap();
    bc.delete(&b"b".to_vec()).unwrap();
    let before = bytes_on_disk(&bc);
    bc.merge().unwrap();
    assert_eq!(bc.get(&b"a".to_vec()).unwrap(), Some(b"2".to_vec()));
    assert_eq!(bc.get(&b"b".to_vec()).unwrap(), None);
    let after = bytes_on_disk(&bc);
    assert!(after < before);
    assert_eq!(before, 8 + 30 + 30 + 30 + 46);
    assert_eq!(after, 8 + 30 + 8);
    assert_eq!(
        bc.last_merge_meta(),
        Some(MergeMeta {
            known_min_file_id: 1
        })
    );
    let ids: Vec<u32> = bc.export().iter().map(|image| image.file_id).collect();
    assert_eq!(ids, vec![3, 4]);
}

#[test]
fn merge_keeps_every_lookup_and_survives_a_reopen() {
    let mut bc = Bitcask::open(Vec::new(), options()).unwrap();
    for round in 0..5u8 {
        for key in 0..20u8 {
            bc.put(vec![key], &vec![round; 30]).unwrap();
        }
    }
    for key in 0..20u8 {
        if key % 3 == 0 {
            bc.delete(&vec![key]).unwrap();
        }
    }
    let files_before = bc.stats().unwrap().number_of_data_files;
    bc.merge().unwrap();
    assert!(bc.stats().unwrap().number_of_data_files < files_before);
    for key in 0..20u8 {
        let expected = if key % 3 == 0 {
            None
        } else {
            Some(vec![4u8; 30])
        };
        assert_eq!(bc.get(&vec![key]).unwrap(), expected);
    }
    bc.put(vec![1], b"after the merge").unwrap();
    let images = bc.export();
    let bc = Bitcask::open(images, options()).unwrap();
    assert_eq!(bc.get(&vec![1]).unwrap(), Some(b"after the merge".to_vec()));
    assert_eq!(bc.get(&vec![2]).unwrap(), Some(vec![4u8; 30]));
    assert_eq!(bc.get(&vec![3]).unwrap(), None);
    assert_eq!(bc.stats().unwrap().number_of_keys, 13);
}

#[test]
fn merge_of_an_empty_store() {
    let mut bc = Bitcask::open(Vec::new(), options()).unwrap();
    bc.merge().unwrap();
    assert_eq!(bc.stats().unwrap().number_of_keys, 0);
    assert_eq!(bc.stats().unwrap().number_of_data_files, 1);
    bc.put(b"a".to_vec(), b"1").unwrap();
    assert_eq!(bc.get(&b"a".to_vec()).unwrap(), Some(b"1".to_vec()));
}

#[test]
fn merge_fails_on_a_row_that_cannot_be_read_and_changes_nothing() {
    let mut bc = Bitcask::open(Vec::new(), options()).unwrap();
    bc.put(b"a".to_vec(), b"1").unwrap();
    bc.put(b"b".to_vec(), b"2").unwrap();
    let mut images = bc.export();
    let last = images[0].content.len() - 1;
    images[0].content[last] ^= 1;
    images[0].readonly = true;
    let recovered = Bitcask::open(images.clone(), options()).unwrap();
    assert_eq!(recovered.get(&b"a".to_vec()).unwrap(), Some(b"1".to_vec()));
    assert_eq!(recovered.get(&b"b".to_vec()).unwrap(), None);

    images[0].hint = Some({
        let mut record = Vec::new();
        record.extend_from_slice(&0u64.to_be_bytes());
        record.extend_from_slice(&1u64.to_be_bytes());
        record.extend_from_slice(&30u64.to_be_bytes());
        record.extend_from_slice(&38u64.to_be_bytes());
        record.push(0);
        record.push(b'b');
        record
    });
    let mut bc = Bitcask::open(images, options()).unwrap();
    assert!(bc.has(&b"b".to_vec()).unwrap());
    assert!(matches!(
        bc.get(&b"b".to_vec()),
        Err(BitcaskError::CrcCheckFailed(1, 38, _, _))
    ));
    assert!(matches!(
        bc.merge(),
        Err(BitcaskError::CrcCheckFailed(1, 38, _, _))
    ));
    assert!(matches!(
        bc.get(&b"b".to_vec()),
        Err(BitcaskError::CrcCheckFailed(1, 38, _, _))
    ));
    assert_eq!(bc.last_merge_meta(), None);
}

#[test]
fn merge_meta_round_trip() {
    let meta = MergeMeta {
        known_min_file_id: 0x01020304,
    };
    assert_eq!(meta.encode(), vec![1, 2, 3, 4]);
    assert_eq!(MergeMeta::decode(&[1, 2, 3, 4]).unwrap(), meta);
    assert!(matches!(
        MergeMeta::decode(&[1, 2, 3]),
        Err(BitcaskError::DataFileCorrupted(_, _, _))
    ));
}

#[test]
fn recovery_of_an_unfinished_merge() {
    assert_eq!(recover_merge(None, &vec![7, 8]).unwrap(), MergeRecovery::Discard);
    assert_eq!(
        recover_merge(Some(&[0, 0, 0, 3]), &vec![9, 7, 8]).unwrap(),
        MergeRecovery::Commit {
            known_min_file_id: 3,
            new_min_merged_id: 7
        }
    );
    assert_eq!(
        recover_merge(Some(&[0, 0, 0, 3]), &vec![]).unwrap(),
        MergeRecovery::Nothing
    );
    assert_eq!(
        recover_merge(Some(&[0, 0, 0, 8]), &vec![9, 7, 8]).err(),
        Some(BitcaskError::InvalidMergeDataFile(7, 8))
    );
    assert!(matches!(
        recover_merge(Some(&[0, 0, 3]), &vec![9]),
        Err(BitcaskError::DataFileCorrupted(_, _, _))
    ));
    let plan = recover_merge(Some(&[0, 0, 0, 3]), &vec![9, 7, 8]).unwrap();
    assert!(plan.purges(3));
    assert!(plan.purges(6));
    assert!(!plan.purges(2));
    assert!(!plan.purges(7));
    assert!(plan.moves_last(7));
    assert!(!plan.moves_last(8));
    assert!(!MergeRecovery::Discard.purges(1));
    assert!(!MergeRecovery::Nothing.purges(1));
    assert!(!MergeRecovery::Nothing.moves_last(1));
}

#[test]
fn merge_keeps_timestamps_and_leaves_one_row_for_every_key() {
    let mut db = Database::open(
        Vec::new(),
        FileIdGenerator::new(),
        DataBaseOptions {
            storage_options: DataStorageOptions {
                max_data_file_size: 100,
                init_data_file_capacity: 10,
            },
            sync_interval_sec: 0,
        },
    )
    .unwrap();
    for round in 0..3u64 {
        for key in 0..6u8 {
            db.write_with_timestamp(&vec![key], vec![key; 10], 100 * round + key as u64)
                .unwrap();
        }
    }
    db.write_with_timestamp(&vec![2], b"bitcask_tombstone".to_vec(), 999)
        .unwrap();
    let mut keydir = KeyDir::new(&db).unwrap();
    assert_eq!(keydir.len(), 5);
    let rows_before = {
        let mut iter = db.iter().unwrap();
        let mut n = 0;
        while iter.next().is_some() {
            n += 1;
        }
        n
    };
    assert_eq!(rows_before, 19);
    let last_id = db.last_file_id();

    let mut manager = MergeManager::new();
    manager.merge(&mut db, &mut keydir).unwrap();

    assert_eq!(keydir.len(), 5);
    for key in [0u8, 1, 3, 4, 5] {
        let entry = keydir.get(&vec![key]).unwrap();
        assert_eq!(entry.timestamp, 200 + key as u64);
        assert!(entry.file_id > last_id);
        assert_eq!(
            db.read_value(&entry.row_location()).unwrap().value.as_slice(),
            &[key; 10]
        );
    }
    assert_eq!(keydir.get(&vec![2]), None);
    let mut iter = db.iter().unwrap();
    let mut keys = Vec::new();
    while let Some(row) = iter.next() {
        let row = row.unwrap();
        assert_eq!(row.timestamp, 200 + row.key[0] as u64);
        assert_eq!(
            keydir.get(&row.key).map(|entry| entry.row_location()),
            Some(row.row_position)
        );
        keys.push(row.key[0]);
    }
    keys.sort();
    assert_eq!(keys, vec![0, 1, 3, 4, 5]);
}

#[test]
fn merge_keeps_every_key_of_a_store_that_puts_and_deletes_made() {
    let mut bc = Bitcask::open(Vec::new(), options()).unwrap();
    for round in 0..3u8 {
        for key in 0..20u8 {
            bc.put(vec![b'k', key], &[round, key]).unwrap();
        }
    }
    for key in 0..20u8 {
        if key % 3 == 0 {
            bc.delete(&vec![b'k', key]).unwrap();
        }
    }
    let keys_before = bc.stats().unwrap().number_of_keys;
    assert_eq!(keys_before, 13);
    let pairs_before = bc.live_pairs().unwrap();
    bc.merge().unwrap();
    assert_eq!(bc.stats().unwrap().number_of_keys, keys_before);
    for key in 0..20u8 {
        let k = vec![b'k', key];
        assert_eq!(bc.has(&k).unwrap(), key % 3 != 0);
        let expected = if key % 3 == 0 { None } else { Some(vec![2, key]) };
        assert_eq!(bc.get(&k).unwrap(), expected);
    }
    let mut pairs_after = bc.live_pairs().unwrap();
    let mut sorted_before = pairs_before.clone();
    sorted_before.sort();
    pairs_after.sort();
    assert_eq!(pairs_after, sorted_before);
    assert_eq!(bc.pairs().unwrap().len(), 13);
}
