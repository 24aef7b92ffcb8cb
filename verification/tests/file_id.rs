use bitcask::data_storage::DataStorageOptions;
use bitcask::database::{DataBaseOptions, Database};
use bitcask::error::BitcaskError;
use bitcask::file_id::FileIdGenerator;

#[test]
fn test_generate_id() {
    let mut id_gen = FileIdGenerator::new();
    assert_eq!(1, id_gen.generate_next_file_id());
    assert_eq!(2, id_gen.generate_next_file_id());
    assert_eq!(3, id_gen.generate_next_file_id());
    assert_eq!(3, id_gen.get_file_id());
}

#[test]
fn test_update_file_id() {
    let mut id_gen = FileIdGenerator::new();
    assert_eq!(1, id_gen.generate_next_file_id());
    id_gen.update_file_id(10);
    assert_eq!(11, id_gen.generate_next_file_id());
    assert_eq!(12, id_gen.generate_next_file_id());
    assert_eq!(12, id_gen.get_file_id());
}

#[test]
fn ids_run_out_at_the_greatest() {
    let mut id_gen = FileIdGenerator::new();
    assert_eq!(id_gen.try_generate_next_file_id(), Some(1));
    id_gen.update_file_id(u32::MAX - 1);
    assert_eq!(id_gen.try_generate_next_file_id(), Some(u32::MAX));
    assert_eq!(id_gen.try_generate_next_file_id(), None);
    assert_eq!(id_gen.get_file_id(), u32::MAX);
}

fn options() -> DataBaseOptions {
    DataBaseOptions {
        storage_options: DataStorageOptions {
            max_data_file_size: 60,
            init_data_file_capacity: 10,
        },
        sync_interval_sec: 0,
    }
}

#[test]
fn a_database_without_a_file_id_left_is_refused_or_breaks() {
    let mut id_gen = FileIdGenerator::new();
    id_gen.update_file_id(u32::MAX);
    assert!(matches!(
        Database::open(Vec::new(), id_gen, options()).err(),
        Some(BitcaskError::DatabaseBroken(_))
    ));

    let mut id_gen = FileIdGenerator::new();
    id_gen.update_file_id(u32::MAX - 1);
    let mut db = Database::open(Vec::new(), id_gen, options()).unwrap();
    assert_eq!(db.get_max_file_id(), u32::MAX);
    let first = db
        .write_with_timestamp(&b"k".to_vec(), b"value".to_vec(), 1)
        .unwrap();
    assert_eq!(first.file_id, u32::MAX);
    let before = db.export();
    assert!(matches!(
        db.write_with_timestamp(&b"k".to_vec(), b"value".to_vec(), 1),
        Err(BitcaskError::DatabaseBroken(_))
    ));
    assert!(matches!(
        db.flush_writing_file(),
        Err(BitcaskError::DatabaseBroken(_))
    ));
    let after = db.export();
    assert_eq!(before.len(), after.len());
    assert_eq!(before[0].content, after[0].content);
}

#[test]
fn file_ids_never_repeat() {
    let mut db = Database::open(Vec::new(), FileIdGenerator::new(), options()).unwrap();
    let mut seen = vec![db.get_max_file_id()];
    for round in 0..5u8 {
        db.write_with_timestamp(&vec![round], vec![round; 10], 1)
            .unwrap();
        db.flush_writing_file().unwrap();
        let id = db.get_max_file_id();
        assert!(seen.iter().all(|earlier| *earlier < id));
        seen.push(id);
    }
    let mut images = db.export();
    images.remove(1);
    images.remove(2);
    let mut reopened = Database::open(images, FileIdGenerator::new(), options()).unwrap();
    assert_eq!(reopened.get_max_file_id(), 6);
    reopened
        .write_with_timestamp(&vec![9], vec![9; 10], 1)
        .unwrap();
    reopened.flush_writing_file().unwrap();
    assert_eq!(reopened.get_max_file_id(), 7);
    assert_eq!(reopened.last_file_id(), 7);
}

#[test]
fn update_never_lowers_the_id() {
    let mut id_gen = FileIdGenerator::new();
    id_gen.update_file_id(10);
    assert_eq!(id_gen.get_file_id(), 10);
    id_gen.update_file_id(4);
    assert_eq!(id_gen.get_file_id(), 10);
    id_gen.update_file_id(10);
    assert_eq!(id_gen.get_file_id(), 10);
    assert_eq!(id_gen.generate_next_file_id(), 11);
    id_gen.update_file_id(0);
    assert_eq!(id_gen.generate_next_file_id(), 12);
    id_gen.update_file_id(20);
    assert_eq!(id_gen.generate_next_file_id(), 21);
}
