use std::collections::{HashMap, HashSet};
use std::time::Duration;

use bitcask::bitcask::{Bitcask, BitcaskOptions};
use bitcask::error::BitcaskError;

#[derive(Clone, Copy, PartialEq, Eq)]
enum TestingOperator {
    PUT,
    DELETE,
    MERGE,
}

struct TestingOperation {
    operator: TestingOperator,
    key: Vec<u8>,
    value: Vec<u8>,
}

struct TestingOperations {
    operations: Vec<TestingOperation>,
}

impl TestingOperations {
    /// What the operations leave behind: the live keys with their values, in
    /// the order in which the keys were first put.
    fn squash(&self) -> Vec<(Vec<u8>, Vec<u8>)> {
        let mut order: Vec<Vec<u8>> = Vec::new();
        let mut live: HashMap<Vec<u8>, Vec<u8>> = HashMap::new();
        for op in &self.operations {
            match op.operator {
                TestingOperator::PUT => {
                    if !order.contains(&op.key) {
                        order.push(op.key.clone());
                    }
                    live.insert(op.key.clone(), op.value.clone());
                }
                TestingOperator::DELETE => {
                    live.remove(&op.key);
                }
                TestingOperator::MERGE => {}
            }
        }
        order
            .into_iter()
            .filter_map(|k| live.get(&k).map(|v| (k.clone(), v.clone())))
            .collect()
    }
}

struct RandomTestingDataGenerator {
    state: u64,
    key_size: usize,
    value_size: usize,
    operators: Vec<TestingOperator>,
    distinct_keys: u64,
}

impl RandomTestingDataGenerator {
    fn new(
        key_size: usize,
        value_size: usize,
        operators: Vec<TestingOperator>,
    ) -> RandomTestingDataGenerator {
        RandomTestingDataGenerator {
            state: 0x2545f4914f6cdd1d,
            key_size,
            value_size,
            operators,
            distinct_keys: u64::MAX,
        }
    }

    fn next(&mut self) -> u64 {
        self.state ^= self.state << 13;
        self.state ^= self.state >> 7;
        self.state ^= self.state << 17;
        self.state
    }

    fn bytes(&mut self, seed: u64, max_len: usize) -> Vec<u8> {
        let mut s = seed.wrapping_mul(0x9e3779b97f4a7c15) | 1;
        let len = 1 + (s % max_len as u64) as usize;
        let mut out = Vec::with_capacity(len);
        for _ in 0..len {
            s ^= s << 13;
            s ^= s >> 7;
            s ^= s << 17;
            out.push((s & 0xff) as u8);
        }
        out
    }

    fn generate_testing_operations(&mut self, n: usize) -> TestingOperations {
        let mut operations = Vec::new();
        for _ in 0..n {
            let pick = (self.next() % self.operators.len() as u64) as usize;
            let operator = self.operators[pick];
            let key_seed = self.next() % self.distinct_keys;
            let key = self.bytes(key_seed, self.key_size);
            let value_seed = self.next();
            let value = self.bytes(value_seed, self.value_size);
            operations.push(TestingOperation {
                operator,
                key,
                value,
            });
        }
        TestingOperations { operations }
    }
}

fn execute_testing_operations(bc: &mut Bitcask, ops: &TestingOperations) {
    for op in &ops.operations {
        match op.operator {
            TestingOperator::PUT => bc.put(op.key.clone(), &op.value).unwrap(),
            TestingOperator::DELETE => bc.delete(&op.key).unwrap(),
            TestingOperator::MERGE => bc.merge().unwrap(),
        }
    }
}

fn get_default_options() -> BitcaskOptions {
    BitcaskOptions {
        max_data_file_size: 10 * 1024,
        init_data_file_capacity: 100,
        max_key_size: 64,
        max_value_size: 1024,
        sync_interval: Duration::from_secs(1),
    }
}

#[test]
fn test_read_write_test_read_write_writing_file() {
    let mut bc = Bitcask::open(Vec::new(), get_default_options()).unwrap();
    bc.put("k1".into(), "value1".as_bytes()).unwrap();
    bc.put("k2".into(), "value2".as_bytes()).unwrap();
    bc.put("k3".into(), "value3".as_bytes()).unwrap();
    bc.put("k1".into(), "value4".as_bytes()).unwrap();

    assert_eq!(bc.get(&"k1".into()).unwrap().unwrap(), "value4".as_bytes());
    assert_eq!(bc.get(&"k2".into()).unwrap().unwrap(), "value2".as_bytes());
    assert_eq!(bc.get(&"k3".into()).unwrap().unwrap(), "value3".as_bytes());
}

#[test]
fn test_random_put_and_delete() {
    let mut gen = RandomTestingDataGenerator::new(
        64,
        512,
        vec![TestingOperator::PUT, TestingOperator::DELETE],
    );
    let ops = gen.generate_testing_operations(5000);
    let mut bc = Bitcask::open(Vec::new(), get_default_options()).unwrap();
    execute_testing_operations(&mut bc, &ops);

    for (key, value) in ops.squash() {
        assert_eq!(bc.get(&key).unwrap().unwrap(), value);
    }
}

#[test]
fn test_random_put_delete_merge() {
    let mut gen = RandomTestingDataGenerator::new(
        64,
        512,
        vec![
            TestingOperator::PUT,
            TestingOperator::DELETE,
            TestingOperator::MERGE,
        ],
    );
    let ops = gen.generate_testing_operations(10);
    let mut bc = Bitcask::open(Vec::new(), get_default_options()).unwrap();
    execute_testing_operations(&mut bc, &ops);

    for (key, value) in ops.squash() {
        assert_eq!(bc.get(&key).unwrap().unwrap(), value);
    }
}

#[test]
fn test_read_write_test_recovery() {
    let mut gen = RandomTestingDataGenerator::new(
        64,
        512,
        vec![TestingOperator::PUT, TestingOperator::DELETE],
    );
    let ops = gen.generate_testing_operations(5000);
    let images;
    {
        let mut bc = Bitcask::open(Vec::new(), get_default_options()).unwrap();
        execute_testing_operations(&mut bc, &ops);
        images = bc.export();
    }
    let bc = Bitcask::open(images, get_default_options()).unwrap();
    for (key, value) in ops.squash() {
        assert_eq!(bc.get(&key).unwrap().unwrap(), value);
    }
}

#[test]
fn test_delete() {
    let mut bc = Bitcask::open(Vec::new(), get_default_options()).unwrap();
    bc.put("k1".into(), "value1".as_bytes()).unwrap();
    bc.put("k2".into(), "value2".as_bytes()).unwrap();
    bc.put("k3".into(), "value3".as_bytes()).unwrap();
    bc.put("k1".into(), "value4".as_bytes()).unwrap();

    bc.delete(&"k1".into()).unwrap();
    assert_eq!(bc.get(&"k1".into()).unwrap(), None);

    bc.delete(&"k2".into()).unwrap();
    assert_eq!(bc.get(&"k2".into()).unwrap(), None);

    bc.delete(&"k3".into()).unwrap();
    assert_eq!(bc.get(&"k3".into()).unwrap(), None);
}

#[test]
fn test_delete_not_exists_key() {
    let mut bc = Bitcask::open(Vec::new(), get_default_options()).unwrap();

    bc.delete(&"k1".into()).unwrap();
    assert_eq!(bc.get(&"k1".into()).unwrap(), None);

    bc.delete(&"k2".into()).unwrap();
    assert_eq!(bc.get(&"k2".into()).unwrap(), None);

    bc.delete(&"k3".into()).unwrap();
    assert_eq!(bc.get(&"k3".into()).unwrap(), None);
}

#[test]
fn test_foreach_keys() {
    let mut gen = RandomTestingDataGenerator::new(64, 512, vec![TestingOperator::PUT]);
    let ops = gen.generate_testing_operations(100);
    let mut bc = Bitcask::open(Vec::new(), get_default_options()).unwrap();
    execute_testing_operations(&mut bc, &ops);

    let mut expected_set: HashSet<Vec<u8>> = HashSet::new();
    let mut actual_set: HashSet<Vec<u8>> = HashSet::new();
    for (key, _) in ops.squash() {
        expected_set.insert(key);
    }

    bc.foreach_key(|k| {
        actual_set.insert(k.clone());
    })
    .unwrap();
    assert_eq!(expected_set, actual_set);
}

#[test]
fn test_fold_keys() {
    let mut gen = RandomTestingDataGenerator::new(64, 512, vec![TestingOperator::PUT]);
    let ops = gen.generate_testing_operations(100);
    let mut bc = Bitcask::open(Vec::new(), get_default_options()).unwrap();
    execute_testing_operations(&mut bc, &ops);

    let mut expected_set: HashSet<Vec<u8>> = HashSet::new();
    let mut actual_set: HashSet<Vec<u8>> = HashSet::new();
    for (key, _) in ops.squash() {
        expected_set.insert(key);
    }

    let ret = bc
        .fold_key(
            |k, acc: Option<usize>| {
                actual_set.insert(k.clone());
                Ok(Some(acc.unwrap() + 1))
            },
            Some(0),
        )
        .unwrap();
    assert_eq!(expected_set.len(), ret.unwrap());
    assert_eq!(expected_set, actual_set);
}

#[test]
fn test_foreach() {
    let mut gen = RandomTestingDataGenerator::new(64, 512, vec![TestingOperator::PUT]);
    let ops = gen.generate_testing_operations(100);
    let mut bc = Bitcask::open(Vec::new(), get_default_options()).unwrap();
    execute_testing_operations(&mut bc, &ops);

    let expected_pair = ops.squash();

    let mut actual_pair: Vec<(Vec<u8>, Vec<u8>)> = vec![];
    bc.foreach(|k, v| {
        actual_pair.push((k.clone(), v.clone()));
    })
    .unwrap();

    assert_eq!(expected_pair, actual_pair);
}

#[test]
fn test_fold() {
    let mut gen = RandomTestingDataGenerator::new(64, 512, vec![TestingOperator::PUT]);
    let ops = gen.generate_testing_operations(100);
    let mut bc = Bitcask::open(Vec::new(), get_default_options()).unwrap();
    execute_testing_operations(&mut bc, &ops);

    let expected_pair = ops.squash();

    let mut actual_pair: Vec<(Vec<u8>, Vec<u8>)> = vec![];
    let ret = bc
        .fold(
            |k, v, acc: Option<usize>| {
                actual_pair.push((k.clone(), v.clone()));
                Ok(Some(acc.unwrap() + 1))
            },
            Some(0),
        )
        .unwrap();
    assert_eq!(expected_pair.len(), ret.unwrap());
    assert_eq!(expected_pair, actual_pair);
}

#[test]
fn random_operations_on_few_keys_with_merges_and_reopen() {
    let mut gen = RandomTestingDataGenerator::new(
        16,
        300,
        vec![
            TestingOperator::PUT,
            TestingOperator::PUT,
            TestingOperator::PUT,
            TestingOperator::DELETE,
        ],
    );
    gen.distinct_keys = 150;
    let ops = gen.generate_testing_operations(3000);
    let mut bc = Bitcask::open(Vec::new(), get_default_options()).unwrap();
    let mut model: HashMap<Vec<u8>, Vec<u8>> = HashMap::new();
    for (i, op) in ops.operations.iter().enumerate() {
        match op.operator {
            TestingOperator::PUT => {
                bc.put(op.key.clone(), &op.value).unwrap();
                model.insert(op.key.clone(), op.value.clone());
            }
            TestingOperator::DELETE => {
                bc.delete(&op.key).unwrap();
                model.remove(&op.key);
            }
            TestingOperator::MERGE => {}
        }
        if i % 700 == 699 {
            bc.merge().unwrap();
        }
        if i % 1000 == 999 {
            while bc.write_pending_hint_file().is_some() {}
            let images = bc.export();
            bc = Bitcask::open(images, get_default_options()).unwrap();
        }
        assert_eq!(bc.get(&op.key).unwrap(), model.get(&op.key).cloned());
    }
    assert_eq!(bc.stats().unwrap().number_of_keys, model.len());
    for op in &ops.operations {
        assert_eq!(bc.get(&op.key).unwrap(), model.get(&op.key).cloned());
        assert_eq!(bc.has(&op.key).unwrap(), model.contains_key(&op.key));
    }
}

#[test]
fn put_refuses_keys_and_values_that_are_too_long() {
    let mut bc = Bitcask::open(Vec::new(), get_default_options()).unwrap();
    let long_key = vec![7u8; 65];
    assert_eq!(
        bc.put(long_key, b"v").err(),
        Some(BitcaskError::InvalidParameter(
            "key".to_string(),
            "key size overflow".to_string()
        ))
    );
    let long_value = vec![7u8; 1025];
    assert_eq!(
        bc.put(b"k".to_vec(), &long_value).err(),
        Some(BitcaskError::InvalidParameter(
            "value".to_string(),
            "values size overflow".to_string()
        ))
    );
    assert!(bc.put(vec![7u8; 64], &vec![7u8; 1024]).is_ok());
    assert_eq!(bc.get(&vec![7u8; 64]).unwrap(), Some(vec![7u8; 1024]));
}

#[test]
fn a_put_that_fails_in_the_database_breaks_it() {
    let options = BitcaskOptions {
        max_data_file_size: 50,
        init_data_file_capacity: 100,
        max_key_size: 64,
        max_value_size: 1024,
        sync_interval: Duration::from_secs(1),
    };
    let mut bc = Bitcask::open(Vec::new(), options).unwrap();
    bc.put(b"k".to_vec(), b"v").unwrap();
    let refused = bc.put(b"key".to_vec(), &vec![1u8; 40]);
    assert_eq!(
        refused.err(),
        Some(BitcaskError::InvalidParameter(
            "row".to_string(),
            "row does not fit a data file".to_string()
        ))
    );
    assert_eq!(
        bc.get(&b"k".to_vec()).err(),
        Some(BitcaskError::DatabaseBroken("put data failed".to_string()))
    );
    assert!(matches!(
        bc.put(b"k".to_vec(), b"v"),
        Err(BitcaskError::DatabaseBroken(_))
    ));
    assert!(matches!(bc.has(&b"k".to_vec()), Err(BitcaskError::DatabaseBroken(_))));
    assert!(matches!(bc.delete(&b"k".to_vec()), Err(BitcaskError::DatabaseBroken(_))));
    assert!(matches!(bc.merge(), Err(BitcaskError::DatabaseBroken(_))));
    let images = bc.export();
    let bc = Bitcask::open(images, options).unwrap();
    assert_eq!(bc.get(&b"k".to_vec()).unwrap(), Some(b"v".to_vec()));
}

#[test]
fn a_put_of_the_tombstone_deletes() {
    let mut bc = Bitcask::open(Vec::new(), get_default_options()).unwrap();
    bc.put(b"k".to_vec(), b"v").unwrap();
    bc.put(b"k".to_vec(), b"bitcask_tombstone").unwrap();
    assert_eq!(bc.get(&b"k".to_vec()).unwrap(), None);
    assert!(!bc.has(&b"k".to_vec()).unwrap());
    let images = bc.export();
    let bc = Bitcask::open(images, get_default_options()).unwrap();
    assert_eq!(bc.get(&b"k".to_vec()).unwrap(), None);
}

#[test]
fn open_refuses_options_that_are_not_positive() {
    let zero_file = BitcaskOptions {
        max_data_file_size: 0,
        ..get_default_options()
    };
    assert_eq!(
        Bitcask::open(Vec::new(), zero_file).err(),
        Some(BitcaskError::InvalidParameter(
            "max_data_file_size".to_string(),
            "need a positive value".to_string()
        ))
    );
    let zero_capacity = BitcaskOptions {
        init_data_file_capacity: 0,
        ..get_default_options()
    };
    assert_eq!(
        Bitcask::open(Vec::new(), zero_capacity).err(),
        Some(BitcaskError::InvalidParameter(
            "init_data_file_capacity".to_string(),
            "need a positive value".to_string()
        ))
    );
    assert_eq!(
        zero_capacity.validate(),
        Some(BitcaskError::InvalidParameter(
            "init_data_file_capacity".to_string(),
            "need a positive value".to_string()
        ))
    );
    let zero_key = BitcaskOptions {
        max_key_size: 0,
        ..get_default_options()
    };
    assert_eq!(
        Bitcask::open(Vec::new(), zero_key).err(),
        Some(BitcaskError::InvalidParameter(
            "max_key_size".to_string(),
            "need a positive value".to_string()
        ))
    );
    let zero_value = BitcaskOptions {
        max_value_size: 0,
        ..get_default_options()
    };
    assert_eq!(
        Bitcask::open(Vec::new(), zero_value).err(),
        Some(BitcaskError::InvalidParameter(
            "max_value_size".to_string(),
            "need a positive value".to_string()
        ))
    );
    let all_zero = BitcaskOptions {
        max_data_file_size: 0,
        init_data_file_capacity: 0,
        max_key_size: 0,
        max_value_size: 0,
        ..get_default_options()
    };
    assert_eq!(
        all_zero.validate(),
        Some(BitcaskError::InvalidParameter(
            "max_data_file_size".to_string(),
            "need a positive value".to_string()
        ))
    );
}

#[test]
fn default_options_and_builders() {
    let options = BitcaskOptions::default();
    assert_eq!(options.max_data_file_size, 128 * 1024 * 1024);
    assert_eq!(options.init_data_file_capacity, 1024 * 1024);
    assert_eq!(options.max_key_size, 1024);
    assert_eq!(options.max_value_size, 100 * 1024);
    assert_eq!(options.sync_interval, Duration::from_secs(60));
    assert_eq!(options.get_database_options().sync_interval_sec, 60);
    let options = options
        .max_data_file_size(1000)
        .init_data_file_capacity(10)
        .max_key_size(5)
        .max_value_size(6)
        .sync_interval(Duration::from_millis(7500));
    assert_eq!(options.max_data_file_size, 1000);
    assert_eq!(options.init_data_file_capacity, 10);
    assert_eq!(options.max_key_size, 5);
    assert_eq!(options.max_value_size, 6);
    assert!(options.validate().is_none());
    let database_options = options.get_database_options();
    assert_eq!(database_options.storage_options.max_data_file_size, 1000);
    assert_eq!(database_options.storage_options.init_data_file_capacity, 10);
    assert_eq!(database_options.sync_interval_sec, 7);
}

#[test]
fn rollover_keeps_every_value_readable() {
    let options = BitcaskOptions {
        max_data_file_size: 100,
        init_data_file_capacity: 100,
        max_key_size: 64,
        max_value_size: 1024,
        sync_interval: Duration::from_secs(1),
    };
    let mut bc = Bitcask::open(Vec::new(), options).unwrap();
    let value = vec![9u8; 50];
    bc.put(b"k1".to_vec(), &value).unwrap();
    bc.put(b"k2".to_vec(), &value).unwrap();
    bc.put(b"k3".to_vec(), &value).unwrap();
    bc.put(b"k1".to_vec(), &vec![8u8; 50]).unwrap();
    let stats = bc.stats().unwrap();
    assert_eq!(stats.number_of_data_files, 4);
    assert_eq!(stats.number_of_keys, 3);
    assert_eq!(stats.number_of_pending_hint_files, 3);
    assert_eq!(bc.get(&b"k1".to_vec()).unwrap(), Some(vec![8u8; 50]));
    assert_eq!(bc.get(&b"k2".to_vec()).unwrap(), Some(value.clone()));
    assert_eq!(bc.get(&b"k3".to_vec()).unwrap(), Some(value));
}

#[test]
fn drop_leaves_nothing() {
    let mut bc = Bitcask::open(Vec::new(), get_default_options()).unwrap();
    bc.put(b"k1".to_vec(), b"v1").unwrap();
    bc.put(b"k2".to_vec(), b"v2").unwrap();
    bc.sync().unwrap();
    bc.drop().unwrap();
    assert_eq!(bc.get(&b"k1".to_vec()).unwrap(), None);
    assert_eq!(bc.stats().unwrap().number_of_keys, 0);
    assert_eq!(bc.keys().unwrap(), Vec::<Vec<u8>>::new());
    let images = bc.export();
    let bc = Bitcask::open(images, get_default_options()).unwrap();
    assert_eq!(bc.get(&b"k2".to_vec()).unwrap(), None);
}

#[test]
fn sync_leaves_no_row_unsynced() {
    let mut bc = Bitcask::open(Vec::new(), get_default_options()).unwrap();
    assert!(!bc.is_dirty());
    bc.put(b"k1".to_vec(), b"v1").unwrap();
    assert!(bc.is_dirty());
    bc.sync().unwrap();
    assert!(!bc.is_dirty());
    assert_eq!(bc.get(&b"k1".to_vec()).unwrap(), Some(b"v1".to_vec()));
    assert_eq!(bc.stats().unwrap().number_of_keys, 1);

    bc.delete(&b"missing".to_vec()).unwrap();
    assert!(!bc.is_dirty());
    bc.delete(&b"k1".to_vec()).unwrap();
    assert!(bc.is_dirty());
    bc.sync().unwrap();
    assert!(!bc.is_dirty());
    assert_eq!(bc.get(&b"k1".to_vec()).unwrap(), None);
}

#[test]
fn fold_ends_at_the_first_error() {
    let mut bc = Bitcask::open(Vec::new(), get_default_options()).unwrap();
    for key in 0..10u8 {
        bc.put(vec![key], &[key]).unwrap();
    }
    let mut calls = 0;
    let folded = bc.fold_key(
        |_key, acc: Option<usize>| {
            calls += 1;
            if acc == Some(3) {
                Err(BitcaskError::MergeInProgress())
            } else {
                Ok(Some(acc.unwrap() + 1))
            }
        },
        Some(0),
    );
    assert_eq!(folded.err(), Some(BitcaskError::MergeInProgress()));
    assert_eq!(calls, 4);

    let mut seen = Vec::new();
    let folded = bc.fold(
        |key, value, acc: Option<usize>| {
            seen.push((key.clone(), value.clone()));
            if seen.len() == 6 {
                Err(BitcaskError::MergeInProgress())
            } else {
                Ok(Some(acc.unwrap() + value[0] as usize))
            }
        },
        Some(100),
    );
    assert_eq!(folded.err(), Some(BitcaskError::MergeInProgress()));
    let expected: Vec<(Vec<u8>, Vec<u8>)> = (0..6u8).map(|k| (vec![k], vec![k])).collect();
    assert_eq!(seen, expected);

    let summed = bc
        .fold(
            |_key, value, acc: Option<usize>| Ok(Some(acc.unwrap() + value[0] as usize)),
            Some(100),
        )
        .unwrap();
    assert_eq!(summed, Some(145));
}

#[test]
fn foreach_walks_every_live_pair_and_foreach_key_every_live_key() {
    let mut bc = Bitcask::open(Vec::new(), get_default_options()).unwrap();
    bc.put(b"a".to_vec(), b"1").unwrap();
    bc.put(b"a".to_vec(), b"2").unwrap();
    bc.put(b"b".to_vec(), b"1").unwrap();
    bc.delete(&b"b".to_vec()).unwrap();
    let mut live = Vec::new();
    bc.foreach(|k, v| live.push((k.clone(), v.clone()))).unwrap();
    assert_eq!(live, vec![(b"a".to_vec(), b"2".to_vec())]);
    assert_eq!(
        bc.live_pairs().unwrap(),
        vec![(b"a".to_vec(), b"2".to_vec())]
    );
    assert_eq!(
        bc.pairs().unwrap(),
        vec![
            (b"a".to_vec(), b"1".to_vec()),
            (b"a".to_vec(), b"2".to_vec()),
            (b"b".to_vec(), b"1".to_vec()),
            (b"b".to_vec(), b"bitcask_tombstone".to_vec()),
        ]
    );
    let mut keys = Vec::new();
    bc.foreach_key(|k| keys.push(k.clone())).unwrap();
    assert_eq!(keys, vec![b"a".to_vec()]);
    let counted = bc
        .fold(|_k, _v, acc: Option<usize>| Ok(Some(acc.unwrap() + 1)), Some(0))
        .unwrap();
    assert_eq!(counted, Some(1));
    bc.merge().unwrap();
    assert_eq!(
        bc.pairs().unwrap(),
        vec![(b"a".to_vec(), b"2".to_vec())]
    );
    assert_eq!(
        bc.live_pairs().unwrap(),
        vec![(b"a".to_vec(), b"2".to_vec())]
    );
}

#[test]
fn live_pairs_come_in_the_order_of_their_rows() {
    let options = BitcaskOptions {
        max_data_file_size: 100,
        init_data_file_capacity: 100,
        max_key_size: 64,
        max_value_size: 1024,
        sync_interval: Duration::from_secs(1),
    };
    let mut bc = Bitcask::open(Vec::new(), options).unwrap();
    bc.put(b"k1".to_vec(), &vec![1u8; 20]).unwrap();
    bc.put(b"k2".to_vec(), &vec![2u8; 20]).unwrap();
    bc.put(b"k3".to_vec(), &vec![3u8; 20]).unwrap();
    bc.put(b"k4".to_vec(), &vec![4u8; 20]).unwrap();
    bc.put(b"k1".to_vec(), &vec![5u8; 20]).unwrap();
    bc.delete(&b"k3".to_vec()).unwrap();
    bc.put(b"k5".to_vec(), &vec![6u8; 20]).unwrap();
    assert!(bc.stats().unwrap().number_of_data_files > 2);
    let expected = vec![
        (b"k2".to_vec(), vec![2u8; 20]),
        (b"k4".to_vec(), vec![4u8; 20]),
        (b"k1".to_vec(), vec![5u8; 20]),
        (b"k5".to_vec(), vec![6u8; 20]),
    ];
    assert_eq!(bc.live_pairs().unwrap(), expected);
    let mut seen = Vec::new();
    bc.foreach(|k, v| seen.push((k.clone(), v.clone()))).unwrap();
    assert_eq!(seen, expected);
    for (key, value) in &expected {
        assert_eq!(bc.get(key).unwrap().as_ref(), Some(value));
    }
    let joined = bc
        .fold(
            |k, v, acc: Option<Vec<u8>>| {
                let mut all = acc.unwrap();
                all.push(k[1]);
                all.push(v[0]);
                Ok(Some(all))
            },
            Some(Vec::new()),
        )
        .unwrap();
    assert_eq!(joined, Some(vec![b'2', 2, b'4', 4, b'1', 5, b'5', 6]));
}

#[test]
fn foreach_and_fold_hand_on_the_error_of_a_row_that_cannot_be_read() {
    let mut bc = Bitcask::open(Vec::new(), get_default_options()).unwrap();
    bc.put(b"a".to_vec(), b"1").unwrap();
    bc.put(b"b".to_vec(), b"2").unwrap();
    let mut images = bc.export();
    let last = images[0].content.len() - 1;
    images[0].content[last] ^= 1;
    images[0].readonly = true;
    images[0].hint = Some({
        let mut record = Vec::new();
        record.extend_from_slice(&0u64.to_be_bytes());
        record.extend_from_slice(&1u64.to_be_bytes());
        record.extend_from_slice(&30u64.to_be_bytes());
        record.extend_from_slice(&38u64.to_be_bytes());
        record.push(0);
        record.push(b'b');
        record
    });
    let bc = Bitcask::open(images, get_default_options()).unwrap();
    assert!(bc.has(&b"b".to_vec()).unwrap());
    let mut calls = 0;
    assert!(matches!(
        bc.foreach(|_k, _v| calls += 1),
        Err(BitcaskError::CrcCheckFailed(1, 38, _, _))
    ));
    assert!(matches!(
        bc.fold(
            |_k, _v, acc: Option<usize>| {
                calls += 1;
                Ok(acc)
            },
            Some(0)
        ),
        Err(BitcaskError::CrcCheckFailed(1, 38, _, _))
    ));
    assert_eq!(calls, 0);
    assert!(matches!(
        bc.live_pairs(),
        Err(BitcaskError::CrcCheckFailed(1, 38, _, _))
    ));
    let mut keys = Vec::new();
    bc.foreach_key(|k| keys.push(k.clone())).unwrap();
    assert_eq!(keys, vec![b"b".to_vec()]);
}

#[test]
fn files_are_opened_alike_in_any_order() {
    let options = BitcaskOptions {
        max_data_file_size: 100,
        init_data_file_capacity: 100,
        max_key_size: 64,
        max_value_size: 1024,
        sync_interval: Duration::from_secs(1),
    };
    let mut bc = Bitcask::open(Vec::new(), options).unwrap();
    bc.put(b"k1".to_vec(), &vec![1u8; 50]).unwrap();
    bc.put(b"k2".to_vec(), &vec![2u8; 50]).unwrap();
    bc.put(b"k3".to_vec(), &vec![3u8; 50]).unwrap();
    bc.put(b"k1".to_vec(), &vec![4u8; 50]).unwrap();
    bc.delete(&b"k2".to_vec()).unwrap();
    let mut images = bc.export();
    assert!(images.len() > 2);
    images.reverse();
    let reopened = Bitcask::open(images, options).unwrap();
    assert_eq!(reopened.get(&b"k1".to_vec()).unwrap(), Some(vec![4u8; 50]));
    assert_eq!(reopened.get(&b"k2".to_vec()).unwrap(), None);
    assert_eq!(reopened.get(&b"k3".to_vec()).unwrap(), Some(vec![3u8; 50]));
    let stats = reopened.stats().unwrap();
    assert_eq!(stats.number_of_data_files, bc.stats().unwrap().number_of_data_files);
    assert_eq!(stats.number_of_keys, 2);
}

#[test]
fn the_files_before_and_after_a_merge_open_to_the_same_lookups() {
    let options = BitcaskOptions {
        max_data_file_size: 100,
        init_data_file_capacity: 100,
        max_key_size: 64,
        max_value_size: 1024,
        sync_interval: Duration::from_secs(1),
    };
    let mut bc = Bitcask::open(Vec::new(), options).unwrap();
    bc.put(b"k1".to_vec(), &vec![1u8; 50]).unwrap();
    bc.put(b"k2".to_vec(), &vec![2u8; 50]).unwrap();
    bc.put(b"k1".to_vec(), &vec![4u8; 50]).unwrap();
    bc.delete(&b"k2".to_vec()).unwrap();
    bc.put(b"k3".to_vec(), &vec![3u8; 50]).unwrap();
    let before = bc.export();
    bc.merge().unwrap();
    let after = bc.export();
    for images in [before, after] {
        let reopened = Bitcask::open(images, options).unwrap();
        assert_eq!(reopened.get(&b"k1".to_vec()).unwrap(), Some(vec![4u8; 50]));
        assert_eq!(reopened.get(&b"k2".to_vec()).unwrap(), None);
        assert_eq!(reopened.get(&b"k3".to_vec()).unwrap(), Some(vec![3u8; 50]));
        assert_eq!(reopened.stats().unwrap().number_of_keys, 2);
    }
}
