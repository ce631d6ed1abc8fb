use std::collections::BTreeMap;

use lsm_tree::error::FormatError;
use lsm_tree::naming::read_table_name;
use lsm_tree::sstable::SSTable;
use lsm_tree::storage::{Lookup, Probe, Storage, MEMTABLE_SIZE_THRESHOLD};
use lsm_tree::wal::{Operation, WAL};
use lsm_tree::{Key, Value};

/// A data directory held in memory: the log and the table files by name.
#[derive(Clone)]
struct Directory {
    log: Vec<u8>,
    files: BTreeMap<Vec<u8>, Vec<u8>>,
}

/// The engine over a directory held in memory.
struct TestStorage {
    core: Storage,
    directory: Directory,
    reads: std::cell::Cell<usize>,
}

impl TestStorage {
    fn open(directory: Directory) -> Result<TestStorage, FormatError> {
        let mut tables = Vec::new();
        for (name, bytes) in &directory.files {
            if read_table_name(name).is_some() {
                tables.push(SSTable::new(name.clone(), Some(bytes)));
            }
        }
        let core = Storage::new(&directory.log, tables)?;
        Ok(TestStorage { core, directory, reads: std::cell::Cell::new(0) })
    }

    fn get(&self, key: &Key) -> Result<Option<Value>, FormatError> {
        let mut step = self.core.get(key);
        loop {
            match step {
                Lookup::Found(value) => return Ok(Some(value)),
                Lookup::Absent => return Ok(None),
                Lookup::Read(probe) => {
                    let table = self.core.table_at(&probe).unwrap();
                    let contents = &self.directory.files[table.get_path()];
                    self.reads.set(self.reads.get() + 1);
                    step = self.core.get_next(key, &probe, contents)?;
                }
            }
        }
    }

    fn put(&mut self, key: Key, value: Value) -> Result<(), FormatError> {
        let mut log = WAL::from_bytes(std::mem::take(&mut self.directory.log));
        log.append(Operation::Put, &key, Some(&value));
        self.directory.log = log.as_bytes().to_vec();
        if let Some(file) = self.core.put(key, value) {
            self.directory.files.insert(file.path, file.data);
            self.directory.log.clear();
            self.compact_from(0)?;
        }
        Ok(())
    }

    fn delete(&mut self, key: &Key) -> Result<(), FormatError> {
        let mut log = WAL::from_bytes(std::mem::take(&mut self.directory.log));
        log.append(Operation::Delete, key, None);
        self.directory.log = log.as_bytes().to_vec();
        self.core.delete(key);
        Ok(())
    }

    fn compact_from(&mut self, first: usize) -> Result<(), FormatError> {
        let mut level = first;
        loop {
            let inputs = self.core.compaction_inputs(level);
            if inputs.is_empty() {
                return Ok(());
            }
            let contents: Vec<Vec<u8>> =
                inputs.iter().map(|path| self.directory.files[path].clone()).collect();
            let outcome = self.core.maybe_compact(level, &contents)?.unwrap();
            self.directory.files.insert(outcome.output.path, outcome.output.data);
            for path in outcome.obsolete {
                self.directory.files.remove(&path);
            }
            level += 1;
        }
    }

    fn count_at_level(&self, level: usize) -> usize {
        self.directory
            .files
            .keys()
            .filter(|name| matches!(read_table_name(name), Some((l, _)) if l == level))
            .count()
    }
}

fn create_test_storage() -> TestStorage {
    TestStorage::open(Directory { log: Vec::new(), files: BTreeMap::new() }).unwrap()
}

#[test]
fn test_basic_operations() {
    let mut storage = create_test_storage();

    let key1 = b"key1".to_vec();
    let value1 = b"value1".to_vec();
    let value2 = b"value2".to_vec();

    storage.put(key1.clone(), value1.clone()).unwrap();
    assert_eq!(storage.get(&key1).unwrap(), Some(value1));

    storage.put(key1.clone(), value2.clone()).unwrap();
    assert_eq!(storage.get(&key1).unwrap(), Some(value2));

    storage.delete(&key1).unwrap();
    assert_eq!(storage.get(&key1).unwrap(), None);

    let nonexistent = b"nonexistent".to_vec();
    assert_eq!(storage.get(&nonexistent).unwrap(), None);
}

#[test]
fn test_memtable_flush() {
    let mut storage = create_test_storage();

    let value = vec![b'x'; 1024];
    for i in 0..1000 {
        let key = format!("key{}", i).into_bytes();
        storage.put(key, value.clone()).unwrap();
    }

    let sstable_count = storage
        .directory
        .files
        .keys()
        .filter(|name| name.ends_with(b".sst"))
        .count();
    assert!(sstable_count > 0);

    let test_key = b"key0".to_vec();
    assert_eq!(storage.get(&test_key).unwrap(), Some(value));
}

#[test]
fn test_concurrent_operations() {
    let mut storage = create_test_storage();

    for i in 0..100 {
        let key = format!("key{}", i).into_bytes();
        let value = format!("value{}", i).into_bytes();

        storage.put(key.clone(), value.clone()).unwrap();
        assert_eq!(storage.get(&key).unwrap(), Some(value.clone()));

        if i % 2 == 0 {
            storage.delete(&key).unwrap();
        }
    }

    for i in 0..100 {
        let key = format!("key{}", i).into_bytes();
        let value = format!("value{}", i).into_bytes();

        if i % 2 == 0 {
            assert_eq!(storage.get(&key).unwrap(), None);
        } else {
            assert_eq!(storage.get(&key).unwrap(), Some(value));
        }
    }
}

#[test]
fn test_recovery() {
    let mut storage = create_test_storage();

    let test_data = vec![
        (b"key1".to_vec(), b"value1".to_vec()),
        (b"key2".to_vec(), b"value2".to_vec()),
        (b"key3".to_vec(), b"value3".to_vec()),
    ];

    for (key, value) in test_data.iter() {
        storage.put(key.clone(), value.clone()).unwrap();
    }

    let directory = storage.directory.clone();
    drop(storage);
    let recovered_storage = TestStorage::open(directory).unwrap();

    for (key, value) in test_data.iter() {
        assert_eq!(recovered_storage.get(key).unwrap(), Some(value.clone()));
    }
}

#[test]
fn test_compaction() {
    let mut storage = create_test_storage();

    let value = vec![b'x'; 2048];
    for i in 0..2000 {
        let key = format!("key{}", i).into_bytes();
        storage.put(key, value.clone()).unwrap();
    }

    let mut level_counts = vec![0; 4];
    for name in storage.directory.files.keys() {
        let name = String::from_utf8(name.clone()).unwrap();
        if let Some(level) = name.chars().find(|c| c.is_digit(10)) {
            let level_num = level.to_digit(10).unwrap() as usize;
            if level_num < level_counts.len() {
                level_counts[level_num] += 1;
            }
        }
    }

    assert!(level_counts[0] <= 4);
    assert!(level_counts.iter().sum::<i32>() > 0);

    let test_keys = vec![
        format!("key0").into_bytes(),
        format!("key500").into_bytes(),
        format!("key1999").into_bytes(),
    ];

    for key in &test_keys {
        assert_eq!(storage.get(key).unwrap(), Some(value.clone()));
    }
}

#[test]
fn test_put_then_delete_of_named_records() {
    let mut storage = create_test_storage();
    storage.put(b"name".to_vec(), b"John Doe".to_vec()).unwrap();
    storage.put(b"age".to_vec(), b"30".to_vec()).unwrap();
    storage.put(b"city".to_vec(), b"New York".to_vec()).unwrap();
    storage.delete(&b"age".to_vec()).unwrap();
    assert_eq!(storage.get(&b"name".to_vec()).unwrap(), Some(b"John Doe".to_vec()));
    assert_eq!(storage.get(&b"age".to_vec()).unwrap(), None);
    assert_eq!(storage.get(&b"city".to_vec()).unwrap(), Some(b"New York".to_vec()));
    assert_eq!(storage.reads.get(), 0);
}

#[test]
fn test_five_thousand_records() {
    let mut storage = create_test_storage();
    let mut created = std::collections::BTreeSet::new();
    for i in 0..5000 {
        let key = format!("key{:05}", i).into_bytes();
        let value = format!("value{}", i).repeat(100).into_bytes();
        storage.put(key, value).unwrap();
        created.extend(storage.directory.files.keys().cloned());
        assert!(storage.count_at_level(0) < 4);
    }
    for i in [0, 1000, 2000, 3000, 4000, 4999] {
        let key = format!("key{:05}", i).into_bytes();
        let expected_value = format!("value{}", i).repeat(100).into_bytes();
        assert_eq!(storage.get(&key).unwrap(), Some(expected_value));
    }
    assert!(created.len() > 1);
    assert!(storage.count_at_level(0) <= 4);
    assert_eq!(storage.get(&b"key05000".to_vec()).unwrap(), None);
}

#[test]
fn test_thousand_values_survive_a_restart() {
    let mut storage = create_test_storage();
    for i in 0..1000u32 {
        let key = format!("key{}", i).into_bytes();
        let mut value = vec![(i % 251) as u8; 1024];
        value[0..4].copy_from_slice(&i.to_le_bytes());
        storage.put(key, value).unwrap();
    }
    let reopened = TestStorage::open(storage.directory.clone()).unwrap();
    for i in 0..1000u32 {
        let key = format!("key{}", i).into_bytes();
        let mut value = vec![(i % 251) as u8; 1024];
        value[0..4].copy_from_slice(&i.to_le_bytes());
        assert_eq!(reopened.get(&key).unwrap(), Some(value));
    }
}

#[test]
fn test_newer_value_wins_across_tables_and_compaction() {
    let mut storage = create_test_storage();
    let filler = vec![b'f'; MEMTABLE_SIZE_THRESHOLD];
    storage.put(b"k".to_vec(), b"v1".to_vec()).unwrap();
    storage.put(b"fill".to_vec(), filler.clone()).unwrap();
    assert_eq!(storage.count_at_level(0), 1);
    assert!(storage.directory.log.is_empty());
    storage.put(b"k".to_vec(), b"v2".to_vec()).unwrap();
    storage.put(b"fill".to_vec(), filler.clone()).unwrap();
    assert_eq!(storage.count_at_level(0), 2);
    // Two overlapping tables at level 0: the newer one answers.
    assert_eq!(storage.get(&b"k".to_vec()).unwrap(), Some(b"v2".to_vec()));
    storage.put(b"other".to_vec(), filler.clone()).unwrap();
    assert_eq!(storage.count_at_level(0), 3);
    storage.put(b"last".to_vec(), filler.clone()).unwrap();
    // The fourth flush compacts level 0 into one table at level 1.
    assert_eq!(storage.count_at_level(0), 0);
    assert_eq!(storage.count_at_level(1), 1);
    assert!(storage.directory.files.contains_key(&b"L1_4.sst".to_vec()));
    assert_eq!(storage.directory.files.len(), 1);
    assert_eq!(storage.get(&b"k".to_vec()).unwrap(), Some(b"v2".to_vec()));
    assert_eq!(storage.get(&b"fill".to_vec()).unwrap(), Some(filler));
    let reopened = TestStorage::open(storage.directory.clone()).unwrap();
    assert_eq!(reopened.get(&b"k".to_vec()).unwrap(), Some(b"v2".to_vec()));
}

#[test]
fn test_flush_at_the_threshold() {
    let mut storage = create_test_storage();
    storage.put(b"a".to_vec(), vec![0; MEMTABLE_SIZE_THRESHOLD - 2]).unwrap();
    assert!(storage.directory.files.is_empty());
    assert!(!storage.directory.log.is_empty());
    storage.put(b"b".to_vec(), vec![]).unwrap();
    assert_eq!(
        storage.directory.files.keys().cloned().collect::<Vec<_>>(),
        vec![b"L0_0.sst".to_vec()]
    );
    assert!(storage.directory.log.is_empty());
    // A delete does not flush.
    storage.put(b"c".to_vec(), vec![0; 100]).unwrap();
    storage.delete(&b"c".to_vec()).unwrap();
    assert_eq!(storage.directory.files.len(), 1);
    assert_eq!(storage.get(&b"a".to_vec()).unwrap().unwrap().len(), MEMTABLE_SIZE_THRESHOLD - 2);
    assert_eq!(storage.get(&b"b".to_vec()).unwrap(), Some(vec![]));
    assert_eq!(storage.get(&b"c".to_vec()).unwrap(), None);
}

#[test]
fn test_restart_replays_the_log() {
    let mut log = WAL::new();
    log.append(Operation::Put, b"k1", Some(b"v1"));
    log.append(Operation::Put, b"k2", Some(b"v2"));
    log.append(Operation::Delete, b"k1", None);
    log.append(Operation::Put, b"k2", Some(b"v3"));
    let directory = Directory { log: log.as_bytes().to_vec(), files: BTreeMap::new() };
    let storage = TestStorage::open(directory).unwrap();
    assert_eq!(storage.get(&b"k1".to_vec()).unwrap(), None);
    assert_eq!(storage.get(&b"k2".to_vec()).unwrap(), Some(b"v3".to_vec()));
}

#[test]
fn test_restart_with_a_damaged_log() {
    let mut log = WAL::new();
    log.append(Operation::Put, b"k1", Some(b"v1"));
    let mut bytes = log.as_bytes().to_vec();
    bytes.pop();
    let cut = Directory { log: bytes, files: BTreeMap::new() };
    assert!(matches!(TestStorage::open(cut).map(|_| ()), Err(FormatError::Record)));
    let unknown = Directory { log: vec![7], files: BTreeMap::new() };
    assert!(matches!(TestStorage::open(unknown).map(|_| ()), Err(FormatError::Operation)));
}

#[test]
fn test_restart_finds_tables_and_the_next_sequence() {
    let mut older = SSTable::new(b"L0_3.sst".to_vec(), None);
    let older_file = older.write(&[(b"k".to_vec(), b"old".to_vec())]);
    let mut newer = SSTable::new(b"L0_7.sst".to_vec(), None);
    let newer_file = newer.write(&[(b"k".to_vec(), b"new".to_vec())]);
    let mut deep = SSTable::new(b"L2_5.sst".to_vec(), None);
    let deep_file = deep.write(&[(b"k".to_vec(), b"deep".to_vec()), (b"only".to_vec(), b"here".to_vec())]);
    let mut files = BTreeMap::new();
    files.insert(b"L0_3.sst".to_vec(), older_file);
    files.insert(b"L0_7.sst".to_vec(), newer_file);
    files.insert(b"L2_5.sst".to_vec(), deep_file);
    files.insert(b"notes.txt".to_vec(), b"ignored".to_vec());
    files.insert(b"Lx_1.sst".to_vec(), b"ignored".to_vec());
    let mut storage = TestStorage::open(Directory { log: Vec::new(), files }).unwrap();
    assert_eq!(storage.get(&b"k".to_vec()).unwrap(), Some(b"new".to_vec()));
    assert_eq!(storage.get(&b"only".to_vec()).unwrap(), Some(b"here".to_vec()));
    assert_eq!(storage.get(&b"none".to_vec()).unwrap(), None);
    storage.put(b"big".to_vec(), vec![1; MEMTABLE_SIZE_THRESHOLD]).unwrap();
    assert!(storage.directory.files.contains_key(&b"L0_8.sst".to_vec()));
    assert_eq!(storage.directory.files.len(), 6);
}

#[test]
fn test_the_filter_spares_reads() {
    let mut storage = create_test_storage();
    storage.put(b"present".to_vec(), vec![1; MEMTABLE_SIZE_THRESHOLD]).unwrap();
    assert_eq!(storage.count_at_level(0), 1);
    assert_eq!(storage.get(&b"present".to_vec()).unwrap().unwrap().len(), MEMTABLE_SIZE_THRESHOLD);
    assert_eq!(storage.reads.get(), 1);
    for i in 0..200 {
        assert_eq!(storage.get(&format!("absent{}", i).into_bytes()).unwrap(), None);
    }
    assert!(storage.reads.get() < 1 + 40);
}

#[test]
fn test_a_damaged_table_is_an_error() {
    let mut storage = create_test_storage();
    storage.put(b"present".to_vec(), vec![1; MEMTABLE_SIZE_THRESHOLD]).unwrap();
    let file = storage.directory.files.get_mut(&b"L0_0.sst".to_vec()).unwrap();
    file.truncate(file.len() - 1);
    assert!(matches!(storage.get(&b"present".to_vec()), Err(FormatError::Table)));
    // Compaction of a level that is not due does nothing.
    assert!(storage.core.compaction_inputs(0).is_empty());
    assert!(matches!(storage.core.maybe_compact(0, &vec![]), Ok(None)));
    assert!(matches!(storage.core.maybe_compact(5, &vec![]), Ok(None)));
}

#[test]
fn test_compaction_wants_one_file_for_each_table() {
    let mut storage = create_test_storage();
    let mut files = Vec::new();
    for i in 0..4u8 {
        if let Some(file) = storage.core.put(vec![i], vec![i; MEMTABLE_SIZE_THRESHOLD]) {
            files.push(file);
        }
    }
    assert_eq!(files.len(), 4);
    let inputs = storage.core.compaction_inputs(0);
    assert_eq!(inputs, files.iter().map(|f| f.path.clone()).collect::<Vec<_>>());
    let mut contents: Vec<Vec<u8>> = files.iter().map(|f| f.data.clone()).collect();
    assert!(matches!(storage.core.maybe_compact(0, &contents[..3].to_vec()), Ok(None)));
    let whole = contents[2].clone();
    contents[2].truncate(whole.len() - 1);
    assert!(matches!(storage.core.maybe_compact(0, &contents), Err(FormatError::Table)));
    assert_eq!(storage.core.compaction_inputs(0).len(), 4);
    contents[2] = whole;
    let outcome = storage.core.maybe_compact(0, &contents).unwrap().unwrap();
    assert_eq!(outcome.output.path, b"L1_4.sst".to_vec());
    assert_eq!(outcome.obsolete, inputs);
    assert!(storage.core.compaction_inputs(0).is_empty());
    assert!(storage.core.compaction_inputs(1).is_empty());
    let probe = match storage.core.get(&vec![2u8]) {
        Lookup::Read(probe) => probe,
        _ => panic!("expected a table to read"),
    };
    assert_eq!((probe.level, probe.index), (1, 0));
    assert_eq!(storage.core.table_at(&probe).unwrap().get_path(), &b"L1_4.sst".to_vec());
    assert!(storage.core.table_at(&Probe { level: 0, index: 0 }).is_none());
    match storage.core.get_next(&vec![2u8], &probe, &outcome.output.data).unwrap() {
        Lookup::Found(value) => assert_eq!(value, vec![2u8; MEMTABLE_SIZE_THRESHOLD]),
        _ => panic!("expected the value"),
    }
    assert!(matches!(
        storage.core.get_next(&vec![9u8], &probe, &outcome.output.data).unwrap(),
        Lookup::Absent
    ));
}

#[test]
fn test_restart_orders_tables_by_sequence_number() {
    // The name of the newer table sorts before that of the older one.
    let mut older = SSTable::new(b"L0_9.sst".to_vec(), None);
    let older_file = older.write(&[(b"k".to_vec(), b"old".to_vec())]);
    let mut newer = SSTable::new(b"L0_10.sst".to_vec(), None);
    let newer_file = newer.write(&[(b"k".to_vec(), b"new".to_vec())]);
    let tables = vec![
        SSTable::new(b"L0_10.sst".to_vec(), Some(&newer_file)),
        SSTable::new(b"L0_9.sst".to_vec(), Some(&older_file)),
    ];
    let core = Storage::new(&[], tables).unwrap();
    let probe = match core.get(&b"k".to_vec()) {
        Lookup::Read(probe) => probe,
        _ => panic!("expected a table to read"),
    };
    assert_eq!((probe.level, probe.index), (0, 1));
    assert_eq!(core.table_at(&probe).unwrap().get_path(), &b"L0_10.sst".to_vec());
    assert_eq!(core.sequence(), 11);
    assert_eq!(core.memtable_size(), 0);
    let mut files = BTreeMap::new();
    files.insert(b"L0_9.sst".to_vec(), older_file);
    files.insert(b"L0_10.sst".to_vec(), newer_file);
    let storage = TestStorage::open(Directory { log: Vec::new(), files }).unwrap();
    assert_eq!(storage.get(&b"k".to_vec()).unwrap(), Some(b"new".to_vec()));
}

#[test]
fn test_flush_of_an_empty_table_does_nothing() {
    let mut core = Storage::new(&[], Vec::new()).unwrap();
    assert!(core.flush_memtable().is_none());
    core.put(b"k".to_vec(), b"v".to_vec());
    assert_eq!(core.memtable_size(), 2);
    let file = core.flush_memtable().unwrap();
    assert_eq!(file.path, b"L0_0.sst".to_vec());
    assert_eq!(core.memtable_size(), 0);
    assert_eq!(core.sequence(), 1);
    assert!(core.flush_memtable().is_none());
    let mut table = SSTable::new(b"L0_0.sst".to_vec(), None);
    assert_eq!(table.write(&[(b"k".to_vec(), b"v".to_vec())]), file.data);
}

#[test]
fn test_a_deleted_key_is_read_from_the_tables_again() {
    let mut storage = create_test_storage();
    storage.put(b"k".to_vec(), b"flushed".to_vec()).unwrap();
    storage.put(b"fill".to_vec(), vec![0; MEMTABLE_SIZE_THRESHOLD]).unwrap();
    storage.put(b"k".to_vec(), b"buffered".to_vec()).unwrap();
    assert_eq!(storage.get(&b"k".to_vec()).unwrap(), Some(b"buffered".to_vec()));
    storage.delete(&b"k".to_vec()).unwrap();
    assert_eq!(storage.get(&b"k".to_vec()).unwrap(), Some(b"flushed".to_vec()));
}
