use lsm_tree::memtable::MemTable;

#[test]
fn test_new_memtable() {
    let table = MemTable::new();
    assert!(table.is_empty());
    assert_eq!(table.len(), 0);
    assert_eq!(table.size(), 0);
}

#[test]
fn test_insert_and_get() {
    let mut table = MemTable::new();
    let key = b"test_key".to_vec();
    let value = b"test_value".to_vec();
    let key_len = key.len();
    let value_len = value.len();

    assert!(table.insert(key.clone(), value.clone()).is_none());
    assert_eq!(table.len(), 1);
    assert_eq!(table.size(), key_len + value_len);

    assert_eq!(table.get(&key), Some(&value));
}

#[test]
fn test_update_existing_key() {
    let mut table = MemTable::new();
    let key = b"test_key".to_vec();
    let value1 = b"value1".to_vec();
    let value2 = b"value2".to_vec();

    table.insert(key.clone(), value1.clone());
    let old_value = table.insert(key.clone(), value2.clone());

    assert_eq!(old_value, Some(value1));
    assert_eq!(table.get(&key), Some(&value2));
    assert_eq!(table.len(), 1);
    assert_eq!(table.size(), key.len() + value2.len());
}

#[test]
fn test_remove() {
    let mut table = MemTable::new();
    let key = b"test_key".to_vec();
    let value = b"test_value".to_vec();
    let total_size = key.len() + value.len();

    table.insert(key.clone(), value.clone());
    assert_eq!(table.size(), total_size);

    let removed = table.remove(&key);
    assert_eq!(removed, Some(value));
    assert!(table.is_empty());
    assert_eq!(table.size(), 0);
    assert_eq!(table.get(&key), None);
}

#[test]
fn test_remove_nonexistent() {
    let mut table = MemTable::new();
    assert!(table.remove(b"nonexistent").is_none());
}

#[test]
fn test_iterator() {
    let mut table = MemTable::new();
    let entries = vec![
        (b"key1".to_vec(), b"value1".to_vec()),
        (b"key2".to_vec(), b"value2".to_vec()),
        (b"key3".to_vec(), b"value3".to_vec()),
    ];

    for (key, value) in entries.iter() {
        table.insert(key.clone(), value.clone());
    }

    let mut iter_entries: Vec<_> = table.iter().iter().map(|(k, v)| (k.clone(), v.clone())).collect();
    iter_entries.sort();

    let mut expected = entries.clone();
    expected.sort();

    assert_eq!(iter_entries, expected);
}

#[test]
fn test_size_tracking() {
    let mut table = MemTable::new();
    let mut expected_size = 0;

    for i in 0..5 {
        let key = format!("key{}", i).into_bytes();
        let value = format!("value{}", i).into_bytes();
        expected_size += key.len() + value.len();
        table.insert(key, value);
    }

    assert_eq!(table.size(), expected_size);

    let key = b"key0".to_vec();
    let removed_value = table.remove(&key).unwrap();
    expected_size -= key.len() + removed_value.len();

    assert_eq!(table.size(), expected_size);
}

#[test]
fn test_iter_is_in_key_order() {
    let mut table = MemTable::new();
    for key in ["pear", "apple", "fig", "app", "zebra", "", "b\u{ff}"] {
        table.insert(key.as_bytes().to_vec(), key.to_uppercase().into_bytes());
    }
    table.insert(vec![0xff], vec![1]);
    table.insert(vec![0x00], vec![2]);
    let keys: Vec<Vec<u8>> = table.iter().into_iter().map(|(k, _)| k).collect();
    let mut sorted = keys.clone();
    sorted.sort();
    assert_eq!(keys, sorted);
    assert_eq!(keys.first().unwrap(), &Vec::<u8>::new());
    assert_eq!(keys.last().unwrap(), &vec![0xff]);
    assert_eq!(table.len(), 9);
}

#[test]
fn test_update_changes_size_by_the_difference() {
    let mut table = MemTable::new();
    table.insert(b"k".to_vec(), vec![0; 10]);
    table.insert(b"other".to_vec(), vec![0; 3]);
    assert_eq!(table.size(), 1 + 10 + 5 + 3);
    assert_eq!(table.insert(b"k".to_vec(), vec![1; 4]), Some(vec![0; 10]));
    assert_eq!(table.size(), 1 + 4 + 5 + 3);
    assert_eq!(table.remove(b"missing"), None);
    assert_eq!(table.size(), 1 + 4 + 5 + 3);
    assert_eq!(table.remove(b"other"), Some(vec![0; 3]));
    assert_eq!(table.size(), 5);
    assert_eq!(table.get(b"k"), Some(&vec![1; 4]));
    assert!(!table.is_empty());
}

#[test]
fn test_many_keys_stay_found() {
    let mut table = MemTable::new();
    for i in (0..500u32).rev() {
        table.insert(format!("key{}", i * 7919 % 500).into_bytes(), i.to_le_bytes().to_vec());
    }
    assert_eq!(table.len(), 500);
    for i in 0..500u32 {
        assert!(table.get(format!("key{}", i).as_bytes()).is_some());
    }
    for i in (0..500u32).step_by(2) {
        assert!(table.remove(format!("key{}", i).as_bytes()).is_some());
    }
    assert_eq!(table.len(), 250);
    for i in 0..500u32 {
        assert_eq!(table.get(format!("key{}", i).as_bytes()).is_some(), i % 2 == 1);
    }
}
