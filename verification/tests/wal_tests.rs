use lsm_tree::error::FormatError;
use lsm_tree::wal::{replay_bytes, Operation, WAL};

#[test]
fn test_new_wal() {
    let wal = WAL::new();
    assert!(wal.as_bytes().is_empty());
    assert!(wal.replay().unwrap().is_empty());
}

#[test]
fn test_append_and_replay_put() {
    let mut wal = WAL::new();

    let key = b"test_key".to_vec();
    let value = b"test_value".to_vec();
    wal.append(Operation::Put, &key, Some(&value));

    let entries = wal.replay().unwrap();
    assert_eq!(entries.len(), 1);

    match &entries[0] {
        (Operation::Put, k, Some(v)) => {
            assert_eq!(k, &key);
            assert_eq!(v, &value);
        }
        _ => panic!("Expected Put operation"),
    }
}

#[test]
fn test_append_and_replay_delete() {
    let mut wal = WAL::new();

    let key = b"test_key".to_vec();
    wal.append(Operation::Delete, &key, None);

    let entries = wal.replay().unwrap();
    assert_eq!(entries.len(), 1);

    match &entries[0] {
        (Operation::Delete, k, None) => {
            assert_eq!(k, &key);
        }
        _ => panic!("Expected Delete operation"),
    }
}

#[test]
fn test_multiple_operations() {
    let mut wal = WAL::new();

    let operations = vec![
        (Operation::Put, b"key1".to_vec(), Some(b"value1".to_vec())),
        (Operation::Delete, b"key2".to_vec(), None),
        (Operation::Put, b"key3".to_vec(), Some(b"value3".to_vec())),
    ];

    for (op, key, value) in &operations {
        match op {
            Operation::Put => wal.append(Operation::Put, &key, value.as_deref()),
            Operation::Delete => wal.append(Operation::Delete, &key, None),
        }
    }

    let entries = wal.replay().unwrap();
    assert_eq!(entries.len(), operations.len());

    for (i, (op, key, value)) in operations.iter().enumerate() {
        match (&entries[i].0, &entries[i].1, &entries[i].2) {
            (replay_op, replay_key, replay_value) => {
                assert!(matches!(op, Operation::Put) == matches!(replay_op, Operation::Put));
                assert_eq!(replay_key, key);
                assert_eq!(replay_value, value);
            }
        }
    }
}

#[test]
fn test_clear() {
    let mut wal = WAL::new();

    wal.append(Operation::Put, b"key", Some(b"value"));
    assert!(wal.as_bytes().len() > 0);

    wal.clear();
    assert_eq!(wal.as_bytes().len(), 0);

    let entries = wal.replay().unwrap();
    assert!(entries.is_empty());
}

#[test]
fn test_large_entries() {
    let mut wal = WAL::new();

    let large_value = vec![b'x'; 1024 * 1024];
    wal.append(Operation::Put, b"large_key", Some(&large_value));

    let entries = wal.replay().unwrap();
    assert_eq!(entries.len(), 1);

    match &entries[0] {
        (Operation::Put, k, Some(v)) => {
            assert_eq!(k, b"large_key");
            assert_eq!(v, &large_value);
        }
        _ => panic!("Expected Put operation with large value"),
    }
}

#[test]
fn test_record_bytes() {
    let mut wal = WAL::new();
    wal.append(Operation::Put, b"k1", Some(b"v1"));
    assert_eq!(wal.as_bytes(), &[0, 2, 0, 0, 0, b'k', b'1', 2, 0, 0, 0, b'v', b'1']);
    wal.append(Operation::Delete, b"abc", None);
    assert_eq!(&wal.as_bytes()[13..], &[1, 3, 0, 0, 0, b'a', b'b', b'c']);
    wal.append(Operation::Put, b"", Some(b""));
    assert_eq!(&wal.as_bytes()[21..], &[0, 0, 0, 0, 0, 0, 0, 0, 0]);
    assert_eq!(wal.replay().unwrap().len(), 3);
}

#[test]
fn test_length_is_little_endian() {
    let mut wal = WAL::new();
    let key = vec![7u8; 0x0102];
    wal.append(Operation::Delete, &key, None);
    assert_eq!(&wal.as_bytes()[0..5], &[1, 0x02, 0x01, 0, 0]);
    let entries = WAL::from_bytes(wal.as_bytes().to_vec()).replay().unwrap();
    assert_eq!(entries[0].1, key);
}

#[test]
fn test_unknown_operation_is_an_error() {
    assert!(matches!(replay_bytes(&[2, 0, 0, 0, 0]), Err(FormatError::Operation)));
    let mut wal = WAL::new();
    wal.append(Operation::Put, b"k", Some(b"v"));
    let mut bytes = wal.as_bytes().to_vec();
    bytes.push(9);
    assert!(matches!(replay_bytes(&bytes), Err(FormatError::Operation)));
}

#[test]
fn test_truncated_record_is_an_error() {
    let mut wal = WAL::new();
    wal.append(Operation::Put, b"key", Some(b"value"));
    let bytes = wal.as_bytes().to_vec();
    for cut in 1..bytes.len() {
        assert!(matches!(replay_bytes(&bytes[..cut]), Err(FormatError::Record)), "cut at {}", cut);
    }
    assert!(replay_bytes(&bytes).is_ok());
    assert!(matches!(replay_bytes(&[1, 5, 0, 0, 0, b'a']), Err(FormatError::Record)));
    assert!(matches!(replay_bytes(&[0]), Err(FormatError::Record)));
}

#[test]
fn test_put_without_value_is_not_replayed_as_written() {
    // A put record without a value field takes what follows for its value.
    let mut wal = WAL::new();
    wal.append(Operation::Put, b"k", None);
    assert!(matches!(wal.replay(), Err(FormatError::Record)));
}
