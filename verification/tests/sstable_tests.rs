use lsm_tree::bloom::BloomFilter;
use lsm_tree::error::FormatError;
use lsm_tree::sstable::{find_in_table, read_table, SSTable};
use lsm_tree::{Key, Value};

fn create_test_data() -> Vec<(Key, Value)> {
    vec![
        (b"key1".to_vec(), b"value1".to_vec()),
        (b"key2".to_vec(), b"value2".to_vec()),
        (b"key3".to_vec(), b"value3".to_vec()),
    ]
}

#[test]
fn test_create_new_sstable() {
    let table = SSTable::new(b"test.sst".to_vec(), None);

    assert_eq!(table.size(), 0);
}

#[test]
fn test_write_and_read() {
    let mut table = SSTable::new(b"test.sst".to_vec(), None);

    let test_data = create_test_data();
    let file = table.write(&test_data);

    assert!(table.size() > 0);

    let read_data = table.read(&file).unwrap();
    assert_eq!(read_data, test_data);
}

#[test]
fn test_size_calculation() {
    let mut table = SSTable::new(b"test.sst".to_vec(), None);

    let test_data = create_test_data();
    let file = table.write(&test_data);

    let expected_size = file.len();
    assert_eq!(table.size(), expected_size);
    // The filter for a thousand entries has 9586 bits in 1199 bytes.
    assert_eq!(expected_size, 4 + 8 + 1199 + 3 * (4 + 4 + 4 + 6));
}

#[test]
fn test_empty_sstable() {
    let mut table = SSTable::new(b"empty.sst".to_vec(), None);

    let file = table.write(&[]);
    let read_data = table.read(&file).unwrap();
    assert!(read_data.is_empty());
}

#[test]
fn test_large_values() {
    let mut table = SSTable::new(b"large.sst".to_vec(), None);

    let large_value = vec![b'x'; 1024 * 1024];
    let test_data = vec![(b"large_key".to_vec(), large_value.clone())];

    let file = table.write(&test_data);
    let read_data = table.read(&file).unwrap();

    assert_eq!(read_data[0].1, large_value);
}

#[test]
fn test_get_path() {
    let path = b"test.sst".to_vec();
    let path_clone = path.clone();
    let table = SSTable::new(path, None);

    assert_eq!(table.get_path(), &path_clone);
}

#[test]
fn test_bloom_filter() {
    let mut table = SSTable::new(b"bloom_test.sst".to_vec(), None);

    let test_data = vec![
        (b"key1".to_vec(), b"value1".to_vec()),
        (b"key2".to_vec(), b"value2".to_vec()),
        (b"key3".to_vec(), b"value3".to_vec()),
    ];

    let file = table.write(&test_data);

    assert!(table.might_contain_key(b"key1"));
    assert!(table.might_contain_key(b"key2"));
    assert!(table.might_contain_key(b"key3"));

    assert_eq!(table.get(b"key1", &file).unwrap(), Some(b"value1".to_vec()));
    assert_eq!(table.get(b"key2", &file).unwrap(), Some(b"value2".to_vec()));
    assert_eq!(table.get(b"nonexistent", &file).unwrap(), None);
}

#[test]
fn test_file_layout() {
    let mut table = SSTable::new(b"t.sst".to_vec(), None);
    let file = table.write(&[(b"a".to_vec(), b"bc".to_vec())]);
    // The filter field: its length, then 9586 bits and 7 hash functions.
    assert_eq!(&file[0..4], &1207u32.to_le_bytes());
    assert_eq!(&file[4..8], &9586u32.to_le_bytes());
    assert_eq!(&file[8..12], &7u32.to_le_bytes());
    assert_eq!(&file[1211..], &[1, 0, 0, 0, b'a', 2, 0, 0, 0, b'b', b'c']);
    let filter = BloomFilter::from_bytes(&file[4..1211]).unwrap();
    assert!(filter.might_contain(b"a"));
    let set: u32 = file[12..1211].iter().map(|b| b.count_ones()).sum();
    assert!(set >= 1 && set <= 7);
}

#[test]
fn test_filter_grows_with_the_entries() {
    let mut table = SSTable::new(b"t.sst".to_vec(), None);
    let data: Vec<(Key, Value)> =
        (0..2000u32).map(|i| (format!("{:05}", i).into_bytes(), vec![])).collect();
    let file = table.write(&data);
    // 2000 entries: 19171 bits.
    assert_eq!(&file[4..8], &19171u32.to_le_bytes());
    assert_eq!(&file[0..4], &(8u32 + 2397).to_le_bytes());
    for (key, _) in &data {
        assert!(table.might_contain_key(key));
    }
    assert_eq!(table.read(&file).unwrap(), data);
}

#[test]
fn test_order_and_duplicates_are_kept() {
    let mut table = SSTable::new(b"t.sst".to_vec(), None);
    let data = vec![
        (b"z".to_vec(), b"1".to_vec()),
        (b"a".to_vec(), b"2".to_vec()),
        (b"z".to_vec(), b"3".to_vec()),
    ];
    let file = table.write(&data);
    assert_eq!(table.read(&file).unwrap(), data);
    assert_eq!(table.get(b"z", &file).unwrap(), Some(b"1".to_vec()));
    assert_eq!(find_in_table(&file, b"a").unwrap(), Some(b"2".to_vec()));
}

#[test]
fn test_open_existing_file() {
    let mut written = SSTable::new(b"L0_1.sst".to_vec(), None);
    let file = written.write(&create_test_data());
    let opened = SSTable::new(b"L0_1.sst".to_vec(), Some(&file));
    assert_eq!(opened.size(), file.len());
    assert!(opened.might_contain_key(b"key2"));
    assert_eq!(opened.get(b"key2", &file).unwrap(), Some(b"value2".to_vec()));
    let mut misses = 0;
    for i in 0..100 {
        if !opened.might_contain_key(format!("absent{}", i).as_bytes()) {
            misses += 1;
        }
    }
    assert!(misses > 50);
}

#[test]
fn test_open_without_a_readable_filter() {
    // No filter: every key may be there.
    for bytes in [&[][..], &[1, 0][..], &[9, 0, 0, 0, 1][..], &[2, 0, 0, 0, 1, 2][..]] {
        let table = SSTable::new(b"x.sst".to_vec(), Some(bytes));
        assert_eq!(table.size(), bytes.len());
        assert!(table.might_contain_key(b"anything"));
    }
}

#[test]
fn test_truncated_table_is_an_error() {
    let mut table = SSTable::new(b"t.sst".to_vec(), None);
    let file = table.write(&create_test_data());
    let entries = file.len() - 3 * 18;
    assert_eq!(read_table(&file[..entries]).unwrap(), vec![]);
    assert_eq!(read_table(&file[..entries + 18]).unwrap().len(), 1);
    for cut in [0, 3, 100, entries - 1, entries + 1, entries + 5, entries + 17, file.len() - 1] {
        assert!(matches!(read_table(&file[..cut]), Err(FormatError::Table)), "cut at {}", cut);
    }
    assert!(matches!(table.get(b"key3", &file[..file.len() - 1]), Err(FormatError::Table)));
    // A match before the damage is found.
    assert_eq!(table.get(b"key1", &file[..file.len() - 1]).unwrap(), Some(b"value1".to_vec()));
    // A key that the filter rules out is not looked for.
    let filtered = (0..1000)
        .map(|i| format!("absent{}", i).into_bytes())
        .find(|k| !table.might_contain_key(k))
        .unwrap();
    assert_eq!(table.get(&filtered, &[]).unwrap(), None);
}
