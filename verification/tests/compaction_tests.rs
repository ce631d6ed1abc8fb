use lsm_tree::naming::{format_table_name, read_table_name};
use lsm_tree::sstable::compaction::CompactionManager;
use lsm_tree::sstable::SSTable;
use lsm_tree::{Key, Value};

fn entry(key: &str, value: &str) -> (Key, Value) {
    (key.as_bytes().to_vec(), value.as_bytes().to_vec())
}

fn table_of_size(size: usize) -> SSTable {
    SSTable::new(b"L1_0.sst".to_vec(), Some(&vec![0u8; size]))
}

#[test]
fn test_level_zero_compacts_at_four_files() {
    let manager = CompactionManager::new(4, 1024 * 1024);
    let mut tables = Vec::new();
    for count in 0..6 {
        assert_eq!(manager.should_compact(0, &tables), count >= 4);
        tables.push(table_of_size(10 * 1024 * 1024));
    }
    let small: Vec<SSTable> = (0..4).map(|_| table_of_size(0)).collect();
    assert!(manager.should_compact(0, &small));
}

#[test]
fn test_higher_levels_compact_by_size() {
    let manager = CompactionManager::new(4, 1024 * 1024);
    let mib = 1024 * 1024;
    // Level 1: 4 MiB.
    assert!(!manager.should_compact(1, &[]));
    assert!(!manager.should_compact(1, &[table_of_size(4 * mib - 1)]));
    assert!(manager.should_compact(1, &[table_of_size(4 * mib)]));
    assert!(manager.should_compact(1, &[table_of_size(3 * mib), table_of_size(mib)]));
    assert!(!manager.should_compact(1, &[table_of_size(3 * mib), table_of_size(mib - 1)]));
    let many: Vec<SSTable> = (0..10).map(|_| table_of_size(1000)).collect();
    assert!(!manager.should_compact(1, &many));
    // Level 2: 16 MiB.
    assert!(!manager.should_compact(2, &[table_of_size(16 * mib - 1)]));
    assert!(manager.should_compact(2, &[table_of_size(16 * mib)]));
}

#[test]
fn test_thresholds_beyond_any_size() {
    let manager = CompactionManager::new(4, 1024 * 1024);
    let tables = vec![table_of_size(1 << 20), table_of_size(1 << 20)];
    assert!(!manager.should_compact(60, &tables));
    assert!(!manager.should_compact(usize::MAX, &tables));
    let one = CompactionManager::new(1, 100);
    assert!(one.should_compact(usize::MAX, &[table_of_size(100)]));
    assert!(!one.should_compact(usize::MAX, &[table_of_size(99)]));
    let zero = CompactionManager::new(0, 100);
    assert!(zero.should_compact(3, &[]));
    let none = CompactionManager::new(4, 0);
    assert!(none.should_compact(7, &[]));
}

#[test]
fn test_compact_keeps_the_newest_value() {
    let manager = CompactionManager::new(4, 1024 * 1024);
    let oldest = vec![entry("a", "1"), entry("k", "v1"), entry("z", "old")];
    let middle = vec![entry("b", "2"), entry("k", "v2")];
    let newest = vec![entry("c", "3"), entry("z", "new")];
    let merged = manager.compact(&[oldest, middle, newest]);
    assert_eq!(
        merged,
        vec![entry("a", "1"), entry("b", "2"), entry("c", "3"), entry("k", "v2"), entry("z", "new")]
    );
}

#[test]
fn test_compact_sorts_and_takes_the_first_of_a_table() {
    let manager = CompactionManager::new(4, 1024 * 1024);
    let unsorted = vec![entry("m", "first"), entry("b", "x"), entry("m", "second")];
    assert_eq!(manager.compact(&[unsorted]), vec![entry("b", "x"), entry("m", "first")]);
    assert_eq!(manager.compact(&[]), vec![]);
    assert_eq!(manager.compact(&[vec![], vec![]]), vec![]);
}

#[test]
fn test_table_names() {
    assert_eq!(format_table_name(0, 0), b"L0_0.sst".to_vec());
    assert_eq!(format_table_name(3, 1207), b"L3_1207.sst".to_vec());
    assert_eq!(
        format_table_name(10, u64::MAX),
        b"L10_18446744073709551615.sst".to_vec()
    );
    assert_eq!(read_table_name(b"L0_0.sst"), Some((0, 0)));
    assert_eq!(read_table_name(b"L3_1207.sst"), Some((3, 1207)));
    assert_eq!(read_table_name(b"L007_0042.sst"), Some((7, 42)));
    assert_eq!(read_table_name(b"L+1_+2.sst"), Some((1, 2)));
    assert_eq!(
        read_table_name(b"L1_18446744073709551615.sst"),
        Some((1, u64::MAX))
    );
    for level in [0usize, 9, 10, 99, 100, 12345] {
        for seq in [0u64, 1, 9, 10, 11, 1000, u64::MAX - 1] {
            assert_eq!(read_table_name(&format_table_name(level, seq)), Some((level, seq)));
        }
    }
}

#[test]
fn test_malformed_table_names() {
    for name in [
        &b""[..],
        b".sst",
        b"L.sst",
        b"L_.sst",
        b"L0_.sst",
        b"L_0.sst",
        b"L0.sst",
        b"l0_1.sst",
        b"L0_1.sstx",
        b"L0_1.ss",
        b"L0_1",
        b"L0_1_2.sst",
        b"L0__1.sst",
        b"L-0_1.sst",
        b"L0_-1.sst",
        b"L+_1.sst",
        b"L0_1.5.sst",
        b"L0 _1.sst",
        b"L0_1 .sst",
        b"L0_18446744073709551616.sst",
        b"L0_99999999999999999999999.sst",
        b"compact_1700000000.sst",
        b"wal",
        b"xL0_1.sst",
    ] {
        assert_eq!(read_table_name(name), None, "{:?}", String::from_utf8_lossy(name));
    }
}
