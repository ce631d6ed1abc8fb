use lsm_tree::bloom::BloomFilter;
use lsm_tree::error::FormatError;

/// A filter sized for `expected_elements` at `false_positive_rate`.
fn new_filter(expected_elements: usize, false_positive_rate: f64) -> BloomFilter {
    let n = if expected_elements == 0 { 1 } else { expected_elements } as f64;
    let ln2 = 2.0_f64.ln();
    let size = (-(n * false_positive_rate.ln()) / (ln2 * ln2)).ceil() as usize;
    let count = ((size as f64 / n) * ln2).ceil() as usize;
    BloomFilter::with_size(size, count)
}

#[test]
fn test_bloom_filter_basic() {
    let mut filter = new_filter(100, 0.01);

    filter.insert("apple".as_bytes());
    filter.insert("banana".as_bytes());
    filter.insert("cherry".as_bytes());

    assert!(filter.might_contain("apple".as_bytes()));
    assert!(filter.might_contain("banana".as_bytes()));
    assert!(filter.might_contain("cherry".as_bytes()));

    assert!(filter.might_contain("apple".as_bytes()));

    let _not_present = filter.might_contain("dragonfruit".as_bytes());
}

#[test]
fn test_bloom_filter_serialization() {
    let mut filter = new_filter(100, 0.01);

    filter.insert("apple".as_bytes());
    filter.insert("banana".as_bytes());
    filter.insert("cherry".as_bytes());

    let bytes = filter.to_bytes();

    let restored_filter = BloomFilter::from_bytes(&bytes).unwrap();

    assert!(restored_filter.might_contain("apple".as_bytes()));
    assert!(restored_filter.might_contain("banana".as_bytes()));
    assert!(restored_filter.might_contain("cherry".as_bytes()));
}

#[test]
fn test_bloom_filter_sizes() {
    // 100 elements at a rate of 0.01: 959 bits and 7 hash functions.
    let filter = new_filter(100, 0.01);
    let bytes = filter.to_bytes();
    assert_eq!(&bytes[0..4], &959u32.to_le_bytes());
    assert_eq!(&bytes[4..8], &7u32.to_le_bytes());
    assert_eq!(bytes.len(), 8 + 120);
    assert!(bytes[8..].iter().all(|b| *b == 0));
}

#[test]
fn test_bloom_filter_round_trip_bits() {
    let mut filter = BloomFilter::with_size(20, 3);
    filter.insert(b"one");
    filter.insert(b"two");
    let bytes = filter.to_bytes();
    assert_eq!(bytes.len(), 8 + 3);
    let restored = BloomFilter::from_bytes(&bytes).unwrap();
    assert_eq!(restored.to_bytes(), bytes);
    for probe in [&b"one"[..], b"two", b"three", b"four", b""] {
        assert_eq!(restored.might_contain(probe), filter.might_contain(probe));
    }
}

#[test]
fn test_bloom_filter_packs_least_significant_first() {
    // Bits 0, 9 and 10 set: bytes 0x01, 0x06.
    let bytes = vec![11, 0, 0, 0, 0, 0, 0, 0, 0x01, 0x06];
    let filter = BloomFilter::from_bytes(&bytes).unwrap();
    assert_eq!(filter.to_bytes(), bytes);
}

#[test]
fn test_bloom_filter_short_input() {
    assert!(matches!(BloomFilter::from_bytes(&[1, 2, 3, 4, 5, 6, 7]), Err(FormatError::BloomFilter)));
    assert!(matches!(BloomFilter::from_bytes(&[]), Err(FormatError::BloomFilter)));
    assert!(BloomFilter::from_bytes(&[0, 0, 0, 0, 0, 0, 0, 0]).is_ok());
}

#[test]
fn test_bloom_filter_missing_bytes_are_zero() {
    // Sixteen bits announced, one byte present.
    let filter = BloomFilter::from_bytes(&[16, 0, 0, 0, 1, 0, 0, 0, 0xff]).unwrap();
    assert_eq!(filter.to_bytes(), vec![16, 0, 0, 0, 1, 0, 0, 0, 0xff, 0x00]);
}

#[test]
fn test_bloom_filter_without_bits_accepts() {
    let mut filter = BloomFilter::with_size(0, 3);
    assert!(filter.might_contain(b"anything"));
    filter.insert(b"anything");
    assert_eq!(filter.to_bytes(), vec![0, 0, 0, 0, 3, 0, 0, 0]);
}

#[test]
fn test_bloom_filter_rejects_before_insert() {
    let mut filter = BloomFilter::with_size(64, 2);
    assert!(!filter.might_contain(b"apple"));
    filter.insert(b"apple");
    assert!(filter.might_contain(b"apple"));
    let set: u32 = filter.to_bytes()[8..].iter().map(|b| b.count_ones()).sum();
    assert!(set >= 1 && set <= 2);
}

#[test]
fn test_format_error_messages() {
    assert_eq!(FormatError::BloomFilter.message(), "Invalid Bloom filter data");
    assert_eq!(FormatError::Operation.message(), "Invalid operation type");
    assert_eq!(FormatError::Record.message(), "Truncated log record");
    assert_eq!(FormatError::Table.message(), "Truncated table file");
}
