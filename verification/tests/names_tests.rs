use lsm_tree::names::{bloom_file_name, parse_sstable_name, sstable_file_name, wal_file_name};

#[test]
fn test_file_names() {
    assert_eq!(wal_file_name(), b"wal.log".to_vec());
    assert_eq!(sstable_file_name(0), b"sstable_0.db".to_vec());
    assert_eq!(sstable_file_name(7), b"sstable_7.db".to_vec());
    assert_eq!(sstable_file_name(10), b"sstable_10.db".to_vec());
    assert_eq!(sstable_file_name(1234567890), b"sstable_1234567890.db".to_vec());
    assert_eq!(bloom_file_name(0), b"sstable_0.bloom".to_vec());
    assert_eq!(bloom_file_name(42), b"sstable_42.bloom".to_vec());
    assert_eq!(
        sstable_file_name(usize::MAX),
        format!("sstable_{}.db", usize::MAX).into_bytes()
    );
}

#[test]
fn test_parse_table_names() {
    assert_eq!(parse_sstable_name(b"sstable_0.db"), Some(0));
    assert_eq!(parse_sstable_name(b"sstable_7.db"), Some(7));
    assert_eq!(parse_sstable_name(b"sstable_123.db"), Some(123));
    // Leading zeros and a plus sign are read.
    assert_eq!(parse_sstable_name(b"sstable_007.db"), Some(7));
    assert_eq!(parse_sstable_name(b"sstable_+5.db"), Some(5));
    assert_eq!(
        parse_sstable_name(format!("sstable_{}.db", usize::MAX).as_bytes()),
        Some(usize::MAX)
    );
}

#[test]
fn test_parse_rejects_other_names() {
    assert_eq!(parse_sstable_name(b""), None);
    assert_eq!(parse_sstable_name(b"wal.log"), None);
    assert_eq!(parse_sstable_name(b"sstable_.db"), None);
    assert_eq!(parse_sstable_name(b"sstable_+.db"), None);
    assert_eq!(parse_sstable_name(b"sstable_-1.db"), None);
    assert_eq!(parse_sstable_name(b"sstable_++1.db"), None);
    assert_eq!(parse_sstable_name(b"sstable_1+.db"), None);
    assert_eq!(parse_sstable_name(b"sstable_1a.db"), None);
    assert_eq!(parse_sstable_name(b"sstable_ 1.db"), None);
    assert_eq!(parse_sstable_name(b"sstable_1.bloom"), None);
    assert_eq!(parse_sstable_name(b"sstable_1.dbx"), None);
    assert_eq!(parse_sstable_name(b"xsstable_1.db"), None);
    assert_eq!(parse_sstable_name(b"SSTABLE_1.db"), None);
    assert_eq!(parse_sstable_name(b"sstable_1.DB"), None);
    assert_eq!(parse_sstable_name(b"sstable1.db"), None);
    // A number that does not fit the machine word.
    assert_eq!(parse_sstable_name(b"sstable_99999999999999999999999999.db"), None);
    let over = format!("sstable_{}0.db", usize::MAX);
    assert_eq!(parse_sstable_name(over.as_bytes()), None);
    let just_over = format!("sstable_{}.db", usize::MAX as u128 + 1);
    assert_eq!(parse_sstable_name(just_over.as_bytes()), None);
}

#[test]
fn test_names_round_trip() {
    for n in [0usize, 1, 9, 10, 11, 99, 100, 101, 65535, 65536, usize::MAX - 1, usize::MAX] {
        assert_eq!(parse_sstable_name(&sstable_file_name(n)), Some(n));
        assert_eq!(parse_sstable_name(&bloom_file_name(n)), None);
    }
}
