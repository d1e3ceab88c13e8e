use lsm_tree::bloom_filter::BloomFilter;
use lsm_tree::engine::{Directory, LSMTree, TableFile};
use lsm_tree::model::OpenError;
use lsm_tree::sstable::{read_entries, read_keys, write_entries};
use lsm_tree::wal::{WALOp, WalError, WAL};

const DEFAULT_FPP: f64 = 0.01;

/// Optimal filter parameters for `expected_items` keys at the target
/// false-positive rate `false_positive_rate`.
fn sizing(expected_items: usize, false_positive_rate: f64) -> (usize, usize) {
    let expected_items = expected_items.max(1);
    let false_positive_rate = false_positive_rate.clamp(0.0001, 0.5);
    let ln2_squared = std::f64::consts::LN_2 * std::f64::consts::LN_2;
    let num_bits_f64 = -(expected_items as f64) * false_positive_rate.ln() / ln2_squared;
    let num_bits = (num_bits_f64.ceil() as usize).max(8);
    let num_hashes_f64 = (num_bits as f64 / expected_items as f64) * std::f64::consts::LN_2;
    let num_hashes = (num_hashes_f64.ceil() as usize).clamp(1, 16);
    (num_bits, num_hashes)
}

fn empty_dir() -> Directory {
    Directory { wal: Vec::new(), tables: Vec::new() }
}

fn open(dir: Directory, threshold: usize) -> LSMTree {
    let params: Vec<(usize, usize)> = dir
        .tables
        .iter()
        .map(|file| sizing(read_keys(&file.data).len().max(1), DEFAULT_FPP))
        .collect();
    LSMTree::new(dir, threshold, &params).unwrap()
}

fn put(lsm: &mut LSMTree, key: &[u8], value: &[u8]) {
    let entries = lsm.len() + if lsm.memtable_contains(key) { 0 } else { 1 };
    let (num_bits, num_hashes) = sizing(entries, DEFAULT_FPP);
    lsm.put(key.to_vec(), value.to_vec(), num_bits, num_hashes);
}

fn flush(lsm: &mut LSMTree) {
    let (num_bits, num_hashes) = sizing(lsm.len(), DEFAULT_FPP);
    lsm.flush(num_bits, num_hashes);
}

#[test]
fn lib_test_basic_put_get() {
    let mut lsm = open(empty_dir(), 1024);

    put(&mut lsm, b"key1", b"value1");
    assert_eq!(lsm.get(b"key1"), Some(b"value1".to_vec()));
}

#[test]
fn test_bloom_filter_integration() {
    let mut lsm = open(empty_dir(), 10);

    for i in 0..10 {
        let key = format!("key{}", i);
        let value = format!("value{}", i);
        put(&mut lsm, key.as_bytes(), value.as_bytes());
    }

    lsm.reset_bloom_filter_stats();

    for i in 100..200 {
        let key = format!("nonexistent{}", i);
        let _ = lsm.get(key.as_bytes());
    }

    let stats = lsm.bloom_filter_stats();
    assert!(stats.checks_negative > 0);
}

#[test]
fn main_test_basic_put_get() {
    let mut lsm = open(empty_dir(), 1024);

    put(&mut lsm, b"key1", b"value1");
    assert_eq!(lsm.get_immut(b"key1"), Some(b"value1".to_vec()));
}

#[test]
fn test_update() {
    let mut lsm = open(empty_dir(), 1024);

    put(&mut lsm, b"key1", b"value1");
    put(&mut lsm, b"key1", b"value2");
    assert_eq!(lsm.get(b"key1"), Some(b"value2".to_vec()));
}

#[test]
fn test_flush() {
    let mut lsm = open(empty_dir(), 10);

    put(&mut lsm, b"key1", b"value1");
    put(&mut lsm, b"key2", b"value2");

    assert_eq!(lsm.get(b"key1"), Some(b"value1".to_vec()));
}

#[test]
fn test_wal_recovery() {
    let dir;
    {
        let mut lsm = open(empty_dir(), 10000);
        put(&mut lsm, b"recover_key", b"recover_value");

        // The engine stops here without a flush.
        dir = lsm.directory();
        assert_eq!(lsm.sstable_count(), 0);
    }

    let mut lsm = open(dir, 10000);
    assert_eq!(lsm.get(b"recover_key"), Some(b"recover_value".to_vec()));
}

#[test]
fn test_put_two_users_and_get() {
    let mut lsm = open(empty_dir(), 1024);
    put(&mut lsm, b"user:1", b"Alice");
    put(&mut lsm, b"user:2", b"Bob");
    assert_eq!(lsm.get(b"user:1"), Some(b"Alice".to_vec()));
    assert_eq!(lsm.get(b"user:2"), Some(b"Bob".to_vec()));
    assert_eq!(lsm.get(b"user:3"), None);
}

#[test]
fn test_update_shadows_older() {
    let mut lsm = open(empty_dir(), 1024);
    put(&mut lsm, b"k", b"v1");
    put(&mut lsm, b"k", b"v2");
    flush(&mut lsm);
    assert_eq!(lsm.sstable_count(), 1);
    assert_eq!(lsm.get(b"k"), Some(b"v2".to_vec()));
    put(&mut lsm, b"k", b"v3");
    assert_eq!(lsm.get(b"k"), Some(b"v3".to_vec()));
    flush(&mut lsm);
    assert_eq!(lsm.sstable_count(), 2);
    assert_eq!(lsm.len(), 0);
    // The newest table wins.
    assert_eq!(lsm.get(b"k"), Some(b"v3".to_vec()));
    assert_eq!(lsm.read_sstable_entries(0), Some(vec![(b"k".to_vec(), b"v3".to_vec())]));
    assert_eq!(lsm.read_sstable_entries(1), Some(vec![(b"k".to_vec(), b"v2".to_vec())]));
    assert_eq!(lsm.read_sstable_entries(2), None);
}

#[test]
fn test_flush_trigger() {
    let mut lsm = open(empty_dir(), 100);
    for i in 0..20 {
        let key = format!("product:{}", i);
        let value = format!("Item {}", i);
        put(&mut lsm, key.as_bytes(), value.as_bytes());
        assert!(lsm.memtable_size() < 100);
    }
    assert!(lsm.sstable_count() >= 1);
    // The entries take 15 or 17 bytes: seven fill the first table, seven
    // the second, and the last six the third.
    assert_eq!(lsm.sstable_count(), 3);
    assert_eq!(lsm.len(), 0);
    assert_eq!(lsm.read_sstable_entries(0).map(|e| e.len()), Some(6));
    assert_eq!(lsm.read_sstable_entries(1).map(|e| e.len()), Some(7));
    assert_eq!(lsm.read_sstable_entries(2).map(|e| e.len()), Some(7));
    for i in 0..20 {
        let key = format!("product:{}", i);
        let value = format!("Item {}", i);
        assert_eq!(lsm.get(key.as_bytes()), Some(value.into_bytes()));
    }
    let dir = lsm.directory();
    assert_eq!(dir.tables.len(), 3);
    assert_eq!(
        lsm.sstable_paths(),
        vec![b"sstable_2.db".to_vec(), b"sstable_1.db".to_vec(), b"sstable_0.db".to_vec()]
    );
}

#[test]
fn test_bloom_skip_rate() {
    let mut lsm = open(empty_dir(), 10);
    for i in 0..10 {
        let key = format!("key{}", i);
        let value = format!("value{}", i);
        put(&mut lsm, key.as_bytes(), value.as_bytes());
    }
    let tables = lsm.sstable_count();
    assert_eq!(tables, 10);
    lsm.reset_bloom_filter_stats();
    assert_eq!(lsm.bloom_filter_skipped_reads(), 0);
    for i in 100..200 {
        let key = format!("nonexistent{}", i);
        assert_eq!(lsm.get(key.as_bytes()), None);
    }
    let stats = lsm.bloom_filter_stats();
    assert!(stats.checks_negative > 0);
    assert_eq!(stats.total_checks(), tables * 100);
    assert_eq!(stats.checks_negative, lsm.bloom_filter_skipped_reads());
    // Roughly the configured rate of one in a hundred; allow five.
    assert!(stats.checks_positive as f64 <= 0.05 * (tables * 100) as f64);
    assert_eq!(stats.num_filters, tables);
    assert_eq!(stats.total_items, 10);
    assert_eq!(stats.individual_stats.len(), tables);
}

#[test]
fn test_put_twice_then_get_across_a_flush() {
    // The second put fills the in-memory table, so the value is read back
    // from the table that the flush wrote.
    let mut lsm = open(empty_dir(), 12);
    put(&mut lsm, b"k", b"v1");
    assert_eq!(lsm.sstable_count(), 0);
    put(&mut lsm, b"k", b"0123456789ab");
    assert_eq!(lsm.sstable_count(), 1);
    assert_eq!(lsm.len(), 0);
    assert_eq!(lsm.memtable_size(), 0);
    assert_eq!(lsm.get(b"k"), Some(b"0123456789ab".to_vec()));
}

#[test]
fn test_flush_at_exactly_the_threshold() {
    let mut lsm = open(empty_dir(), 10);
    put(&mut lsm, b"key", b"123456");
    assert_eq!(lsm.memtable_size(), 9);
    assert_eq!(lsm.sstable_count(), 0);
    put(&mut lsm, b"key", b"1234567");
    // Ten bytes reach the threshold of ten.
    assert_eq!(lsm.sstable_count(), 1);
    assert_eq!(lsm.memtable_size(), 0);
}

#[test]
fn test_empty_flush_is_a_no_op() {
    let mut lsm = open(empty_dir(), 1024);
    flush(&mut lsm);
    assert_eq!(lsm.sstable_count(), 0);
    assert_eq!(lsm.sstable_counter(), 0);
    assert!(lsm.is_empty());
    assert!(lsm.directory().tables.is_empty());

    put(&mut lsm, b"k", b"v");
    flush(&mut lsm);
    assert_eq!(lsm.sstable_count(), 1);
    flush(&mut lsm);
    assert_eq!(lsm.sstable_count(), 1);
    assert_eq!(lsm.sstable_counter(), 1);
}

#[test]
fn test_flush_outcome() {
    let mut lsm = open(empty_dir(), 1024);
    put(&mut lsm, b"b", b"2");
    put(&mut lsm, b"a", b"1");
    put(&mut lsm, b"c", b"3");
    assert!(!lsm.wal_bytes().is_empty());
    flush(&mut lsm);

    assert_eq!(lsm.len(), 0);
    assert_eq!(lsm.memtable_size(), 0);
    assert!(lsm.wal_bytes().is_empty());
    assert_eq!(lsm.sstable_count(), 1);
    assert_eq!(lsm.sstable_index(0), Some(0));
    assert_eq!(lsm.sstable_index(1), None);
    let expected = vec![
        (b"a".to_vec(), b"1".to_vec()),
        (b"b".to_vec(), b"2".to_vec()),
        (b"c".to_vec(), b"3".to_vec()),
    ];
    assert_eq!(lsm.read_sstable_entries(0), Some(expected.clone()));
    assert_eq!(lsm.sstable_data(0), Some(&write_entries(&expected)[..]));
    assert_eq!(lsm.sstable_data(1), None);

    // The filter is sized as asked and holds the three keys.
    let filter = lsm.bloom_filter(0).expect("one filter for the one table");
    assert_eq!((filter.num_bits(), filter.num_hashes()), sizing(3, DEFAULT_FPP));
    assert_eq!(filter.len(), 3);
    let mut same = BloomFilter::with_params(29, 7);
    same.insert(b"a");
    same.insert(b"b");
    same.insert(b"c");
    assert_eq!(filter.to_bytes(), same.to_bytes());
    assert!(lsm.bloom_filter(1).is_none());
}

#[test]
fn test_put_is_logged_before_it_is_applied() {
    let mut lsm = open(empty_dir(), 1024);
    put(&mut lsm, b"k1", b"v1");
    put(&mut lsm, b"k2", b"v2");
    let mut expected = WAL::encode_entry(WALOp::Put, b"k1", b"v1");
    expected.extend(WAL::encode_entry(WALOp::Put, b"k2", b"v2"));
    assert_eq!(lsm.wal_bytes(), &expected[..]);
    assert_eq!(lsm.memtable_keys(), vec![b"k1".to_vec(), b"k2".to_vec()]);
    assert_eq!(
        lsm.memtable_entries(),
        vec![(b"k1".to_vec(), b"v1".to_vec()), (b"k2".to_vec(), b"v2".to_vec())]
    );
    assert_eq!(lsm.memtable_size(), 8);
    assert_eq!(lsm.memtable_threshold(), 1024);
}

#[test]
fn test_get_on_empty_directory() {
    let mut lsm = open(empty_dir(), 1024);
    assert!(lsm.is_empty());
    assert_eq!(lsm.len(), 0);
    assert_eq!(lsm.sstable_count(), 0);
    assert_eq!(lsm.get(b"anything"), None);
    assert_eq!(lsm.get(b""), None);
    assert_eq!(lsm.get_immut(b"anything"), None);
    assert_eq!(lsm.bloom_filter_stats().total_checks(), 0);
}

#[test]
fn test_zero_threshold_is_refused() {
    match LSMTree::new(empty_dir(), 0, &Vec::new()) {
        Err(e) => assert_eq!(e, OpenError::InvalidThreshold),
        Ok(_) => panic!("a threshold of zero must be refused"),
    }
    assert!(LSMTree::new(empty_dir(), 1, &Vec::new()).is_ok());
}

#[test]
fn test_corrupt_log_fails_the_opening() {
    let dir = Directory { wal: vec![7, 0, 0], tables: Vec::new() };
    match LSMTree::new(dir, 1024, &Vec::new()) {
        Err(e) => assert_eq!(e, OpenError::Log(WalError::InvalidOp(7))),
        Ok(_) => panic!("an unknown operation byte must fail the opening"),
    }
    let mut image = WAL::encode_entry(WALOp::Put, b"key", b"value");
    image.pop();
    let dir = Directory { wal: image, tables: Vec::new() };
    match LSMTree::new(dir, 1024, &Vec::new()) {
        Err(e) => assert_eq!(e, OpenError::Log(WalError::UnexpectedEof)),
        Ok(_) => panic!("a record cut short must fail the opening"),
    }
}

#[test]
fn test_replay_applies_puts_and_deletes_in_order() {
    let mut wal = WAL::new(Vec::new());
    wal.append_put(b"a", b"1");
    wal.append_put(b"b", b"22");
    wal.append_put(b"a", b"333");
    wal.append_delete(b"b");
    wal.append_delete(b"missing");
    wal.append_put(b"c", b"");
    let dir = Directory { wal: wal.as_bytes().to_vec(), tables: Vec::new() };
    let mut lsm = open(dir, 1024);
    assert_eq!(
        lsm.memtable_entries(),
        vec![(b"a".to_vec(), b"333".to_vec()), (b"c".to_vec(), b"".to_vec())]
    );
    assert_eq!(lsm.memtable_size(), 5);
    assert_eq!(lsm.get(b"a"), Some(b"333".to_vec()));
    assert_eq!(lsm.get(b"b"), None);
    assert_eq!(lsm.get(b"c"), Some(Vec::new()));
    // The log is kept as it is.
    assert_eq!(lsm.wal_bytes(), wal.as_bytes());
}

#[test]
fn test_recovery_after_flush() {
    let dir;
    {
        let mut lsm = open(empty_dir(), 1024);
        put(&mut lsm, b"k", b"v");
        flush(&mut lsm);
        put(&mut lsm, b"later", b"unflushed");
        dir = lsm.directory();
    }
    assert_eq!(dir.tables.len(), 1);
    assert!(dir.tables[0].bloom.is_some());
    let mut lsm = open(dir, 1024);
    assert_eq!(lsm.sstable_count(), 1);
    assert_eq!(lsm.sstable_counter(), 1);
    assert_eq!(lsm.get(b"k"), Some(b"v".to_vec()));
    assert_eq!(lsm.get(b"later"), Some(b"unflushed".to_vec()));
    assert_eq!(lsm.get(b"absent"), None);
    assert_eq!(lsm.len(), 1);
}

#[test]
fn test_reopening_gives_the_same_state() {
    let mut lsm = open(empty_dir(), 64);
    for i in 0..50 {
        let key = format!("key{}", i % 17);
        let value = format!("value{}", i);
        put(&mut lsm, key.as_bytes(), value.as_bytes());
    }
    let dir = lsm.directory();
    let mut again = open(lsm.directory(), 64);
    assert_eq!(again.sstable_count(), lsm.sstable_count());
    assert_eq!(again.sstable_counter(), lsm.sstable_counter());
    assert_eq!(again.memtable_entries(), lsm.memtable_entries());
    assert_eq!(again.memtable_size(), lsm.memtable_size());
    assert_eq!(again.wal_bytes(), lsm.wal_bytes());
    for i in 0..20 {
        let key = format!("key{}", i);
        assert_eq!(again.get(key.as_bytes()), lsm.get(key.as_bytes()));
    }
    assert_eq!(again.directory(), dir);
}

#[test]
fn test_tables_are_ordered_newest_first() {
    let table = |index: usize, value: &[u8]| TableFile {
        index,
        data: write_entries(&vec![(b"k".to_vec(), value.to_vec())]),
        bloom: None,
    };
    let dir = Directory {
        wal: Vec::new(),
        tables: vec![table(1, b"one"), table(10, b"ten"), table(0, b"zero"), table(2, b"two")],
    };
    let mut lsm = open(dir, 1024);
    assert_eq!(lsm.sstable_count(), 4);
    assert_eq!(lsm.sstable_index(0), Some(10));
    assert_eq!(lsm.sstable_index(1), Some(2));
    assert_eq!(lsm.sstable_index(2), Some(1));
    assert_eq!(lsm.sstable_index(3), Some(0));
    assert_eq!(lsm.sstable_counter(), 11);
    assert_eq!(lsm.get(b"k"), Some(b"ten".to_vec()));
    put(&mut lsm, b"k", b"new");
    flush(&mut lsm);
    assert_eq!(lsm.sstable_index(0), Some(11));
    assert_eq!(lsm.sstable_counter(), 12);
    assert_eq!(lsm.get(b"k"), Some(b"new".to_vec()));
}

#[test]
fn test_missing_filter_is_rebuilt() {
    let entries = vec![
        (b"a".to_vec(), b"1".to_vec()),
        (b"b".to_vec(), b"2".to_vec()),
        (b"c".to_vec(), b"3".to_vec()),
    ];
    let data = write_entries(&entries);
    let dir = Directory {
        wal: Vec::new(),
        tables: vec![TableFile { index: 4, data: data.clone(), bloom: None }],
    };
    let mut lsm = open(dir, 1024);
    let filter = lsm.bloom_filter(0).expect("rebuilt");
    assert_eq!((filter.num_bits(), filter.num_hashes()), sizing(3, DEFAULT_FPP));
    assert_eq!(filter.len(), 3);
    assert_eq!(filter.to_bytes(), LSMTree::rebuild_bloom_filter(&data, 29, 7).to_bytes());
    assert_eq!(lsm.get(b"b"), Some(b"2".to_vec()));
    // The rebuilt filter is part of the directory from now on.
    let dir = lsm.directory();
    assert_eq!(dir.tables[0].bloom, Some(filter_bytes(&data, 29, 7)));
}

fn filter_bytes(data: &[u8], num_bits: usize, num_hashes: usize) -> Vec<u8> {
    LSMTree::rebuild_bloom_filter(data, num_bits, num_hashes).to_bytes()
}

#[test]
fn test_unusable_filter_is_rebuilt() {
    let data = write_entries(&vec![(b"a".to_vec(), b"1".to_vec())]);
    // Too short to parse.
    let short = vec![8u8, 0, 0, 0, 1, 0];
    // Parses, but addresses no bit.
    let no_bits = vec![0u8, 0, 0, 0, 3, 0, 0, 0, 1, 0, 0, 0];
    for image in [short, no_bits] {
        assert!(LSMTree::load_bloom_filter(&image).is_none());
        let dir = Directory {
            wal: Vec::new(),
            tables: vec![TableFile { index: 0, data: data.clone(), bloom: Some(image) }],
        };
        let mut lsm = open(dir, 1024);
        assert_eq!(lsm.bloom_filter(0).unwrap().to_bytes(), filter_bytes(&data, 10, 7));
        assert_eq!(lsm.get(b"a"), Some(b"1".to_vec()));
    }
}

#[test]
fn test_filter_that_parses_is_loaded_as_it_stands() {
    let data = write_entries(&vec![(b"a".to_vec(), b"1".to_vec())]);
    // An empty filter: it rules every key out, so the table is never read.
    let blind = BloomFilter::with_params(64, 3).to_bytes();
    assert!(LSMTree::load_bloom_filter(&blind).is_some());
    let dir = Directory {
        wal: Vec::new(),
        tables: vec![TableFile { index: 0, data, bloom: Some(blind.clone()) }],
    };
    let mut lsm = open(dir, 1024);
    assert_eq!(lsm.bloom_filter(0).unwrap().to_bytes(), blind);
    assert_eq!(lsm.get(b"a"), None);
    assert_eq!(lsm.bloom_filter_skipped_reads(), 1);
}

#[test]
fn test_rebuild_counts_key_whose_value_is_cut() {
    let data = write_entries(&vec![
        (b"a".to_vec(), b"1".to_vec()),
        (b"b".to_vec(), b"22".to_vec()),
    ]);
    let cut = &data[..data.len() - 1];
    assert_eq!(read_entries(cut).len(), 1);
    let filter = LSMTree::rebuild_bloom_filter(cut, 64, 3);
    assert_eq!(filter.len(), 2);
    assert!(filter.might_contain(b"a"));
    assert!(filter.might_contain(b"b"));
}

#[test]
fn test_read_from_sstable() {
    let data = write_entries(&vec![
        (b"a".to_vec(), b"1".to_vec()),
        (b"b".to_vec(), b"22".to_vec()),
    ]);
    assert_eq!(LSMTree::read_from_sstable(&data, b"a"), Some(b"1".to_vec()));
    assert_eq!(LSMTree::read_from_sstable(&data, b"b"), Some(b"22".to_vec()));
    assert_eq!(LSMTree::read_from_sstable(&data, b"c"), None);
    assert_eq!(LSMTree::read_from_sstable(&[], b"a"), None);
}

#[test]
fn test_get_counts_filter_checks() {
    let mut lsm = open(empty_dir(), 1024);
    put(&mut lsm, b"old", b"1");
    flush(&mut lsm);
    put(&mut lsm, b"new", b"2");
    flush(&mut lsm);
    put(&mut lsm, b"mem", b"3");
    lsm.reset_bloom_filter_stats();

    // Found in the in-memory table: no filter is checked.
    assert_eq!(lsm.get(b"mem"), Some(b"3".to_vec()));
    assert_eq!(lsm.bloom_filter_stats().total_checks(), 0);

    // Found in the newest table: one filter admits.
    assert_eq!(lsm.get(b"new"), Some(b"2".to_vec()));
    let stats = lsm.bloom_filter_stats();
    assert_eq!((stats.checks_negative, stats.checks_positive), (0, 1));

    // The reading that does not count leaves the counters alone.
    assert_eq!(lsm.get_immut(b"old"), Some(b"1".to_vec()));
    assert_eq!(lsm.bloom_filter_stats().total_checks(), 1);

    lsm.reset_bloom_filter_stats();
    assert_eq!(lsm.get(b"old"), Some(b"1".to_vec()));
    let stats = lsm.bloom_filter_stats();
    assert_eq!(stats.checks_positive, 1 + (1 - stats.checks_negative));
    assert_eq!(stats.total_checks(), 2);
}

#[test]
fn test_many_keys_survive_flushes_and_reopening() {
    let mut lsm = open(empty_dir(), 256);
    let mut expected = std::collections::BTreeMap::new();
    let mut seed: u32 = 99;
    for step in 0..600u32 {
        seed = seed.wrapping_mul(1664525).wrapping_add(1013904223);
        let key = format!("k{}", (seed >> 16) % 150).into_bytes();
        let value = format!("v{}-{}", step, seed % 1000).into_bytes();
        put(&mut lsm, &key, &value);
        expected.insert(key, value);
        if step % 97 == 0 {
            lsm = open(lsm.directory(), 256);
        }
    }
    assert!(lsm.sstable_count() > 5);
    for (key, value) in &expected {
        assert_eq!(lsm.get(key), Some(value.clone()));
        assert_eq!(lsm.get_immut(key), Some(value.clone()));
    }
    assert_eq!(lsm.get(b"k150"), None);
}

#[test]
fn test_empty_key_and_empty_value() {
    let mut lsm = open(empty_dir(), 1024);
    put(&mut lsm, b"", b"empty key");
    put(&mut lsm, b"empty value", b"");
    assert_eq!(lsm.get(b""), Some(b"empty key".to_vec()));
    assert_eq!(lsm.get(b"empty value"), Some(Vec::new()));
    flush(&mut lsm);
    assert_eq!(lsm.get(b""), Some(b"empty key".to_vec()));
    assert_eq!(lsm.get(b"empty value"), Some(Vec::new()));
}

#[test]
fn test_lost_filter_files_change_no_answer() {
    let mut lsm = open(empty_dir(), 64);
    for i in 0..40 {
        let key = format!("key{}", i % 13);
        let value = format!("value{}", i);
        put(&mut lsm, key.as_bytes(), value.as_bytes());
    }
    assert!(lsm.sstable_count() > 2);
    let mut dir = lsm.directory();
    for (i, file) in dir.tables.iter_mut().enumerate() {
        // One filter file is gone, the next is cut short, and so on.
        file.bloom = if i % 2 == 0 { None } else { Some(vec![1, 2, 3]) };
    }
    let mut again = open(dir, 64);
    for i in 0..15 {
        let key = format!("key{}", i);
        assert_eq!(again.get(key.as_bytes()), lsm.get(key.as_bytes()));
    }
}

#[test]
fn test_log_left_behind_after_flush_changes_no_answer() {
    let mut lsm = open(empty_dir(), 1024);
    put(&mut lsm, b"old", b"1");
    flush(&mut lsm);
    put(&mut lsm, b"a", b"first");
    put(&mut lsm, b"b", b"2");
    put(&mut lsm, b"a", b"second");
    let log = lsm.wal_bytes().to_vec();
    flush(&mut lsm);
    assert!(lsm.wal_bytes().is_empty());

    // The stop came after the table was written and before the log was
    // truncated.
    let mut dir = lsm.directory();
    dir.wal = log;
    let mut again = open(dir, 1024);
    assert_eq!(again.len(), 2);
    assert_eq!(again.sstable_count(), 2);
    for key in [&b"old"[..], b"a", b"b", b"absent"] {
        assert_eq!(again.get(key), lsm.get(key));
    }
    assert_eq!(again.get(b"a"), Some(b"second".to_vec()));
}

#[test]
fn test_store_and_pending_table() {
    let mut lsm = open(empty_dir(), 20);
    assert!(lsm.pending_table(64, 3).is_none());
    assert!(!lsm.store(b"key1".to_vec(), b"value1".to_vec()));
    assert!(lsm.store(b"key2".to_vec(), b"value2".to_vec()));
    // Nothing is flushed until the flush is asked for.
    assert_eq!(lsm.sstable_count(), 0);
    assert_eq!(lsm.len(), 2);
    assert_eq!(lsm.memtable_size(), 20);

    let pending = lsm.pending_table(64, 3).expect("two entries are waiting");
    assert_eq!(pending.index, 0);
    assert_eq!(lsm.sstable_count(), 0);
    lsm.flush(64, 3);
    assert_eq!(lsm.sstable_data(0), Some(&pending.data[..]));
    assert_eq!(Some(lsm.bloom_filter(0).unwrap().to_bytes()), pending.bloom);
    assert_eq!(lsm.get(b"key1"), Some(b"value1".to_vec()));
    assert_eq!(lsm.get(b"key2"), Some(b"value2".to_vec()));
}
