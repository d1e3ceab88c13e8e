use lsm_tree::bloom_filter::{BloomFilter, BloomReadError};

/// Optimal filter parameters for `expected_items` keys at the target
/// false-positive rate `false_positive_rate`.
fn sizing(expected_items: usize, false_positive_rate: f64) -> (usize, usize) {
    let expected_items = expected_items.max(1);
    let false_positive_rate = false_positive_rate.clamp(0.0001, 0.5);
    let ln2_squared = std::f64::consts::LN_2 * std::f64::consts::LN_2;
    let num_bits_f64 = -(expected_items as f64) * false_positive_rate.ln() / ln2_squared;
    let num_bits = (num_bits_f64.ceil() as usize).max(8);
    let num_hashes_f64 = (num_bits as f64 / expected_items as f64) * std::f64::consts::LN_2;
    let num_hashes = (num_hashes_f64.ceil() as usize).clamp(1, 16);
    (num_bits, num_hashes)
}

fn new_filter(expected_items: usize, false_positive_rate: f64) -> BloomFilter {
    let (num_bits, num_hashes) = sizing(expected_items, false_positive_rate);
    BloomFilter::with_params(num_bits, num_hashes)
}

#[test]
fn test_basic_insert_and_query() {
    let mut bf = new_filter(100, 0.01);

    bf.insert(b"hello");
    bf.insert(b"world");
    bf.insert(b"rust");

    assert!(bf.might_contain(b"hello"), "Should find 'hello'");
    assert!(bf.might_contain(b"world"), "Should find 'world'");
    assert!(bf.might_contain(b"rust"), "Should find 'rust'");
}

#[test]
fn test_no_false_negatives() {
    let mut bf = new_filter(1000, 0.01);

    let keys: Vec<String> = (0..1000).map(|i| format!("key_{}", i)).collect();
    for key in &keys {
        bf.insert(key.as_bytes());
    }

    for key in &keys {
        assert!(
            bf.might_contain(key.as_bytes()),
            "Must find inserted key: {}",
            key
        );
    }
}

#[test]
fn test_false_positive_rate() {
    let mut bf = new_filter(1000, 0.01);

    for i in 0..1000 {
        let key = format!("inserted_{}", i);
        bf.insert(key.as_bytes());
    }

    let mut false_positives = 0;
    for i in 0..10000 {
        let key = format!("not_inserted_{}", i);
        if bf.might_contain(key.as_bytes()) {
            false_positives += 1;
        }
    }

    let fpp = false_positives as f64 / 10000.0;
    assert!(
        fpp < 0.05,
        "False positive rate {} is too high (expected < 5%)",
        fpp
    );
}

#[test]
fn test_empty_filter() {
    let bf = new_filter(100, 0.01);

    assert!(bf.is_empty());
    assert_eq!(bf.len(), 0);

    assert!(!bf.might_contain(b"any_key"));
}

#[test]
fn test_serialization() {
    let mut bf = new_filter(100, 0.01);
    bf.insert(b"key1");
    bf.insert(b"key2");
    bf.insert(b"key3");

    let bytes = bf.to_bytes();

    let bf2 = BloomFilter::from_bytes(&bytes).expect("Should deserialize");

    assert!(bf2.might_contain(b"key1"));
    assert!(bf2.might_contain(b"key2"));
    assert!(bf2.might_contain(b"key3"));

    assert_eq!(bf.num_bits(), bf2.num_bits());
    assert_eq!(bf.num_hashes(), bf2.num_hashes());
    assert_eq!(bf.len(), bf2.len());
}

#[test]
fn test_with_params() {
    let bf = BloomFilter::with_params(1024, 7);

    assert_eq!(bf.num_bits(), 1024);
    assert_eq!(bf.num_hashes(), 7);
    assert!(bf.is_empty());
}

#[test]
fn test_stats() {
    let mut bf = new_filter(100, 0.01);
    bf.insert(b"test");

    let stats = bf.stats();
    assert_eq!(stats.num_items, 1);
    let fill_ratio = stats.bits_set as f64 / stats.num_bits as f64;
    assert!(fill_ratio > 0.0);
    let k = stats.num_hashes as f64;
    let n = stats.num_items as f64;
    let m = stats.num_bits as f64;
    let estimated_fpp = (1.0 - (-k * n / m).exp()).powf(k);
    assert!(estimated_fpp >= 0.0);
}

#[test]
fn test_large_keys() {
    let mut bf = new_filter(100, 0.01);

    let large_key = vec![0u8; 10000];
    bf.insert(&large_key);
    assert!(bf.might_contain(&large_key));
}

#[test]
fn test_binary_keys() {
    let mut bf = new_filter(100, 0.01);

    let binary_key = vec![0, 1, 2, 0, 255, 128, 64, 0];
    bf.insert(&binary_key);
    assert!(bf.might_contain(&binary_key));
}

#[test]
fn test_clone() {
    let mut bf1 = new_filter(100, 0.01);
    bf1.insert(b"key1");
    bf1.insert(b"key2");

    let bf2 = bf1.clone();

    assert!(bf1.might_contain(b"key1"));
    assert!(bf2.might_contain(b"key1"));
    assert!(bf1.might_contain(b"key2"));
    assert!(bf2.might_contain(b"key2"));

    assert_eq!(bf1.len(), bf2.len());
}

#[test]
fn test_edge_case_small_filter() {
    let mut bf = new_filter(1, 0.5);
    bf.insert(b"key");
    assert!(bf.might_contain(b"key"));
}

#[test]
fn test_many_insertions() {
    let mut bf = new_filter(10000, 0.01);

    for i in 0..10000 {
        let key = format!("batch_key_{}", i);
        bf.insert(key.as_bytes());
    }

    for i in 0..10000 {
        let key = format!("batch_key_{}", i);
        assert!(bf.might_contain(key.as_bytes()));
    }

    assert_eq!(bf.len(), 10000);
}

#[test]
fn test_clone_is_independent() {
    let mut bf1 = BloomFilter::with_params(64, 3);
    let bf2 = bf1.clone();
    bf1.insert(b"hello");

    assert!(bf1.might_contain(b"hello"));
    assert!(!bf2.might_contain(b"hello"));
    assert_eq!(bf2.len(), 0);
    assert_eq!(bf2.to_bytes(), BloomFilter::with_params(64, 3).to_bytes());
}

#[test]
fn test_sizing_for_thousand_items_at_one_percent() {
    let bf = new_filter(1000, 0.01);
    assert_eq!(bf.num_bits(), 9586);
    assert_eq!(bf.num_hashes(), 7);
    assert_eq!(bf.size_bytes(), 1199);
}

#[test]
fn test_sizing_clamps_items_and_rate() {
    // Zero expected items count as one.
    assert_eq!(sizing(0, 0.01), sizing(1, 0.01));
    assert_eq!(sizing(0, 0.01), (10, 7));
    // A rate above one half counts as one half, and the bits are floored at 8.
    assert_eq!(sizing(1, 0.9), sizing(1, 0.5));
    assert_eq!(sizing(1, 0.5), (8, 6));
    // A rate below one in ten thousand counts as that.
    assert_eq!(sizing(1, 1e-9), sizing(1, 0.0001));
    assert_eq!(sizing(1, 1e-9), (20, 14));
}

#[test]
fn test_with_params_clamps() {
    let small = BloomFilter::with_params(0, 0);
    assert_eq!(small.num_bits(), 8);
    assert_eq!(small.num_hashes(), 1);
    assert_eq!(small.size_bytes(), 1);

    let seven = BloomFilter::with_params(7, 1);
    assert_eq!(seven.num_bits(), 8);

    let many = BloomFilter::with_params(9, 17);
    assert_eq!(many.num_bits(), 9);
    assert_eq!(many.num_hashes(), 16);
    assert_eq!(many.size_bytes(), 2);

    let edge = BloomFilter::with_params(8, 16);
    assert_eq!(edge.num_bits(), 8);
    assert_eq!(edge.num_hashes(), 16);
}

#[test]
fn test_smallest_filter_keeps_what_is_inserted() {
    let mut bf = BloomFilter::with_params(0, 1);
    bf.insert(b"key");
    assert!(bf.might_contain(b"key"));
    assert_eq!(bf.len(), 1);
}

#[test]
fn test_insert_sets_exactly_the_probe_positions() {
    // The probes of "hello" in 64 bits are the bits 11, 6 and 1.
    let mut bf = BloomFilter::with_params(64, 3);
    bf.insert(b"hello");
    let bytes = bf.to_bytes();
    assert_eq!(&bytes[12..], &[66u8, 8, 0, 0, 0, 0, 0, 0]);

    bf.insert(b"world");
    let bytes = bf.to_bytes();
    assert_eq!(&bytes[12..], &[70u8, 8, 2, 0, 0, 0, 8, 0]);
    assert_eq!(bf.stats().bits_set, 6);
}

#[test]
fn test_probe_positions_of_one_byte_key() {
    // The primary hash of "a" is 0xaf63dc4c8601ec8c; its probes in 16 bits
    // are the bits 12 and 5.
    let mut bf = BloomFilter::with_params(16, 2);
    bf.insert(b"a");
    assert_eq!(&bf.to_bytes()[12..], &[32u8, 16]);
}

#[test]
fn test_probe_positions_of_empty_key() {
    // The primary hash of the empty key is the offset basis; with one probe
    // in 64 bits that is bit 37.
    let mut bf = BloomFilter::with_params(64, 1);
    bf.insert(b"");
    assert_eq!(&bf.to_bytes()[12..], &[0u8, 0, 0, 0, 32, 0, 0, 0]);
    assert!(bf.might_contain(b""));
}

#[test]
fn test_might_contain_rejects_absent_keys() {
    let mut bf = BloomFilter::with_params(64, 3);
    bf.insert(b"hello");
    assert!(bf.might_contain(b"hello"));
    assert!(!bf.might_contain(b"world"));
    assert!(!bf.might_contain(b"rust"));
    assert!(!bf.might_contain(b"absent"));
}

#[test]
fn test_serialized_layout() {
    let mut bf = BloomFilter::with_params(64, 3);
    bf.insert(b"hello");
    assert_eq!(
        bf.to_bytes(),
        vec![64, 0, 0, 0, 3, 0, 0, 0, 1, 0, 0, 0, 66, 8, 0, 0, 0, 0, 0, 0]
    );

    let wide = BloomFilter::with_params(0x0102, 5);
    let bytes = wide.to_bytes();
    assert_eq!(&bytes[..12], &[2u8, 1, 0, 0, 5, 0, 0, 0, 0, 0, 0, 0]);
    assert_eq!(bytes.len(), 12 + 33);
}

#[test]
fn test_from_bytes_reads_the_header_as_it_stands() {
    let image = vec![9u8, 0, 0, 0, 200, 0, 0, 0, 7, 1, 0, 0, 0xff, 0x01, 0xaa];
    let bf = BloomFilter::from_bytes(&image).expect("long enough");
    assert_eq!(bf.num_bits(), 9);
    assert_eq!(bf.num_hashes(), 200);
    assert_eq!(bf.len(), 263);
    assert_eq!(bf.size_bytes(), 2);
    // Bytes after the bit array are not part of the filter.
    assert_eq!(&bf.to_bytes()[..], &image[..14]);
}

#[test]
fn test_from_bytes_rejects_short_input() {
    assert!(BloomFilter::from_bytes(&[]).is_none());
    assert!(BloomFilter::from_bytes(&[8, 0, 0, 0, 1, 0, 0, 0, 0, 0, 0]).is_none());
    // The header asks for one byte of bits and none follows.
    assert!(BloomFilter::from_bytes(&[8, 0, 0, 0, 1, 0, 0, 0, 0, 0, 0, 0]).is_none());
    assert!(BloomFilter::from_bytes(&[8, 0, 0, 0, 1, 0, 0, 0, 0, 0, 0, 0, 0]).is_some());
    // Nine bits need two bytes.
    assert!(BloomFilter::from_bytes(&[9, 0, 0, 0, 1, 0, 0, 0, 0, 0, 0, 0, 0]).is_none());
    // No bits need no byte.
    assert!(BloomFilter::from_bytes(&[0, 0, 0, 0, 1, 0, 0, 0, 0, 0, 0, 0]).is_some());
}

#[test]
fn test_read_from_and_write_to() {
    let mut bf = BloomFilter::with_params(64, 3);
    bf.insert(b"hello");

    let mut sink = vec![7u8, 7];
    bf.write_to(&mut sink);
    assert_eq!(&sink[..2], &[7u8, 7]);
    assert_eq!(&sink[2..], &bf.to_bytes()[..]);

    let back = BloomFilter::read_from(&sink[2..]).expect("complete");
    assert_eq!(back.to_bytes(), bf.to_bytes());
    assert!(back.might_contain(b"hello"));
    assert!(!back.might_contain(b"world"));

    match BloomFilter::read_from(&sink[2..sink.len() - 1]) {
        Err(e) => assert_eq!(e, BloomReadError::UnexpectedEof),
        Ok(_) => panic!("a truncated image must not read"),
    }
    match BloomFilter::read_from(&[1, 2, 3]) {
        Err(e) => assert_eq!(e, BloomReadError::UnexpectedEof),
        Ok(_) => panic!("a truncated header must not read"),
    }
}

#[test]
fn test_round_trip_keeps_every_answer() {
    let mut bf = new_filter(1000, 0.01);
    for i in 0..1000 {
        bf.insert(format!("key_{}", i).as_bytes());
    }
    let back = BloomFilter::from_bytes(&bf.to_bytes()).expect("Should deserialize");
    assert_eq!(back.num_bits(), bf.num_bits());
    assert_eq!(back.num_hashes(), bf.num_hashes());
    assert_eq!(back.len(), bf.len());
    for i in 0..1000 {
        assert!(back.might_contain(format!("key_{}", i).as_bytes()));
    }
    let mut false_positives = 0;
    for i in 0..10000 {
        let key = format!("absent_{}", i);
        assert_eq!(
            back.might_contain(key.as_bytes()),
            bf.might_contain(key.as_bytes())
        );
        if back.might_contain(key.as_bytes()) {
            false_positives += 1;
        }
    }
    assert!((false_positives as f64 / 10000.0) < 0.05);
}

#[test]
fn test_stats_counts() {
    let empty = BloomFilter::with_params(64, 3);
    let stats = empty.stats();
    assert_eq!(stats.num_bits, 64);
    assert_eq!(stats.num_hashes, 3);
    assert_eq!(stats.num_items, 0);
    assert_eq!(stats.size_bytes, 8);
    assert_eq!(stats.bits_set, 0);

    let mut bf = BloomFilter::with_params(64, 3);
    bf.insert(b"hello");
    let stats = bf.stats();
    assert_eq!(stats.num_items, 1);
    assert_eq!(stats.bits_set, 3);

    // Inserting the same key again counts an item and sets no new bit.
    bf.insert(b"hello");
    let stats = bf.stats();
    assert_eq!(stats.num_items, 2);
    assert_eq!(stats.bits_set, 3);
}

#[test]
fn test_filter_without_probes_admits_everything() {
    let bf = BloomFilter::from_bytes(&[8, 0, 0, 0, 0, 0, 0, 0, 0, 0, 0, 0, 0]).expect("parses");
    assert_eq!(bf.num_hashes(), 0);
    assert!(bf.might_contain(b"anything"));
}

#[test]
fn test_filter_with_no_items_rejects_every_query() {
    for (num_bits, num_hashes) in [(8, 1), (64, 3), (1024, 7), (9586, 7), (13, 16)] {
        let bf = BloomFilter::with_params(num_bits, num_hashes);
        for i in 0..500 {
            assert!(!bf.might_contain(format!("query_{}", i).as_bytes()));
        }
        assert!(!bf.might_contain(b""));
        assert_eq!(bf.stats().bits_set, 0);
    }
}
