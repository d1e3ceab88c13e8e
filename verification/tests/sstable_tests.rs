use lsm_tree::sstable::{lookup, read_entries, read_keys, write_entries};

fn pair(key: &[u8], value: &[u8]) -> (Vec<u8>, Vec<u8>) {
    (key.to_vec(), value.to_vec())
}

#[test]
fn test_sstable_layout() {
    let image = write_entries(&vec![pair(b"a", b"xy"), pair(b"bc", b"")]);
    assert_eq!(
        image,
        vec![1u8, 0, 0, 0, b'a', 2, 0, 0, 0, b'x', b'y', 2, 0, 0, 0, b'b', b'c', 0, 0, 0, 0]
    );
}

#[test]
fn test_sstable_empty() {
    let image = write_entries(&Vec::new());
    assert!(image.is_empty());
    assert!(read_entries(&image).is_empty());
    assert!(read_keys(&image).is_empty());
    assert_eq!(lookup(&image, b"k"), None);
}

#[test]
fn test_sstable_round_trip() {
    let mut entries = Vec::new();
    for i in 0..200u32 {
        let key = format!("key{:05}", i).into_bytes();
        let value = vec![(i % 251) as u8; (i as usize * 7) % 300];
        entries.push((key, value));
    }
    entries.push(pair(b"zz-binary", &[0, 255, 1, 0, 128]));
    let image = write_entries(&entries);
    assert_eq!(read_entries(&image), entries);
    let keys: Vec<Vec<u8>> = entries.iter().map(|e| e.0.clone()).collect();
    assert_eq!(read_keys(&image), keys);
    for (key, value) in &entries {
        assert_eq!(lookup(&image, key), Some(value.clone()));
    }
    assert_eq!(lookup(&image, b"key00200"), None);
}

#[test]
fn test_sstable_lookup_returns_first_match() {
    let image = write_entries(&vec![pair(b"k", b"first"), pair(b"k", b"second")]);
    assert_eq!(lookup(&image, b"k"), Some(b"first".to_vec()));
}

#[test]
fn test_sstable_truncated_image() {
    let entries = vec![pair(b"alpha", b"one"), pair(b"beta", b"two")];
    let image = write_entries(&entries);
    let first_len = 4 + 5 + 4 + 3;
    assert_eq!(image.len(), first_len + 4 + 4 + 4 + 3);

    // Cut inside the second pair: the first pair stands, the second is gone.
    for cut in first_len..image.len() {
        let partial = &image[..cut];
        assert_eq!(read_entries(partial), entries[..1].to_vec(), "cut at {}", cut);
        assert_eq!(lookup(partial, b"alpha"), Some(b"one".to_vec()));
        assert_eq!(lookup(partial, b"beta"), None);
    }
    // Cut inside the first pair: nothing is read.
    for cut in 0..first_len {
        assert!(read_entries(&image[..cut]).is_empty(), "cut at {}", cut);
    }
}

#[test]
fn test_sstable_key_scan_counts_key_with_cut_value() {
    let image = write_entries(&vec![pair(b"alpha", b"one"), pair(b"beta", b"two")]);
    let first_len = 4 + 5 + 4 + 3;
    // The second key is complete once its four bytes are there.
    let key_done = first_len + 4 + 4;
    for cut in key_done..image.len() {
        assert_eq!(
            read_keys(&image[..cut]),
            vec![b"alpha".to_vec(), b"beta".to_vec()],
            "cut at {}",
            cut
        );
    }
    for cut in first_len..key_done {
        assert_eq!(read_keys(&image[..cut]), vec![b"alpha".to_vec()], "cut at {}", cut);
    }
}
