use minibitcask::store::{MiniBitcask, ScanBound};
use minibitcask::Error;

fn collect_all(store: &MiniBitcask) -> Vec<(Vec<u8>, Vec<u8>)> {
    let mut it = store.scan(&ScanBound::Unbounded, &ScanBound::Unbounded);
    let mut out = Vec::new();
    while let Some(kv) = it.next() {
        out.push(kv);
    }
    out
}

#[test]
fn test_log_read_write() {
    let mut eng = MiniBitcask::new(Vec::new()).unwrap();
    eng.set(b"a", b"val1".to_vec()).unwrap();
    eng.set(b"b", b"val2".to_vec()).unwrap();
    eng.set(b"c", b"val3".to_vec()).unwrap();

    // rewrite
    eng.set(b"a", b"val5".to_vec()).unwrap();
    // delete
    eng.delete(b"c").unwrap();

    let rebuilt = MiniBitcask::new(eng.log_data().clone()).unwrap();
    let entries = collect_all(&rebuilt);
    assert_eq!(2, entries.len());
    assert_eq!(entries[0], (b"a".to_vec(), b"val5".to_vec()));
    assert_eq!(entries[1], (b"b".to_vec(), b"val2".to_vec()));
}

#[test]
fn test_log_reopen() {
    let mut eng = MiniBitcask::new(Vec::new()).unwrap();
    eng.set(b"a", b"val1".to_vec()).unwrap();
    eng.set(b"b", b"val2".to_vec()).unwrap();
    eng.set(b"c", b"val3".to_vec()).unwrap();
    eng.set(b"d", b"val4".to_vec()).unwrap();
    eng.delete(b"d").unwrap();

    let log = eng.log_data().clone();
    drop(eng);

    let eng = MiniBitcask::new(log).unwrap();
    let entries = collect_all(&eng);
    assert_eq!(3, entries.len());
    let keys: Vec<Vec<u8>> = entries.iter().map(|e| e.0.clone()).collect();
    assert_eq!(keys, vec![b"a".to_vec(), b"b".to_vec(), b"c".to_vec()]);
}

#[test]
fn test_point_opt() {
    let mut eng = MiniBitcask::new(Vec::new()).unwrap();

    assert_eq!(eng.get(b"not exist").unwrap(), None);

    eng.set(b"aa", vec![1, 2, 3, 4]).unwrap();
    assert_eq!(eng.get(b"aa").unwrap(), Some(vec![1, 2, 3, 4]));

    eng.set(b"aa", vec![5, 6, 7, 8]).unwrap();
    assert_eq!(eng.get(b"aa").unwrap(), Some(vec![5, 6, 7, 8]));

    eng.delete(b"aa").unwrap();
    assert_eq!(eng.get(b"aa").unwrap(), None);

    assert_eq!(eng.get(b"").unwrap(), None);
    eng.set(b"", vec![]).unwrap();
    assert_eq!(eng.get(b"").unwrap(), Some(vec![]));

    eng.set(b"cc", vec![5, 6, 7, 8]).unwrap();
    assert_eq!(eng.get(b"cc").unwrap(), Some(vec![5, 6, 7, 8]));
}

#[test]
fn test_scan() {
    let mut eng = MiniBitcask::new(Vec::new()).unwrap();

    eng.set(b"nnaes", b"value1".to_vec()).unwrap();
    eng.set(b"amhue", b"value2".to_vec()).unwrap();
    eng.set(b"meeae", b"value3".to_vec()).unwrap();
    eng.set(b"uujeh", b"value4".to_vec()).unwrap();
    eng.set(b"anehe", b"value5".to_vec()).unwrap();

    let start = ScanBound::Included(b"a".to_vec());
    let end = ScanBound::Excluded(b"e".to_vec());

    let mut iter = eng.scan(&start, &end);
    let (key1, _) = iter.next().expect("no value founded");
    assert_eq!(key1, b"amhue".to_vec());

    let (key2, _) = iter.next().expect("no value founded");
    assert_eq!(key2, b"anehe".to_vec());
    drop(iter);

    let start = ScanBound::Included(b"b".to_vec());
    let end = ScanBound::Excluded(b"z".to_vec());
    let mut iter2 = eng.scan(&start, &end);

    let (key3, _) = iter2.next_back().expect("no value founded");
    assert_eq!(key3, b"uujeh".to_vec());

    let (key4, _) = iter2.next_back().expect("no value founded");
    assert_eq!(key4, b"nnaes".to_vec());

    let (key5, _) = iter2.next_back().expect("no value founded");
    assert_eq!(key5, b"meeae".to_vec());
}

#[test]
fn test_scan_prefix() {
    let mut eng = MiniBitcask::new(Vec::new()).unwrap();

    eng.set(b"ccnaes", b"value1".to_vec()).unwrap();
    eng.set(b"camhue", b"value2".to_vec()).unwrap();
    eng.set(b"deeae", b"value3".to_vec()).unwrap();
    eng.set(b"eeujeh", b"value4".to_vec()).unwrap();
    eng.set(b"canehe", b"value5".to_vec()).unwrap();
    eng.set(b"aanehe", b"value6".to_vec()).unwrap();

    let prefix = b"ca";
    let mut iter = eng.scan_prefix(prefix);
    let (key1, _) = iter.next().unwrap();
    assert_eq!(key1, b"camhue".to_vec());
    let (key2, _) = iter.next().unwrap();
    assert_eq!(key2, b"canehe".to_vec());
    assert_eq!(iter.next(), None);
}

#[test]
fn record_bytes_exact_layout() {
    let mut eng = MiniBitcask::new(Vec::new()).unwrap();
    eng.set(b"a", b"val1".to_vec()).unwrap();
    // 4-byte big-endian key length, 4-byte big-endian value length, key,
    // value.
    assert_eq!(
        eng.log_data().as_slice(),
        &[0, 0, 0, 1, 0, 0, 0, 4, b'a', b'v', b'a', b'l', b'1'][..]
    );
    eng.delete(b"a").unwrap();
    // A tombstone writes the all-ones value-length field and no value.
    assert_eq!(
        &eng.log_data()[13..],
        &[0, 0, 0, 1, 0xFF, 0xFF, 0xFF, 0xFF, b'a'][..]
    );
}

#[test]
fn empty_key_and_value_record() {
    let mut eng = MiniBitcask::new(Vec::new()).unwrap();
    eng.set(b"", Vec::new()).unwrap();
    assert_eq!(eng.log_data().as_slice(), &[0, 0, 0, 0, 0, 0, 0, 0][..]);
    assert_eq!(eng.get(b"").unwrap(), Some(Vec::new()));
}

#[test]
fn delete_is_idempotent() {
    let mut eng = MiniBitcask::new(Vec::new()).unwrap();
    eng.set(b"k", b"v".to_vec()).unwrap();
    eng.delete(b"k").unwrap();
    eng.delete(b"k").unwrap();
    assert_eq!(eng.get(b"k").unwrap(), None);
    // Deleting a missing key still appends a tombstone record.
    let len_before = eng.log_data().len();
    eng.delete(b"never-set").unwrap();
    assert!(eng.log_data().len() > len_before);
    assert_eq!(eng.get(b"never-set").unwrap(), None);
}

#[test]
fn set_get_round_trip_various_lengths() {
    let mut eng = MiniBitcask::new(Vec::new()).unwrap();
    let cases: Vec<(Vec<u8>, Vec<u8>)> = vec![
        (b"k".to_vec(), Vec::new()),
        (Vec::new(), b"value-of-empty-key".to_vec()),
        (vec![0u8, 255, 7], vec![9u8; 1000]),
        (b"long-key-with-some-bytes".to_vec(), vec![0u8]),
    ];
    for (k, v) in &cases {
        eng.set(k, v.clone()).unwrap();
    }
    for (k, v) in &cases {
        assert_eq!(eng.get(k).unwrap(), Some(v.clone()));
    }
}

#[test]
fn corrupt_log_is_rejected() {
    // A lone truncated header cannot be parsed.
    assert_eq!(
        MiniBitcask::new(vec![0, 0, 0, 1]).err(),
        Some(Error::CorruptRecord)
    );
    // A header promising more key bytes than the log holds.
    assert_eq!(
        MiniBitcask::new(vec![0, 0, 0, 9, 0, 0, 0, 0, b'a']).err(),
        Some(Error::CorruptRecord)
    );
    // A record whose value runs past the end of the log.
    assert_eq!(
        MiniBitcask::new(vec![0, 0, 0, 1, 0, 0, 0, 4, b'a', b'v']).err(),
        Some(Error::CorruptRecord)
    );
}

#[test]
fn merge_is_unimplemented() {
    assert_eq!(MiniBitcask::merge(), Err(Error::Unimplemented));
}

#[test]
fn reopen_preserves_last_writer_wins() {
    let mut eng = MiniBitcask::new(Vec::new()).unwrap();
    eng.set(b"x", b"1".to_vec()).unwrap();
    eng.set(b"y", b"2".to_vec()).unwrap();
    eng.set(b"x", b"3".to_vec()).unwrap();
    eng.delete(b"y").unwrap();
    eng.set(b"y", b"4".to_vec()).unwrap();

    let reopened = MiniBitcask::new(eng.log_data().clone()).unwrap();
    assert_eq!(collect_all(&reopened), collect_all(&eng));
    assert_eq!(reopened.get(b"x").unwrap(), Some(b"3".to_vec()));
    assert_eq!(reopened.get(b"y").unwrap(), Some(b"4".to_vec()));
}

#[test]
fn scan_interleaved_covers_each_key_once() {
    let mut eng = MiniBitcask::new(Vec::new()).unwrap();
    for k in [b"a", b"b", b"c", b"d", b"e"] {
        eng.set(k, k.to_vec()).unwrap();
    }
    let mut it = eng.scan(&ScanBound::Unbounded, &ScanBound::Unbounded);
    let mut front = Vec::new();
    let mut back = Vec::new();
    loop {
        match it.next() {
            Some(kv) => front.push(kv.0),
            None => break,
        }
        match it.next_back() {
            Some(kv) => back.push(kv.0),
            None => break,
        }
    }
    // Forward yields ascending, backward descending, and together they
    // cover every key exactly once.
    assert_eq!(front, vec![b"a".to_vec(), b"b".to_vec(), b"c".to_vec()]);
    assert_eq!(back, vec![b"e".to_vec(), b"d".to_vec()]);
}

#[test]
fn scan_prefix_with_trailing_0xff() {
    let mut eng = MiniBitcask::new(Vec::new()).unwrap();
    eng.set(&[b'a', 0xFF], b"1".to_vec()).unwrap();
    eng.set(&[b'a', 0xFF, b'x'], b"2".to_vec()).unwrap();
    eng.set(b"ab", b"3".to_vec()).unwrap();
    // The upper bound wraps the final prefix byte to zero, so the range is
    // empty: the reference semantics, preserved.
    let mut it = eng.scan_prefix(&[b'a', 0xFF]);
    assert_eq!(it.next(), None);
}

#[test]
fn scan_prefix_empty_prefix_is_full_scan() {
    let mut eng = MiniBitcask::new(Vec::new()).unwrap();
    eng.set(b"p", b"1".to_vec()).unwrap();
    eng.set(b"q", b"2".to_vec()).unwrap();
    let mut it = eng.scan_prefix(b"");
    assert_eq!(it.next(), Some((b"p".to_vec(), b"1".to_vec())));
    assert_eq!(it.next(), Some((b"q".to_vec(), b"2".to_vec())));
    assert_eq!(it.next(), None);
}
