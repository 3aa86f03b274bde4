use minibitcask::mvcc::{KVEngine, Transaction, MVCC};
use minibitcask::Error;

fn seed(m: &mut MVCC, pairs: &[(&[u8], &[u8])]) {
    let t = m.begin_transaction();
    for (k, v) in pairs {
        t.set(m, k, v.to_vec()).unwrap();
    }
    t.commit(m);
}

fn snapshot_pairs(t: &Transaction, m: &MVCC) -> Vec<(Vec<u8>, Vec<u8>)> {
    t.snapshot(m)
}

#[test]
fn mvcc_snapshot_isolation() {
    let mut m = MVCC::new(KVEngine::new());
    seed(
        &mut m,
        &[(b"a", b"a1"), (b"b", b"b1"), (b"c", b"c1"), (b"d", b"d1"), (b"e", b"e1")],
    );

    let t1 = m.begin_transaction();
    t1.set(&mut m, b"a", b"a2".to_vec()).unwrap();
    t1.set(&mut m, b"e", b"e2".to_vec()).unwrap();
    assert_eq!(
        snapshot_pairs(&t1, &m),
        vec![
            (b"a".to_vec(), b"a2".to_vec()),
            (b"b".to_vec(), b"b1".to_vec()),
            (b"c".to_vec(), b"c1".to_vec()),
            (b"d".to_vec(), b"d1".to_vec()),
            (b"e".to_vec(), b"e2".to_vec()),
        ]
    );

    let t2 = m.begin_transaction();
    t2.delete(&mut m, b"b").unwrap();
    let expect_t2 = vec![
        (b"a".to_vec(), b"a1".to_vec()),
        (b"c".to_vec(), b"c1".to_vec()),
        (b"d".to_vec(), b"d1".to_vec()),
        (b"e".to_vec(), b"e1".to_vec()),
    ];
    assert_eq!(snapshot_pairs(&t2, &m), expect_t2);

    t1.commit(&mut m);
    // Repeatable read: committing T1 does not change what T2 sees.
    assert_eq!(snapshot_pairs(&t2, &m), expect_t2);

    let t3 = m.begin_transaction();
    // T3 sees T1's commit but not the uncommitted T2.
    assert_eq!(
        snapshot_pairs(&t3, &m),
        vec![
            (b"a".to_vec(), b"a2".to_vec()),
            (b"b".to_vec(), b"b1".to_vec()),
            (b"c".to_vec(), b"c1".to_vec()),
            (b"d".to_vec(), b"d1".to_vec()),
            (b"e".to_vec(), b"e2".to_vec()),
        ]
    );

    t3.set(&mut m, b"f", b"f1".to_vec()).unwrap();
    assert_eq!(t2.set(&mut m, b"f", b"f1".to_vec()), Err(Error::Conflict));
}

#[test]
fn get_sees_own_writes_and_snapshot() {
    let mut m = MVCC::new(KVEngine::new());
    seed(&mut m, &[(b"k", b"old")]);

    let t1 = m.begin_transaction();
    assert_eq!(t1.get(&m, b"k"), Some(b"old".to_vec()));
    t1.set(&mut m, b"k", b"new".to_vec()).unwrap();
    assert_eq!(t1.get(&m, b"k"), Some(b"new".to_vec()));

    let t2 = m.begin_transaction();
    // T1 is still active, so T2 reads the old value.
    assert_eq!(t2.get(&m, b"k"), Some(b"old".to_vec()));
    t1.commit(&mut m);
    // Repeatable read: T2 keeps reading the old value after T1 commits.
    assert_eq!(t2.get(&m, b"k"), Some(b"old".to_vec()));
    t2.commit(&mut m);

    let t3 = m.begin_transaction();
    assert_eq!(t3.get(&m, b"k"), Some(b"new".to_vec()));
    t3.commit(&mut m);
}

#[test]
fn delete_reads_as_absent() {
    let mut m = MVCC::new(KVEngine::new());
    seed(&mut m, &[(b"k", b"v")]);
    let t = m.begin_transaction();
    t.delete(&mut m, b"k").unwrap();
    assert_eq!(t.get(&m, b"k"), None);
    t.commit(&mut m);
    let t2 = m.begin_transaction();
    assert_eq!(t2.get(&m, b"k"), None);
    t2.commit(&mut m);
}

#[test]
fn write_conflict_in_either_order() {
    // Later transaction writes first; the earlier one conflicts.
    let mut m = MVCC::new(KVEngine::new());
    let t1 = m.begin_transaction();
    let t2 = m.begin_transaction();
    t2.set(&mut m, b"k", b"2".to_vec()).unwrap();
    assert_eq!(t1.set(&mut m, b"k", b"1".to_vec()), Err(Error::Conflict));
    t1.rollback(&mut m);
    t2.commit(&mut m);

    // Earlier transaction writes first; the later one conflicts while the
    // earlier is still active.
    let mut m = MVCC::new(KVEngine::new());
    let t1 = m.begin_transaction();
    let t2 = m.begin_transaction();
    t1.set(&mut m, b"k", b"1".to_vec()).unwrap();
    assert_eq!(t2.set(&mut m, b"k", b"2".to_vec()), Err(Error::Conflict));
}

#[test]
fn conflict_persists_after_writer_commits() {
    let mut m = MVCC::new(KVEngine::new());
    let t1 = m.begin_transaction();
    let t2 = m.begin_transaction();
    t1.set(&mut m, b"k", b"1".to_vec()).unwrap();
    t1.commit(&mut m);
    // T1's record is newer than T2's snapshot admits, so T2 still fails.
    assert_eq!(t2.set(&mut m, b"k", b"2".to_vec()), Err(Error::Conflict));
}

#[test]
fn rollback_removes_all_written_versions() {
    let mut m = MVCC::new(KVEngine::new());
    seed(&mut m, &[(b"a", b"a1")]);

    let t = m.begin_transaction();
    t.set(&mut m, b"a", b"a2".to_vec()).unwrap();
    t.set(&mut m, b"b", b"b2".to_vec()).unwrap();
    t.set(&mut m, b"b", b"b3".to_vec()).unwrap();
    t.delete(&mut m, b"a").unwrap();
    t.rollback(&mut m);

    let t2 = m.begin_transaction();
    assert_eq!(t2.get(&m, b"a"), Some(b"a1".to_vec()));
    assert_eq!(t2.get(&m, b"b"), None);
    // The rolled-back writes are gone: a fresh writer meets no conflict.
    t2.set(&mut m, b"b", b"b9".to_vec()).unwrap();
    t2.commit(&mut m);
}

#[test]
fn visibility_rule() {
    let mut m = MVCC::new(KVEngine::new());
    let t1 = m.begin_transaction();
    let t2 = m.begin_transaction();
    // A transaction sees itself and committed predecessors, not in-flight
    // versions nor the future.
    assert!(t2.is_visible(2));
    assert!(!t2.is_visible(1));
    assert!(!t2.is_visible(3));
    t1.commit(&mut m);
    let t3 = m.begin_transaction();
    assert!(t3.is_visible(1));
    assert!(!t3.is_visible(2));
    assert!(t3.is_visible(3));
    assert!(!t3.is_visible(4));
    t2.commit(&mut m);
    t3.commit(&mut m);
}

#[test]
fn snapshot_skips_tombstones_and_sorts_keys() {
    let mut m = MVCC::new(KVEngine::new());
    seed(&mut m, &[(b"z", b"1"), (b"a", b"2"), (b"mm", b"3")]);
    let t = m.begin_transaction();
    t.delete(&mut m, b"mm").unwrap();
    assert_eq!(
        t.snapshot(&m),
        vec![(b"a".to_vec(), b"2".to_vec()), (b"z".to_vec(), b"1".to_vec())]
    );
}
