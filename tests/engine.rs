use byodb::db::{Database, ReadTxn};
use byodb::error::{NodeError, TreeError, TxnError};
use byodb::key::compare_keys;
use byodb::node::{MAX_KEYS, MAX_KEY_SIZE, MAX_VALUE_SIZE};
use byodb::seed::seed_db;

fn b(s: &str) -> Vec<u8> {
    s.as_bytes().to_vec()
}

fn pairs(items: &[(&str, &str)]) -> Vec<(Vec<u8>, Vec<u8>)> {
    items.iter().map(|(k, v)| (b(k), b(v))).collect()
}

fn already_exists() -> TxnError {
    TxnError::Tree(TreeError::Node(NodeError::AlreadyExists))
}

fn not_found() -> TxnError {
    TxnError::Tree(TreeError::Node(NodeError::NotFound))
}

fn key_of(i: usize) -> Vec<u8> {
    format!("key{:05}", i).into_bytes()
}

#[test]
fn compare_keys_orders_bytes() {
    assert!(compare_keys(b"apple", b"banana") < 0);
    assert!(compare_keys(b"banana", b"apple") > 0);
    assert_eq!(compare_keys(b"same", b"same"), 0);
    assert!(compare_keys(b"ab", b"abc") < 0);
    assert!(compare_keys(b"", b"a") < 0);
    assert_eq!(compare_keys(b"", b""), 0);
}

#[test]
fn example_commit_update_and_old_reader() {
    let mut db = Database::new();
    let mut t = db.rw_txn().unwrap();
    t.insert(&mut db, &b("apple"), &b("1")).unwrap();
    t.insert(&mut db, &b("banana"), &b("2")).unwrap();
    t.insert(&mut db, &b("cherry"), &b("3")).unwrap();
    t.commit(&mut db);
    let r1 = db.r_txn();
    assert_eq!(r1.in_order_iter(&db), pairs(&[("apple", "1"), ("banana", "2"), ("cherry", "3")]));

    let mut t = db.rw_txn().unwrap();
    t.update(&mut db, &b("banana"), &b("20")).unwrap();
    t.commit(&mut db);
    let r2 = db.r_txn();
    assert_eq!(r2.in_order_iter(&db), pairs(&[("apple", "1"), ("banana", "20"), ("cherry", "3")]));
    assert_eq!(r1.in_order_iter(&db), pairs(&[("apple", "1"), ("banana", "2"), ("cherry", "3")]));
    assert_eq!(r1.get(&db, &b("banana")), Some(b("2")));
    assert_eq!(r2.get(&db, &b("banana")), Some(b("20")));
}

#[test]
fn commit_matches_reference_map() {
    let mut db = Database::new();
    let mut model = std::collections::BTreeMap::new();
    let mut t = db.rw_txn().unwrap();
    for i in 0..300usize {
        let k = key_of((i * 37) % 300);
        let v = format!("v{}", i).into_bytes();
        t.insert(&mut db, &k, &v).unwrap();
        model.insert(k, v);
    }
    for i in (0..300usize).step_by(7) {
        let k = key_of(i);
        let v = format!("u{}", i).into_bytes();
        t.update(&mut db, &k, &v).unwrap();
        model.insert(k, v);
    }
    t.commit(&mut db);
    let r = db.r_txn();
    for (k, v) in &model {
        assert_eq!(r.get(&db, k).as_ref(), Some(v));
    }
    assert_eq!(r.get(&db, &b("missing")), None);
    let expected: Vec<(Vec<u8>, Vec<u8>)> = model.into_iter().collect();
    assert_eq!(r.in_order_iter(&db), expected);
}

#[test]
fn duplicate_insert_fails_and_changes_nothing() {
    let mut db = Database::new();
    let mut t = db.rw_txn().unwrap();
    for i in 0..40usize {
        t.insert(&mut db, &key_of(i), &b("x")).unwrap();
    }
    let pages_before = db.page_count();
    let root_before = t.root;
    assert_eq!(t.insert(&mut db, &key_of(5), &b("y")), Err(already_exists()));
    assert_eq!(db.page_count(), pages_before);
    assert_eq!(t.root, root_before);
    for i in 0..40usize {
        assert_eq!(t.get(&db, &key_of(i)), Some(b("x")));
    }
}

#[test]
fn update_of_missing_key_fails() {
    let mut db = Database::new();
    let mut t = db.rw_txn().unwrap();
    t.insert(&mut db, &b("a"), &b("1")).unwrap();
    let pages_before = db.page_count();
    assert_eq!(t.update(&mut db, &b("b"), &b("2")), Err(not_found()));
    assert_eq!(db.page_count(), pages_before);
    assert_eq!(t.get(&db, &b("a")), Some(b("1")));
    assert_eq!(t.get(&db, &b("b")), None);
}

#[test]
fn oversized_key_and_value_are_refused() {
    let mut db = Database::new();
    let mut t = db.rw_txn().unwrap();
    let long_key = vec![b'k'; MAX_KEY_SIZE + 1];
    let long_val = vec![b'v'; MAX_VALUE_SIZE + 1];
    assert_eq!(
        t.insert(&mut db, &long_key, &b("v")),
        Err(TxnError::Tree(TreeError::Node(NodeError::KeyTooLarge)))
    );
    assert_eq!(
        t.insert(&mut db, &b("k"), &long_val),
        Err(TxnError::Tree(TreeError::Node(NodeError::ValueTooLarge)))
    );
    let max_key = vec![b'k'; MAX_KEY_SIZE];
    let max_val = vec![b'v'; MAX_VALUE_SIZE];
    t.insert(&mut db, &max_key, &max_val).unwrap();
    assert_eq!(t.get(&db, &max_key), Some(max_val));
}

#[test]
fn only_one_writer_at_a_time() {
    let mut db = Database::new();
    let t = db.rw_txn().unwrap();
    assert!(matches!(db.rw_txn(), Err(TxnError::WriterActive)));
    t.abort(&mut db);
    let t2 = db.rw_txn().unwrap();
    t2.commit(&mut db);
}

#[test]
fn reader_before_commit_keeps_its_snapshot() {
    let mut db = Database::new();
    let mut t = db.rw_txn().unwrap();
    t.insert(&mut db, &b("k"), &b("old")).unwrap();
    t.commit(&mut db);
    let before: ReadTxn = db.r_txn();
    let mut t = db.rw_txn().unwrap();
    t.update(&mut db, &b("k"), &b("new")).unwrap();
    t.insert(&mut db, &b("k2"), &b("v2")).unwrap();
    // readers opened while the writer is active see the committed tree
    let during = db.r_txn();
    assert_eq!(during.get(&db, &b("k")), Some(b("old")));
    t.commit(&mut db);
    let after = db.r_txn();
    assert_eq!(before.get(&db, &b("k")), Some(b("old")));
    assert_eq!(before.get(&db, &b("k2")), None);
    assert_eq!(after.get(&db, &b("k")), Some(b("new")));
    assert_eq!(after.get(&db, &b("k2")), Some(b("v2")));
}

#[test]
fn in_order_iter_is_sorted_and_complete() {
    let mut db = Database::new();
    let mut t = db.rw_txn().unwrap();
    let n = 500usize;
    for i in 0..n {
        let k = key_of((i * 211) % n);
        t.insert(&mut db, &k, &k).unwrap();
    }
    t.commit(&mut db);
    let entries = db.r_txn().in_order_iter(&db);
    assert_eq!(entries.len(), n);
    for w in entries.windows(2) {
        assert!(w[0].0 < w[1].0);
    }
    for (i, (k, v)) in entries.iter().enumerate() {
        assert_eq!(k, &key_of(i));
        assert_eq!(v, &key_of(i));
    }
}

#[test]
fn empty_database_iterates_nothing() {
    let db = Database::new();
    let r = db.r_txn();
    assert!(r.in_order_iter(&db).is_empty());
    assert_eq!(r.get(&db, &b("")), None);
}

#[test]
fn abort_leaves_meta_and_pages_unchanged() {
    let mut db = Database::new();
    let mut t = db.rw_txn().unwrap();
    t.insert(&mut db, &b("a"), &b("1")).unwrap();
    t.commit(&mut db);
    let meta_before = db.meta();
    let pages_before = db.page_count();
    let mut t = db.rw_txn().unwrap();
    for i in 0..100usize {
        t.insert(&mut db, &key_of(i), &b("v")).unwrap();
    }
    t.update(&mut db, &b("a"), &b("2")).unwrap();
    assert!(db.page_count() > pages_before);
    t.abort(&mut db);
    assert_eq!(db.meta(), meta_before);
    assert_eq!(db.page_count(), pages_before);
    let r = db.r_txn();
    assert_eq!(r.in_order_iter(&db), pairs(&[("a", "1")]));
}

#[test]
fn crash_before_meta_update_recovers_last_commit() {
    let mut db = Database::new();
    let mut t = db.rw_txn().unwrap();
    t.insert(&mut db, &b("a"), &b("1")).unwrap();
    t.commit(&mut db);
    let meta_before = db.meta();
    let mut t = db.rw_txn().unwrap();
    t.insert(&mut db, &b("b"), &b("2")).unwrap();
    t.update(&mut db, &b("a"), &b("9")).unwrap();
    // the writer's pages are written, but the meta record was never rewritten
    drop(t);
    db.recover();
    assert_eq!(db.meta(), meta_before);
    assert_eq!(db.page_count(), meta_before.num_pages);
    let r = db.r_txn();
    assert_eq!(r.in_order_iter(&db), pairs(&[("a", "1")]));
    let t = db.rw_txn().unwrap();
    t.abort(&mut db);
}

#[test]
fn commit_advances_the_meta_record() {
    let mut db = Database::new();
    assert_eq!(db.meta().seq, 0);
    let mut t = db.rw_txn().unwrap();
    t.insert(&mut db, &b("a"), &b("1")).unwrap();
    let root = t.root;
    t.commit(&mut db);
    let m = db.meta();
    assert_eq!(m.seq, 1);
    assert_eq!(m.root, root);
    assert_eq!(m.num_pages, db.page_count());
}

#[test]
fn leaf_overflow_splits_root_in_two() {
    let mut db = Database::new();
    let mut t = db.rw_txn().unwrap();
    for i in 0..MAX_KEYS {
        t.insert(&mut db, &key_of(i), &b("v")).unwrap();
    }
    t.commit(&mut db);
    assert_eq!(db.meta().height, 0);
    assert_eq!(db.root_fanout(), 0);
    let mut t = db.rw_txn().unwrap();
    t.insert(&mut db, &key_of(MAX_KEYS), &b("v")).unwrap();
    t.commit(&mut db);
    assert_eq!(db.meta().height, 1);
    assert_eq!(db.root_fanout(), 2);
    let r = db.r_txn();
    for i in 0..=MAX_KEYS {
        assert_eq!(r.get(&db, &key_of(i)), Some(b("v")));
    }
    // the separator is the first key of the right half
    let entries = r.in_order_iter(&db);
    assert_eq!(entries.len(), MAX_KEYS + 1);
}

#[test]
fn many_inserts_grow_several_levels() {
    let mut db = Database::new();
    let mut t = db.rw_txn().unwrap();
    let n = 3000usize;
    for i in 0..n {
        t.insert(&mut db, &key_of((i * 1237) % n), &key_of(i)).unwrap();
    }
    t.commit(&mut db);
    assert!(db.meta().height >= 2);
    let r = db.r_txn();
    for i in 0..n {
        assert_eq!(r.get(&db, &key_of((i * 1237) % n)), Some(key_of(i)));
    }
    assert_eq!(r.in_order_iter(&db).len(), n);
}

#[test]
fn seed_skips_present_keys() {
    let mut db = Database::new();
    let items = pairs(&[("b", "1"), ("a", "2"), ("b", "3"), ("c", "4")]);
    seed_db(&mut db, &items).unwrap();
    let r = db.r_txn();
    assert_eq!(r.in_order_iter(&db), pairs(&[("a", "2"), ("b", "1"), ("c", "4")]));
    let more = pairs(&[("a", "9"), ("d", "5")]);
    seed_db(&mut db, &more).unwrap();
    let r = db.r_txn();
    assert_eq!(r.in_order_iter(&db), pairs(&[("a", "2"), ("b", "1"), ("c", "4"), ("d", "5")]));
}

#[test]
fn seed_with_oversized_entry_aborts() {
    let mut db = Database::new();
    let mut items = pairs(&[("a", "1")]);
    items.push((b("b"), vec![0u8; MAX_VALUE_SIZE + 1]));
    let meta_before = db.meta();
    assert_eq!(
        seed_db(&mut db, &items),
        Err(TxnError::Tree(TreeError::Node(NodeError::ValueTooLarge)))
    );
    assert_eq!(db.meta(), meta_before);
    assert_eq!(db.page_count(), 1);
    assert!(db.rw_txn().is_ok());
}

#[test]
fn seed_while_writer_active_fails() {
    let mut db = Database::new();
    let _t = db.rw_txn().unwrap();
    assert_eq!(seed_db(&mut db, &pairs(&[("a", "1")])), Err(TxnError::WriterActive));
}
