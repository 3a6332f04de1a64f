use ext_tables::persist::PersistError;
use ext_tables::store::TableStore;

#[test]
fn snapshot_then_restore_gives_same_entries() {
    let mut s = TableStore::new();
    s.set(1, b"a", b"1");
    s.set(1, b"b", b"2");
    s.set(300, b"a", b"other");
    s.set(2, b"gone", b"x");
    s.delete(2, b"gone");
    s.set(1, b"a", b"1b");
    let items = s.snapshot();
    assert_eq!(items.len(), 3);
    assert!(items.contains(&(vec![1, 0, 0, 0, b'a'], b"1b".to_vec())));
    assert!(items.contains(&(vec![44, 1, 0, 0, b'a'], b"other".to_vec())));
    let mut fresh = TableStore::new();
    assert_eq!(fresh.restore(&items), Ok(()));
    assert_eq!(fresh.size(1), 2);
    assert_eq!(fresh.size(300), 1);
    assert_eq!(fresh.size(2), 0);
    assert_eq!(fresh.get(1, b"a").unwrap().as_slice(), b"1b");
    assert_eq!(fresh.get(1, b"b").unwrap().as_slice(), b"2");
    assert_eq!(fresh.get(300, b"a").unwrap().as_slice(), b"other");
}

#[test]
fn restore_replaces_previous_contents() {
    let mut s = TableStore::new();
    s.set(9, b"old", b"v");
    let items = vec![(vec![9, 0, 0, 0], b"empty key".to_vec())];
    assert_eq!(s.restore(&items), Ok(()));
    assert!(s.get(9, b"old").is_none());
    assert_eq!(s.get(9, b"").unwrap().as_slice(), b"empty key");
}

#[test]
fn restore_rejects_short_key() {
    let mut s = TableStore::new();
    s.set(1, b"k", b"v");
    let items = vec![(vec![1, 0, 0, 0, b'x'], b"y".to_vec()), (vec![1, 0, 0], b"z".to_vec())];
    assert_eq!(s.restore(&items), Err(PersistError::CorruptKey));
    assert_eq!(s.get(1, b"k").unwrap().as_slice(), b"v");
    assert!(s.get(1, b"x").is_none());
}

#[test]
fn empty_snapshot_of_empty_store() {
    let s = TableStore::new();
    assert!(s.snapshot().is_empty());
}
