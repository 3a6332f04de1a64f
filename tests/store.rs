use ext_tables::codec::{deserialize_value, serialize_value, Value};
use ext_tables::keylist::parse_key_list;
use ext_tables::store::{Lookup, TableStore};

fn enc(v: Value) -> Vec<u8> {
    serialize_value(&v).unwrap()
}

#[test]
fn counter_scenario() {
    let mut s = TableStore::new();
    let key = enc(Value::String(b"counter".to_vec()));
    s.set(1, &key, &enc(Value::Integer(1)));
    let got = s.get(1, &key).unwrap().clone();
    assert!(got.len() <= 64);
    assert_eq!(deserialize_value(&got), Ok(Value::Integer(1)));
    s.set(1, &key, &enc(Value::Integer(2)));
    assert_eq!(deserialize_value(s.get(1, &key).unwrap()), Ok(Value::Integer(2)));
    s.delete(1, &key);
    assert!(s.get(1, &key).is_none());
}

#[test]
fn overwrite_keeps_last_value() {
    let mut s = TableStore::new();
    s.set(3, b"k", b"v1");
    s.set(3, b"k", b"v2");
    assert_eq!(s.get(3, b"k").unwrap().as_slice(), b"v2");
    assert_eq!(s.size(3), 1);
}

#[test]
fn delete_absent_key_keeps_size() {
    let mut s = TableStore::new();
    s.set(1, b"a", b"1");
    s.set(1, b"b", b"2");
    s.delete(1, b"zzz");
    assert_eq!(s.size(1), 2);
    s.delete(9, b"a");
    assert_eq!(s.size(9), 0);
    assert_eq!(s.size(1), 2);
}

#[test]
fn tables_are_separate() {
    let mut s = TableStore::new();
    s.set(1, b"k", b"one");
    s.set(2, b"k", b"two");
    assert_eq!(s.get(1, b"k").unwrap().as_slice(), b"one");
    assert_eq!(s.get(2, b"k").unwrap().as_slice(), b"two");
    s.delete(1, b"k");
    assert!(s.get(1, b"k").is_none());
    assert_eq!(s.get(2, b"k").unwrap().as_slice(), b"two");
}

#[test]
fn enumeration_lists_every_key_once() {
    let mut s = TableStore::new();
    let n: u8 = 20;
    for i in 0..n {
        s.set(5, &[b'k', i], &[i, i]);
    }
    assert_eq!(s.size(5), n as usize);
    let list = match s.key_list(5, 1 << 20) {
        Lookup::Found(b) => b,
        _ => panic!("key list missing"),
    };
    assert_eq!(list.len(), 6 * n as usize);
    let keys = parse_key_list(&list).unwrap();
    assert_eq!(keys.len(), n as usize);
    for i in 0..n {
        assert!(keys.contains(&vec![b'k', i]));
    }
    for k in &keys {
        assert_eq!(s.get(5, k).unwrap(), &vec![k[1], k[1]]);
    }
}

#[test]
fn key_list_layout_and_bounds() {
    let mut s = TableStore::new();
    assert!(matches!(s.key_list(1, 100), Lookup::NotFound));
    s.set(1, b"ab", b"x");
    match s.key_list(1, 6) {
        Lookup::Found(b) => assert_eq!(b, vec![2, 0, 0, 0, b'a', b'b']),
        _ => panic!("key list missing"),
    }
    assert!(matches!(s.key_list(1, 5), Lookup::TooSmall));
    s.delete(1, b"ab");
    match s.key_list(1, 0) {
        Lookup::Found(b) => assert!(b.is_empty()),
        _ => panic!("an emptied table still exists"),
    }
}

#[test]
fn parse_key_list_rejects_overlong_length() {
    assert!(parse_key_list(&[5, 0, 0, 0, 1, 2]).is_none());
    assert!(parse_key_list(&[1, 0]).is_none());
    assert_eq!(parse_key_list(&[]).unwrap().len(), 0);
    assert_eq!(parse_key_list(&[0, 0, 0, 0, 1, 0, 0, 0, 9]).unwrap(), vec![vec![], vec![9]]);
}
