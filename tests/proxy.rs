use ext_tables::codec::{serialize_value, CodecError, Value};
use ext_tables::proxy::{ProxyError, TableHost, TableIdAllocator, TableProxy};
use ext_tables::store::TableStore;

fn s(text: &str) -> Value {
    Value::String(text.as_bytes().to_vec())
}

#[test]
fn proxy_read_write_delete() {
    let mut host = TableStore::new();
    let t = TableProxy::new(1);
    assert_eq!(t.table_id(), 1);
    assert_eq!(t.index(&host, &s("counter")), Ok(Value::Nil));
    assert_eq!(t.new_index(&mut host, &s("counter"), &Value::Integer(1)), Ok(()));
    assert_eq!(t.index(&host, &s("counter")), Ok(Value::Integer(1)));
    assert_eq!(t.new_index(&mut host, &s("counter"), &Value::Integer(2)), Ok(()));
    assert_eq!(t.index(&host, &s("counter")), Ok(Value::Integer(2)));
    assert_eq!(t.len(&host), 1);
    assert_eq!(t.new_index(&mut host, &s("counter"), &Value::Nil), Ok(()));
    assert_eq!(t.index(&host, &s("counter")), Ok(Value::Nil));
    assert_eq!(t.len(&host), 0);
}

#[test]
fn proxy_keys_of_any_kind() {
    let mut host = TableStore::new();
    let t = TableProxy::new(3);
    t.new_index(&mut host, &Value::Integer(1), &s("one")).unwrap();
    t.new_index(&mut host, &Value::Boolean(true), &Value::Float(2.5f64.to_bits())).unwrap();
    assert_eq!(t.index(&host, &Value::Integer(1)), Ok(s("one")));
    assert_eq!(t.index(&host, &Value::Boolean(true)), Ok(Value::Float(2.5f64.to_bits())));
    assert_eq!(t.index(&host, &s("1")), Ok(Value::Nil));
    let other = TableProxy::new(4);
    assert_eq!(other.len(&host), 0);
}

#[test]
fn proxy_refuses_unsupported_values() {
    let mut host = TableStore::new();
    let t = TableProxy::new(1);
    assert_eq!(t.index(&host, &Value::Other), Err(CodecError::UnsupportedType));
    assert_eq!(t.new_index(&mut host, &Value::Other, &Value::Integer(1)), Err(CodecError::UnsupportedType));
    assert_eq!(t.new_index(&mut host, &s("k"), &Value::Other), Err(CodecError::UnsupportedType));
    assert_eq!(t.len(&host), 0);
}

#[test]
fn proxy_pairs_lists_every_entry() {
    let mut host = TableStore::new();
    let t = TableProxy::new(2);
    for i in 0..10i64 {
        t.new_index(&mut host, &Value::Integer(i), &Value::Integer(i * i)).unwrap();
    }
    let pairs = t.pairs(&host).unwrap();
    assert_eq!(pairs.len(), 10);
    for i in 0..10i64 {
        assert!(pairs.contains(&(Value::Integer(i), Value::Integer(i * i))));
    }
    assert!(TableProxy::new(99).pairs(&host).unwrap().is_empty());
}

#[test]
fn proxy_pairs_reports_undecodable_entries() {
    let mut host = TableStore::new();
    let key = serialize_value(&s("k")).unwrap();
    host.ext_set(8, &key, &[250]);
    let t = TableProxy::new(8);
    assert_eq!(t.pairs(&host), Err(ProxyError::Codec(CodecError::InvalidEncoding)));
    assert_eq!(t.index(&host, &s("k")), Err(CodecError::InvalidEncoding));
}

#[test]
fn allocator_starts_at_one_and_never_repeats() {
    let mut a = TableIdAllocator::new();
    assert_eq!(a.allocate(), Some(1));
    assert_eq!(a.allocate(), Some(2));
    assert_eq!(a.allocate(), Some(3));
}
