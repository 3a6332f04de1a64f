use ext_tables::codec::{deserialize_value, serialize_value, Value};
use ext_tables::boundary::{
    check_range, get_buffer_size, host_table_delete, host_table_get, host_table_keys,
    host_table_set, host_table_size, BoundaryViolation, Transfer, CODE_NOT_FOUND,
    CODE_TOO_SMALL,
};
use ext_tables::store::TableStore;

fn memory_with(at: usize, bytes: &[u8]) -> Vec<u8> {
    let mut mem = vec![0u8; 256];
    mem[at..at + bytes.len()].copy_from_slice(bytes);
    mem
}

#[test]
fn buffer_size_is_64_kib() {
    assert_eq!(get_buffer_size(), 65536);
}

#[test]
fn set_then_get_through_memory() {
    let mut store = TableStore::new();
    let mut mem = memory_with(0, b"keyvalue!");
    assert_eq!(host_table_set(&mut store, &mem, 7, 0, 3, 3, 6), Ok(()));
    let r = host_table_get(&store, &mut mem, 7, 0, 3, 100, 64);
    assert_eq!(r, Ok(Transfer::Written(6)));
    assert_eq!(&mem[100..106], b"value!");
    assert_eq!(mem[106], 0);
    assert_eq!(host_table_size(&store, 7), 1);
}

#[test]
fn get_too_small_writes_nothing() {
    let mut store = TableStore::new();
    let mut mem = memory_with(0, b"kvalue");
    host_table_set(&mut store, &mem, 1, 0, 1, 1, 5).unwrap();
    let before = mem.clone();
    let r = host_table_get(&store, &mut mem, 1, 0, 1, 200, 4);
    assert_eq!(r, Ok(Transfer::TooSmall));
    assert_eq!(mem, before);
    assert_eq!(r.unwrap().wire_code(), CODE_TOO_SMALL);
}

#[test]
fn get_missing_is_not_found() {
    let store = TableStore::new();
    let mut mem = memory_with(0, b"k");
    let r = host_table_get(&store, &mut mem, 1, 0, 1, 10, 10);
    assert_eq!(r, Ok(Transfer::NotFound));
    assert_eq!(r.unwrap().wire_code(), CODE_NOT_FOUND);
}

#[test]
fn out_of_bounds_ranges_are_violations() {
    let mut store = TableStore::new();
    let mut mem = vec![0u8; 16];
    assert_eq!(host_table_set(&mut store, &mem, 1, 10, 10, 0, 1), Err(BoundaryViolation));
    assert_eq!(host_table_set(&mut store, &mem, 1, 0, 1, -1, 1), Err(BoundaryViolation));
    assert_eq!(host_table_size(&store, 1), 0);
    assert_eq!(host_table_get(&store, &mut mem, 1, 0, 1, 8, 9), Err(BoundaryViolation));
    assert_eq!(host_table_delete(&mut store, &mem, 1, 0, 17), Err(BoundaryViolation));
    assert_eq!(host_table_keys(&store, &mut mem, 1, 0, -5), Err(BoundaryViolation));
    assert_eq!(check_range(16, 0, 16), Ok(()));
    assert_eq!(check_range(16, 16, 0), Ok(()));
    assert_eq!(check_range(16, 16, 1), Err(BoundaryViolation));
    assert_eq!(check_range(16, i32::MAX, i32::MAX), Err(BoundaryViolation));
}

#[test]
fn delete_absent_key_succeeds() {
    let mut store = TableStore::new();
    let mem = memory_with(0, b"abx");
    host_table_set(&mut store, &mem, 2, 0, 1, 1, 1).unwrap();
    assert_eq!(host_table_delete(&mut store, &mem, 2, 2, 1), Ok(()));
    assert_eq!(host_table_size(&store, 2), 1);
    assert_eq!(host_table_delete(&mut store, &mem, 2, 0, 1), Ok(()));
    assert_eq!(host_table_size(&store, 2), 0);
}

#[test]
fn keys_through_memory() {
    let mut store = TableStore::new();
    let mut mem = memory_with(0, b"xy1");
    assert_eq!(host_table_keys(&store, &mut mem, 4, 50, 100), Ok(Transfer::NotFound));
    host_table_set(&mut store, &mem, 4, 0, 2, 2, 1).unwrap();
    assert_eq!(host_table_keys(&store, &mut mem, 4, 50, 5), Ok(Transfer::TooSmall));
    assert_eq!(host_table_keys(&store, &mut mem, 4, 50, 6), Ok(Transfer::Written(6)));
    assert_eq!(&mem[50..56], &[2, 0, 0, 0, b'x', b'y']);
}

#[test]
fn wire_codes_round_trip() {
    for t in [Transfer::Written(0), Transfer::Written(12), Transfer::NotFound, Transfer::TooSmall] {
        assert_eq!(Transfer::from_wire_code(t.wire_code()), t);
    }
    assert_eq!(Transfer::from_wire_code(-7), Transfer::NotFound);
}

#[test]
fn counter_scenario_through_memory() {
    let key = serialize_value(&Value::String(b"counter".to_vec())).unwrap();
    let mut store = TableStore::new();
    for (n, expected) in [(1i64, 1i64), (2, 2)] {
        let val = serialize_value(&Value::Integer(n)).unwrap();
        let mut mem = vec![0u8; 512];
        mem[..key.len()].copy_from_slice(&key);
        mem[32..32 + val.len()].copy_from_slice(&val);
        host_table_set(&mut store, &mem, 1, 0, key.len() as i32, 32, val.len() as i32).unwrap();
        let r = host_table_get(&store, &mut mem, 1, 0, key.len() as i32, 100, 64).unwrap();
        assert_eq!(r, Transfer::Written(9));
        assert_eq!(deserialize_value(&mem[100..109]), Ok(Value::Integer(expected)));
    }
    let mut mem = vec![0u8; 512];
    mem[..key.len()].copy_from_slice(&key);
    host_table_delete(&mut store, &mem, 1, 0, key.len() as i32).unwrap();
    let r = host_table_get(&store, &mut mem, 1, 0, key.len() as i32, 100, 64).unwrap();
    assert_eq!(r, Transfer::NotFound);
}
