use ext_tables::codec::{CodecError, Value};
use ext_tables::eval::{memory_stats, read_reply, result_code, success_reply, EvalFailure};

#[test]
fn success_reply_layout_and_read_back() {
    let reply = success_reply(b"hi\n", &Value::Integer(7)).unwrap();
    assert_eq!(reply, vec![3, 0, 0, 0, b'h', b'i', b'\n', 2, 7, 0, 0, 0, 0, 0, 0, 0]);
    let code = result_code(reply.len(), false);
    assert_eq!(code, 16);
    let mut buf = reply.clone();
    buf.extend_from_slice(&[9, 9, 9]);
    let back = read_reply(code, &buf).unwrap();
    assert_eq!(back.output, b"hi\n".to_vec());
    assert_eq!(back.value, Value::Integer(7));
}

#[test]
fn error_reply_code() {
    assert_eq!(result_code(5, true), -6);
    assert_eq!(result_code(0, true), -1);
    match read_reply(-6, b"boom!extra") {
        Err(EvalFailure::Script(m)) => assert_eq!(m, b"boom!".to_vec()),
        other => panic!("unexpected {:?}", other),
    }
    assert!(matches!(read_reply(-20, b"short"), Err(EvalFailure::Malformed)));
}

#[test]
fn malformed_success_replies() {
    assert!(matches!(read_reply(10, &[0, 0, 0, 0]), Err(EvalFailure::Malformed)));
    assert!(matches!(read_reply(3, &[0, 0, 0, 0]), Err(EvalFailure::Malformed)));
    assert!(matches!(read_reply(5, &[9, 0, 0, 0, 0]), Err(EvalFailure::Malformed)));
    assert!(matches!(read_reply(5, &[0, 0, 0, 0, 77]), Err(EvalFailure::Malformed)));
    let nil = read_reply(4, &[0, 0, 0, 0]).unwrap();
    assert_eq!(nil.value, Value::Nil);
    assert!(nil.output.is_empty());
}

#[test]
fn success_reply_refuses_other_values() {
    assert_eq!(success_reply(b"", &Value::Other).unwrap_err(), CodecError::UnsupportedType);
}

#[test]
fn stats_report_buffer_size() {
    let s = memory_stats(1234);
    assert_eq!(s.io_buffer_size, 65536);
    assert_eq!(s.lua_memory_used, 1234);
    assert_eq!(s.wasm_pages, 0);
}
