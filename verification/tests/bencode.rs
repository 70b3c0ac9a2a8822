use rustracker::bencode::{failure, write_bytes, write_int, write_int_raw, write_key, Value};

#[test]
fn encodes_failure() {
    let encoded = failure("test error");
    assert_eq!(&encoded, b"d14:failure reason10:test errore");
}

#[test]
fn encodes_int() {
    let mut buf = Vec::new();
    write_int(&mut buf, b"complete", 42);
    assert_eq!(&buf, b"8:completei42e");
}

#[test]
fn encodes_bytes() {
    let mut buf = Vec::new();
    write_bytes(&mut buf, b"peers", b"\x7f\x00\x00\x01\x1a\xe1");
    assert_eq!(&buf, b"5:peers6:\x7f\x00\x00\x01\x1a\xe1");
}

#[test]
fn encodes_key() {
    let mut buf = Vec::new();
    write_key(&mut buf, b"interval");
    assert_eq!(&buf, b"8:interval");
}

#[test]
fn encodes_int_raw() {
    let mut buf = Vec::new();
    write_int_raw(&mut buf, 1800);
    assert_eq!(&buf, b"i1800e");
}

#[test]
fn encodes_dictionary_with_sorted_keys() {
    let encoded = Value::dictionary(vec![
        (b"z".to_vec(), Value::integer(1)),
        (b"a".to_vec(), Value::string("ok")),
    ])
    .encode();
    assert_eq!(encoded, b"d1:a2:ok1:zi1ee");
}

#[test]
fn encodes_negative_and_zero_integers() {
    let mut buf = Vec::new();
    write_int_raw(&mut buf, -42);
    write_int_raw(&mut buf, 0);
    write_int_raw(&mut buf, i64::MIN);
    assert_eq!(&buf, b"i-42ei0ei-9223372036854775808e");
}

#[test]
fn dictionary_later_value_wins() {
    let encoded = Value::dictionary(vec![
        (b"k".to_vec(), Value::integer(1)),
        (b"b".to_vec(), Value::bytes(b"x".to_vec())),
        (b"k".to_vec(), Value::integer(2)),
    ])
    .encode();
    assert_eq!(encoded, b"d1:b1:x1:ki2ee");
}

#[test]
fn encodes_lists_and_empty_strings() {
    let v = Value::List(vec![Value::integer(3), Value::bytes(Vec::new())]);
    assert_eq!(v.encode(), b"li3e0:e");
}
