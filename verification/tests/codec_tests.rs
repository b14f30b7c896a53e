use save_file::Value;
use save_file::codec::encode_value;
use save_file::codec::parse_value;

fn encoded(v: &Value) -> Vec<u8> {
    let mut out: Vec<u8> = Vec::new();
    encode_value(v, &mut out);
    out
}

#[test]
fn test_encode_scalars_exactly() {
    assert_eq!(encoded(&Value::Null), b"null".to_vec());
    assert_eq!(encoded(&Value::Bool(true)), b"true".to_vec());
    assert_eq!(encoded(&Value::Bool(false)), b"false".to_vec());
    assert_eq!(encoded(&Value::Int(0)), b"0".to_vec());
    assert_eq!(encoded(&Value::Int(-42)), b"-42".to_vec());
    assert_eq!(encoded(&Value::Int(i64::MAX)), b"9223372036854775807".to_vec());
    assert_eq!(encoded(&Value::Int(i64::MIN)), b"-9223372036854775808".to_vec());
}

#[test]
fn test_encode_strings_escape_exactly() {
    assert_eq!(encoded(&Value::Str(b"abc".to_vec())), b"\"abc\"".to_vec());
    assert_eq!(
        encoded(&Value::Str(b"a\"b\\c\n".to_vec())),
        b"\"a\\u0022b\\u005cc\\u000a\"".to_vec()
    );
}

#[test]
fn test_encode_nested_exactly() {
    let v = Value::Arr(vec![
        Value::Int(1),
        Value::Arr(vec![]),
        Value::Obj(vec![(b"k".to_vec(), Value::Null)]),
    ]);
    assert_eq!(encoded(&v), b"[1,[],{\"k\":null}]".to_vec());
}

#[test]
fn test_parse_inverts_encode() {
    let v = Value::Obj(vec![
        (b"name".to_vec(), Value::Str(b"he said \"hi\"".to_vec())),
        (b"scores".to_vec(), Value::Arr(vec![Value::Int(-3), Value::Int(900)])),
        (b"on".to_vec(), Value::Bool(true)),
        (b"none".to_vec(), Value::Null),
    ]);
    let bytes = encoded(&v);
    let (w, n) = parse_value(&bytes, 0).unwrap();
    assert_eq!(n, bytes.len());
    assert_eq!(encoded(&w), bytes);
}

#[test]
fn test_parse_rejects_noncanonical() {
    // Leading zeros, a lone minus, and an overflowing number are refused.
    assert!(parse_value(&b"01".to_vec(), 0).is_none());
    assert!(parse_value(&b"-".to_vec(), 0).is_none());
    assert!(parse_value(&b"-0".to_vec(), 0).is_none());
    assert!(parse_value(&b"9223372036854775808".to_vec(), 0).is_none());
    // An unescaped control byte inside a string is refused.
    assert!(parse_value(&b"\"a\nb\"".to_vec(), 0).is_none());
    // An uppercase hex escape is not the canonical form.
    assert!(parse_value(&b"\"\\u001F\"".to_vec(), 0).is_none());
    assert!(parse_value(&b"\"\\u001f\"".to_vec(), 0).is_some());
}

#[test]
fn test_parse_reports_end_position() {
    let bytes = b"123,rest".to_vec();
    let (v, n) = parse_value(&bytes, 0).unwrap();
    assert_eq!(v.as_int().unwrap(), 123);
    assert_eq!(n, 3);
}
