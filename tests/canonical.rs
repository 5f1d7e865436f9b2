use cjson::{to_string, to_vec, to_writer, Error, JsonValue, Number};

fn integer(n: i64) -> JsonValue {
    if n < 0 {
        JsonValue::Number(Number::NegInt(n))
    } else {
        JsonValue::Number(Number::PosInt(n as u64))
    }
}

fn string_value(s: &str) -> JsonValue {
    JsonValue::String(s.to_string())
}

fn obj(members: Vec<(&str, JsonValue)>) -> JsonValue {
    JsonValue::Object(members.into_iter().map(|(k, v)| (k.to_string(), v)).collect())
}

fn from_json(v: &serde_json::Value) -> JsonValue {
    match v {
        serde_json::Value::Null => JsonValue::Null,
        serde_json::Value::Bool(b) => JsonValue::Bool(*b),
        serde_json::Value::Number(n) => {
            if let Some(u) = n.as_u64() {
                JsonValue::Number(Number::PosInt(u))
            } else if let Some(i) = n.as_i64() {
                JsonValue::Number(Number::NegInt(i))
            } else {
                JsonValue::Number(Number::Float(n.to_string()))
            }
        }
        serde_json::Value::String(s) => JsonValue::String(s.clone()),
        serde_json::Value::Array(a) => JsonValue::Array(a.iter().map(from_json).collect()),
        serde_json::Value::Object(o) => {
            JsonValue::Object(o.iter().map(|(k, v)| (k.clone(), from_json(v))).collect())
        }
    }
}

fn parse(s: &str) -> JsonValue {
    from_json(&serde_json::from_str(s).unwrap())
}

fn custom_text(e: Error) -> String {
    match e {
        Error::Custom(m) => m,
        Error::Io(_) => panic!("expected a conversion error"),
    }
}

#[test]
fn determinism_example() {
    let v = obj(vec![("b", integer(1)), ("a", integer(2))]);
    assert_eq!(to_string(&v).unwrap(), "{\"a\":2,\"b\":1}");
    assert_eq!(to_string(&parse("{\"b\":1,\"a\":2}")).unwrap(), "{\"a\":2,\"b\":1}");
}

#[test]
fn array_order_preserved() {
    let v = JsonValue::Array(vec![integer(3), integer(1), integer(2)]);
    assert_eq!(to_string(&v).unwrap(), "[3,1,2]");
}

#[test]
fn string_escaping() {
    let v = obj(vec![("a", string_value("x\"y"))]);
    assert_eq!(to_string(&v).unwrap(), "{\"a\":\"x\\\"y\"}");
}

#[test]
fn control_characters_escaped() {
    let v = string_value("a\\b\n\t\r\u{8}\u{c}\u{1}\u{1f}/\u{7f}");
    assert_eq!(to_string(&v).unwrap(), "\"a\\\\b\\n\\t\\r\\b\\f\\u0001\\u001f/\u{7f}\"");
}

#[test]
fn non_ascii_kept_raw() {
    let v = string_value("é😀");
    assert_eq!(to_vec(&v).unwrap(), "\"é😀\"".as_bytes().to_vec());
}

#[test]
fn integer_exactness() {
    let v = integer(9007199254740993);
    assert_eq!(to_string(&v).unwrap(), "9007199254740993");
    assert_eq!(to_string(&parse("9007199254740993")).unwrap(), "9007199254740993");
}

#[test]
fn integer_extremes() {
    let v = JsonValue::Array(vec![integer(i64::MIN), integer(i64::MAX), integer(0), integer(-7)]);
    assert_eq!(
        to_string(&v).unwrap(),
        "[-9223372036854775808,9223372036854775807,0,-7]"
    );
}

#[test]
fn float_rejection() {
    let v = obj(vec![("a", JsonValue::Number(Number::Float("1.5".to_string())))]);
    let e = to_string(&v).unwrap_err();
    assert_eq!(custom_text(e), "unsupported value in canonical JSON: 1.5");
    assert!(to_string(&parse("{\"a\":1.5}")).is_err());
}

#[test]
fn exponent_rejection() {
    let v = JsonValue::Number(Number::Float("1e10".to_string()));
    assert!(matches!(to_vec(&v), Err(Error::Custom(_))));
    assert!(matches!(to_vec(&parse("1e10")), Err(Error::Custom(_))));
}

#[test]
fn out_of_range_rejection() {
    let v = JsonValue::Array(vec![integer(1), JsonValue::Number(Number::PosInt(u64::MAX))]);
    let e = to_string(&v).unwrap_err();
    assert_eq!(
        custom_text(e),
        "unsupported value in canonical JSON: 18446744073709551615"
    );
}

#[test]
fn first_failure_reported() {
    let v = JsonValue::Array(vec![
        JsonValue::Number(Number::Float("2.5".to_string())),
        JsonValue::Number(Number::Float("3.5".to_string())),
    ]);
    assert_eq!(
        custom_text(to_string(&v).unwrap_err()),
        "unsupported value in canonical JSON: 2.5"
    );
}

#[test]
fn empty_containers() {
    assert_eq!(to_string(&JsonValue::Array(vec![])).unwrap(), "[]");
    assert_eq!(to_string(&JsonValue::Object(vec![])).unwrap(), "{}");
    assert_eq!(to_string(&string_value("")).unwrap(), "\"\"");
}

#[test]
fn literals() {
    let v = JsonValue::Array(vec![JsonValue::Null, JsonValue::Bool(true), JsonValue::Bool(false)]);
    assert_eq!(to_string(&v).unwrap(), "[null,true,false]");
}

#[test]
fn keys_ordered_by_bytes() {
    let v = obj(vec![("é", integer(1)), ("z", integer(2)), ("a", integer(3)), ("B", integer(4)), ("ab", integer(5))]);
    assert_eq!(to_string(&v).unwrap(), "{\"B\":4,\"a\":3,\"ab\":5,\"z\":2,\"é\":1}");
}

#[test]
fn duplicate_keys_last_wins() {
    let v = obj(vec![("k", integer(1)), ("j", integer(0)), ("k", integer(2))]);
    assert_eq!(to_string(&v).unwrap(), "{\"j\":0,\"k\":2}");
}

#[test]
fn nested_values() {
    let v = parse("{ \"z\": [ {\"y\": null, \"x\": true} ], \"a\": { \"c\": \"s\", \"b\": [] } }");
    assert_eq!(
        to_string(&v).unwrap(),
        "{\"a\":{\"b\":[],\"c\":\"s\"},\"z\":[{\"x\":true,\"y\":null}]}"
    );
}

#[test]
fn key_order_independence() {
    let a = obj(vec![("x", integer(1)), ("y", string_value("t")), ("w", JsonValue::Null)]);
    let b = obj(vec![("w", JsonValue::Null), ("x", integer(1)), ("y", string_value("t"))]);
    assert_eq!(to_vec(&a).unwrap(), to_vec(&b).unwrap());
}

#[test]
fn idempotence() {
    let v = parse("{\"q\":[1,{\"b\":\"\\u0007\",\"a\":-3}],\"p\":\"\\\"\"}");
    let first = to_string(&v).unwrap();
    let second = to_string(&parse(&first)).unwrap();
    assert_eq!(first, second);
}

#[test]
fn writer_appends() {
    let mut out = b"x".to_vec();
    to_writer(&mut out, &JsonValue::Array(vec![integer(1)])).unwrap();
    assert_eq!(out, b"x[1]".to_vec());
}

#[test]
fn writer_untouched_on_error() {
    let mut out = b"x".to_vec();
    let v = JsonValue::Number(Number::Float("0.1".to_string()));
    assert!(to_writer(&mut out, &v).is_err());
    assert_eq!(out, b"x".to_vec());
}

#[test]
fn io_error_converts() {
    let e = Error::from(std::io::Error::new(std::io::ErrorKind::Other, "sink"));
    assert!(matches!(e, Error::Io(_)));
}

#[test]
fn number_as_i64() {
    assert_eq!(Number::PosInt(5).as_i64(), Some(5));
    assert_eq!(Number::PosInt(u64::MAX).as_i64(), None);
    assert_eq!(Number::NegInt(-5).as_i64(), Some(-5));
    assert_eq!(Number::Float("1.0".to_string()).as_i64(), None);
}
