use kvfmt::error::KvfmtError;
use kvfmt::json::{JsonNumber, JsonObject, JsonValue};
use kvfmt::json_fmt::{ensure_flat, parse_flat_object, to_json_string};
use kvfmt::{json_to_logfmt, logfmt_to_json};

#[test]
fn logfmt_to_json_and_back() {
    let line = r#"foo=bar a=14 baz="hello kitty" f"#;
    let body = logfmt_to_json(line, true).unwrap();
    assert!(body.contains("\"foo\": \"bar\""));
    assert!(body.contains("\"a\": 14"));
    let back = json_to_logfmt(body.trim_end()).unwrap();
    assert!(back.contains("foo=bar"));
    assert!(back.contains("a=14"));
}

#[test]
fn logfmt_to_json_compact_and_pretty() {
    assert_eq!(logfmt_to_json("b=1.5 a=true c", false).unwrap(), "{\"a\":true,\"b\":1.5,\"c\":true}");
    assert_eq!(logfmt_to_json("x=-2", true).unwrap(), "{\n  \"x\": -2\n}");
    assert_eq!(logfmt_to_json("", false).unwrap(), "{}");
    match logfmt_to_json("k=\"open", false).unwrap_err() {
        KvfmtError::LogfmtParse { pos, message } => {
            assert_eq!(pos, 7);
            assert_eq!(message, "unterminated quoted value");
        },
        other => panic!("unexpected {other:?}"),
    }
}

#[test]
fn json_to_logfmt_examples() {
    assert_eq!(json_to_logfmt("{\"b\":\"x y\",\"a\":1,\"t\":true,\"f\":false,\"n\":null}").unwrap(), "a=1 b=\"x y\" f=false n=null t");
    assert!(matches!(json_to_logfmt("[1]").unwrap_err(), KvfmtError::NotFlatObject));
    assert!(matches!(json_to_logfmt("{\"a\":{}}").unwrap_err(), KvfmtError::UnsupportedValue { .. }));
    assert!(matches!(json_to_logfmt("nope").unwrap_err(), KvfmtError::Json(_)));
}

#[test]
fn parse_flat_object_refuses_nested() {
    let m = parse_flat_object("{\"s\":\"v\",\"n\":18446744073709551615,\"m\":-1}").unwrap();
    assert_eq!(m.len(), 3);
    assert_eq!(m.get("n"), Some(&JsonValue::Number(JsonNumber::PosInt(u64::MAX))));
    assert_eq!(m.get("m"), Some(&JsonValue::Number(JsonNumber::NegInt(-1))));
    match parse_flat_object("{\"z\":[],\"c\":{}}").unwrap_err() {
        KvfmtError::UnsupportedValue { key } => assert_eq!(key, "c"),
        other => panic!("unexpected {other:?}"),
    }
    match parse_flat_object("{").unwrap_err() {
        KvfmtError::Json(m) => assert!(m.contains("EOF")),
        other => panic!("unexpected {other:?}"),
    }
}

#[test]
fn ensure_flat_kinds() {
    assert!(ensure_flat("k", &JsonValue::Null).is_ok());
    assert!(ensure_flat("k", &JsonValue::Array(vec![])).is_err());
}

#[test]
fn to_json_string_writes_nested_values() {
    let mut inner = JsonObject::new();
    inner.insert("y".into(), JsonValue::Bool(false));
    let mut m = JsonObject::new();
    m.insert("x".into(), JsonValue::Object(inner));
    m.insert("a".into(), JsonValue::Array(vec![JsonValue::Null, JsonValue::String("s".into())]));
    assert_eq!(to_json_string(&m, false).unwrap(), "{\"a\":[null,\"s\"],\"x\":{\"y\":false}}");
    assert_eq!(
        to_json_string(&m, true).unwrap(),
        "{\n  \"a\": [\n    null,\n    \"s\"\n  ],\n  \"x\": {\n    \"y\": false\n  }\n}"
    );
}

#[test]
fn object_insert_get_and_order() {
    let mut m = JsonObject::new();
    m.insert("b".into(), JsonValue::Null);
    m.insert("a".into(), JsonValue::Bool(true));
    m.insert("é".into(), JsonValue::Null);
    m.insert("z".into(), JsonValue::Null);
    m.insert("b".into(), JsonValue::Bool(false));
    let keys: Vec<&str> = m.entries().iter().map(|(k, _)| k.as_str()).collect();
    assert_eq!(keys, vec!["a", "b", "z", "é"]);
    assert_eq!(m.get("b"), Some(&JsonValue::Bool(false)));
    assert_eq!(m.duplicate(), m);
}
