use kvfmt::error::KvfmtError;
use kvfmt::json::{JsonNumber, JsonObject, JsonValue};
use kvfmt::logfmt;
use kvfmt::logfmt::{coerce_value, encode_pair, encode_string, parse, read_value};

fn text(s: &str) -> JsonValue {
    JsonValue::String(s.to_string())
}

fn pos_int(n: u64) -> JsonValue {
    JsonValue::Number(JsonNumber::PosInt(n))
}

fn parse_error(e: KvfmtError) -> (usize, String) {
    match e {
        KvfmtError::LogfmtParse { pos, message } => (pos, message),
        other => panic!("unexpected error {other:?}"),
    }
}

#[test]
fn parse_example_line() {
    let m = parse(r#"foo=bar a=14 baz="hello kitty" cool%story=bro f %^asdf"#).unwrap();
    assert_eq!(m.get("foo"), Some(&text("bar")));
    assert_eq!(m.get("a"), Some(&pos_int(14)));
    assert_eq!(m.get("baz"), Some(&text("hello kitty")));
    assert_eq!(m.get("cool%story"), Some(&text("bro")));
    assert_eq!(m.get("f"), Some(&JsonValue::Bool(true)));
    assert_eq!(m.get("%^asdf"), Some(&JsonValue::Bool(true)));
}

#[test]
fn stringify_example() {
    let mut m = JsonObject::new();
    m.insert("foo".into(), text("bar"));
    m.insert("a".into(), pos_int(14));
    m.insert("baz".into(), text("hello kitty"));
    assert_eq!(logfmt::stringify(&m).unwrap(), r#"a=14 baz="hello kitty" foo=bar"#);
}

#[test]
fn coerce_value_kinds() {
    assert_eq!(coerce_value("true".into()), JsonValue::Bool(true));
    assert_eq!(coerce_value("false".into()), JsonValue::Bool(false));
    assert_eq!(coerce_value("null".into()), JsonValue::Null);
    assert_eq!(coerce_value("+42".into()), pos_int(42));
    assert_eq!(coerce_value("007".into()), pos_int(7));
    assert_eq!(coerce_value("-9223372036854775808".into()), JsonValue::Number(JsonNumber::NegInt(i64::MIN)));
    assert_eq!(coerce_value("9223372036854775807".into()), pos_int(9223372036854775807));
    assert_eq!(coerce_value("True".into()), text("True"));
    assert_eq!(coerce_value("".into()), text(""));
    assert_eq!(coerce_value("-".into()), text("-"));
    assert_eq!(coerce_value("inf".into()), text("inf"));
    assert_eq!(coerce_value("1e999".into()), text("1e999"));
    match coerce_value("1.5".into()) {
        JsonValue::Number(JsonNumber::Float(f)) => assert_eq!(f.text(), "1.5"),
        other => panic!("unexpected {other:?}"),
    }
    match coerce_value("9223372036854775808".into()) {
        JsonValue::Number(JsonNumber::Float(f)) => {
            assert_eq!(f.text().parse::<f64>().unwrap(), 9223372036854775808.0f64)
        },
        other => panic!("unexpected {other:?}"),
    }
}

#[test]
fn parse_later_value_wins() {
    let m = parse("a=1 b a=two").unwrap();
    assert_eq!(m.len(), 2);
    assert_eq!(m.get("a"), Some(&text("two")));
    assert_eq!(m.get("b"), Some(&JsonValue::Bool(true)));
    assert_eq!(m.get("c"), None);
}

#[test]
fn parse_quoted_values() {
    let m = parse("q=\"a \\\"b\\\" \\\\ \\n\\t\\x\"   next=1").unwrap();
    assert_eq!(m.get("q"), Some(&text("a \"b\" \\ \n\tx")));
    assert_eq!(m.get("next"), Some(&pos_int(1)));
    let m = parse("k= v").unwrap();
    assert_eq!(m.get("k"), Some(&text("")));
    assert_eq!(m.get("v"), Some(&JsonValue::Bool(true)));
}

#[test]
fn parse_errors_tell_the_byte() {
    assert_eq!(parse_error(parse("a=1 =x").unwrap_err()), (4, "empty key".to_string()));
    assert_eq!(parse_error(parse("a=").unwrap_err()), (2, "missing value after '='".to_string()));
    assert_eq!(parse_error(parse("a=\"abc").unwrap_err()), (6, "unterminated quoted value".to_string()));
    assert_eq!(parse_error(parse("a=\"ab\\").unwrap_err()), (6, "unterminated escape in quoted value".to_string()));
    assert_eq!(parse("").unwrap().len(), 0);
}

#[test]
fn read_value_moves_past_the_value() {
    let b = b"x=\"q r\"  y=2";
    let mut pos = 2;
    assert_eq!(read_value(b, &mut pos).unwrap(), "q r");
    assert_eq!(pos, 9);
    let mut pos = 11;
    assert_eq!(read_value(b, &mut pos).unwrap(), "2");
    assert_eq!(pos, 12);
    let mut pos = 12;
    assert_eq!(parse_error(read_value(b, &mut pos).unwrap_err()), (12, "missing value after '='".to_string()));
    let bad = [0xffu8, 0x20];
    let mut pos = 0;
    assert_eq!(parse_error(read_value(&bad, &mut pos).unwrap_err()), (0, "invalid UTF-8 in value".to_string()));
}

#[test]
fn encode_string_quotes_when_needed() {
    assert_eq!(encode_string("plain"), "plain");
    assert_eq!(encode_string("back\\slash"), "back\\slash");
    assert_eq!(encode_string(""), "\"\"");
    assert_eq!(encode_string("a=b"), "\"a=b\"");
    assert_eq!(encode_string("say \"hi\"\n"), "\"say \\\"hi\\\"\\n\"");
    assert_eq!(encode_string("form\u{c}feed"), "\"form\u{c}feed\"");
}

#[test]
fn encode_pair_kinds() {
    assert_eq!(encode_pair("k", &JsonValue::Bool(true)).unwrap(), "k");
    assert_eq!(encode_pair("k", &JsonValue::Bool(false)).unwrap(), "k=false");
    assert_eq!(encode_pair("k", &JsonValue::Null).unwrap(), "k=null");
    assert_eq!(encode_pair("k", &JsonValue::Number(JsonNumber::NegInt(-12))).unwrap(), "k=-12");
    assert_eq!(encode_pair("k", &pos_int(0)).unwrap(), "k=0");
    assert_eq!(encode_pair("k", &text("a b")).unwrap(), "k=\"a b\"");
    match encode_pair("nested", &JsonValue::Array(vec![])).unwrap_err() {
        KvfmtError::UnsupportedValue { key } => assert_eq!(key, "nested"),
        other => panic!("unexpected {other:?}"),
    }
}

#[test]
fn stringify_refuses_nested_values() {
    let mut m = JsonObject::new();
    m.insert("z".into(), JsonValue::Array(vec![]));
    m.insert("b".into(), JsonValue::Object(JsonObject::new()));
    m.insert("a".into(), pos_int(1));
    match logfmt::stringify(&m).unwrap_err() {
        KvfmtError::UnsupportedValue { key } => assert_eq!(key, "b"),
        other => panic!("unexpected {other:?}"),
    }
    assert_eq!(logfmt::stringify(&JsonObject::new()).unwrap(), "");
}

#[test]
fn parse_then_stringify_example() {
    let m = parse("b=\"x y\" a=-3 t f=false n=null").unwrap();
    assert_eq!(logfmt::stringify(&m).unwrap(), "a=-3 b=\"x y\" f=false n=null t");
}

#[test]
fn error_messages() {
    let e = KvfmtError::LogfmtParse { pos: 17, message: "empty key".into() };
    assert_eq!(e.message(), "invalid logfmt at byte 17: empty key");
    assert_eq!(KvfmtError::NotFlatObject.message(), "JSON must be a flat object with string keys");
    assert_eq!(
        KvfmtError::UnsupportedValue { key: "k".into() }.message(),
        "unsupported JSON value at key `k`: nested objects and arrays are not supported"
    );
    assert_eq!(KvfmtError::Io("gone".into()).message(), "I/O error: gone");
    assert_eq!(KvfmtError::Json("bad".into()).message(), "JSON error: bad");
}

#[test]
fn object_round_trip_law_example() {
    let mut m = JsonObject::new();
    m.insert("msg".into(), text("hello world"));
    m.insert("n".into(), JsonValue::Number(JsonNumber::NegInt(-99)));
    m.insert("big".into(), pos_int(123456789));
    m.insert("ok".into(), JsonValue::Bool(true));
    m.insert("off".into(), JsonValue::Bool(false));
    m.insert("none".into(), JsonValue::Null);
    m.insert("empty".into(), text(""));
    m.insert("q".into(), text("say \"hi\"\tthen\\go"));
    m.insert("plain".into(), text("x=y"));
    let line = logfmt::stringify(&m).unwrap();
    assert_eq!(parse(&line).unwrap(), m);
}

#[test]
fn parse_concat_law_example() {
    let a = "x=1 k=\"q r\" y";
    let b = "k=2 z=null x=3";
    let line = format!("{a} flag {b}");
    let m = parse(&line).unwrap();
    let mut expected = parse(a).unwrap();
    expected.insert("flag".into(), JsonValue::Bool(true));
    for (key, value) in parse(b).unwrap().entries() {
        expected.insert(key.clone(), value.duplicate());
    }
    assert_eq!(m, expected);
    assert_eq!(m.get("x"), Some(&pos_int(3)));
    assert_eq!(m.get("k"), Some(&pos_int(2)));
    assert_eq!(m.get("flag"), Some(&JsonValue::Bool(true)));
}

#[test]
fn read_encoded_string_law_example() {
    for s in ["plain", "", "with space", "a=b", "q\"x\\y\n\tz", "héllo"] {
        let enc = encode_string(s);
        let mut pos = 0usize;
        let back = read_value(enc.as_bytes(), &mut pos).unwrap();
        assert_eq!(back, s);
        assert_eq!(pos, enc.len());
    }
}

#[test]
fn object_round_trip_with_floats() {
    let m = parse("a=1.5 b=-0.001 c=1e300 d=2.0 e=-0 f=7").unwrap();
    assert!(matches!(m.get("a"), Some(JsonValue::Number(JsonNumber::Float(_)))));
    let line = logfmt::stringify(&m).unwrap();
    assert_eq!(line, "a=1.5 b=-0.001 c=1e+300 d=2.0 e=0 f=7");
    assert_eq!(parse(&line).unwrap(), m);
    let j = kvfmt::json_fmt::parse_flat_object("{\"x\":0.1,\"y\":-2.5e-7,\"z\":-0.0}").unwrap();
    let line = logfmt::stringify(&j).unwrap();
    assert_eq!(parse(&line).unwrap(), j);
}

#[test]
fn stringify_then_parse_gives_the_object() {
    let j = kvfmt::json_fmt::parse_flat_object(
        "{\"f\":3.25,\"g\":-1e-9,\"n\":-12,\"p\":9007199254740993,\"s\":\"a b\",\"t\":true,\"u\":null}",
    )
    .unwrap();
    let line = logfmt::stringify(&j).unwrap();
    assert_eq!(parse(&line).unwrap(), j);
}
