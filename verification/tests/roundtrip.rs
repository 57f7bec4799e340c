use kvfmt::parser::{emit_json, emit_logfmt, parse_json, parse_logfmt};

fn pairs(items: &[(&str, &str)]) -> Vec<(String, String)> {
    items.iter().map(|(k, v)| (k.to_string(), v.to_string())).collect()
}

#[test]
fn lib_roundtrip() {
    let json = r#"{"a":"x","b":"42","c":"true","d":"null"}"#;
    let lf = emit_logfmt(&parse_json(json).unwrap());
    let back = emit_json(&parse_logfmt(&lf).unwrap()).unwrap();
    let v1: serde_json::Value = serde_json::from_str(json).unwrap();
    let v2: serde_json::Value = serde_json::from_str(&back).unwrap();
    assert_eq!(v1, v2);
}

#[test]
fn j2k_k2j_bin_roundtrip() {
    let json = r#"{"msg":"hello world","n":"99","ok":"true"}"#;
    let j2k_out = emit_logfmt(&parse_json(json).unwrap());
    let k2j_out = emit_json(&parse_logfmt(&j2k_out).unwrap()).unwrap();
    let v1: serde_json::Value = serde_json::from_str(json).unwrap();
    let v2: serde_json::Value = serde_json::from_str(k2j_out.trim()).unwrap();
    assert_eq!(v1, v2);
}

#[test]
fn quoted_values() {
    let lf = r#"k="a b" v=plain"#;
    let p = parse_logfmt(lf).unwrap();
    assert_eq!(p, pairs(&[("k", "a b"), ("v", "plain")]));
    let back = parse_logfmt(&emit_logfmt(&p)).unwrap();
    assert_eq!(p, back);
}

#[test]
fn emit_logfmt_quotes_and_escapes() {
    let p = pairs(&[("a", ""), ("b", "x y"), ("c", "q\"t"), ("d", "back\\slash"), ("e", "l\nf\r\t"), ("f", "k=v")]);
    assert_eq!(
        emit_logfmt(&p),
        "a=\"\" b=\"x y\" c=\"q\\\"t\" d=\"back\\\\slash\" e=\"l\\nf\\r\\t\" f=k=v\n"
    );
    assert_eq!(emit_logfmt(&[]), "\n");
}

#[test]
fn logfmt_round_trip_law_example() {
    let p = pairs(&[("key", "value with spaces"), ("n", "42"), ("empty", ""), ("esc", "a\"b\\c\td"), ("uni", "héllo")]);
    assert_eq!(parse_logfmt(&emit_logfmt(&p)).unwrap(), p);
}

#[test]
fn parse_logfmt_trims_and_reads_escapes() {
    let p = parse_logfmt("  \t a=1   b=\"x\\ny\\\"z\\q\"c=3 \n").unwrap();
    assert_eq!(p, pairs(&[("a", "1"), ("b", "x\ny\"zq"), ("c", "3")]));
}

#[test]
fn parse_logfmt_errors() {
    assert_eq!(parse_logfmt("a=1 bare").unwrap_err(), "expected key=value");
    assert_eq!(parse_logfmt("a=\"open").unwrap_err(), "unterminated quoted value");
    assert_eq!(parse_logfmt("a=\"ends with backslash\\").unwrap_err(), "unterminated quoted value");
    assert_eq!(parse_logfmt("").unwrap(), Vec::<(String, String)>::new());
}

#[test]
fn parse_logfmt_empty_key_and_value() {
    assert_eq!(parse_logfmt("=v a=").unwrap(), pairs(&[("", "v"), ("a", "")]));
}

#[test]
fn parse_logfmt_quoted_bytes_stand_for_themselves() {
    let p = parse_logfmt("k=\"é\"").unwrap();
    assert_eq!(p, vec![("k".to_string(), "\u{c3}\u{a9}".to_string())]);
    let q = parse_logfmt("k=é").unwrap();
    assert_eq!(q, pairs(&[("k", "é")]));
}

#[test]
fn parse_json_reads_members_in_key_order() {
    let p = parse_json("  {\"z\":\"last\",\"a\":1,\"m\":null,\"t\":true,\"f\":2.5,\"n\":[1,{\"x\":2}],\"o\":{\"k\":\"v\"},\"neg\":-7}  ").unwrap();
    assert_eq!(
        p,
        pairs(&[
            ("a", "1"),
            ("f", "2.5"),
            ("m", "null"),
            ("n", "[1,{\"x\":2}]"),
            ("neg", "-7"),
            ("o", "{\"k\":\"v\"}"),
            ("t", "true"),
            ("z", "last"),
        ])
    );
}

#[test]
fn parse_json_errors() {
    assert_eq!(parse_json("[1,2]").unwrap_err(), "expected JSON object");
    let e = parse_json("{").unwrap_err();
    assert!(e.contains("EOF"), "{e}");
}

#[test]
fn emit_json_later_value_wins_and_keys_sorted() {
    let p = pairs(&[("b", "2"), ("a", "1"), ("b", "3")]);
    assert_eq!(emit_json(&p).unwrap(), "{\"a\":\"1\",\"b\":\"3\"}");
    assert_eq!(emit_json(&[]).unwrap(), "{}");
    assert_eq!(emit_json(&pairs(&[("q", "say \"hi\"\n")])).unwrap(), "{\"q\":\"say \\\"hi\\\"\\n\"}");
}

#[test]
fn json_logfmt_json_law_example() {
    let json = "  {\"b\":\"2\",\"a\":\"x y\",\"c\":\"tab\\there\"}\n";
    let p = parse_json(json).unwrap();
    assert_eq!(p, pairs(&[("a", "x y"), ("b", "2"), ("c", "tab\there")]));
    assert_eq!(parse_logfmt(&emit_logfmt(&p)).unwrap(), p);
    assert_eq!(emit_json(&p).unwrap(), "{\"a\":\"x y\",\"b\":\"2\",\"c\":\"tab\\there\"}");
}

#[test]
fn parse_logfmt_trims_unicode_white_space() {
    assert_eq!(parse_logfmt("\u{3000}a=1 b=2\u{a0}").unwrap(), pairs(&[("a", "1"), ("b", "2")]));
    assert_eq!(parse_json("\u{2028}{\"k\":\"v\"}\u{85}").unwrap(), pairs(&[("k", "v")]));
}
