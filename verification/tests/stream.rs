use kvfmt::stream::{
    json_line_to_logfmt, logfmt_line_to_json, process_line, trim_line, LineConverter, Mode,
    StreamAction,
};

/// Drives a converter over a text as a reader of lines would, collecting
/// what it writes.
fn run(mode: Mode, input: &str) -> Result<(u64, String), String> {
    let mut conv = LineConverter::new(mode);
    let mut out = String::new();
    let mut lines = input.split_inclusive('\n');
    loop {
        match conv.on_line(lines.next()) {
            StreamAction::ReadNext => {}
            StreamAction::Write(text) => {
                out.push_str(&text);
                out.push('\n');
                conv.on_written();
            }
            StreamAction::Stop(r) => return r.map(|n| (n, out)),
        }
    }
}

#[test]
fn streams_multiple_json_lines() {
    let input = "{\"a\":1}\n{\"b\":2}\n";
    let (n, s) = run(Mode::JsonToLogfmt, input).unwrap();
    assert_eq!(n, 2);
    assert!(s.contains("a=1"));
    assert!(s.contains("b=2"));
}

#[test]
fn streams_logfmt_to_json() {
    let input = "foo=bar\nx=1\n";
    let (n, text) = run(Mode::LogfmtToJson, input).unwrap();
    assert_eq!(n, 2);
    let lines: Vec<_> = text.lines().collect();
    assert_eq!(lines.len(), 2);
    assert!(lines[0].contains("\"foo\""));
}

#[test]
fn stream_lines_exact_output() {
    assert_eq!(run(Mode::LogfmtToJson, "b=2 a=x\r\n\n\r\nflag\n").unwrap(), (2, "{\"a\":\"x\",\"b\":2}\n{\"flag\":true}\n".to_string()));
    assert_eq!(run(Mode::JsonToLogfmt, "{\"z\":\"q r\",\"a\":null}\n").unwrap(), (1, "a=null z=\"q r\"\n".to_string()));
}

#[test]
fn stream_blank_lines_give_nothing() {
    assert_eq!(json_line_to_logfmt("\r\n").unwrap(), None);
    assert_eq!(logfmt_line_to_json("\n\n").unwrap(), None);
    assert_eq!(trim_line("a b\r\n\r"), "a b");
    assert_eq!(trim_line("\r x"), "\r x");
}

#[test]
fn stream_line_errors() {
    assert_eq!(json_line_to_logfmt("[1]").unwrap_err(), "JSON value must be an object");
    assert!(json_line_to_logfmt("{oops}").unwrap_err().starts_with("invalid JSON: "));
    assert_eq!(
        json_line_to_logfmt("{\"a\":[1]}").unwrap_err(),
        "unsupported JSON value at key `a`: nested objects and arrays are not supported"
    );
    assert_eq!(logfmt_line_to_json("a=\"x").unwrap_err(), "invalid logfmt at byte 4: unterminated quoted value");
    assert!(run(Mode::LogfmtToJson, "a=1\n=2\nb=3\n").is_err());
}

#[test]
fn converter_counts_and_stops() {
    let mut conv = LineConverter::new(Mode::LogfmtToJson);
    assert_eq!(conv.written(), 0);
    match conv.on_line(Some("a=1\n")) {
        StreamAction::Write(t) => assert_eq!(t, "{\"a\":1}"),
        _ => panic!("expected a line to write"),
    }
    conv.on_written();
    assert!(matches!(conv.on_line(Some("\r\n")), StreamAction::ReadNext));
    match conv.on_line(Some("=x\n")) {
        StreamAction::Stop(Err(m)) => assert_eq!(m, "invalid logfmt at byte 0: empty key"),
        _ => panic!("expected the stream to stop"),
    }
    assert!(matches!(conv.on_line(None), StreamAction::Stop(Ok(1))));
    assert_eq!(process_line(Mode::JsonToLogfmt, "{\"k\":true}\n").unwrap(), Some("k".to_string()));
}
