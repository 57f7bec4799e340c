//! Line-at-a-time conversion: each input line gives one output line, blank
//! lines give none, and the first bad line stops the stream with its error.
//! The reading, writing and flushing are the caller's; this module decides,
//! line by line, what is written.

use vstd::prelude::*;
use vstd::string::{StringExecFns, StrSliceExecFns};
use crate::error::error_message;
use crate::json::{JsonV, JsonValue};
use crate::logfmt::{logfmt_members, parse, stringify, stringify_view};
use crate::serde_bridge::{json_compact, json_parse, parse_json_text, write_json_compact};
use vstd::utf8::encode_utf8;

verus! {

/// Which way a stream is converted.
#[derive(Clone, Copy, Debug, PartialEq, Eq, Structural)]
pub enum Mode {
    /// Each line is a JSON object; each output line is logfmt.
    JsonToLogfmt,
    /// Each line is logfmt; each output line is a JSON object.
    LogfmtToJson,
}

/// A line without the carriage returns and line feeds at its end.
pub open spec fn trim_line_end(s: Seq<char>) -> Seq<char>
    decreases s.len(),
{
    if s.len() > 0 && (s.last() == '\r' || s.last() == '\n') {
        trim_line_end(s.drop_last())
    } else {
        s
    }
}

/// What one line of JSON gives: nothing for a blank line, else the logfmt
/// line of its object, or the message of what went wrong.
pub open spec fn json_line_result(line: Seq<char>) -> Result<Option<Seq<char>>, Seq<char>> {
    let t = trim_line_end(line);
    if t.len() == 0 {
        Ok(None)
    } else {
        match json_parse(t) {
            Err(m) => Err("invalid JSON: "@ + m),
            Ok(JsonV::Object(es)) => match stringify_view(es) {
                Ok(s) => Ok(Some(s)),
                Err(e) => Err(error_message(e)),
            },
            Ok(_) => Err("JSON value must be an object"@),
        }
    }
}

/// What one line of logfmt gives: nothing for a blank line, else the compact
/// JSON text of its object, or the message of what went wrong.
pub open spec fn logfmt_line_result(line: Seq<char>) -> Result<Option<Seq<char>>, Seq<char>> {
    let t = trim_line_end(line);
    if t.len() == 0 {
        Ok(None)
    } else {
        match logfmt_members(encode_utf8(t)) {
            Err(e) => Err(error_message(e)),
            Ok(es) => match json_compact(JsonV::Object(es)) {
                Ok(s) => Ok(Some(s)),
                Err(m) => Err(m),
            },
        }
    }
}

/// What one line gives in a mode.
pub open spec fn line_result(mode: Mode, line: Seq<char>) -> Result<Option<Seq<char>>, Seq<char>> {
    match mode {
        Mode::JsonToLogfmt => json_line_result(line),
        Mode::LogfmtToJson => logfmt_line_result(line),
    }
}

/// The view of a line's result.
pub open spec fn line_result_view(r: Result<Option<String>, String>) -> Result<
    Option<Seq<char>>,
    Seq<char>,
> {
    match r {
        Ok(Some(s)) => Ok(Some(s@)),
        Ok(None) => Ok(None),
        Err(e) => Err(e@),
    }
}

/// A line without the carriage returns and line feeds at its end.
pub fn trim_line(line: &str) -> (r: &str)
    ensures
        r@ == trim_line_end(line@),
{
    let n = line.unicode_len();
    let mut end = n;
    assert(line@.take(n as int) =~= line@);
    while end > 0 && (line.get_char(end - 1) == '\r' || line.get_char(end - 1) == '\n')
        invariant
            end <= n,
            n == line@.len(),
            trim_line_end(line@) == trim_line_end(line@.take(end as int)),
        decreases end,
    {
        assert(line@.take(end as int).drop_last() =~= line@.take(end - 1));
        end = end - 1;
    }
    let r = line.substring_char(0, end);
    assert(line@.take(end as int) =~= line@.subrange(0, end as int));
    r
}

/// Converts one line of JSON (a whole object) to a logfmt line.
pub fn json_line_to_logfmt(line: &str) -> (r: Result<Option<String>, String>)
    ensures
        line_result_view(r) == json_line_result(line@),
{
    let t = trim_line(line);
    if t.is_empty() {
        return Ok(None);
    }
    let v = match parse_json_text(t) {
        Ok(v) => v,
        Err(m) => {
            let mut msg = "invalid JSON: ".to_owned();
            msg.append(m.as_str());
            return Err(msg);
        },
    };
    match v {
        JsonValue::Object(map) => match stringify(&map) {
            Ok(s) => Ok(Some(s)),
            Err(e) => Err(e.message()),
        },
        _ => Err("JSON value must be an object".to_owned()),
    }
}

/// Converts one line of logfmt to a line of compact JSON.
pub fn logfmt_line_to_json(line: &str) -> (r: Result<Option<String>, String>)
    ensures
        line_result_view(r) == logfmt_line_result(line@),
{
    let t = trim_line(line);
    if t.is_empty() {
        return Ok(None);
    }
    let map = match parse(t) {
        Ok(m) => m,
        Err(e) => return Err(e.message()),
    };
    match write_json_compact(&JsonValue::Object(map)) {
        Ok(s) => Ok(Some(s)),
        Err(m) => Err(m),
    }
}

/// Converts one line in the given mode.
pub fn process_line(mode: Mode, line: &str) -> (r: Result<Option<String>, String>)
    ensures
        line_result_view(r) == line_result(mode, line@),
{
    match mode {
        Mode::JsonToLogfmt => json_line_to_logfmt(line),
        Mode::LogfmtToJson => logfmt_line_to_json(line),
    }
}


/// What the driver of a stream does next.
pub enum StreamAction {
    /// Write this line, with a line feed after it, and flush.
    Write(String),
    /// Read the next line.
    ReadNext,
    /// Stop: with how many lines were written, or with the message of the
    /// line that could not be converted.
    Stop(Result<u64, String>),
}

/// The state of a stream being converted line by line: its mode and how many
/// lines have been written.
pub struct LineConverter {
    mode: Mode,
    written: u64,
}

impl LineConverter {
    /// The mode and the number of lines written.
    pub closed spec fn view(&self) -> (Mode, nat) {
        (self.mode, self.written as nat)
    }

    /// A stream in `mode` with nothing written yet.
    pub fn new(mode: Mode) -> (r: LineConverter)
        ensures
            r@ == (mode, 0nat),
    {
        LineConverter { mode, written: 0 }
    }

    /// How many lines have been written.
    pub fn written(&self) -> (n: u64)
        ensures
            n == self@.1,
    {
        self.written
    }

    /// What to do after reading: `None` when the input has ended, else the
    /// line read (with its line end). At the end, stop with the count; a
    /// blank line asks for the next one; a line that converts is written; a
    /// line that does not stops the stream with its message.
    pub fn on_line(&self, line: Option<&str>) -> (a: StreamAction)
        ensures
            match line {
                None => a matches StreamAction::Stop(Ok(n)) && n == self@.1,
                Some(l) => match line_result(self@.0, l@) {
                    Ok(None) => a is ReadNext,
                    Ok(Some(out)) => a matches StreamAction::Write(w) && w@ == out,
                    Err(m) => a matches StreamAction::Stop(Err(e)) && e@ == m,
                },
            },
    {
        match line {
            None => StreamAction::Stop(Ok(self.written)),
            Some(l) => match process_line(self.mode, l) {
                Ok(None) => StreamAction::ReadNext,
                Ok(Some(out)) => StreamAction::Write(out),
                Err(m) => StreamAction::Stop(Err(m)),
            },
        }
    }

    /// The line of the last `Write` was written and flushed.
    pub fn on_written(&mut self)
        requires
            old(self)@.1 < u64::MAX,
        ensures
            final(self)@ == (old(self)@.0, old(self)@.1 + 1),
    {
        self.written = self.written + 1;
    }
}

} // verus!
