//! The errors of the conversions.

use vstd::prelude::*;
use vstd::string::StringExecFns;
use crate::text::{push_decimal, decimal};

verus! {

/// What went wrong in a conversion.
#[derive(Debug)]
pub enum KvfmtError {
    /// A logfmt line could not be read: where and why.
    LogfmtParse { pos: usize, message: String },
    /// The JSON text is not an object.
    NotFlatObject,
    /// A value is an array or an object, which logfmt cannot hold.
    UnsupportedValue { key: String },
    /// Reading or writing failed (the message of the I/O error).
    Io(String),
    /// JSON text could not be read or written (the message of the JSON error).
    Json(String),
}

/// The view of an error.
pub enum KvfmtErrorV {
    LogfmtParse { pos: nat, message: Seq<char> },
    NotFlatObject,
    UnsupportedValue { key: Seq<char> },
    Io(Seq<char>),
    Json(Seq<char>),
}

/// The text of an error as it is shown to a user.
pub open spec fn error_message(e: KvfmtErrorV) -> Seq<char> {
    match e {
        KvfmtErrorV::LogfmtParse { pos, message } => "invalid logfmt at byte "@ + decimal(pos)
            + ": "@ + message,
        KvfmtErrorV::NotFlatObject => "JSON must be a flat object with string keys"@,
        KvfmtErrorV::UnsupportedValue { key } => "unsupported JSON value at key `"@ + key
            + "`: nested objects and arrays are not supported"@,
        KvfmtErrorV::Io(m) => "I/O error: "@ + m,
        KvfmtErrorV::Json(m) => "JSON error: "@ + m,
    }
}

impl KvfmtError {
    pub open spec fn view(&self) -> KvfmtErrorV {
        match self {
            KvfmtError::LogfmtParse { pos, message } => KvfmtErrorV::LogfmtParse {
                pos: *pos as nat,
                message: message@,
            },
            KvfmtError::NotFlatObject => KvfmtErrorV::NotFlatObject,
            KvfmtError::UnsupportedValue { key } => KvfmtErrorV::UnsupportedValue { key: key@ },
            KvfmtError::Io(m) => KvfmtErrorV::Io(m@),
            KvfmtError::Json(m) => KvfmtErrorV::Json(m@),
        }
    }

    /// The text of the error as it is shown to a user.
    pub fn message(&self) -> (r: String)
        ensures
            r@ == error_message(self@),
    {
        let mut out = String::new();
        match self {
            KvfmtError::LogfmtParse { pos, message } => {
                out.append("invalid logfmt at byte ");
                push_decimal(&mut out, *pos as u64);
                out.append(": ");
                out.append(message.as_str());
            },
            KvfmtError::NotFlatObject => {
                out.append("JSON must be a flat object with string keys");
            },
            KvfmtError::UnsupportedValue { key } => {
                out.append("unsupported JSON value at key `");
                out.append(key.as_str());
                out.append("`: nested objects and arrays are not supported");
            },
            KvfmtError::Io(m) => {
                out.append("I/O error: ");
                out.append(m.as_str());
            },
            KvfmtError::Json(m) => {
                out.append("JSON error: ");
                out.append(m.as_str());
            },
        }
        out
    }
}

} // verus!
