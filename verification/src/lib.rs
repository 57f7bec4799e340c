//! Bidirectional conversion between logfmt lines and JSON objects.
//!
//! `parser` reads and writes ordered lists of string pairs; `logfmt` reads
//! logfmt into JSON objects (with booleans, null and numbers recognised) and
//! writes them back; `json_fmt` reads and writes flat JSON objects; `stream`
//! decides what each line of a stream becomes; `convert` joins them for whole
//! texts. JSON text itself is read and written by `serde_json`, through
//! `serde_bridge`.

pub mod convert;
pub mod error;
pub mod json;
pub mod json_fmt;
pub mod line_laws;
pub mod logfmt;
pub mod object_laws;
pub mod output_laws;
pub mod pair_laws;
pub mod parser;
pub mod serde_bridge;
pub mod stream;
pub mod text;

pub use convert::{json_to_logfmt, logfmt_to_json};
pub use error::KvfmtError;
