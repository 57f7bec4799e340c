# kvfmt

A JSON ↔ logfmt converter whose conversion logic is verified with Verus.

- `src/` is the verified library:
  - `parser` — logfmt lines as key/value pairs (`parse_logfmt`, `emit_logfmt`) and
    JSON objects as pairs of texts (`parse_json`, `emit_json`).
  - `logfmt` — logfmt lines as JSON objects: bare keys are `true`; `true`, `false`,
    `null` and numerals become booleans, null and numbers (`parse`, `stringify`).
  - `json` — the JSON value model; `JsonObject` keeps its members in ascending key
    order, each key once, and every floating-point number keeps a text that reads
    back as itself. (`serde_json::Map` holds only `serde_json::Value`s, which are
    opaque to the proofs, so the library keeps its own object type.)
  - `json_fmt`, `convert` — flat JSON objects and whole-text conversions.
  - `stream` — line-by-line conversion: what each line gives, and a small state
    machine that says what the driver of a stream does next.
  - `serde_bridge`, `text` — the calls into `serde_json` and `std`, each with the
    contract it is trusted to meet.
  - `pair_laws`, `object_laws` — proofs that what is written as logfmt reads back
    as what was written; `line_laws` — what a line joined from two lines reads as.
- `app/` is the command line (`clap`), file and stdin I/O, and the `thiserror`
  error type used for printing. Started under the name `k2j` (for example
  through a link of that name), the program reads logfmt and writes JSON.
- `tests/` runs the library on concrete inputs.
