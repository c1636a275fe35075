# crxml

Crystal Reports XML into columns, in verified Rust.

A report is a stream of row elements. The library cuts a document into chunks between rows, scans
each chunk for its rows, and builds typed columns under a plan that renames, drops, types and
filters fields. Every function in `src/` carries a contract. Verus proves it, except for the wrappers
around calls into other crates: their contracts are taken as stated.

| Part | What it holds |
| --- | --- |
| `src/xml/` | row starts, the row scanner and its tokens, the decoder, sinks, reading in chunks; the laws of boundaries, chunks and rows |
| `src/splitter.rs` | split points and chunk ranges |
| `src/events.rs`, `src/parse.rs` | XML events, and the rows that they make, with recovery |
| `src/column.rs`, `src/columnar.rs` | columns, and the engine that fills and merges them |
| `src/plan.rs`, `src/names.rs` | plans and their settings |
| `src/stream.rs` | rows one by one or in batches |
| `src/laws.rs`, `src/growth.rs`, `src/compose.rs`, `src/tandem.rs` | laws of tables and of reading |
| `src/order.rs`, `src/chunked.rs`, `src/filtering.rs` | the order of columns, reading in chunks, row filters |
| `app/` | the Python module: files, Arrow export, the ingestion engine |
| `tests/` | tests of the compiled library |

Outside crates are reached through trusted items, each with a comment that says what is taken from
it: byte search (`memchr`), UTF-8 validation (`simdutf8`), entities, events and attributes
(`quick-xml`), and integers (`lexical`). Floating point stays in `app/`: a column of such numbers
holds the texts that they were written as.
