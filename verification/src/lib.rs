//! Crystal Reports XML rows into columns.

pub mod bytes;
pub mod column;
pub mod chunked;
pub mod columnar;
pub mod compose;
pub mod documents;
pub mod error;
pub mod events;
pub mod filtering;
pub mod growth;
pub mod input;
pub mod inputs;
pub mod laws;
pub mod markup;
pub mod names;
pub mod numbers;
pub mod order;
pub mod parse;
pub mod plan;
pub mod planning;
pub mod reading;
pub mod recovery;
pub mod splitter;
pub mod stream;
pub mod tables;
pub mod tandem;
pub mod text;
pub mod values;
pub mod xml;
