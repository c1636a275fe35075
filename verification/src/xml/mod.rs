//! Crystal Reports XML: row starts, the row scanner and the decoder.

pub mod boundaries;
pub mod chunks;
pub mod decoder;
pub mod embed;
pub mod reader;
pub mod records;
pub mod relate;
pub mod rows;
pub mod scanned;
pub mod scanner;
pub mod sink;
pub mod splitter;
pub mod tokens;
pub mod validity;
pub mod written;
