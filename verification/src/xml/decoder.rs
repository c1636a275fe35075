//! The decoder for Crystal Reports XML.

use std::ops::Range;

use vstd::prelude::*;
use vstd::slice::{slice_subrange, slice_to_vec};
use vstd::utf8::{decode_utf8, valid_utf8};

use crate::error::Error;
use crate::numbers::{decimal, size_text};
use crate::text::is_utf8;
use crate::xml::scanner::{chunk_flow, scan_chunk};
use crate::xml::sink::ColumnarSink;

verus! {

/// Parses the rows of Crystal Reports XML into the fields of a sink. The rows are the elements of
/// one name.
#[derive(Clone, Debug, Default)]
pub struct CrystalXmlDecoder {
    row_tag: Vec<u8>,
}

/// The message of a chunk that is not valid UTF-8.
pub open spec fn bad_chunk(start: int, end: int) -> Seq<char> {
    "Columnar parse error in chunk "@ + decode_utf8(decimal(start)) + ".."@ + decode_utf8(
        decimal(end),
    ) + ": invalid UTF-8: invalid utf-8 sequence"@
}

/// The message of a chunk that is not valid UTF-8.
fn bad_chunk_text(start: usize, end: usize) -> (text: String)
    ensures
        text@ == bad_chunk(start as int, end as int),
{
    let mut text = "Columnar parse error in chunk ".to_string();
    let first = size_text(start);
    let last = size_text(end);
    text.append(first.as_str());
    text.append("..");
    text.append(last.as_str());
    text.append(": invalid UTF-8: invalid utf-8 sequence");
    text
}

impl CrystalXmlDecoder {
    /// The name of the rows.
    pub closed spec fn tag(&self) -> Seq<u8> {
        self.row_tag@
    }

    /// A decoder for rows of the given name.
    pub fn with_row_tag(row_tag: &[u8]) -> (decoder: Self)
        ensures
            decoder.tag() == row_tag@,
    {
        CrystalXmlDecoder { row_tag: slice_to_vec(row_tag) }
    }

    /// Refuses input that is not valid UTF-8.
    pub fn validate(&self, bytes: &[u8]) -> (done: Result<(), Error>)
        ensures
            valid_utf8(bytes@) ==> done is Ok,
            !valid_utf8(bytes@) ==> done matches Err(Error::Utf8),
    {
        if is_utf8(bytes) {
            Ok(())
        } else {
            Err(Error::Utf8)
        }
    }

    /// Delivers the rows of a chunk to `sink`. No chunk is refused.
    pub fn parse_chunk<S: ColumnarSink>(&self, bytes: &[u8], sink: &mut S) -> (done: Result<
        (),
        Error,
    >)
        ensures
            done is Ok,
            final(sink).model() == chunk_flow::<S>(bytes@, self.tag(), old(sink).model()),
    {
        scan_chunk(bytes, self.row_tag.as_slice(), sink)
    }

    /// Delivers the rows of the chunk `range` of a document to `sink`. A chunk that is not valid
    /// UTF-8 is refused with a message that names it.
    pub fn parse_range<S: ColumnarSink>(&self, bytes: &[u8], range: Range<usize>, sink: &mut S) -> (
    done: Result<(), String>)
        requires
            range.start <= range.end <= bytes@.len(),
        ensures
            ({
                let chunk = bytes@.subrange(range.start as int, range.end as int);
                if valid_utf8(chunk) {
                    done is Ok && final(sink).model() == chunk_flow::<S>(
                        chunk,
                        self.tag(),
                        old(sink).model(),
                    )
                } else {
                    final(sink).model() == old(sink).model() && (done matches Err(message)
                        && message@ == bad_chunk(range.start as int, range.end as int))
                }
            }),
    {
        let chunk = slice_subrange(bytes, range.start, range.end);
        if !is_utf8(chunk) {
            return Err(bad_chunk_text(range.start, range.end));
        }
        let _ = self.parse_chunk(chunk, sink);
        Ok(())
    }
}

} // verus!
