//! Rows one by one.

use std::ops::Range;

use vstd::prelude::*;
use vstd::slice::slice_to_vec;
use vstd::utf8::valid_utf8;

use crate::error::Error;
use crate::markup::spans;
use crate::xml::decoder::CrystalXmlDecoder;
use crate::xml::scanner::{lemma_ordered_spans_fit, one_row_flow, scan_one_row};
use crate::xml::sink::{row_view, ColumnarSink, RowSink};
use crate::xml::splitter::{find_special_regions, special_spans};
use crate::xml::tokens::spans_fit;

verus! {

/// The rows that up to `n` reads from `pos` on give, and where the next read goes on.
pub open spec fn rows_from(
    bytes: Seq<u8>,
    pos: int,
    row_tag: Seq<u8>,
    regions: Seq<(int, int)>,
    n: nat,
) -> (Seq<Seq<(Seq<char>, Seq<char>)>>, int)
    decreases n,
{
    if n == 0 {
        (Seq::empty(), pos)
    } else {
        let read = one_row_flow::<RowSink>(bytes, pos, row_tag, regions, Seq::empty());
        match read.0 {
            Some(next) => {
                let rest = rows_from(bytes, next, row_tag, regions, (n - 1) as nat);
                (seq![read.1] + rest.0, rest.1)
            },
            None => (Seq::empty(), pos),
        }
    }
}

/// The lengths of a list of rows.
pub open spec fn row_lens(rows: Seq<Seq<(Seq<char>, Seq<char>)>>) -> Seq<nat> {
    rows.map_values(|row: Seq<(Seq<char>, Seq<char>)>| row.len())
}

/// The lengths in a list.
pub open spec fn as_lens(lens: Seq<usize>) -> Seq<nat> {
    Seq::new(lens.len(), |i: int| lens[i] as nat)
}

/// Reads the rows of a document one by one, or many at a time. The caller keeps the bytes of the
/// document and hands in the same ones each time.
pub struct RowParser {
    pos: usize,
    regions: Vec<Range<usize>>,
    row_tag: Vec<u8>,
    sink: RowSink,
    batch_vals: Vec<(String, String)>,
    batch_lens: Vec<usize>,
}

impl RowParser {
    /// Where the next read starts.
    pub closed spec fn pos(&self) -> int {
        self.pos as int
    }

    /// The name of the rows.
    pub closed spec fn tag(&self) -> Seq<u8> {
        self.row_tag@
    }

    /// The current row.
    pub closed spec fn current(&self) -> Seq<(Seq<char>, Seq<char>)> {
        row_view(self.sink.row@)
    }

    /// The fields of the rows of the last batch, one row after the other, and the number of fields
    /// of each row.
    pub closed spec fn batch(&self) -> (Seq<(Seq<char>, Seq<char>)>, Seq<nat>) {
        (row_view(self.batch_vals@), as_lens(self.batch_lens@))
    }

    /// The parser reads this document.
    pub closed spec fn reads(&self, bytes: Seq<u8>) -> bool {
        &&& spans(self.regions@) == special_spans(bytes, 0)
        &&& spans_fit(spans(self.regions@), bytes.len() as int)
    }

    /// A parser at the start of a document. Input that is not valid UTF-8 is refused.
    pub fn new(bytes: &[u8], row_tag: &[u8]) -> (parser: Result<RowParser, Error>)
        ensures
            match parser {
                Ok(p) => valid_utf8(bytes@) && p.reads(bytes@) && p.pos() == 0 && p.tag()
                    == row_tag@ && p.current().len() == 0 && p.batch().0.len() == 0
                    && p.batch().1.len() == 0,
                Err(e) => !valid_utf8(bytes@) && e is Utf8,
            },
    {
        let regions = find_special_regions(bytes).0;
        let decoder = CrystalXmlDecoder::with_row_tag(row_tag);
        match decoder.validate(bytes) {
            Ok(_) => {
                proof {
                    lemma_ordered_spans_fit(spans(regions@), 0, bytes@.len() as int);
                }
                Ok(
                    RowParser {
                        pos: 0,
                        regions,
                        row_tag: slice_to_vec(row_tag),
                        sink: RowSink::new(),
                        batch_vals: Vec::new(),
                        batch_lens: Vec::new(),
                    },
                )
            },
            Err(e) => Err(e),
        }
    }

    /// Reads the next whole row. Returns the number of its fields, or nothing where the rows run
    /// out or the input cuts a row off.
    pub fn read_one_row(&mut self, bytes: &[u8]) -> (fields: Option<usize>)
        requires
            old(self).reads(bytes@),
        ensures
            final(self).reads(bytes@),
            final(self).tag() == old(self).tag(),
            final(self).batch() == old(self).batch(),
            ({
                let read = one_row_flow::<RowSink>(
                    bytes@,
                    old(self).pos(),
                    old(self).tag(),
                    special_spans(bytes@, 0),
                    Seq::empty(),
                );
                &&& final(self).current() == read.1
                &&& match read.0 {
                    Some(next) => fields == Some(read.1.len() as usize) && final(self).pos() == next
                        && final(self).current().len() <= usize::MAX,
                    None => fields is None && final(self).pos() == old(self).pos(),
                }
            }),
    {
        self.sink.begin_row();
        match scan_one_row(bytes, self.pos, self.row_tag.as_slice(), &self.regions, &mut self.sink) {
            Some(next) => {
                self.pos = next;
                Some(self.sink.row.len())
            },
            None => None,
        }
    }

    /// The fields of the current row. Leaves none behind.
    pub fn take_row(&mut self) -> (row: Vec<(String, String)>)
        ensures
            row_view(row@) == old(self).current(),
            final(self).current().len() == 0,
            final(self).pos() == old(self).pos(),
            final(self).tag() == old(self).tag(),
            final(self).batch() == old(self).batch(),
            forall|bytes: Seq<u8>| #[trigger] final(self).reads(bytes) == old(self).reads(bytes),
    {
        let mut row: Vec<(String, String)> = Vec::new();
        std::mem::swap(&mut row, &mut self.sink.row);
        row
    }

    /// Reads up to `n` whole rows. Returns how many there are.
    pub fn read_batch_into(&mut self, bytes: &[u8], n: usize) -> (count: usize)
        requires
            old(self).reads(bytes@),
        ensures
            final(self).reads(bytes@),
            final(self).tag() == old(self).tag(),
            ({
                let read = rows_from(
                    bytes@,
                    old(self).pos(),
                    old(self).tag(),
                    special_spans(bytes@, 0),
                    n as nat,
                );
                &&& count == read.0.len()
                &&& final(self).pos() == read.1
                &&& final(self).batch() == (read.0.flatten(), row_lens(read.0))
            }),
    {
        self.batch_vals = Vec::new();
        self.batch_lens = Vec::new();
        let ghost regions = special_spans(bytes@, 0);
        let ghost whole = rows_from(bytes@, self.pos(), self.tag(), regions, n as nat);
        let ghost mut done: Seq<Seq<(Seq<char>, Seq<char>)>> = Seq::empty();
        let mut rows: usize = 0;
        proof {
            assert(self.batch().0 =~= done.flatten());
            assert(self.batch().1 =~= row_lens(done));
            assert(done + whole.0 =~= whole.0);
        }
        while rows < n
            invariant
                rows <= n,
                self.reads(bytes@),
                self.tag() == old(self).tag(),
                regions == special_spans(bytes@, 0),
                whole == rows_from(bytes@, old(self).pos(), self.tag(), regions, n as nat),
                rows == done.len(),
                self.batch() == (done.flatten(), row_lens(done)),
                whole.0 == done + rows_from(
                    bytes@,
                    self.pos(),
                    self.tag(),
                    regions,
                    (n - rows) as nat,
                ).0,
                whole.1 == rows_from(bytes@, self.pos(), self.tag(), regions, (n - rows) as nat).1,
            decreases n - rows,
        {
            let ghost pos = self.pos();
            let ghost before = self.batch_vals@;
            let ghost lens = self.batch_lens@;
            match self.read_one_row(bytes) {
                Some(fields) => {
                    let mut row = self.take_row();
                    assert(self.reads(bytes@));
                    let ghost added = row@;
                    self.batch_vals.append(&mut row);
                    self.batch_lens.push(fields);
                    proof {
                        let r = row_view(added);
                        assert(self.batch().0 =~= row_view(before) + r);
                        done.lemma_flatten_push(r);
                        assert(self.batch().1 =~= as_lens(lens).push(fields as nat));
                        assert(row_lens(done.push(r)) =~= row_lens(done).push(r.len()));
                        let rest = rows_from(
                            bytes@,
                            self.pos(),
                            self.tag(),
                            regions,
                            (n - rows - 1) as nat,
                        );
                        assert(done + (seq![r] + rest.0) =~= done.push(r) + rest.0);
                        done = done.push(r);
                    }
                    rows += 1;
                },
                None => {
                    assert(done + Seq::<Seq<(Seq<char>, Seq<char>)>>::empty() =~= done);
                    return rows;
                },
            }
        }
        assert(done + Seq::<Seq<(Seq<char>, Seq<char>)>>::empty() =~= done);
        rows
    }

    /// The rows of the last batch: their fields one after the other, and the number of fields of
    /// each row.
    pub fn batch_parts(&self) -> (parts: (&[(String, String)], &[usize]))
        ensures
            (row_view(parts.0@), as_lens(parts.1@)) == self.batch(),
    {
        (self.batch_vals.as_slice(), self.batch_lens.as_slice())
    }
}

} // verus!
