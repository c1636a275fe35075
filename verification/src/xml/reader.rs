//! Reading a document whole, or in chunks that are merged.

use std::ops::Range;

use vstd::prelude::*;
use vstd::utf8::valid_utf8;

use crate::error::Error;
use crate::input::{row_capacity, split_points_to_ranges};
use crate::markup::{lemma_next_row, spans};
use crate::splitter::{as_points, ascending_gaps};
use crate::text::{ascii_edge, lemma_slice_valid};
use crate::xml::chunks::{
    all_chunks_compose, between_marks, clean_cut, cut_between_rows, in_chunks,
};
use crate::xml::decoder::{bad_chunk, CrystalXmlDecoder};
use crate::xml::rows::{chunk_adds_its_rows, no_rows, rows_of};
use crate::xml::scanner::chunk_flow;
use crate::xml::sink::{some_function, CollectorView, ColumnarSink, RowCollector};
use crate::xml::splitter::special_spans;

verus! {

/// A sink that the rows of another one can be appended to.
///
/// As with any sink, what it does is described by what it makes of the model.
pub trait MergingSink: ColumnarSink {
    /// The model of a sink with the same settings and without rows.
    open spec fn cleared(m: Self::Model) -> Self::Model {
        some_function(9, m)
    }

    /// The model with the rows of another one after its own; where the two do not go together, the
    /// model that is left, and the message.
    open spec fn joined(m: Self::Model, other: Self::Model) -> Result<
        Self::Model,
        (Self::Model, Seq<char>),
    > {
        some_function(10, (m, other))
    }

    /// A sink with the same settings and without rows, for about `rows` rows.
    fn fresh(&self, rows: usize) -> (sink: Self)
        ensures
            sink.model() == Self::cleared(self.model()),
    ;

    /// Appends the rows of another sink. Fails, with a message, where the two do not go together.
    fn absorb(&mut self, other: Self) -> (done: Result<(), String>)
        ensures
            match Self::joined(old(self).model(), other.model()) {
                Ok(m) => done is Ok && final(self).model() == m,
                Err(refusal) => final(self).model() == refusal.0 && (done matches Err(message)
                    && message@ == refusal.1),
            },
    ;
}

/// Why a document cannot be read in chunks.
#[derive(Clone, Debug, PartialEq, Eq)]
pub enum ReadError {
    /// A chunk is not valid UTF-8.
    Xml(String),
    /// The rows of a chunk do not go with those before it.
    Merge(String),
}

/// How reading in chunks ends.
#[verifier::ext_equal]
pub enum ReadEnd<M> {
    /// All chunks are read.
    Done { m: M },
    /// The chunk from `start` to `end` is not valid UTF-8.
    Invalid { m: M, start: int, end: int },
    /// The rows of a chunk do not go with those before it.
    Apart { m: M, message: Seq<char> },
}

/// What reading chunks makes of a sink: each is read into a sink of its own, whose rows come after
/// those that are there. The first chunk that is not valid UTF-8 or does not go with the rows
/// before it ends the reading.
pub open spec fn read_in_chunks<S: MergingSink>(
    bytes: Seq<u8>,
    chunks: Seq<(int, int)>,
    row_tag: Seq<u8>,
    m: S::Model,
) -> ReadEnd<S::Model>
    decreases chunks.len(),
{
    if chunks.len() == 0 {
        ReadEnd::Done { m }
    } else {
        match read_in_chunks::<S>(bytes, chunks.drop_last(), row_tag, m) {
            ReadEnd::Done { m: before } => {
                let (start, end) = chunks.last();
                let chunk = bytes.subrange(start, end);
                if !valid_utf8(chunk) {
                    ReadEnd::Invalid { m: before, start, end }
                } else {
                    match S::joined(before, chunk_flow::<S>(chunk, row_tag, S::cleared(before))) {
                        Ok(after) => ReadEnd::Done { m: after },
                        Err((left, message)) => ReadEnd::Apart { m: left, message },
                    }
                }
            },
            end => end,
        }
    }
}

/// Reading that ends early ends there whatever comes after.
proof fn lemma_early_end<S: MergingSink>(
    bytes: Seq<u8>,
    chunks: Seq<(int, int)>,
    n: int,
    row_tag: Seq<u8>,
    m: S::Model,
)
    requires
        0 <= n <= chunks.len(),
        !(read_in_chunks::<S>(bytes, chunks.take(n), row_tag, m) is Done),
    ensures
        read_in_chunks::<S>(bytes, chunks, row_tag, m) == read_in_chunks::<S>(
            bytes,
            chunks.take(n),
            row_tag,
            m,
        ),
    decreases chunks.len() - n,
{
    if n == chunks.len() {
        assert(chunks.take(n) =~= chunks);
    } else {
        assert(chunks.take(n + 1).drop_last() =~= chunks.take(n));
        lemma_early_end::<S>(bytes, chunks, n + 1, row_tag, m);
    }
}

/// The chunks lie in the document.
pub open spec fn chunks_fit(chunks: Seq<(int, int)>, len: int) -> bool {
    forall|k: int| 0 <= k < chunks.len() ==> 0 <= (#[trigger] chunks[k]).0 <= chunks[k].1 <= len
}

/// The chunks that the split points cut a document into: from each point to the next, where that
/// one is larger. Fewer than two points cut nothing.
pub open spec fn chunks_at(points: Seq<int>, len: int) -> Seq<(int, int)> {
    if points.len() < 2 {
        seq![(0int, len)]
    } else {
        ascending_gaps(points)
    }
}

/// Between points of a document lie chunks of it.
proof fn lemma_gaps_fit(points: Seq<int>, len: int)
    requires
        forall|i: int| 0 <= i < points.len() ==> 0 <= #[trigger] points[i] <= len,
    ensures
        chunks_fit(ascending_gaps(points), len),
    decreases points.len(),
{
    if points.len() >= 2 {
        let front = points.drop_last();
        assert forall|i: int| 0 <= i < front.len() implies 0 <= #[trigger] front[i] <= len by {
            assert(front[i] == points[i]);
        }
        lemma_gaps_fit(front, len);
        let start = points[points.len() - 2];
        let end = points[points.len() - 1];
        assert(0 <= start <= len && 0 <= end <= len);
    }
}

impl CrystalXmlDecoder {
    /// Delivers the rows of a document to `sink`. A document that is not valid UTF-8 is refused.
    pub fn read<S: ColumnarSink>(&self, bytes: &[u8], sink: &mut S) -> (done: Result<(), Error>)
        ensures
            if valid_utf8(bytes@) {
                done is Ok && final(sink).model() == chunk_flow::<S>(
                    bytes@,
                    self.tag(),
                    old(sink).model(),
                )
            } else {
                done matches Err(Error::Utf8) && final(sink).model() == old(sink).model()
            },
    {
        match self.validate(bytes) {
            Ok(_) => self.parse_chunk(bytes, sink),
            Err(e) => Err(e),
        }
    }

    /// Reads the chunks of a document, each into a sink of its own, and appends their rows to
    /// `sink`. A row is taken to have about `row_bytes` bytes.
    pub fn read_chunks<S: MergingSink>(
        &self,
        bytes: &[u8],
        ranges: &[Range<usize>],
        row_bytes: usize,
        sink: &mut S,
    ) -> (done: Result<(), ReadError>)
        requires
            chunks_fit(spans(ranges@), bytes@.len() as int),
        ensures
            match read_in_chunks::<S>(bytes@, spans(ranges@), self.tag(), old(sink).model()) {
                ReadEnd::Done { m } => done is Ok && final(sink).model() == m,
                ReadEnd::Invalid { m, start, end } => final(sink).model() == m && (done matches Err(
                    ReadError::Xml(message),
                ) && message@ == bad_chunk(start, end)),
                ReadEnd::Apart { m, message } => final(sink).model() == m && (done matches Err(
                    ReadError::Merge(text),
                ) && text@ == message),
            },
    {
        let ghost chunks = spans(ranges@);
        let ghost m = sink.model();
        let mut i: usize = 0;
        assert(chunks.take(0) =~= Seq::empty());
        while i < ranges.len()
            invariant
                i <= ranges@.len(),
                chunks == spans(ranges@),
                chunks_fit(chunks, bytes@.len() as int),
                m == old(sink).model(),
                read_in_chunks::<S>(bytes@, chunks.take(i as int), self.tag(), m) == (
                ReadEnd::Done { m: sink.model() }),
            decreases ranges@.len() - i,
        {
            let start = ranges[i].start;
            let end = ranges[i].end;
            assert(chunks[i as int] == (start as int, end as int));
            assert(chunks.take(i + 1).drop_last() =~= chunks.take(i as int));
            assert(chunks.take(i + 1).last() == chunks[i as int]);
            let mut own = sink.fresh(row_capacity(end - start, row_bytes));
            match self.parse_range(bytes, start..end, &mut own) {
                Ok(_) => {},
                Err(message) => {
                    proof {
                        lemma_early_end::<S>(bytes@, chunks, i + 1, self.tag(), m);
                    }
                    return Err(ReadError::Xml(message));
                },
            }
            match sink.absorb(own) {
                Ok(_) => {},
                Err(message) => {
                    proof {
                        lemma_early_end::<S>(bytes@, chunks, i + 1, self.tag(), m);
                    }
                    return Err(ReadError::Merge(message));
                },
            }
            i += 1;
        }
        assert(chunks.take(i as int) =~= chunks);
        Ok(())
    }

    /// Reads a document in the chunks that the split points cut it into, and appends their rows to
    /// `sink`. A row is taken to have about `row_bytes` bytes.
    pub fn read_split<S: MergingSink>(
        &self,
        bytes: &[u8],
        points: &[usize],
        row_bytes: usize,
        sink: &mut S,
    ) -> (done: Result<(), ReadError>)
        requires
            forall|i: int| 0 <= i < points@.len() ==> #[trigger] points@[i] <= bytes@.len(),
        ensures
            match read_in_chunks::<S>(
                bytes@,
                chunks_at(as_points(points@), bytes@.len() as int),
                self.tag(),
                old(sink).model(),
            ) {
                ReadEnd::Done { m } => done is Ok && final(sink).model() == m,
                ReadEnd::Invalid { m, start, end } => final(sink).model() == m && (done matches Err(
                    ReadError::Xml(message),
                ) && message@ == bad_chunk(start, end)),
                ReadEnd::Apart { m, message } => final(sink).model() == m && (done matches Err(
                    ReadError::Merge(text),
                ) && text@ == message),
            },
    {
        let ranges = split_points_to_ranges(points, bytes.len());
        proof {
            lemma_gaps_fit(as_points(points@), bytes@.len() as int);
        }
        self.read_chunks(bytes, ranges.as_slice(), row_bytes, sink)
    }
}

impl MergingSink for RowCollector {
    open spec fn cleared(m: CollectorView) -> CollectorView {
        CollectorView { rows: Seq::empty(), row: Seq::empty(), ..m }
    }

    open spec fn joined(m: CollectorView, other: CollectorView) -> Result<
        CollectorView,
        (CollectorView, Seq<char>),
    > {
        Ok(CollectorView { rows: m.rows + other.rows, ..m })
    }

    fn fresh(&self, rows: usize) -> (sink: Self) {
        RowCollector::new(self.dropped_names())
    }

    fn absorb(&mut self, other: Self) -> (done: Result<(), String>) {
        self.take_rows(other);
        Ok(())
    }
}

/// Appending rows is taking them: a sink that appends the rows which a sink of its own took from a
/// chunk and a sink that takes the rows itself are alike, where they were so before.
pub open spec fn appends_rows<S: MergingSink>(
    alike: spec_fn(S::Model, S::Model) -> bool,
    row_tag: Seq<u8>,
) -> bool {
    forall|chunk: Seq<u8>, a: S::Model, b: S::Model|
        alike(a, b) ==> ((#[trigger] S::joined(
            a,
            chunk_flow::<S>(chunk, row_tag, S::cleared(a)),
        )) matches Ok(c) && alike(c, #[trigger] chunk_flow::<S>(chunk, row_tag, b)))
}

/// Reading the chunks between the first `n` cuts, one chunk after the other.
proof fn lemma_split_reads<S: MergingSink>(
    alike: spec_fn(S::Model, S::Model) -> bool,
    bytes: Seq<u8>,
    cuts: Seq<int>,
    n: int,
    row_tag: Seq<u8>,
    m: S::Model,
)
    requires
        valid_utf8(bytes),
        cut_between_rows::<S>(bytes, cuts, row_tag, m),
        appends_rows::<S>(alike, row_tag),
        alike(m, m),
        0 <= n <= cuts.len(),
    ensures
        read_in_chunks::<S>(bytes, ascending_gaps(cuts.take(n)), row_tag, m) matches ReadEnd::Done {
            m: read,
        } && alike(read, in_chunks::<S>(bytes, cuts.take(n), row_tag, m)),
    decreases n,
{
    let some = cuts.take(n);
    if n >= 2 {
        lemma_split_reads::<S>(alike, bytes, cuts, n - 1, row_tag, m);
        assert(some.drop_last() =~= cuts.take(n - 1));
        let start = some[n - 2];
        let end = some[n - 1];
        assert(start == cuts[n - 2] && end == cuts[n - 1]);
        assert(start <= end);
        let chunk = bytes.subrange(start, end);
        let taken = in_chunks::<S>(bytes, cuts.take(n - 1), row_tag, m);
        if start < end {
            lemma_cut_is_edge::<S>(bytes, cuts, n - 2, row_tag, m);
            lemma_cut_is_edge::<S>(bytes, cuts, n - 1, row_tag, m);
            lemma_slice_valid(bytes, start, end);
            let gaps = ascending_gaps(some);
            assert(gaps.drop_last() =~= ascending_gaps(cuts.take(n - 1)));
            assert(gaps.last() == (start, end));
            if let ReadEnd::Done { m: read } = read_in_chunks::<S>(
                bytes,
                gaps.drop_last(),
                row_tag,
                m,
            ) {
                let part = S::joined(read, chunk_flow::<S>(chunk, row_tag, S::cleared(read)));
                assert(alike(part->Ok_0, chunk_flow::<S>(chunk, row_tag, taken)));
            }
        } else {
            lemma_next_row(chunk, row_tag, special_spans(chunk, 0), 0);
            assert(chunk_flow::<S>(chunk, row_tag, taken) == taken);
        }
    }
}

/// A cut between rows does not go through a character.
proof fn lemma_cut_is_edge<S: ColumnarSink>(
    bytes: Seq<u8>,
    cuts: Seq<int>,
    i: int,
    row_tag: Seq<u8>,
    m: S::Model,
)
    requires
        cut_between_rows::<S>(bytes, cuts, row_tag, m),
        0 <= i < cuts.len(),
    ensures
        ascii_edge(bytes, cuts[i]),
{
    if i < cuts.len() - 1 {
        assert(clean_cut(bytes, cuts[i]) && between_marks(bytes, cuts[i], row_tag));
    }
}

/// Reading a document in chunks is reading it in one, for every sink for which appending rows is
/// taking them, where each cut lies between rows: no chunk is refused, and the sink is left like
/// one that takes the rows of the document itself.
pub proof fn split_reading_is_like_whole_reading<S: MergingSink>(
    alike: spec_fn(S::Model, S::Model) -> bool,
    bytes: Seq<u8>,
    cuts: Seq<int>,
    row_tag: Seq<u8>,
    m: S::Model,
)
    requires
        valid_utf8(bytes),
        cut_between_rows::<S>(bytes, cuts, row_tag, m),
        appends_rows::<S>(alike, row_tag),
        alike(m, m),
    ensures
        read_in_chunks::<S>(
            bytes,
            chunks_at(cuts, bytes.len() as int),
            row_tag,
            m,
        ) matches ReadEnd::Done { m: read } && alike(read, chunk_flow::<S>(bytes, row_tag, m)),
{
    if cuts.len() < 2 {
        let all = seq![(0int, bytes.len() as int)];
        assert(all.drop_last() =~= Seq::empty());
        assert(bytes.subrange(0, bytes.len() as int) =~= bytes);
        let part = S::joined(m, chunk_flow::<S>(bytes, row_tag, S::cleared(m)));
        assert(alike(part->Ok_0, chunk_flow::<S>(bytes, row_tag, m)));
    } else {
        lemma_split_reads::<S>(alike, bytes, cuts, cuts.len() as int, row_tag, m);
        assert(cuts.take(cuts.len() as int) =~= cuts);
        all_chunks_compose::<S>(bytes, cuts, row_tag, m);
    }
}

/// Reading a document in chunks gives the rows that reading it in one gives, where each cut lies
/// between rows: no chunk is refused, and the rows of the chunks come one after the other.
pub proof fn split_reading_is_whole_reading(
    bytes: Seq<u8>,
    cuts: Seq<int>,
    row_tag: Seq<u8>,
    dropped: Set<Seq<char>>,
)
    requires
        valid_utf8(bytes),
        cut_between_rows::<RowCollector>(bytes, cuts, row_tag, no_rows(dropped)),
    ensures
        read_in_chunks::<RowCollector>(
            bytes,
            chunks_at(cuts, bytes.len() as int),
            row_tag,
            no_rows(dropped),
        ) matches ReadEnd::Done { m } && m.rows == rows_of(bytes, row_tag, dropped),
{
    let alike = |a: CollectorView, b: CollectorView| a.rows == b.rows && a.dropped == b.dropped;
    assert forall|chunk: Seq<u8>, a: CollectorView, b: CollectorView| alike(a, b) implies ((
    #[trigger] RowCollector::joined(
        a,
        chunk_flow::<RowCollector>(chunk, row_tag, RowCollector::cleared(a)),
    )) matches Ok(c) && alike(c, #[trigger] chunk_flow::<RowCollector>(chunk, row_tag, b))) by {
        chunk_adds_its_rows(chunk, row_tag, b);
    }
    split_reading_is_like_whole_reading::<RowCollector>(
        alike,
        bytes,
        cuts,
        row_tag,
        no_rows(dropped),
    );
}

} // verus!
