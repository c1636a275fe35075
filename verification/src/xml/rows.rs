//! The rows of a document: how many there are, what they hold, and that it makes no difference
//! whether they are read at once, one by one or chunk by chunk.

use vstd::prelude::*;

use crate::markup::{lemma_next_row, next_row};
use crate::stream::rows_from;
use crate::xml::chunks::{
    all_chunks_compose, between_marks, chunk_ends, chunks_compose, clean_cut, cut_between_rows,
    in_chunks,
};
use crate::xml::relate::{keeps_related, lemma_related_row, lemma_related_rows, related_after_chunk};
use crate::xml::scanner::{chunk_flow, one_row_flow, past_row, row_flow, rows_flow, FlowView};
use crate::xml::sink::{CollectorView, ColumnarSink, RowCollector, RowSink};
use crate::xml::splitter::special_spans;
use crate::xml::tokens::bytes_left;

verus! {

/// A collector without rows.
pub open spec fn no_rows(dropped: Set<Seq<char>>) -> CollectorView {
    CollectorView { rows: Seq::empty(), row: Seq::empty(), dropped }
}

/// The rows of a chunk, without the fields of the dropped names.
pub open spec fn rows_of(bytes: Seq<u8>, row_tag: Seq<u8>, dropped: Set<Seq<char>>) -> Seq<
    Seq<(Seq<char>, Seq<char>)>,
> {
    chunk_flow::<RowCollector>(bytes, row_tag, no_rows(dropped)).rows
}

/// The rows from `pos` on come after those that a collector has.
proof fn lemma_rows_added(
    bytes: Seq<u8>,
    pos: int,
    row_tag: Seq<u8>,
    regions: Seq<(int, int)>,
    m: CollectorView,
)
    requires
        0 <= pos,
    ensures
        ({
            let end = rows_flow::<RowCollector>(bytes, pos, row_tag, regions, m);
            end.rows == m.rows + rows_flow::<RowCollector>(
                bytes,
                pos,
                row_tag,
                regions,
                no_rows(m.dropped),
            ).rows && end.dropped == m.dropped
        }),
{
    let first = m.rows;
    let dropped = m.dropped;
    let before = |x: CollectorView, y: CollectorView|
        x.rows == first + y.rows && x.dropped == dropped && y.dropped == dropped;
    let within = |x: CollectorView, y: CollectorView|
        x.rows == first + y.rows && x.dropped == dropped && y.dropped == dropped && x.row == y.row;
    assert forall|x: CollectorView, y: CollectorView|
        #![trigger within(x, y), RowCollector::ended(x)]
        within(x, y) implies before(RowCollector::ended(x), RowCollector::ended(y)) by {
        assert(first + y.rows.push(y.row) =~= (first + y.rows).push(y.row));
    }
    assert(keeps_related::<RowCollector, RowCollector>(before, within, before));
    assert(first + Seq::<Seq<(Seq<char>, Seq<char>)>>::empty() =~= first);
    assert(before(m, no_rows(dropped)));
    lemma_related_rows::<RowCollector, RowCollector>(
        before,
        within,
        bytes,
        pos,
        row_tag,
        regions,
        m,
        no_rows(dropped),
    );
}

/// The rows of a chunk come after those that a collector has; the dropped names stay.
pub proof fn chunk_adds_its_rows(bytes: Seq<u8>, row_tag: Seq<u8>, m: CollectorView)
    ensures
        chunk_flow::<RowCollector>(bytes, row_tag, m).rows == m.rows + rows_of(
            bytes,
            row_tag,
            m.dropped,
        ),
        chunk_flow::<RowCollector>(bytes, row_tag, m).dropped == m.dropped,
{
    lemma_rows_added(bytes, 0, row_tag, special_spans(bytes, 0), m);
}

/// The rows of a document are those of its first part and then those of its last part, where the
/// cut lies between rows.
pub proof fn rows_of_two_chunks(
    bytes: Seq<u8>,
    k: int,
    row_tag: Seq<u8>,
    dropped: Set<Seq<char>>,
)
    requires
        clean_cut(bytes, k),
        between_marks(bytes, k, row_tag),
        chunk_ends::<RowCollector>(bytes.take(k), row_tag, no_rows(dropped)),
    ensures
        rows_of(bytes, row_tag, dropped) == rows_of(bytes.take(k), row_tag, dropped) + rows_of(
            bytes.skip(k),
            row_tag,
            dropped,
        ),
{
    let first = chunk_flow::<RowCollector>(bytes.take(k), row_tag, no_rows(dropped));
    chunks_compose::<RowCollector>(bytes, k, row_tag, no_rows(dropped));
    chunk_adds_its_rows(bytes.take(k), row_tag, no_rows(dropped));
    chunk_adds_its_rows(bytes.skip(k), row_tag, first);
}

/// The rows of the chunks between the cuts, each chunk read by itself.
pub open spec fn rows_of_chunks(
    bytes: Seq<u8>,
    cuts: Seq<int>,
    row_tag: Seq<u8>,
    dropped: Set<Seq<char>>,
) -> Seq<Seq<(Seq<char>, Seq<char>)>>
    decreases cuts.len(),
{
    if cuts.len() < 2 {
        Seq::empty()
    } else {
        rows_of_chunks(bytes, cuts.drop_last(), row_tag, dropped) + rows_of(
            bytes.subrange(cuts[cuts.len() - 2], cuts[cuts.len() - 1]),
            row_tag,
            dropped,
        )
    }
}

proof fn lemma_in_chunks_rows(
    bytes: Seq<u8>,
    cuts: Seq<int>,
    row_tag: Seq<u8>,
    dropped: Set<Seq<char>>,
)
    ensures
        in_chunks::<RowCollector>(bytes, cuts, row_tag, no_rows(dropped)).rows == rows_of_chunks(
            bytes,
            cuts,
            row_tag,
            dropped,
        ),
        in_chunks::<RowCollector>(bytes, cuts, row_tag, no_rows(dropped)).dropped == dropped,
    decreases cuts.len(),
{
    if cuts.len() >= 2 {
        lemma_in_chunks_rows(bytes, cuts.drop_last(), row_tag, dropped);
        chunk_adds_its_rows(
            bytes.subrange(cuts[cuts.len() - 2], cuts[cuts.len() - 1]),
            row_tag,
            in_chunks::<RowCollector>(bytes, cuts.drop_last(), row_tag, no_rows(dropped)),
        );
    }
}

/// The rows of a document are the rows of its chunks, each read by itself and put one after the
/// other, where each cut lies between rows.
pub proof fn rows_of_all_chunks(
    bytes: Seq<u8>,
    cuts: Seq<int>,
    row_tag: Seq<u8>,
    dropped: Set<Seq<char>>,
)
    requires
        cut_between_rows::<RowCollector>(bytes, cuts, row_tag, no_rows(dropped)),
    ensures
        rows_of_chunks(bytes, cuts, row_tag, dropped) == rows_of(bytes, row_tag, dropped),
{
    all_chunks_compose::<RowCollector>(bytes, cuts, row_tag, no_rows(dropped));
    lemma_in_chunks_rows(bytes, cuts, row_tag, dropped);
}

/// A whole row adds one row; a row that is cut off or malformed adds none.
pub proof fn only_whole_rows_count(
    bytes: Seq<u8>,
    lt: int,
    row_tag: Seq<u8>,
    regions: Seq<(int, int)>,
    m: CollectorView,
)
    requires
        0 <= lt < bytes.len(),
    ensures
        ({
            let row = row_flow::<RowCollector>(bytes, lt, row_tag, regions, m);
            if row.0 is At {
                row.1.rows.len() == m.rows.len() + 1 && row.1.rows.drop_last() == m.rows
            } else {
                row.1.rows == m.rows
            }
        }),
{
    let rows = m.rows;
    let before = |x: CollectorView, y: CollectorView| x == y && x.rows == rows;
    let after = |x: CollectorView, y: CollectorView|
        x == y && x.rows.len() == rows.len() + 1 && x.rows.drop_last() == rows;
    assert forall|x: CollectorView, y: CollectorView|
        #![trigger before(x, y), RowCollector::ended(x)]
        before(x, y) implies after(RowCollector::ended(x), RowCollector::ended(y)) by {
        assert(rows.push(x.row).drop_last() =~= rows);
    }
    assert(keeps_related::<RowCollector, RowCollector>(before, before, after));
    assert(before(m, m));
    lemma_related_row::<RowCollector, RowCollector>(
        before,
        before,
        after,
        bytes,
        lt,
        row_tag,
        regions,
        m,
        m,
    );
}

/// No field of the row has one of the names.
pub open spec fn row_lacks(row: Seq<(Seq<char>, Seq<char>)>, names: Set<Seq<char>>) -> bool {
    forall|i: int| 0 <= i < row.len() ==> !names.contains((#[trigger] row[i]).0)
}

/// No field of the rows has one of the names.
pub open spec fn rows_lack(rows: Seq<Seq<(Seq<char>, Seq<char>)>>, names: Set<Seq<char>>) -> bool {
    forall|i: int| 0 <= i < rows.len() ==> row_lacks(#[trigger] rows[i], names)
}

/// A dropped field is in no row.
pub proof fn dropped_fields_are_gone(bytes: Seq<u8>, row_tag: Seq<u8>, dropped: Set<Seq<char>>)
    ensures
        rows_lack(rows_of(bytes, row_tag, dropped), dropped),
{
    let before = |x: CollectorView, y: CollectorView|
        x == y && x.dropped == dropped && rows_lack(x.rows, dropped);
    let within = |x: CollectorView, y: CollectorView|
        x == y && x.dropped == dropped && rows_lack(x.rows, dropped) && row_lacks(x.row, dropped);
    assert(keeps_related::<RowCollector, RowCollector>(before, within, before));
    let m = no_rows(dropped);
    assert(before(m, m));
    related_after_chunk::<RowCollector, RowCollector>(before, within, bytes, row_tag, m, m);
}

/// Reading one row and then the rest is reading all rows.
proof fn lemma_one_row_first(
    bytes: Seq<u8>,
    pos: int,
    row_tag: Seq<u8>,
    regions: Seq<(int, int)>,
    r: Seq<(Seq<char>, Seq<char>)>,
    m: CollectorView,
)
    requires
        0 <= pos,
        m.dropped == Set::<Seq<char>>::empty(),
    ensures
        ({
            let read = one_row_flow::<RowSink>(bytes, pos, row_tag, regions, r);
            let all = rows_flow::<RowCollector>(bytes, pos, row_tag, regions, m);
            match read.0 {
                Some(next) => pos < next && all.rows == m.rows.push(read.1)
                    + rows_flow::<RowCollector>(
                    bytes,
                    next,
                    row_tag,
                    regions,
                    no_rows(Set::empty()),
                ).rows,
                None => all.rows == m.rows,
            }
        }),
    decreases bytes_left(bytes, pos),
{
    let rows = m.rows;
    let before = |x: Seq<(Seq<char>, Seq<char>)>, y: CollectorView|
        y.rows == rows && y.dropped == Set::<Seq<char>>::empty();
    let within = |x: Seq<(Seq<char>, Seq<char>)>, y: CollectorView|
        y.rows == rows && y.dropped == Set::<Seq<char>>::empty() && y.row == x;
    let after = |x: Seq<(Seq<char>, Seq<char>)>, y: CollectorView|
        y.rows == rows.push(x) && y.dropped == Set::<Seq<char>>::empty();
    assert(keeps_related::<RowSink, RowCollector>(before, within, after));
    assert(before(r, m));
    lemma_next_row(bytes, row_tag, regions, pos);
    if let Some(start) = next_row(bytes, row_tag, regions, pos) {
        lemma_related_row::<RowSink, RowCollector>(
            before,
            within,
            after,
            bytes,
            start,
            row_tag,
            regions,
            r,
            m,
        );
        let one = row_flow::<RowSink>(bytes, start, row_tag, regions, r);
        let all = row_flow::<RowCollector>(bytes, start, row_tag, regions, m);
        match one.0 {
            FlowView::At(next) => {
                lemma_rows_added(bytes, past_row(start, next), row_tag, regions, all.1);
            },
            FlowView::Truncated => {},
            FlowView::Recover => {
                lemma_one_row_first(bytes, start + 1, row_tag, regions, one.1, all.1);
            },
        }
    }
}

/// Reading rows one by one gives the rows in order: `n` reads give the first `n` rows, or all of
/// them where there are fewer.
proof fn lemma_reads(
    bytes: Seq<u8>,
    pos: int,
    row_tag: Seq<u8>,
    regions: Seq<(int, int)>,
    n: nat,
)
    requires
        0 <= pos,
    ensures
        ({
            let all = rows_flow::<RowCollector>(
                bytes,
                pos,
                row_tag,
                regions,
                no_rows(Set::empty()),
            ).rows;
            rows_from(bytes, pos, row_tag, regions, n).0 == (if n <= all.len() {
                all.take(n as int)
            } else {
                all
            })
        }),
    decreases n,
{
    let m = no_rows(Set::empty());
    lemma_one_row_first(bytes, pos, row_tag, regions, Seq::empty(), m);
    let all = rows_flow::<RowCollector>(bytes, pos, row_tag, regions, m).rows;
    if n == 0 {
        assert(all.take(0) =~= Seq::empty());
    } else {
        let read = one_row_flow::<RowSink>(bytes, pos, row_tag, regions, Seq::empty());
        match read.0 {
            Some(next) => {
                lemma_reads(bytes, next, row_tag, regions, (n - 1) as nat);
                let rest = rows_flow::<RowCollector>(bytes, next, row_tag, regions, m).rows;
                assert(all =~= seq![read.1] + rest);
                if n <= all.len() {
                    assert(all.take(n as int) =~= seq![read.1] + rest.take(n - 1));
                }
            },
            None => {
                assert(all =~= Seq::empty());
            },
        }
    }
}

/// Reading a document row by row gives the rows that reading it at once gives: `n` reads give the
/// first `n` of them, or all where there are fewer.
pub proof fn stream_reads_all_rows(bytes: Seq<u8>, row_tag: Seq<u8>, n: nat)
    ensures
        ({
            let all = rows_of(bytes, row_tag, Set::empty());
            rows_from(bytes, 0, row_tag, special_spans(bytes, 0), n).0 == (if n <= all.len() {
                all.take(n as int)
            } else {
                all
            })
        }),
{
    lemma_reads(bytes, 0, row_tag, special_spans(bytes, 0), n);
}

} // verus!
