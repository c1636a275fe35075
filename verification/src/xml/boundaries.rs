//! The boundaries that the splitter gives lie between rows.

use vstd::prelude::*;
use vstd::utf8::valid_utf8;

use crate::bytes::{
    byte_from, bytes_from, first_where, holds_byte, lemma_byte_from, lemma_bytes_from,
    lemma_first_where, lemma_first_where_is, occurs_at, BANG, GT, LT,
};
use crate::markup::{
    construct_end, ends_name, in_span, in_spans, lemma_next_row, next_row, past_close, row_start_at,
    span_end, CDATA_CLOSE, CDATA_OPEN, COMMENT_CLOSE, COMMENT_OPEN,
};
use crate::splitter::{
    ascending_gaps, chunk_spans, cuts_at, lemma_with_split_points, split_points,
};
use crate::xml::chunks::{
    between_marks, chunk_ends, clean_cut, cut_between_rows, lemma_cut_covers, lemma_row_ends,
    lemma_span_end_moved, moved_spans, row_starts_are_cuts, rows_end, uncrossed,
};
use crate::xml::embed::{cover_alike, lemma_moved_row, stands_in};
use crate::xml::relate::{keeps_related, lemma_related_row};
use crate::xml::reader::{
    appends_rows, chunks_at, read_in_chunks, split_reading_is_like_whole_reading,
    split_reading_is_whole_reading, MergingSink, ReadEnd,
};
use crate::xml::rows::{no_rows, rows_of};
use crate::xml::scanner::{chunk_flow, past_row, row_flow, FlowView};
use crate::xml::sink::{CollectorView, ColumnarSink, RowCollector};
use crate::xml::splitter::{
    lemma_record_end, lemma_special_spans_ordered, near_open_construct, next_record, record_end,
    record_rows, spans_are_constructs, special_spans, unclosed_before, SKIP_WINDOW,
};
use crate::xml::tokens::{
    bytes_left, lemma_name_stop, lemma_open_tag_bounds, lemma_tag_gt, name_ends, name_stop, open_tag,
    quote_or_gt, tag_gt,
};

verus! {

/// No comment or CDATA section is longer than the window in which an opener is looked for.
pub open spec fn short_constructs(bytes: Seq<u8>) -> bool {
    forall|i: int|
        0 <= i < special_spans(bytes, 0).len() ==> (#[trigger] special_spans(bytes, 0)[i]).1
            - special_spans(bytes, 0)[i].0 <= SKIP_WINDOW
}

/// The name of a row element: no `>` stands in it, and no `!` at its start.
pub open spec fn names_rows(tag: Seq<u8>) -> bool {
    !tag.contains(GT) && (tag.len() > 0 ==> tag[0] != BANG)
}

/// A row starts at `at`, outside the comments and CDATA sections.
pub open spec fn starts_row(bytes: Seq<u8>, tag: Seq<u8>, at: int) -> bool {
    row_start_at(bytes, tag, at) && !in_spans(special_spans(bytes, 0), at)
}

/// The row that starts at `at` is not cut off where the document is cut off at `k`.
pub open spec fn ends_by(
    bytes: Seq<u8>,
    tag: Seq<u8>,
    at: int,
    k: int,
    dropped: Set<Seq<char>>,
) -> bool {
    !(row_flow::<RowCollector>(
        bytes.subrange(at, k),
        0,
        tag,
        moved_spans(special_spans(bytes, 0), -at),
        no_rows(dropped),
    ).0 is Truncated)
}

/// The row that starts at `at`, cut out of the document up to its end, is not cut off.
pub open spec fn stands_alone(
    bytes: Seq<u8>,
    tag: Seq<u8>,
    at: int,
    dropped: Set<Seq<char>>,
) -> bool {
    ends_by(bytes, tag, at, record_end(bytes, tag, at), dropped)
}

/// The row that starts at `at` has a body.
pub open spec fn has_body(bytes: Seq<u8>, at: int) -> bool {
    open_tag(bytes, at) matches Some(open) && !open.self_closing
}

/// No row goes across the end of another one, and each row with a body that ends before the
/// document does is whole up to its end. A document whose rows are not nested, and whose tags and
/// values hold no tag of a row, is one of these.
pub open spec fn separate_rows(bytes: Seq<u8>, tag: Seq<u8>, dropped: Set<Seq<char>>) -> bool {
    &&& forall|r: int| #[trigger]
        starts_row(bytes, tag, r) && has_body(bytes, r) && record_end(bytes, tag, r) < bytes.len()
            ==> stands_alone(bytes, tag, r, dropped)
    &&& forall|r: int, s: int| #[trigger]
        starts_row(bytes, tag, r) && #[trigger] starts_row(bytes, tag, s) && r < record_end(
            bytes,
            tag,
            s,
        ) ==> record_end(bytes, tag, r) <= record_end(bytes, tag, s)
}

/// An offset in a comment or CDATA section that is not longer than the window lies behind its
/// opener, unless it lies in the opener.
proof fn lemma_in_span_is_near(bytes: Seq<u8>, i: int, at: int)
    requires
        short_constructs(bytes),
        0 <= i < special_spans(bytes, 0).len(),
        special_spans(bytes, 0)[i].0 < at < special_spans(bytes, 0)[i].1,
        bytes[at] == LT || bytes[at - 1] == GT,
    ensures
        near_open_construct(bytes, at),
{
    let (start, end) = special_spans(bytes, 0)[i];
    spans_are_constructs(bytes, 0);
    assert(construct_end(bytes, start) == Some(end));
    if occurs_at(bytes, COMMENT_OPEN@, start) {
        lemma_behind_opener(bytes, COMMENT_OPEN@, COMMENT_CLOSE@, start, end, at);
    } else {
        lemma_behind_opener(bytes, CDATA_OPEN@, CDATA_CLOSE@, start, end, at);
    }
}

proof fn lemma_behind_opener(
    bytes: Seq<u8>,
    open: Seq<u8>,
    close: Seq<u8>,
    start: int,
    end: int,
    at: int,
)
    requires
        occurs_at(bytes, open, start),
        open.len() > 0,
        forall|j: int| 0 < j < open.len() ==> #[trigger] open[j] != LT,
        forall|j: int| 0 <= j < open.len() ==> #[trigger] open[j] != GT,
        end == past_close(bytes, close, start + open.len()),
        end - start <= SKIP_WINDOW,
        start < at < end,
        bytes[at] == LT || bytes[at - 1] == GT,
    ensures
        unclosed_before(bytes, open, close, at),
{
    let here = bytes.subrange(start, start + open.len());
    assert(at >= start + open.len()) by {
        if at < start + open.len() {
            assert(here[at - start] == open[at - start]);
            assert(here[at - 1 - start] == open[at - 1 - start]);
        }
    }
    lemma_bytes_from(bytes, close, start + open.len());
    assert forall|c: int|
        start + open.len() <= c && c + close.len() <= at implies !#[trigger] occurs_at(
        bytes,
        close,
        c,
    ) by {
        if let Some(first) = bytes_from(bytes, close, start + open.len()) {
            assert(c < first);
        }
    }
    assert(occurs_at(bytes, open, start));
}

/// A row start behind no unclosed opener lies in no comment or CDATA section.
proof fn lemma_starts_row(bytes: Seq<u8>, tag: Seq<u8>, row: int)
    requires
        short_constructs(bytes),
        names_rows(tag),
        row_start_at(bytes, tag, row),
        !near_open_construct(bytes, row),
    ensures
        starts_row(bytes, tag, row),
{
    let all = special_spans(bytes, 0);
    if in_spans(all, row) {
        let i = choose|i: int| 0 <= i < all.len() && in_span(#[trigger] all[i], row);
        spans_are_constructs(bytes, 0);
        let start = all[i].0;
        assert(construct_end(bytes, start) is Some);
        if start == row {
            // The byte after `<` is the `!` of the opener, which starts no name and ends none.
            assert(bytes[row + 1] == BANG) by {
                if occurs_at(bytes, COMMENT_OPEN@, start) {
                    assert(bytes.subrange(start, start + COMMENT_OPEN@.len())[1] == BANG);
                } else {
                    assert(bytes.subrange(start, start + CDATA_OPEN@.len())[1] == BANG);
                }
            }
            if tag.len() > 0 {
                assert(bytes.subrange(row + 1, row + 1 + tag.len())[0] == tag[0]);
            }
        } else {
            lemma_in_span_is_near(bytes, i, row);
        }
    }
}

/// A cut just past a `>`, behind no unclosed opener, goes through no comment or CDATA section.
proof fn lemma_clean_cut(bytes: Seq<u8>, k: int)
    requires
        short_constructs(bytes),
        0 < k < bytes.len(),
        bytes[k - 1] == GT,
        !near_open_construct(bytes, k),
    ensures
        clean_cut(bytes, k),
{
    let all = special_spans(bytes, 0);
    assert forall|i: int| 0 <= i < all.len() implies !((#[trigger] all[i]).0 < k < all[i].1) by {
        if all[i].0 < k < all[i].1 {
            lemma_in_span_is_near(bytes, i, k);
        }
    }
}

/// Moving spans back moves what they cover.
proof fn lemma_moved_back(spans: Seq<(int, int)>, d: int, at: int)
    ensures
        in_spans(moved_spans(spans, -d), at) == in_spans(spans, at + d),
        span_end(moved_spans(spans, -d), at) + d == span_end(spans, at + d),
{
    let moved = moved_spans(spans, -d);
    if in_spans(spans, at + d) {
        let i = choose|i: int| 0 <= i < spans.len() && in_span(#[trigger] spans[i], at + d);
        assert(in_span(moved[i], at));
    }
    if in_spans(moved, at) {
        let i = choose|i: int| 0 <= i < moved.len() && in_span(#[trigger] moved[i], at);
        assert(in_span(spans[i], at + d));
    }
    lemma_span_end_moved(spans, -d, at + d);
}

/// Where a row ends depends on the dropped fields alone, and they stay.
proof fn lemma_ends_alike(
    bytes: Seq<u8>,
    lt: int,
    tag: Seq<u8>,
    regions: Seq<(int, int)>,
    m: CollectorView,
)
    requires
        0 <= lt < bytes.len(),
    ensures
        row_flow::<RowCollector>(bytes, lt, tag, regions, m).0 == row_flow::<RowCollector>(
            bytes,
            lt,
            tag,
            regions,
            no_rows(m.dropped),
        ).0,
        row_flow::<RowCollector>(bytes, lt, tag, regions, m).1.dropped == m.dropped,
{
    let dropped = m.dropped;
    let alike = |a: CollectorView, b: CollectorView| a.dropped == dropped && b.dropped == dropped;
    assert(keeps_related::<RowCollector, RowCollector>(alike, alike, alike));
    assert(alike(m, no_rows(dropped)));
    lemma_related_row::<RowCollector, RowCollector>(
        alike,
        alike,
        alike,
        bytes,
        lt,
        tag,
        regions,
        m,
        no_rows(dropped),
    );
}

/// No row goes across `k`: each row that starts before it is not cut off there.
pub open spec fn rows_end_before(
    bytes: Seq<u8>,
    tag: Seq<u8>,
    dropped: Set<Seq<char>>,
    k: int,
) -> bool {
    forall|r: int| #[trigger]
        starts_row(bytes, tag, r) && r < k ==> ends_by(bytes, tag, r, k, dropped)
}

/// A row that is whole up to its end is not cut off later.
proof fn lemma_ends_by_later(
    bytes: Seq<u8>,
    tag: Seq<u8>,
    r: int,
    end: int,
    k: int,
    dropped: Set<Seq<char>>,
)
    requires
        0 <= r < end <= k <= bytes.len(),
        ends_by(bytes, tag, r, end, dropped),
    ensures
        ends_by(bytes, tag, r, k, dropped),
{
    let regions = moved_spans(special_spans(bytes, 0), -r);
    let part = bytes.subrange(r, end);
    let more = bytes.subrange(r, k);
    assert(stands_in(part, more, 0));
    assert(cover_alike(regions, regions, 0, part.len() as int));
    lemma_moved_row::<RowCollector>(part, more, 0, 0, tag, regions, regions, no_rows(dropped));
}

/// A row start of the first part is one of the document, outside the same spans.
proof fn lemma_first_starts(bytes: Seq<u8>, tag: Seq<u8>, k: int, r: int)
    requires
        clean_cut(bytes, k),
        row_start_at(bytes.take(k), tag, r),
        !in_spans(special_spans(bytes.take(k), 0), r),
    ensures
        starts_row(bytes, tag, r),
        r < k,
{
    lemma_cut_covers(bytes, k);
    let first = bytes.take(k);
    assert(first.subrange(r + 1, r + 1 + tag.len()) =~= bytes.subrange(r + 1, r + 1 + tag.len()));
    assert(in_spans(special_spans(first, 0), r) == in_spans(special_spans(bytes, 0), r + 0));
}

/// The rows of the first part end in it.
proof fn lemma_rows_end(
    bytes: Seq<u8>,
    tag: Seq<u8>,
    k: int,
    pos: int,
    m: CollectorView,
)
    requires
        clean_cut(bytes, k),
        rows_end_before(bytes, tag, m.dropped, k),
        0 <= pos <= k,
    ensures
        rows_end::<RowCollector>(bytes.take(k), pos, tag, special_spans(bytes.take(k), 0), m),
    decreases k - pos,
{
    let first = bytes.take(k);
    let near = special_spans(first, 0);
    let all = special_spans(bytes, 0);
    lemma_next_row(first, tag, near, pos);
    if let Some(r) = next_row(first, tag, near, pos) {
        lemma_first_starts(bytes, tag, k, r);
        let alone = bytes.subrange(r, k);
        let regions = moved_spans(all, -r);
        assert(stands_in(alone, first, r));
        lemma_cut_covers(bytes, k);
        assert(cover_alike(regions, near, r, alone.len() as int)) by {
            assert forall|at: int| 0 <= at < alone.len() implies #[trigger] in_spans(regions, at)
                == in_spans(near, at + r) && (in_spans(regions, at) ==> span_end(regions, at) + r
                == span_end(near, at + r)) by {
                lemma_moved_back(all, r, at);
                assert(in_spans(near, at + r) == in_spans(all, at + r + 0));
            }
        }
        lemma_ends_alike(alone, 0, tag, regions, m);
        lemma_moved_row::<RowCollector>(alone, first, r, 0, tag, regions, near, m);
        let row = row_flow::<RowCollector>(first, r, tag, near, m);
        lemma_ends_alike(first, r, tag, near, m);
        lemma_row_ends::<RowCollector>(first, r, tag, near, m);
        match row.0 {
            FlowView::At(next) => {
                lemma_rows_end(bytes, tag, k, past_row(r, next), row.1);
            },
            FlowView::Truncated => {},
            FlowView::Recover => {
                lemma_rows_end(bytes, tag, k, r + 1, row.1);
            },
        }
    }
}

/// A cut through no comment and no CDATA section that no row goes across cuts off no row.
pub proof fn cut_cuts_off_no_row(
    bytes: Seq<u8>,
    tag: Seq<u8>,
    k: int,
    dropped: Set<Seq<char>>,
)
    requires
        clean_cut(bytes, k),
        rows_end_before(bytes, tag, dropped, k),
    ensures
        chunk_ends::<RowCollector>(bytes.take(k), tag, no_rows(dropped)),
{
    lemma_rows_end(bytes, tag, k, 0, no_rows(dropped));
}

/// The end of a tag is found in any part that holds the tag.
proof fn lemma_gt_in_part(s: Seq<u8>, d: int, k: int, from: int)
    requires
        0 <= d <= from <= k <= s.len(),
        tag_gt(s, from) matches Some(gt) && gt < k,
    ensures
        tag_gt(s.subrange(d, k), from - d) == Some(tag_gt(s, from)->0 - d),
    decreases s.len() - from,
{
    let part = s.subrange(d, k);
    let marks = quote_or_gt(s);
    let near = quote_or_gt(part);
    lemma_first_where(from, s.len() as int, marks);
    let at = first_where(from, s.len() as int, marks)->0;
    lemma_tag_gt(s, from);
    if s[at] != GT {
        lemma_byte_from(s, s[at], at + 1);
        let close = byte_from(s, s[at], at + 1)->0;
        lemma_tag_gt(s, close + 1);
        lemma_gt_in_part(s, d, k, close + 1);
        let quote = holds_byte(part, s[at]);
        assert forall|j: int| at + 1 - d <= j < close - d implies !#[trigger] quote(j) by {
            assert(part[j] == s[j + d]);
        }
        lemma_first_where_is(at + 1 - d, part.len() as int, quote, Some(close - d));
        assert(byte_from(part, part[at - d], at + 1 - d) == Some(close - d));
    }
    assert forall|j: int| from - d <= j < at - d implies !#[trigger] near(j) by {
        assert(!marks(j + d));
        assert(part[j] == s[j + d]);
    }
    assert(near(at - d));
    lemma_first_where_is(from - d, part.len() as int, near, Some(at - d));
}

/// A self-closing row stands alone.
pub proof fn self_closing_row_stands_alone(
    bytes: Seq<u8>,
    tag: Seq<u8>,
    r: int,
    dropped: Set<Seq<char>>,
)
    requires
        0 <= r < bytes.len(),
        open_tag(bytes, r) matches Some(open) && open.self_closing,
    ensures
        stands_alone(bytes, tag, r, dropped),
{
    let open = open_tag(bytes, r)->0;
    let stop = name_stop(bytes, r + 1);
    lemma_open_tag_bounds(bytes, r);
    lemma_name_stop(bytes, r + 1);
    let alone = bytes.subrange(r, open.after);
    let ends = name_ends(alone);
    assert forall|j: int| 1 <= j < stop - r implies !#[trigger] ends(j) by {
        assert(alone[j] == bytes[j + r]);
        assert(!ends_name(bytes[j + r]));
    }
    assert(ends(stop - r));
    lemma_first_where_is(1, alone.len() as int, ends, Some(stop - r));
    lemma_gt_in_part(bytes, r, open.after, stop);
    assert(open_tag(alone, 0) matches Some(own) && own.self_closing);
}

/// A boundary of the splitter that no row goes across is a cut between rows.
proof fn lemma_record_cut(
    bytes: Seq<u8>,
    tag: Seq<u8>,
    from: int,
    p: int,
    dropped: Set<Seq<char>>,
)
    requires
        0 <= from,
        next_record(bytes, tag, from) == Some(p),
        p < bytes.len(),
        names_rows(tag),
        short_constructs(bytes),
        rows_end_before(bytes, tag, dropped, p),
    ensures
        clean_cut(bytes, p),
        between_marks(bytes, p, tag),
        chunk_ends::<RowCollector>(bytes.take(p), tag, no_rows(dropped)),
{
    let hit = record_rows(bytes, tag);
    lemma_first_where(from, bytes.len() as int, hit);
    let row = first_where(from, bytes.len() as int, hit)->0;
    assert(hit(row));
    lemma_record_end(bytes, tag, row);
    lemma_clean_cut(bytes, p);
    cut_cuts_off_no_row(bytes, tag, p, dropped);
}

/// Where the rows of a document are separate, no row goes across a boundary of the splitter.
pub proof fn no_row_goes_across_a_record_start(
    bytes: Seq<u8>,
    tag: Seq<u8>,
    from: int,
    p: int,
    dropped: Set<Seq<char>>,
)
    requires
        0 <= from,
        next_record(bytes, tag, from) == Some(p),
        p < bytes.len(),
        names_rows(tag),
        short_constructs(bytes),
        separate_rows(bytes, tag, dropped),
    ensures
        rows_end_before(bytes, tag, dropped, p),
{
    let hit = record_rows(bytes, tag);
    lemma_first_where(from, bytes.len() as int, hit);
    let row = first_where(from, bytes.len() as int, hit)->0;
    assert(hit(row));
    lemma_starts_row(bytes, tag, row);
    assert forall|r: int| #[trigger] starts_row(bytes, tag, r) && r < p implies ends_by(
        bytes,
        tag,
        r,
        p,
        dropped,
    ) by {
        assert(starts_row(bytes, tag, row));
        lemma_record_end(bytes, tag, r);
        if !has_body(bytes, r) {
            self_closing_row_stands_alone(bytes, tag, r, dropped);
        }
        lemma_ends_by_later(bytes, tag, r, record_end(bytes, tag, r), p, dropped);
    }
}

/// The document starts between rows.
proof fn lemma_start_is_cut(bytes: Seq<u8>, tag: Seq<u8>, dropped: Set<Seq<char>>)
    ensures
        clean_cut(bytes, 0),
        between_marks(bytes, 0, tag),
        chunk_ends::<RowCollector>(bytes.take(0), tag, no_rows(dropped)),
{
    let none = bytes.take(0);
    lemma_special_spans_ordered(bytes, 0);
    assert(uncrossed(special_spans(bytes, 0), 0));
    lemma_next_row(none, tag, special_spans(none, 0), 0);
}

/// Where the splitter ends a record and no row goes across, the document is cut between rows: no
/// comment and no CDATA section goes across either.
pub proof fn record_starts_are_cuts(
    bytes: Seq<u8>,
    tag: Seq<u8>,
    from: int,
    p: int,
    dropped: Set<Seq<char>>,
)
    requires
        0 <= from,
        next_record(bytes, tag, from) == Some(p),
        p < bytes.len(),
        names_rows(tag),
        short_constructs(bytes),
        rows_end_before(bytes, tag, dropped, p),
    ensures
        cut_between_rows::<RowCollector>(
            bytes,
            seq![0, p, bytes.len() as int],
            tag,
            no_rows(dropped),
        ),
{
    lemma_record_cut(bytes, tag, from, p, dropped);
    lemma_start_is_cut(bytes, tag, dropped);
}

/// The splitter ends a record at `p`.
pub open spec fn ends_record(bytes: Seq<u8>, tag: Seq<u8>, p: int) -> bool {
    exists|from: int| 0 <= from && #[trigger] next_record(bytes, tag, from) == Some(p)
}

/// The points ascend from the start of the document to its end, and the splitter ends a record at
/// each of the others.
pub open spec fn splitter_points(bytes: Seq<u8>, tag: Seq<u8>, points: Seq<int>) -> bool {
    &&& points.len() >= 2
    &&& points[0] == 0
    &&& points.last() == bytes.len()
    &&& forall|i: int, j: int| 0 <= i < j < points.len() ==> points[i] < points[j]
    &&& forall|i: int| 0 < i < points.len() - 1 ==> ends_record(bytes, tag, #[trigger] points[i])
}

/// Points of the splitter cut a document between rows.
pub proof fn splitter_points_are_cuts(
    bytes: Seq<u8>,
    tag: Seq<u8>,
    points: Seq<int>,
    dropped: Set<Seq<char>>,
)
    requires
        splitter_points(bytes, tag, points),
        names_rows(tag),
        short_constructs(bytes),
        separate_rows(bytes, tag, dropped),
    ensures
        cut_between_rows::<RowCollector>(bytes, points, tag, no_rows(dropped)),
{
    lemma_start_is_cut(bytes, tag, dropped);
    assert forall|i: int| 0 <= i < points.len() - 1 implies clean_cut(bytes, #[trigger] points[i])
        && between_marks(bytes, points[i], tag) && chunk_ends::<RowCollector>(
        bytes.take(points[i]),
        tag,
        no_rows(dropped),
    ) by {
        if i > 0 {
            let p = points[i];
            assert(ends_record(bytes, tag, p));
            let from = choose|from: int|
                0 <= from && #[trigger] next_record(bytes, tag, from) == Some(p);
            assert(points[i] < points[points.len() - 1]);
            no_row_goes_across_a_record_start(bytes, tag, from, p, dropped);
            lemma_record_cut(bytes, tag, from, p, dropped);
        }
    }
}

/// The number of chunks does not show: a document that is read in the chunks that points of the
/// splitter cut it into gives the rows that reading it in one gives.
pub proof fn chunk_count_does_not_show(
    bytes: Seq<u8>,
    tag: Seq<u8>,
    points: Seq<int>,
    dropped: Set<Seq<char>>,
)
    requires
        valid_utf8(bytes),
        splitter_points(bytes, tag, points),
        names_rows(tag),
        short_constructs(bytes),
        separate_rows(bytes, tag, dropped),
    ensures
        read_in_chunks::<RowCollector>(
            bytes,
            chunks_at(points, bytes.len() as int),
            tag,
            no_rows(dropped),
        ) matches ReadEnd::Done { m } && m.rows == rows_of(bytes, tag, dropped),
{
    splitter_points_are_cuts(bytes, tag, points, dropped);
    split_reading_is_whole_reading(bytes, points, tag, dropped);
}

/// Sinks with these settings take every row with its values, without the fields of the dropped
/// names, and keep the settings.
pub open spec fn takes_all_rows<S: ColumnarSink>(
    settings: spec_fn(S::Model) -> bool,
    dropped: Set<Seq<char>>,
) -> bool {
    &&& forall|m: S::Model| settings(m) ==> settings(#[trigger] S::begun(m))
    &&& forall|m: S::Model| settings(m) ==> settings(#[trigger] S::ended(m))
    &&& forall|m: S::Model| settings(m) ==> !#[trigger] S::rejects(m)
    &&& forall|m: S::Model| settings(m) ==> #[trigger] S::takes_values(m)
    &&& forall|m: S::Model, name: Seq<char>, value: Seq<char>|
        settings(m) ==> settings(#[trigger] S::with_field(m, name, value))
    &&& forall|m: S::Model, name: Seq<char>|
        settings(m) ==> ((#[trigger] S::resolved(m, name)) is None <==> dropped.contains(name))
}

/// A row that ends in the input for one sink ends in it for a related one.
proof fn lemma_related_ends<S: ColumnarSink, T: ColumnarSink>(
    related: spec_fn(S::Model, T::Model) -> bool,
    bytes: Seq<u8>,
    pos: int,
    tag: Seq<u8>,
    regions: Seq<(int, int)>,
    m: S::Model,
    n: T::Model,
)
    requires
        keeps_related::<S, T>(related, related, related),
        related(m, n),
        0 <= pos,
    ensures
        rows_end::<S>(bytes, pos, tag, regions, m) == rows_end::<T>(bytes, pos, tag, regions, n),
    decreases bytes_left(bytes, pos),
{
    lemma_next_row(bytes, tag, regions, pos);
    if let Some(start) = next_row(bytes, tag, regions, pos) {
        lemma_related_row::<S, T>(related, related, related, bytes, start, tag, regions, m, n);
        let s = row_flow::<S>(bytes, start, tag, regions, m);
        let t = row_flow::<T>(bytes, start, tag, regions, n);
        match s.0 {
            FlowView::At(next) => {
                let past = past_row(start, next);
                lemma_related_ends::<S, T>(related, bytes, past, tag, regions, s.1, t.1);
            },
            FlowView::Truncated => {},
            FlowView::Recover => {
                lemma_related_ends::<S, T>(related, bytes, start + 1, tag, regions, s.1, t.1);
            },
        }
    }
}

/// The number of chunks does not show to any sink that takes every row and for which appending rows
/// is taking them: reading a document in the chunks that points of the splitter cut it into leaves
/// the sink like one that takes the rows of the document itself.
pub proof fn chunk_count_does_not_show_to<S: MergingSink>(
    settings: spec_fn(S::Model) -> bool,
    alike: spec_fn(S::Model, S::Model) -> bool,
    bytes: Seq<u8>,
    tag: Seq<u8>,
    points: Seq<int>,
    dropped: Set<Seq<char>>,
    m: S::Model,
)
    requires
        valid_utf8(bytes),
        splitter_points(bytes, tag, points),
        names_rows(tag),
        short_constructs(bytes),
        separate_rows(bytes, tag, dropped),
        takes_all_rows::<S>(settings, dropped),
        appends_rows::<S>(alike, tag),
        settings(m),
        alike(m, m),
    ensures
        read_in_chunks::<S>(
            bytes,
            chunks_at(points, bytes.len() as int),
            tag,
            m,
        ) matches ReadEnd::Done { m: read } && alike(read, chunk_flow::<S>(bytes, tag, m)),
{
    splitter_points_are_cuts(bytes, tag, points, dropped);
    let related = |a: S::Model, b: CollectorView| settings(a) && b.dropped == dropped;
    assert(keeps_related::<S, RowCollector>(related, related, related));
    assert(related(m, no_rows(dropped)));
    assert forall|i: int| 0 <= i < points.len() - 1 implies clean_cut(bytes, #[trigger] points[i])
        && between_marks(bytes, points[i], tag) && chunk_ends::<S>(
        bytes.take(points[i]),
        tag,
        m,
    ) by {
        let part = bytes.take(points[i]);
        assert(chunk_ends::<RowCollector>(part, tag, no_rows(dropped)));
        lemma_related_ends::<S, RowCollector>(
            related,
            part,
            0,
            tag,
            special_spans(part, 0),
            m,
            no_rows(dropped),
        );
    }
    split_reading_is_like_whole_reading::<S>(alike, bytes, points, tag, m);
}

/// Each row ends before the next one starts, and each row with a body that ends before the document
/// does is whole up to its end.
pub open spec fn rows_apart(bytes: Seq<u8>, tag: Seq<u8>, dropped: Set<Seq<char>>) -> bool {
    &&& forall|r: int| #[trigger]
        starts_row(bytes, tag, r) && has_body(bytes, r) && record_end(bytes, tag, r) < bytes.len()
            ==> stands_alone(bytes, tag, r, dropped)
    &&& forall|r: int, s: int| #[trigger]
        starts_row(bytes, tag, r) && #[trigger] starts_row(bytes, tag, s) && r < s ==> record_end(
            bytes,
            tag,
            r,
        ) <= s
}

/// A row start is a place to cut where the rows are apart.
proof fn lemma_start_cut(bytes: Seq<u8>, tag: Seq<u8>, k: int, dropped: Set<Seq<char>>)
    requires
        starts_row(bytes, tag, k),
        !tag.contains(LT),
        rows_apart(bytes, tag, dropped),
    ensures
        clean_cut(bytes, k),
        between_marks(bytes, k, tag),
        chunk_ends::<RowCollector>(bytes.take(k), tag, no_rows(dropped)),
{
    row_starts_are_cuts(bytes, k, tag);
    assert forall|r: int| #[trigger] starts_row(bytes, tag, r) && r < k implies ends_by(
        bytes,
        tag,
        r,
        k,
        dropped,
    ) by {
        assert(starts_row(bytes, tag, k));
        lemma_record_end(bytes, tag, r);
        if !has_body(bytes, r) {
            self_closing_row_stands_alone(bytes, tag, r, dropped);
        }
        lemma_ends_by_later(bytes, tag, r, record_end(bytes, tag, r), k, dropped);
    }
    cut_cuts_off_no_row(bytes, tag, k, dropped);
}

/// Where the rows of a document are apart, the chunks that it is cut into at row starts hold its
/// rows, one chunk after the other, whatever their number.
pub proof fn row_start_chunks_read_as_whole(
    bytes: Seq<u8>,
    tag: Seq<u8>,
    chunks: int,
    dropped: Set<Seq<char>>,
)
    requires
        bytes.len() > 0,
        valid_utf8(bytes),
        !tag.contains(LT),
        rows_apart(bytes, tag, dropped),
    ensures
        read_in_chunks::<RowCollector>(
            bytes,
            chunk_spans(bytes, tag, chunks),
            tag,
            no_rows(dropped),
        ) matches ReadEnd::Done { m } && m.rows == rows_of(bytes, tag, dropped),
{
    let len = bytes.len() as int;
    lemma_start_is_cut(bytes, tag, dropped);
    let points = match split_points(bytes, tag, chunks) {
        Some(points) => {
            lemma_with_split_points(bytes, tag, chunks, 1, seq![0]);
            points
        },
        None => seq![0, len],
    };
    assert forall|i: int| 0 <= i < points.len() - 1 implies clean_cut(bytes, #[trigger] points[i])
        && between_marks(bytes, points[i], tag) && chunk_ends::<RowCollector>(
        bytes.take(points[i]),
        tag,
        no_rows(dropped),
    ) by {
        if i > 0 {
            assert(cuts_at(bytes, tag, points[i]));
            lemma_start_cut(bytes, tag, points[i], dropped);
        }
    }
    split_reading_is_whole_reading(bytes, points, tag, dropped);
    if split_points(bytes, tag, chunks) is None {
        assert(ascending_gaps(points.drop_last()) =~= Seq::empty());
        assert(ascending_gaps(points) =~= seq![(0int, len)]);
    }
}

} // verus!
