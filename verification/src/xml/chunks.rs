//! Documents in chunks: rows scanned chunk by chunk are the rows of the document.

use vstd::prelude::*;

use crate::bytes::{
    bytes_from, first_where, lemma_bytes_from, lemma_first_where, lemma_first_where_is, occurs_at,
    GT, LT,
};
use crate::markup::{
    construct_end, in_span, in_spans, lemma_construct_end, lemma_next_row, next_row, past_close,
    row_start_at, row_starts, span_end, CDATA_CLOSE, CDATA_OPEN, COMMENT_CLOSE, COMMENT_OPEN,
    DECLARATION_OPEN,
};
use crate::xml::embed::{
    cover_alike, ends_with, lemma_moved_bytes, lemma_moved_first, lemma_moved_occurs,
    lemma_moved_row, moved, stands_in,
};
use crate::xml::scanner::{
    chunk_flow, children_flow, child_flow, lemma_child_advances, past_row, row_flow, rows_flow,
    with_attrs, ChildFlowView, FlowView,
};
use crate::xml::sink::ColumnarSink;
use crate::xml::splitter::{lemma_special_spans_ordered, special_spans};
use crate::xml::tokens::{
    bytes_left, close_prefix, lemma_close_extent, lemma_open_tag_bounds, lemma_token_advances,
    open_tag,
};

verus! {

/// The spans at the shifted place.
pub open spec fn moved_spans(spans: Seq<(int, int)>, d: int) -> Seq<(int, int)> {
    Seq::new(spans.len(), |i: int| (spans[i].0 + d, spans[i].1 + d))
}

/// No comment and no CDATA section goes across the cut at `k`.
pub open spec fn clean_cut(bytes: Seq<u8>, k: int) -> bool {
    &&& 0 <= k <= bytes.len()
    &&& uncrossed(special_spans(bytes, 0), k)
}

/// The cut at `k` lies at the start or the end, before a `<` or after a `>`, which the row name
/// does not hold.
pub open spec fn between_marks(bytes: Seq<u8>, k: int, tag: Seq<u8>) -> bool {
    ||| k == 0
    ||| k == bytes.len()
    ||| bytes[k] == LT && !tag.contains(LT)
    ||| bytes[k - 1] == GT && !tag.contains(GT)
}

/// No span goes across `k`.
pub open spec fn uncrossed(spans: Seq<(int, int)>, k: int) -> bool {
    forall|i: int| 0 <= i < spans.len() ==> !((#[trigger] spans[i]).0 < k < spans[i].1)
}

proof fn lemma_cut_stands(bytes: Seq<u8>, k: int)
    requires
        0 <= k <= bytes.len(),
    ensures
        stands_in(bytes.take(k), bytes, 0),
        ends_with(bytes.skip(k), bytes, k),
{
}

/// The end of a comment or CDATA section in the last part is the one in the whole, shifted.
proof fn lemma_moved_end(t: Seq<u8>, s: Seq<u8>, d: int, at: int)
    requires
        ends_with(t, s, d),
        0 <= at,
    ensures
        construct_end(s, at + d) == moved(construct_end(t, at), d),
{
    lemma_moved_occurs(t, s, d, COMMENT_OPEN@, at);
    lemma_moved_occurs(t, s, d, CDATA_OPEN@, at);
    lemma_moved_bytes(t, s, d, COMMENT_CLOSE@, at + COMMENT_OPEN@.len());
    lemma_moved_bytes(t, s, d, CDATA_CLOSE@, at + CDATA_OPEN@.len());
}

/// The special spans of the last part are those of the whole from the cut on, shifted.
proof fn lemma_last_spans(t: Seq<u8>, s: Seq<u8>, d: int, pos: int)
    requires
        ends_with(t, s, d),
        0 <= pos,
    ensures
        special_spans(s, pos + d) == moved_spans(special_spans(t, pos), d),
    decreases t.len() - pos,
{
    lemma_moved_bytes(t, s, d, DECLARATION_OPEN@, pos);
    lemma_bytes_from(t, DECLARATION_OPEN@, pos);
    match bytes_from(t, DECLARATION_OPEN@, pos) {
        Some(start) => {
            lemma_moved_end(t, s, d, start);
            lemma_construct_end(t, start);
            match construct_end(t, start) {
                Some(end) => {
                    lemma_last_spans(t, s, d, end);
                    let rest = special_spans(t, end);
                    assert(moved_spans(seq![(start, end)] + rest, d) =~= seq![
                        (start + d, end + d),
                    ] + moved_spans(rest, d));
                },
                None => {
                    lemma_last_spans(t, s, d, start + 1);
                },
            }
        },
        None => {
            assert(moved_spans(Seq::empty(), d) =~= Seq::empty());
        },
    }
}

/// A close mark that lies before the cut is found before the cut.
proof fn lemma_first_bytes(s: Seq<u8>, k: int, needle: Seq<u8>, from: int)
    requires
        0 <= k <= s.len(),
        0 <= from,
    ensures
        bytes_from(s, needle, from) matches Some(at) ==> (at + needle.len() <= k ==> bytes_from(
            s.take(k),
            needle,
            from,
        ) == Some(at)),
        bytes_from(s.take(k), needle, from) matches Some(at) ==> bytes_from(s, needle, from)
            == Some(at),
{
    let t = s.take(k);
    lemma_cut_stands(s, k);
    lemma_moved_bytes(t, s, 0, needle, from);
    lemma_bytes_from(s, needle, from);
    lemma_bytes_from(t, needle, from);
    if let Some(at) = bytes_from(s, needle, from) {
        if at + needle.len() <= k {
            lemma_moved_occurs(t, s, 0, needle, at);
        }
    }
}

/// A comment or CDATA section that ends before the cut ends there in the first part.
proof fn lemma_first_end(s: Seq<u8>, k: int, at: int)
    requires
        0 <= k <= s.len(),
        0 <= at,
    ensures
        construct_end(s, at) matches Some(end) ==> (end <= k ==> construct_end(s.take(k), at)
            == Some(end)),
        construct_end(s, at) is None ==> construct_end(s.take(k), at) is None,
{
    let t = s.take(k);
    lemma_cut_stands(s, k);
    lemma_construct_end(s, at);
    lemma_moved_occurs(t, s, 0, COMMENT_OPEN@, at);
    lemma_moved_occurs(t, s, 0, CDATA_OPEN@, at);
    if k == s.len() {
        assert(t =~= s);
    } else if let Some(end) = construct_end(s, at) {
        if end <= k {
            lemma_first_bytes(s, k, COMMENT_CLOSE@, at + COMMENT_OPEN@.len());
            lemma_first_bytes(s, k, CDATA_CLOSE@, at + CDATA_OPEN@.len());
            lemma_bytes_from(s, COMMENT_CLOSE@, at + COMMENT_OPEN@.len());
            lemma_bytes_from(s, CDATA_CLOSE@, at + CDATA_OPEN@.len());
            if occurs_at(s, CDATA_OPEN@, at) && !occurs_at(s, COMMENT_OPEN@, at) {
                assert(end == past_close(s, CDATA_CLOSE@, at + CDATA_OPEN@.len()));
                assert(at + CDATA_OPEN@.len() <= end);
            }
        }
    }
}

/// The special spans of the whole are those of the first part and then those of the last part,
/// where none goes across the cut.
proof fn lemma_cut_spans(s: Seq<u8>, k: int, pos: int)
    requires
        0 <= pos <= k <= s.len(),
        uncrossed(special_spans(s, pos), k),
    ensures
        special_spans(s, pos) == special_spans(s.take(k), pos) + moved_spans(
            special_spans(s.skip(k), 0),
            k,
        ),
    decreases k - pos,
{
    let t = s.take(k);
    let u = s.skip(k);
    let tail = moved_spans(special_spans(u, 0), k);
    lemma_cut_stands(s, k);
    lemma_last_spans(u, s, k, 0);
    lemma_bytes_from(s, DECLARATION_OPEN@, pos);
    lemma_bytes_from(t, DECLARATION_OPEN@, pos);
    lemma_bytes_from(s, DECLARATION_OPEN@, k);
    lemma_first_bytes(s, k, DECLARATION_OPEN@, pos);
    let found = bytes_from(s, DECLARATION_OPEN@, pos);
    let start: int = match found {
        Some(at) => at,
        None => k,
    };
    if start < k {
        lemma_construct_end(s, start);
        lemma_first_end(s, k, start);
        match construct_end(s, start) {
            Some(end) => {
                let rest = special_spans(s, end);
                let all = special_spans(s, pos);
                assert(all == seq![(start, end)] + rest);
                assert(all[0] == (start, end));
                assert(end <= k);
                assert forall|i: int| 0 <= i < rest.len() implies !((#[trigger] rest[i]).0 < k
                    < rest[i].1) by {
                    assert(all[i + 1] == rest[i]);
                }
                lemma_cut_spans(s, k, end);
                assert(seq![(start, end)] + (special_spans(t, end) + tail) =~= (seq![(start, end)]
                    + special_spans(t, end)) + tail);
            },
            None => {
                lemma_cut_spans(s, k, start + 1);
                if start + 2 > k {
                    assert(bytes_from(t, DECLARATION_OPEN@, pos) is None);
                    lemma_bytes_from(t, DECLARATION_OPEN@, k);
                    if let Some(j) = bytes_from(t, DECLARATION_OPEN@, k) {
                        assert(occurs_at(t, DECLARATION_OPEN@, j));
                    }
                    assert(special_spans(t, start + 1) =~= Seq::empty());
                    assert(special_spans(t, pos) =~= Seq::empty());
                }
            },
        }
    } else {
        if let Some(j) = bytes_from(t, DECLARATION_OPEN@, pos) {
            assert(occurs_at(t, DECLARATION_OPEN@, j));
        }
        assert(special_spans(t, pos) =~= Seq::empty());
        match (found, bytes_from(s, DECLARATION_OPEN@, k)) {
            (Some(a), Some(b)) => {
                assert(a == b);
            },
            _ => {},
        }
        assert(special_spans(s, pos) == special_spans(s, k));
        assert(Seq::<(int, int)>::empty() + tail =~= tail);
    }
}

/// The end of a covering span is the same with other spans after it.
proof fn lemma_span_end_first(a: Seq<(int, int)>, c: Seq<(int, int)>, at: int)
    ensures
        in_spans(a, at) ==> span_end(a + c, at) == span_end(a, at),
        !in_spans(a, at) ==> span_end(a + c, at) == span_end(c, at),
    decreases a.len(),
{
    if a.len() == 0 {
        assert(a + c =~= c);
    } else {
        let rest = a.drop_first();
        assert((a + c).drop_first() =~= rest + c);
        lemma_span_end_first(rest, c, at);
        if in_spans(a, at) && !in_span(a[0], at) {
            let k = choose|k: int| 0 <= k < a.len() && in_span(#[trigger] a[k], at);
            assert(rest[k - 1] == a[k]);
            assert(in_spans(rest, at));
        }
        if !in_spans(a, at) {
            assert(!in_span(a[0], at));
            if in_spans(rest, at) {
                let k = choose|k: int| 0 <= k < rest.len() && in_span(#[trigger] rest[k], at);
                assert(a[k + 1] == rest[k]);
            }
        }
    }
}

/// The end of a covering span is shifted with it.
pub proof fn lemma_span_end_moved(a: Seq<(int, int)>, d: int, at: int)
    ensures
        span_end(moved_spans(a, d), at + d) == span_end(a, at) + d,
    decreases a.len(),
{
    if a.len() > 0 {
        assert(moved_spans(a, d).drop_first() =~= moved_spans(a.drop_first(), d));
        lemma_span_end_moved(a.drop_first(), d, at);
    }
}

/// The regions of each part cover it as the regions of the whole do.
pub proof fn lemma_cut_covers(s: Seq<u8>, k: int)
    requires
        clean_cut(s, k),
    ensures
        cover_alike(special_spans(s.take(k), 0), special_spans(s, 0), 0, k),
        cover_alike(special_spans(s.skip(k), 0), special_spans(s, 0), k, s.len() - k),
{
    let a = special_spans(s.take(k), 0);
    let b = special_spans(s.skip(k), 0);
    let c = moved_spans(b, k);
    let all = special_spans(s, 0);
    lemma_cut_spans(s, k, 0);
    lemma_special_spans_ordered(s.take(k), 0);
    lemma_special_spans_ordered(s.skip(k), 0);
    assert forall|at: int| 0 <= at < k implies #[trigger] in_spans(a, at) == in_spans(all, at + 0)
        && (in_spans(a, at) ==> span_end(a, at) + 0 == span_end(all, at + 0)) by {
        lemma_span_end_first(a, c, at);
        if in_spans(a, at) {
            let i = choose|i: int| 0 <= i < a.len() && in_span(#[trigger] a[i], at);
            assert(all[i] == a[i]);
        }
        if in_spans(all, at) {
            let i = choose|i: int| 0 <= i < all.len() && in_span(#[trigger] all[i], at);
            if i >= a.len() {
                assert(all[i] == c[i - a.len()]);
                assert(b[i - a.len()].0 >= 0);
            } else {
                assert(all[i] == a[i]);
            }
        }
    }
    assert forall|at: int| 0 <= at < s.len() - k implies #[trigger] in_spans(b, at) == in_spans(
        all,
        at + k,
    ) && (in_spans(b, at) ==> span_end(b, at) + k == span_end(all, at + k)) by {
        if in_spans(a, at + k) {
            let i = choose|i: int| 0 <= i < a.len() && in_span(#[trigger] a[i], at + k);
            assert(a[i].1 <= k);
        }
        lemma_span_end_first(a, c, at + k);
        lemma_span_end_moved(b, k, at);
        if in_spans(b, at) {
            let i = choose|i: int| 0 <= i < b.len() && in_span(#[trigger] b[i], at);
            assert(all[a.len() + i] == c[i]);
            assert(in_span(all[a.len() + i], at + k));
        }
        if in_spans(all, at + k) {
            let i = choose|i: int| 0 <= i < all.len() && in_span(#[trigger] all[i], at + k);
            if i >= a.len() {
                assert(all[i] == c[i - a.len()]);
                assert(in_span(b[i - a.len()], at));
            } else {
                assert(all[i] == a[i]);
                assert(in_spans(a, at + k));
            }
        }
    }
}

/// The next row of a part is the next row at the shifted place of the whole, where there is one;
/// so it is in a part that stands at the end.
proof fn lemma_moved_next(
    t: Seq<u8>,
    s: Seq<u8>,
    d: int,
    tag: Seq<u8>,
    regions: Seq<(int, int)>,
    there: Seq<(int, int)>,
    pos: int,
)
    requires
        stands_in(t, s, d),
        cover_alike(regions, there, d, t.len() as int),
        0 <= pos,
    ensures
        next_row(t, tag, regions, pos) is Some || ends_with(t, s, d) ==> next_row(
            s,
            tag,
            there,
            pos + d,
        ) == moved(next_row(t, tag, regions, pos), d),
{
    let hit = row_starts(t, tag, regions);
    let far = row_starts(s, tag, there);
    lemma_first_where(pos, t.len() as int, hit);
    if let Some(i) = next_row(t, tag, regions, pos) {
        assert(hit(i));
        assert forall|j: int| pos <= j <= i implies #[trigger] hit(j) == far(j + d) by {
            assert(t[j] == s[j + d]);
            lemma_moved_occurs(t, s, d, tag, j + 1);
            assert(t[j + 1 + tag.len()] == s[j + 1 + tag.len() + d]);
            assert(in_spans(regions, j) == in_spans(there, j + d));
        }
    } else if ends_with(t, s, d) {
        assert forall|j: int| pos <= j < t.len() implies #[trigger] hit(j) == far(j + d) by {
            assert(t[j] == s[j + d]);
            lemma_moved_occurs(t, s, d, tag, j + 1);
            if j + 1 + tag.len() < t.len() {
                assert(t[j + 1 + tag.len()] == s[j + 1 + tag.len() + d]);
            }
            assert(in_spans(regions, j) == in_spans(there, j + d));
        }
    }
    lemma_moved_first(pos, t.len() as int, hit, d, s.len() as int, far);
}

/// The rows of the last part are the rows of the whole from the cut on.
proof fn lemma_last_rows<S: ColumnarSink>(
    t: Seq<u8>,
    s: Seq<u8>,
    d: int,
    pos: int,
    tag: Seq<u8>,
    regions: Seq<(int, int)>,
    there: Seq<(int, int)>,
    m: S::Model,
)
    requires
        ends_with(t, s, d),
        cover_alike(regions, there, d, t.len() as int),
        0 <= pos,
    ensures
        rows_flow::<S>(s, pos + d, tag, there, m) == rows_flow::<S>(t, pos, tag, regions, m),
    decreases bytes_left(t, pos),
{
    lemma_moved_next(t, s, d, tag, regions, there, pos);
    lemma_next_row(t, tag, regions, pos);
    if let Some(start) = next_row(t, tag, regions, pos) {
        lemma_moved_row::<S>(t, s, d, start, tag, regions, there, m);
        let row = row_flow::<S>(t, start, tag, regions, m);
        match row.0 {
            FlowView::At(next) => {
                lemma_last_rows::<S>(
                    t,
                    s,
                    d,
                    past_row(start, next),
                    tag,
                    regions,
                    there,
                    row.1,
                );
            },
            FlowView::Truncated => {},
            FlowView::Recover => {
                lemma_last_rows::<S>(t, s, d, start + 1, tag, regions, there, row.1);
            },
        }
    }
}

/// The input cuts off no row from `pos` on.
pub open spec fn rows_end<S: ColumnarSink>(
    bytes: Seq<u8>,
    pos: int,
    row_tag: Seq<u8>,
    regions: Seq<(int, int)>,
    m: S::Model,
) -> bool
    decreases bytes_left(bytes, pos),
{
    proof {
        lemma_next_row(bytes, row_tag, regions, pos);
    }
    match next_row(bytes, row_tag, regions, pos) {
        None => true,
        Some(start) => {
            let row = row_flow::<S>(bytes, start, row_tag, regions, m);
            match row.0 {
                FlowView::At(next) => rows_end::<S>(
                    bytes,
                    past_row(start, next),
                    row_tag,
                    regions,
                    row.1,
                ),
                FlowView::Truncated => false,
                FlowView::Recover => rows_end::<S>(bytes, start + 1, row_tag, regions, row.1),
            }
        },
    }
}

/// No row of the chunk is cut off at its end.
pub open spec fn chunk_ends<S: ColumnarSink>(
    bytes: Seq<u8>,
    row_tag: Seq<u8>,
    m: S::Model,
) -> bool {
    rows_end::<S>(bytes, 0, row_tag, special_spans(bytes, 0), m)
}

/// A row ends in the input.
proof fn lemma_children_end<S: ColumnarSink>(
    bytes: Seq<u8>,
    cur: int,
    row_tag: Seq<u8>,
    regions: Seq<(int, int)>,
    m: S::Model,
)
    requires
        0 <= cur,
    ensures
        children_flow::<S>(bytes, cur, row_tag, regions, m).0 matches FlowView::At(next) ==> next
            <= bytes.len(),
    decreases bytes_left(bytes, cur),
{
    lemma_child_advances::<S>(bytes, cur, row_tag, regions, m);
    lemma_token_advances(bytes, cur, regions);
    let step = child_flow::<S>(bytes, cur, row_tag, regions, m);
    if let ChildFlowView::Continue(next) = step.0 {
        lemma_close_extent(bytes, close_prefix(row_tag), regions, next);
        if !S::rejects(step.1) {
            lemma_children_end::<S>(bytes, next, row_tag, regions, step.1);
        }
    }
}

pub proof fn lemma_row_ends<S: ColumnarSink>(
    bytes: Seq<u8>,
    lt: int,
    row_tag: Seq<u8>,
    regions: Seq<(int, int)>,
    m: S::Model,
)
    requires
        0 <= lt < bytes.len(),
    ensures
        row_flow::<S>(bytes, lt, row_tag, regions, m).0 matches FlowView::At(next) ==> next
            <= bytes.len(),
{
    lemma_open_tag_bounds(bytes, lt);
    if let Some(open) = open_tag(bytes, lt) {
        let attrs = with_attrs::<S>(open.interior, S::begun(m));
        if !attrs.1 && !open.self_closing {
            lemma_children_end::<S>(bytes, open.after, row_tag, regions, attrs.0);
        }
    }
}

/// The rows of the first part come first in the whole.
proof fn lemma_first_rows<S: ColumnarSink>(
    s: Seq<u8>,
    k: int,
    pos: int,
    tag: Seq<u8>,
    m: S::Model,
)
    requires
        clean_cut(s, k),
        between_marks(s, k, tag),
        0 <= pos <= k,
        rows_end::<S>(s.take(k), pos, tag, special_spans(s.take(k), 0), m),
    ensures
        rows_flow::<S>(s, pos, tag, special_spans(s, 0), m) == rows_flow::<S>(
            s,
            k,
            tag,
            special_spans(s, 0),
            rows_flow::<S>(s.take(k), pos, tag, special_spans(s.take(k), 0), m),
        ),
    decreases k - pos,
{
    let t = s.take(k);
    let regions = special_spans(t, 0);
    let there = special_spans(s, 0);
    lemma_cut_stands(s, k);
    lemma_cut_covers(s, k);
    lemma_moved_next(t, s, 0, tag, regions, there, pos);
    lemma_next_row(t, tag, regions, pos);
    match next_row(t, tag, regions, pos) {
        Some(start) => {
            lemma_moved_row::<S>(t, s, 0, start, tag, regions, there, m);
            lemma_row_ends::<S>(t, start, tag, regions, m);
            let row = row_flow::<S>(t, start, tag, regions, m);
            match row.0 {
                FlowView::At(next) => {
                    lemma_first_rows::<S>(s, k, past_row(start, next), tag, row.1);
                },
                FlowView::Truncated => {},
                FlowView::Recover => {
                    lemma_first_rows::<S>(s, k, start + 1, tag, row.1);
                },
            }
        },
        None => {
            let far = row_starts(s, tag, there);
            assert forall|j: int| pos <= j < k implies !#[trigger] far(j) by {
                if far(j) {
                    assert(in_spans(regions, j) == in_spans(there, j + 0));
                    if j + 1 + tag.len() < k {
                        assert(t[j] == s[j]);
                        lemma_moved_occurs(t, s, 0, tag, j + 1);
                        assert(t[j + 1 + tag.len()] == s[j + 1 + tag.len()]);
                        assert(row_start_at(t, tag, j));
                    } else {
                        let name = s.subrange(j + 1, j + 1 + tag.len());
                        if s[k] == LT && !tag.contains(LT) {
                            if j + 1 + tag.len() > k {
                                assert(name[k - j - 1] == s[k]);
                                assert(tag[k - j - 1] == LT);
                            }
                        } else if j + 1 < k {
                            assert(name[k - j - 2] == s[k - 1]);
                            assert(tag[k - j - 2] == GT);
                        }
                    }
                }
            }
            lemma_first_where(k, s.len() as int, far);
            lemma_first_where_is(
                pos,
                s.len() as int,
                far,
                first_where(k, s.len() as int, far),
            );
        },
    }
}

/// Scanning a document in two chunks is scanning it whole: where the cut lies between marks, no
/// comment or CDATA section goes across it and no row of the first chunk is cut off, a sink that
/// takes the rows of one chunk and then those of the other ends up as one that takes the rows of
/// the document.
pub proof fn chunks_compose<S: ColumnarSink>(
    bytes: Seq<u8>,
    k: int,
    row_tag: Seq<u8>,
    m: S::Model,
)
    requires
        clean_cut(bytes, k),
        between_marks(bytes, k, row_tag),
        chunk_ends::<S>(bytes.take(k), row_tag, m),
    ensures
        chunk_flow::<S>(bytes, row_tag, m) == chunk_flow::<S>(
            bytes.skip(k),
            row_tag,
            chunk_flow::<S>(bytes.take(k), row_tag, m),
        ),
{
    let first = chunk_flow::<S>(bytes.take(k), row_tag, m);
    lemma_cut_stands(bytes, k);
    lemma_cut_covers(bytes, k);
    lemma_first_rows::<S>(bytes, k, 0, row_tag, m);
    lemma_last_rows::<S>(
        bytes.skip(k),
        bytes,
        k,
        0,
        row_tag,
        special_spans(bytes.skip(k), 0),
        special_spans(bytes, 0),
        first,
    );
}

/// The sink after the chunks between the cuts, one after the other.
pub open spec fn in_chunks<S: ColumnarSink>(
    bytes: Seq<u8>,
    cuts: Seq<int>,
    row_tag: Seq<u8>,
    m: S::Model,
) -> S::Model
    decreases cuts.len(),
{
    if cuts.len() < 2 {
        m
    } else {
        chunk_flow::<S>(
            bytes.subrange(cuts[cuts.len() - 2], cuts[cuts.len() - 1]),
            row_tag,
            in_chunks::<S>(bytes, cuts.drop_last(), row_tag, m),
        )
    }
}

/// The cuts ascend from the start of the document to its end, and each lies between rows: between
/// marks, not in a comment or CDATA section, and with no row cut off before it.
pub open spec fn cut_between_rows<S: ColumnarSink>(
    bytes: Seq<u8>,
    cuts: Seq<int>,
    row_tag: Seq<u8>,
    m: S::Model,
) -> bool {
    &&& cuts.len() > 0
    &&& cuts[0] == 0
    &&& cuts.last() == bytes.len()
    &&& forall|i: int, j: int| 0 <= i <= j < cuts.len() ==> cuts[i] <= cuts[j]
    &&& forall|i: int|
        0 <= i < cuts.len() - 1 ==> clean_cut(bytes, #[trigger] cuts[i]) && between_marks(
            bytes,
            cuts[i],
            row_tag,
        ) && chunk_ends::<S>(bytes.take(cuts[i]), row_tag, m)
}

/// A cut that no comment or CDATA section goes across is such a cut of the document up to a later
/// one.
proof fn lemma_clean_before(bytes: Seq<u8>, k: int, later: int)
    requires
        clean_cut(bytes, k),
        clean_cut(bytes, later),
        k <= later,
    ensures
        clean_cut(bytes.take(later), k),
{
    lemma_cut_spans(bytes, later, 0);
    let part = special_spans(bytes.take(later), 0);
    let all = special_spans(bytes, 0);
    assert forall|i: int| 0 <= i < part.len() implies !((#[trigger] part[i]).0 < k < part[i].1) by {
        assert(all[i] == part[i]);
    }
}

/// No comment or CDATA section goes across the end.
proof fn lemma_clean_end(bytes: Seq<u8>)
    ensures
        clean_cut(bytes, bytes.len() as int),
{
    lemma_special_spans_ordered(bytes, 0);
}

proof fn lemma_chunks_to<S: ColumnarSink>(
    bytes: Seq<u8>,
    cuts: Seq<int>,
    row_tag: Seq<u8>,
    m: S::Model,
    n: int,
)
    requires
        cut_between_rows::<S>(bytes, cuts, row_tag, m),
        0 <= n < cuts.len(),
    ensures
        in_chunks::<S>(bytes, cuts.take(n + 1), row_tag, m) == chunk_flow::<S>(
            bytes.take(cuts[n]),
            row_tag,
            m,
        ),
    decreases n,
{
    if n == 0 {
        let none = bytes.take(0);
        lemma_next_row(none, row_tag, special_spans(none, 0), 0);
    } else {
        lemma_chunks_to::<S>(bytes, cuts, row_tag, m, n - 1);
        assert(cuts.take(n + 1).drop_last() =~= cuts.take(n));
        let k = cuts[n - 1];
        let end = cuts[n];
        let part = bytes.take(end);
        lemma_clean_end(bytes);
        assert(clean_cut(bytes, k));
        if n < cuts.len() - 1 {
            assert(clean_cut(bytes, cuts[n]));
        }
        lemma_clean_before(bytes, k, end);
        assert(part.take(k) =~= bytes.take(k));
        assert(part.skip(k) =~= bytes.subrange(k, end));
        chunks_compose::<S>(part, k, row_tag, m);
    }
}

/// Scanning a document chunk by chunk is scanning it whole, where each cut lies between rows: a
/// sink that takes the rows of all chunks in order ends up as one that takes the rows of the
/// document.
pub proof fn all_chunks_compose<S: ColumnarSink>(
    bytes: Seq<u8>,
    cuts: Seq<int>,
    row_tag: Seq<u8>,
    m: S::Model,
)
    requires
        cut_between_rows::<S>(bytes, cuts, row_tag, m),
    ensures
        in_chunks::<S>(bytes, cuts, row_tag, m) == chunk_flow::<S>(bytes, row_tag, m),
{
    lemma_chunks_to::<S>(bytes, cuts, row_tag, m, cuts.len() - 1);
    assert(cuts.take(cuts.len() as int) =~= cuts);
    assert(bytes.take(bytes.len() as int) =~= bytes);
}

/// A row start that lies in no comment or CDATA section is a place to cut: none of them goes across
/// it, and it lies between marks.
pub proof fn row_starts_are_cuts(bytes: Seq<u8>, k: int, row_tag: Seq<u8>)
    requires
        row_start_at(bytes, row_tag, k),
        !in_spans(special_spans(bytes, 0), k),
        !row_tag.contains(LT),
    ensures
        clean_cut(bytes, k),
        between_marks(bytes, k, row_tag),
{
    let all = special_spans(bytes, 0);
    assert forall|i: int| 0 <= i < all.len() implies !((#[trigger] all[i]).0 < k < all[i].1) by {
        assert(!in_span(all[i], k));
    }
}

} // verus!
