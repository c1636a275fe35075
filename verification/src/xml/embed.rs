//! A byte string in a longer one: what is found in the short one is found at the shifted place in
//! the long one.

use vstd::prelude::*;
use vstd::utf8::encode_utf8;

use crate::bytes::{
    byte_from, bytes_from, first_where, holds_byte, holds_bytes, lemma_byte_from, lemma_first_where,
    lemma_first_where_is, occurs_at, GT, LT,
};
use crate::markup::{in_spans, span_end, CDATA_CLOSE, CDATA_OPEN, COMMENT_CLOSE, COMMENT_OPEN};
use crate::text::decoded;
use crate::xml::scanner::{
    child_flow, children_flow, element_body, element_flow, field_keys, field_values,
    lemma_child_advances, row_flow, with_attrs, ChildFlowView, FlowView,
};
use crate::xml::sink::ColumnarSink;
use crate::xml::tokens::{
    attr_value, bytes_left, close_extent, close_prefix, close_start, close_starts, close_tag,
    construct_skip, lemma_close_extent, lemma_name_stop, lemma_open_tag_bounds,
    lemma_token_advances, name_ends, name_stop, open_tag, quote_or_gt, tag_gt, text_after, token,
    OpenTagView, TokenView,
};

verus! {

/// `t` stands in `s` at offset `d`.
pub open spec fn stands_in(t: Seq<u8>, s: Seq<u8>, d: int) -> bool {
    &&& 0 <= d
    &&& d + t.len() <= s.len()
    &&& forall|i: int| 0 <= i < t.len() ==> #[trigger] t[i] == s[i + d]
}

/// `t` stands at the end of `s`.
pub open spec fn ends_with(t: Seq<u8>, s: Seq<u8>, d: int) -> bool {
    stands_in(t, s, d) && d + t.len() == s.len()
}

/// A found offset in `t` as an offset in `s`.
pub open spec fn moved(at: Option<int>, d: int) -> Option<int> {
    match at {
        Some(i) => Some(i + d),
        None => None,
    }
}

/// What is first in a part is first at the shifted place, where the two agree up to there.
pub proof fn lemma_moved_first(
    from: int,
    to: int,
    hit: spec_fn(int) -> bool,
    d: int,
    end: int,
    there: spec_fn(int) -> bool,
)
    requires
        to + d <= end,
        first_where(from, to, hit) matches Some(i) ==> forall|j: int|
            from <= j <= i ==> #[trigger] hit(j) == there(j + d),
        first_where(from, to, hit) is None && to + d == end ==> forall|j: int|
            from <= j < to ==> #[trigger] hit(j) == there(j + d),
    ensures
        first_where(from, to, hit) is Some || to + d == end ==> first_where(from + d, end, there)
            == moved(first_where(from, to, hit), d),
{
    lemma_first_where(from, to, hit);
    match first_where(from, to, hit) {
        Some(i) => {
            assert(hit(i));
            assert forall|j: int| from + d <= j < i + d implies !#[trigger] there(j) by {
                assert(!hit(j - d));
            }
            lemma_first_where_is(from + d, end, there, Some(i + d));
        },
        None => {
            if to + d == end {
                assert forall|j: int| from + d <= j < end implies !#[trigger] there(j) by {
                    assert(!hit(j - d));
                }
                lemma_first_where_is(from + d, end, there, None);
            }
        },
    }
}

/// A part that lies in `t` is the same at the shifted place.
proof fn lemma_moved_part(t: Seq<u8>, s: Seq<u8>, d: int, a: int, b: int)
    requires
        stands_in(t, s, d),
        0 <= a <= b <= t.len(),
    ensures
        t.subrange(a, b) == s.subrange(a + d, b + d),
{
    assert forall|i: int| 0 <= i < b - a implies t.subrange(a, b)[i] == s.subrange(
        a + d,
        b + d,
    )[i] by {
        assert(t[a + i] == s[a + i + d]);
    }
    assert(t.subrange(a, b) =~= s.subrange(a + d, b + d));
}

/// An occurrence that would lie in `t` is one at the shifted place.
pub proof fn lemma_moved_occurs(t: Seq<u8>, s: Seq<u8>, d: int, needle: Seq<u8>, at: int)
    requires
        stands_in(t, s, d),
        0 <= at,
    ensures
        at + needle.len() <= t.len() || ends_with(t, s, d) ==> occurs_at(t, needle, at)
            == occurs_at(s, needle, at + d),
        occurs_at(t, needle, at) ==> occurs_at(s, needle, at + d),
{
    if at + needle.len() <= t.len() {
        lemma_moved_part(t, s, d, at, at + needle.len());
    }
}

proof fn lemma_moved_byte(t: Seq<u8>, s: Seq<u8>, d: int, b: u8, from: int)
    requires
        stands_in(t, s, d),
        0 <= from,
    ensures
        byte_from(t, b, from) is Some || ends_with(t, s, d) ==> byte_from(s, b, from + d) == moved(
            byte_from(t, b, from),
            d,
        ),
{
    lemma_first_where(from, t.len() as int, holds_byte(t, b));
    assert forall|j: int| from <= j < t.len() implies #[trigger] holds_byte(t, b)(j) == holds_byte(
        s,
        b,
    )(j + d) by {
        assert(t[j] == s[j + d]);
    }
    lemma_moved_first(
        from,
        t.len() as int,
        holds_byte(t, b),
        d,
        s.len() as int,
        holds_byte(s, b),
    );
}

pub proof fn lemma_moved_bytes(t: Seq<u8>, s: Seq<u8>, d: int, needle: Seq<u8>, from: int)
    requires
        stands_in(t, s, d),
        0 <= from,
    ensures
        bytes_from(t, needle, from) is Some || ends_with(t, s, d) ==> bytes_from(
            s,
            needle,
            from + d,
        ) == moved(bytes_from(t, needle, from), d),
{
    let hit = holds_bytes(t, needle);
    let there = holds_bytes(s, needle);
    lemma_first_where(from, t.len() as int + 1, hit);
    if let Some(i) = bytes_from(t, needle, from) {
        assert(hit(i));
        assert forall|j: int| from <= j <= i implies #[trigger] hit(j) == there(j + d) by {
            lemma_moved_occurs(t, s, d, needle, j);
        }
    } else if ends_with(t, s, d) {
        assert forall|j: int| from <= j < t.len() + 1 implies #[trigger] hit(j) == there(j + d) by {
            lemma_moved_occurs(t, s, d, needle, j);
        }
    }
    lemma_moved_first(from, t.len() as int + 1, hit, d, s.len() as int + 1, there);
}

proof fn lemma_moved_gt(t: Seq<u8>, s: Seq<u8>, d: int, from: int)
    requires
        stands_in(t, s, d),
        0 <= from,
    ensures
        tag_gt(t, from) is Some || ends_with(t, s, d) ==> tag_gt(s, from + d) == moved(
            tag_gt(t, from),
            d,
        ),
    decreases t.len() - from,
{
    let hit = quote_or_gt(t);
    let there = quote_or_gt(s);
    lemma_first_where(from, t.len() as int, hit);
    assert forall|j: int| from <= j < t.len() implies #[trigger] hit(j) == there(j + d) by {
        assert(t[j] == s[j + d]);
    }
    lemma_moved_first(from, t.len() as int, hit, d, s.len() as int, there);
    if let Some(at) = first_where(from, t.len() as int, hit) {
        assert(t[at] == s[at + d]);
        if t[at] != GT {
            lemma_byte_from(t, t[at], at + 1);
            lemma_moved_byte(t, s, d, t[at], at + 1);
            if let Some(close) = byte_from(t, t[at], at + 1) {
                lemma_moved_gt(t, s, d, close + 1);
            }
        }
    }
}

proof fn lemma_moved_stop(t: Seq<u8>, s: Seq<u8>, d: int, from: int)
    requires
        stands_in(t, s, d),
        0 <= from,
    ensures
        name_stop(t, from) < t.len() || ends_with(t, s, d) ==> name_stop(s, from + d) == name_stop(
            t,
            from,
        ) + d,
{
    let hit = name_ends(t);
    let there = name_ends(s);
    lemma_first_where(from, t.len() as int, hit);
    assert forall|j: int| from <= j < t.len() implies #[trigger] hit(j) == there(j + d) by {
        assert(t[j] == s[j + d]);
    }
    lemma_moved_first(from, t.len() as int, hit, d, s.len() as int, there);
}

/// An open tag at the shifted place.
pub open spec fn moved_tag(tag: OpenTagView, d: int) -> OpenTagView {
    OpenTagView { after: tag.after + d, ..tag }
}

proof fn lemma_moved_tag(t: Seq<u8>, s: Seq<u8>, d: int, lt: int)
    requires
        stands_in(t, s, d),
        0 <= lt < t.len(),
    ensures
        open_tag(t, lt) matches Some(tag) ==> open_tag(s, lt + d) == Some(moved_tag(tag, d)),
        ends_with(t, s, d) && open_tag(t, lt) is None ==> open_tag(s, lt + d) is None,
{
    let stop = name_stop(t, lt + 1);
    lemma_name_stop(t, lt + 1);
    lemma_open_tag_bounds(t, lt);
    lemma_moved_stop(t, s, d, lt + 1);
    lemma_moved_gt(t, s, d, stop);
    if let Some(tag) = open_tag(t, lt) {
        let gt = tag.after - 1;
        assert(t[gt - 1] == s[gt - 1 + d]);
        lemma_moved_part(t, s, d, lt + 1, stop);
        let end = if tag.self_closing {
            gt - 1
        } else {
            gt
        };
        lemma_moved_part(t, s, d, stop, end);
    }
}

proof fn lemma_moved_close_tag(t: Seq<u8>, s: Seq<u8>, d: int, lt: int)
    requires
        stands_in(t, s, d),
        0 <= lt,
    ensures
        close_tag(t, lt) matches Some(c) ==> close_tag(s, lt + d) == Some((c.0, c.1 + d)),
        ends_with(t, s, d) && close_tag(t, lt) is None ==> close_tag(s, lt + d) is None,
{
    lemma_moved_byte(t, s, d, GT, lt + 2);
    lemma_byte_from(t, GT, lt + 2);
    if let Some(gt) = byte_from(t, GT, lt + 2) {
        lemma_moved_part(t, s, d, lt + 2, gt);
    }
}

proof fn lemma_moved_construct(t: Seq<u8>, s: Seq<u8>, d: int, lt: int)
    requires
        stands_in(t, s, d),
        0 <= lt,
    ensures
        construct_skip(t, lt) is Some || ends_with(t, s, d) ==> construct_skip(s, lt + d) == moved(
            construct_skip(t, lt),
            d,
        ),
{
    lemma_moved_occurs(t, s, d, COMMENT_OPEN@, lt);
    lemma_moved_occurs(t, s, d, CDATA_OPEN@, lt);
    lemma_moved_bytes(t, s, d, COMMENT_CLOSE@, lt + COMMENT_OPEN@.len());
    lemma_moved_bytes(t, s, d, CDATA_CLOSE@, lt + CDATA_OPEN@.len());
    lemma_moved_byte(t, s, d, GT, lt + 1);
    lemma_byte_from(t, GT, lt + 1);
    if !ends_with(t, s, d) && !occurs_at(t, COMMENT_OPEN@, lt) {
        if let Some(gt) = byte_from(t, GT, lt + 1) {
            assert(t[gt] == s[gt + d]);
            if occurs_at(s, COMMENT_OPEN@, lt + d) && gt < lt + 4 {
                assert(s.subrange(lt + d, lt + d + 4)[gt - lt] == COMMENT_OPEN@[gt - lt]);
            }
            if occurs_at(s, CDATA_OPEN@, lt + d) && gt < lt + 9 {
                assert(s.subrange(lt + d, lt + d + 9)[gt - lt] == CDATA_OPEN@[gt - lt]);
            }
        }
        if occurs_at(t, CDATA_OPEN@, lt) {
            assert(t.subrange(lt, lt + 9)[2] == CDATA_OPEN@[2]);
            assert(t[lt + 2] == s[lt + 2 + d]);
            if occurs_at(s, COMMENT_OPEN@, lt + d) {
                assert(s.subrange(lt + d, lt + d + 4)[2] == COMMENT_OPEN@[2]);
            }
        }
    }
}

/// The spans cover the same part of `t` as the spans there do of the shifted part of `s`, and end
/// at the same places.
pub open spec fn cover_alike(
    regions: Seq<(int, int)>,
    there: Seq<(int, int)>,
    d: int,
    len: int,
) -> bool {
    forall|at: int|
        0 <= at < len ==> #[trigger] in_spans(regions, at) == in_spans(there, at + d) && (in_spans(
            regions,
            at,
        ) ==> span_end(regions, at) + d == span_end(there, at + d))
}

/// A token at the shifted place.
pub open spec fn moved_token(found: TokenView, d: int) -> TokenView {
    match found {
        TokenView::End => TokenView::End,
        TokenView::Skip(next) => TokenView::Skip(next + d),
        TokenView::Close { name, after } => TokenView::Close { name, after: after + d },
        TokenView::Open(tag) => TokenView::Open(moved_tag(tag, d)),
    }
}

proof fn lemma_moved_token(
    t: Seq<u8>,
    s: Seq<u8>,
    d: int,
    cur: int,
    regions: Seq<(int, int)>,
    there: Seq<(int, int)>,
)
    requires
        stands_in(t, s, d),
        cover_alike(regions, there, d, t.len() as int),
        0 <= cur,
    ensures
        !(token(t, cur, regions) is End) || ends_with(t, s, d) ==> token(s, cur + d, there)
            == moved_token(token(t, cur, regions), d),
{
    lemma_moved_byte(t, s, d, LT, cur);
    lemma_byte_from(t, LT, cur);
    if let Some(lt) = byte_from(t, LT, cur) {
        assert(in_spans(regions, lt) == in_spans(there, lt + d));
        if lt + 1 < t.len() {
            assert(t[lt + 1] == s[lt + 1 + d]);
            lemma_moved_close_tag(t, s, d, lt);
            lemma_moved_construct(t, s, d, lt);
            lemma_moved_tag(t, s, d, lt);
        }
    }
}

proof fn lemma_moved_extent(
    t: Seq<u8>,
    s: Seq<u8>,
    d: int,
    pat: Seq<u8>,
    regions: Seq<(int, int)>,
    there: Seq<(int, int)>,
    from: int,
)
    requires
        stands_in(t, s, d),
        cover_alike(regions, there, d, t.len() as int),
        0 <= from,
    ensures
        close_extent(t, pat, regions, from) matches Some(e) ==> close_extent(
            s,
            pat,
            there,
            from + d,
        ) == Some((e.0 + d, e.1 + d)),
        ends_with(t, s, d) && close_extent(t, pat, regions, from) is None ==> close_extent(
            s,
            pat,
            there,
            from + d,
        ) is None,
{
    let hit = close_starts(t, pat, regions);
    let far = close_starts(s, pat, there);
    lemma_first_where(from, t.len() as int, hit);
    if let Some(i) = close_start(t, pat, regions, from) {
        assert(hit(i));
        assert forall|j: int| from <= j <= i implies #[trigger] hit(j) == far(j + d) by {
            lemma_moved_occurs(t, s, d, pat, j);
            assert(t[j + pat.len()] == s[j + pat.len() + d]);
            assert(in_spans(regions, j) == in_spans(there, j + d));
        }
        lemma_moved_byte(t, s, d, GT, i + pat.len());
    } else if ends_with(t, s, d) {
        assert forall|j: int| from <= j < t.len() implies #[trigger] hit(j) == far(j + d) by {
            lemma_moved_occurs(t, s, d, pat, j);
            if j + pat.len() < t.len() {
                assert(t[j + pat.len()] == s[j + pat.len() + d]);
            }
            assert(in_spans(regions, j) == in_spans(there, j + d));
        }
    }
    lemma_moved_first(from, t.len() as int, hit, d, s.len() as int, far);
}

proof fn lemma_moved_body(
    t: Seq<u8>,
    s: Seq<u8>,
    d: int,
    cur: int,
    text: Seq<char>,
    close: Seq<u8>,
    values: Seq<Seq<u8>>,
    regions: Seq<(int, int)>,
    there: Seq<(int, int)>,
)
    requires
        stands_in(t, s, d),
        cover_alike(regions, there, d, t.len() as int),
        0 <= cur,
    ensures
        element_body(t, cur, text, close, values, regions) matches Some(e) ==> element_body(
            s,
            cur + d,
            text,
            close,
            values,
            there,
        ) == Some((e.0, e.1 + d)),
        ends_with(t, s, d) && element_body(t, cur, text, close, values, regions) is None
            ==> element_body(s, cur + d, text, close, values, there) is None,
    decreases bytes_left(t, cur),
{
    lemma_token_advances(t, cur, regions);
    lemma_moved_token(t, s, d, cur, regions, there);
    match token(t, cur, regions) {
        TokenView::End => {},
        TokenView::Skip(next) => {
            lemma_moved_body(t, s, d, next, text, close, values, regions, there);
        },
        TokenView::Close { name, after } => {
            if name != close {
                lemma_moved_body(t, s, d, after, text, close, values, regions, there);
            }
        },
        TokenView::Open(tag) => {
            if values.contains(tag.name) && !tag.self_closing {
                let pat = close_prefix(tag.name);
                lemma_close_extent(t, pat, regions, tag.after);
                lemma_moved_extent(t, s, d, pat, regions, there, tag.after);
                if let Some(e) = close_extent(t, pat, regions, tag.after) {
                    lemma_moved_part(t, s, d, tag.after, e.0);
                    lemma_moved_body(
                        t,
                        s,
                        d,
                        e.1,
                        text_after(text, t.subrange(tag.after, e.0)),
                        close,
                        values,
                        regions,
                        there,
                    );
                }
            } else {
                lemma_moved_body(t, s, d, tag.after, text, close, values, regions, there);
            }
        },
    }
}

/// The end of a unit at the shifted place.
pub open spec fn moved_flow(flow: FlowView, d: int) -> FlowView {
    match flow {
        FlowView::At(next) => FlowView::At(next + d),
        FlowView::Truncated => FlowView::Truncated,
        FlowView::Recover => FlowView::Recover,
    }
}

/// The end of a piece of markup in a row at the shifted place.
pub open spec fn moved_child(flow: ChildFlowView, d: int) -> ChildFlowView {
    match flow {
        ChildFlowView::Continue(next) => ChildFlowView::Continue(next + d),
        ChildFlowView::RowEnd(after) => ChildFlowView::RowEnd(after + d),
        ChildFlowView::Truncated => ChildFlowView::Truncated,
        ChildFlowView::Recover => ChildFlowView::Recover,
    }
}

proof fn lemma_moved_element<S: ColumnarSink>(
    t: Seq<u8>,
    s: Seq<u8>,
    d: int,
    tag: OpenTagView,
    key: Seq<char>,
    close: Seq<u8>,
    values: Seq<Seq<u8>>,
    regions: Seq<(int, int)>,
    there: Seq<(int, int)>,
    m: S::Model,
)
    requires
        stands_in(t, s, d),
        cover_alike(regions, there, d, t.len() as int),
        0 <= tag.after,
    ensures
        ({
            let near = element_flow::<S>(t, tag, key, close, values, regions, m);
            !(near.0 is Truncated) || ends_with(t, s, d) ==> element_flow::<S>(
                s,
                moved_tag(tag, d),
                key,
                close,
                values,
                there,
                m,
            ) == (moved_flow(near.0, d), near.1)
        }),
{
    lemma_moved_extent(t, s, d, close_prefix(close), regions, there, tag.after);
    lemma_moved_body(t, s, d, tag.after, Seq::empty(), close, values, regions, there);
}

proof fn lemma_moved_child<S: ColumnarSink>(
    t: Seq<u8>,
    s: Seq<u8>,
    d: int,
    cur: int,
    row_tag: Seq<u8>,
    regions: Seq<(int, int)>,
    there: Seq<(int, int)>,
    m: S::Model,
)
    requires
        stands_in(t, s, d),
        cover_alike(regions, there, d, t.len() as int),
        0 <= cur,
    ensures
        ({
            let near = child_flow::<S>(t, cur, row_tag, regions, m);
            !(near.0 is Truncated) || ends_with(t, s, d) ==> child_flow::<S>(
                s,
                cur + d,
                row_tag,
                there,
                m,
            ) == (moved_child(near.0, d), near.1)
        }),
{
    lemma_token_advances(t, cur, regions);
    lemma_moved_token(t, s, d, cur, regions, there);
    if let TokenView::Open(tag) = token(t, cur, regions) {
        let keys = field_keys();
        let field_key = match attr_value(tag.interior, keys) {
            Ok(Some(v)) => decoded(v),
            _ => "Field"@,
        };
        lemma_moved_element::<S>(
            t,
            s,
            d,
            tag,
            field_key,
            encode_utf8("Field"@),
            field_values(),
            regions,
            there,
            m,
        );
        let text_key = match attr_value(
            tag.interior,
            seq![encode_utf8("Name"@)],
        ) {
            Ok(Some(v)) => decoded(v),
            _ => "Text"@,
        };
        lemma_moved_element::<S>(
            t,
            s,
            d,
            tag,
            text_key,
            encode_utf8("Text"@),
            seq![encode_utf8("TextValue"@)],
            regions,
            there,
            m,
        );
    }
}

proof fn lemma_moved_children<S: ColumnarSink>(
    t: Seq<u8>,
    s: Seq<u8>,
    d: int,
    cur: int,
    row_tag: Seq<u8>,
    regions: Seq<(int, int)>,
    there: Seq<(int, int)>,
    m: S::Model,
)
    requires
        stands_in(t, s, d),
        cover_alike(regions, there, d, t.len() as int),
        0 <= cur,
    ensures
        ({
            let near = children_flow::<S>(t, cur, row_tag, regions, m);
            !(near.0 is Truncated) || ends_with(t, s, d) ==> children_flow::<S>(
                s,
                cur + d,
                row_tag,
                there,
                m,
            ) == (moved_flow(near.0, d), near.1)
        }),
    decreases bytes_left(t, cur),
{
    lemma_child_advances::<S>(t, cur, row_tag, regions, m);
    lemma_moved_child::<S>(t, s, d, cur, row_tag, regions, there, m);
    let step = child_flow::<S>(t, cur, row_tag, regions, m);
    if let ChildFlowView::Continue(next) = step.0 {
        if S::rejects(step.1) {
            lemma_moved_extent(t, s, d, close_prefix(row_tag), regions, there, next);
        } else {
            lemma_moved_children::<S>(t, s, d, next, row_tag, regions, there, step.1);
        }
    }
}

/// A row that ends in a part does the same at the shifted place of the whole; so does every row of
/// a part that stands at the end.
pub proof fn lemma_moved_row<S: ColumnarSink>(
    t: Seq<u8>,
    s: Seq<u8>,
    d: int,
    lt: int,
    row_tag: Seq<u8>,
    regions: Seq<(int, int)>,
    there: Seq<(int, int)>,
    m: S::Model,
)
    requires
        stands_in(t, s, d),
        cover_alike(regions, there, d, t.len() as int),
        0 <= lt < t.len(),
    ensures
        ({
            let near = row_flow::<S>(t, lt, row_tag, regions, m);
            !(near.0 is Truncated) || ends_with(t, s, d) ==> row_flow::<S>(
                s,
                lt + d,
                row_tag,
                there,
                m,
            ) == (moved_flow(near.0, d), near.1)
        }),
{
    lemma_moved_tag(t, s, d, lt);
    lemma_open_tag_bounds(t, lt);
    if let Some(open) = open_tag(t, lt) {
        let attrs = with_attrs::<S>(open.interior, S::begun(m));
        if !attrs.1 && !open.self_closing {
            lemma_moved_children::<S>(t, s, d, open.after, row_tag, regions, there, attrs.0);
        }
    }
}

} // verus!
