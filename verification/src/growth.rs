//! Parsing only adds to a table.

use vstd::prelude::*;

use crate::columnar::EngineView;
use crate::events::{
    lemma_rest_events, readable, rest_events, tag_attributes, value_text, AttrView, EventView,
};
use crate::laws::{aligned, field_arrives, row_ends, same_cells};
use crate::parse::{
    engine_at, lemma_child_rest, lemma_child_rest_leniently, lemma_row_rest, one_row_leniently,
    parse_rows, row_body, row_body_leniently, with_attrs, with_attrs_leniently, with_child,
    with_child_leniently, ParseEnd, RowEnd,
};
use crate::text::plain_text;

verus! {

/// The table `b` is an aligned table that has the rows and the cells of `a`, and maybe more.
pub open spec fn grown(a: EngineView, b: EngineView) -> bool {
    aligned(b) && a.rows <= b.rows && same_cells(a, b)
}

pub proof fn lemma_grown_same(m: EngineView)
    ensures
        aligned(m) ==> grown(m, m),
{
}

pub proof fn lemma_grown_again(a: EngineView, b: EngineView, c: EngineView)
    requires
        grown(a, b),
        grown(b, c),
    ensures
        grown(a, c),
{
    assert forall|name: Seq<char>, i: int| a.has(name) && 0 <= i < a.rows implies c.has(name)
        && #[trigger] a.column(name).text_at(i) == c.column(name).text_at(i) by {
        assert(b.column(name).text_at(i) == a.column(name).text_at(i));
        assert(b.has(name));
    }
}

proof fn lemma_put_grows(a: EngineView, b: EngineView, name: Seq<char>, value: Option<Seq<char>>)
    requires
        grown(a, b),
    ensures
        grown(a, b.put(name, value)),
{
    field_arrives(b, name, value);
    lemma_grown_again(a, b, b.put(name, value));
}

proof fn lemma_row_grows(a: EngineView, b: EngineView)
    requires
        grown(a, b),
    ensures
        grown(a, b.finished()),
{
    row_ends(b);
    lemma_grown_again(a, b, b.finished());
}

proof fn lemma_attrs_grow(a: EngineView, attrs: Seq<AttrView>, b: EngineView)
    requires
        grown(a, b),
    ensures
        grown(a, with_attrs(attrs, b).0),
        grown(a, with_attrs_leniently(attrs, b)),
    decreases attrs.len(),
{
    if attrs.len() > 0 {
        match attrs[0] {
            AttrView::Pair { key, value } => {
                let text = match value_text(value) {
                    Ok(v) => v,
                    Err(_) => Seq::empty(),
                };
                lemma_put_grows(a, b, plain_text(key), Some(text));
                lemma_attrs_grow(a, attrs.drop_first(), b.put(plain_text(key), Some(text)));
            },
            AttrView::Broken { .. } => {
                lemma_attrs_grow(a, attrs.drop_first(), b);
            },
        }
    }
}

proof fn lemma_child_grows(
    a: EngineView,
    name: Seq<u8>,
    attrs: Seq<AttrView>,
    empty: bool,
    rest: Seq<EventView>,
    b: EngineView,
)
    requires
        grown(a, b),
    ensures
        grown(a, engine_at(with_child(name, attrs, empty, rest, b))),
        grown(a, engine_at(with_child_leniently(name, attrs, empty, rest, b))),
{
    assert forall|key: Seq<char>, value: Option<Seq<char>>|
        grown(a, #[trigger] b.put(key, value)) by {
        lemma_put_grows(a, b, key, value);
    }
}

proof fn lemma_body_grows(
    a: EngineView,
    events: Seq<EventView>,
    row_tag: Seq<u8>,
    b: EngineView,
)
    requires
        readable(events),
        grown(a, b),
    ensures
        grown(a, engine_at(row_body(events, row_tag, b))),
        grown(a, engine_at(row_body_leniently(events, row_tag, b))),
    decreases events.len(),
{
    lemma_rest_events(events);
    lemma_child_rest(events, b);
    lemma_child_rest_leniently(events, b);
    let rest = rest_events(events);
    match events[0] {
        EventView::Start { name, rest: raw } => {
            let attrs = tag_attributes(name, raw);
            lemma_child_grows(a, name, attrs, false, rest, b);
            if let RowEnd::Closed { m, rest: left } = with_child(name, attrs, false, rest, b) {
                lemma_body_grows(a, left, row_tag, m);
            }
            if let RowEnd::Closed { m, rest: left } = with_child_leniently(
                name,
                attrs,
                false,
                rest,
                b,
            ) {
                lemma_body_grows(a, left, row_tag, m);
            }
        },
        EventView::Empty { name, rest: raw } => {
            let attrs = tag_attributes(name, raw);
            lemma_child_grows(a, name, attrs, true, rest, b);
            if let RowEnd::Closed { m, rest: left } = with_child(name, attrs, true, rest, b) {
                lemma_body_grows(a, left, row_tag, m);
            }
            if let RowEnd::Closed { m, rest: left } = with_child_leniently(
                name,
                attrs,
                true,
                rest,
                b,
            ) {
                lemma_body_grows(a, left, row_tag, m);
            }
        },
        EventView::End { name } => {
            if name != row_tag {
                lemma_body_grows(a, rest, row_tag, b);
            }
        },
        EventView::Eof => {},
        EventView::Failed { .. } => {},
        _ => {
            lemma_body_grows(a, rest, row_tag, b);
        },
    }
}

/// The table where the rows of a document ended.
pub open spec fn table_at(end: ParseEnd) -> EngineView {
    match end {
        ParseEnd::Done { m } => m,
        ParseEnd::Broken { m, .. } => m,
        ParseEnd::Failed { m, .. } => m,
    }
}

proof fn lemma_rows_grow(
    a: EngineView,
    events: Seq<EventView>,
    row_tag: Seq<u8>,
    b: EngineView,
)
    requires
        readable(events),
        grown(a, b),
    ensures
        grown(a, table_at(parse_rows(events, row_tag, b))),
    decreases events.len(),
{
    lemma_rest_events(events);
    let rest = rest_events(events);
    match events[0] {
        EventView::Empty { name, rest: raw } => {
            if name == row_tag {
                let attrs = with_attrs(tag_attributes(name, raw), b);
                lemma_attrs_grow(a, tag_attributes(name, raw), b);
                if attrs.1 is None {
                    lemma_row_grows(a, attrs.0);
                    lemma_rows_grow(a, rest, row_tag, attrs.0.finished());
                }
            } else {
                lemma_rows_grow(a, rest, row_tag, b);
            }
        },
        EventView::Start { name, rest: raw } => {
            if name == row_tag {
                let attrs = with_attrs(tag_attributes(name, raw), b);
                lemma_attrs_grow(a, tag_attributes(name, raw), b);
                if attrs.1 is None {
                    lemma_row_rest(rest, row_tag, attrs.0);
                    lemma_body_grows(a, rest, row_tag, attrs.0);
                    if let RowEnd::Closed { m, rest: left } = row_body(rest, row_tag, attrs.0) {
                        lemma_row_grows(a, m);
                        lemma_rows_grow(a, left, row_tag, m.finished());
                    }
                }
            } else {
                lemma_rows_grow(a, rest, row_tag, b);
            }
        },
        EventView::Eof => {},
        EventView::Failed { .. } => {},
        _ => {
            lemma_rows_grow(a, rest, row_tag, b);
        },
    }
}

/// The rows of a document only add to a table: its columns stay aligned, its rows stay, and the
/// cells of its rows keep their texts.
pub proof fn rows_only_add(events: Seq<EventView>, row_tag: Seq<u8>, m: EngineView)
    requires
        readable(events),
        aligned(m),
    ensures
        grown(m, table_at(parse_rows(events, row_tag, m))),
{
    lemma_rows_grow(m, events, row_tag, m);
}

/// A row that is read where errors are passed over only adds to a table.
pub proof fn lenient_row_only_adds(events: Seq<EventView>, row_tag: Seq<u8>, m: EngineView)
    requires
        readable(events),
        aligned(m),
    ensures
        grown(m, one_row_leniently(events, row_tag, m).0),
{
    lemma_rest_events(events);
    match events[0] {
        EventView::Empty { name, rest } => {
            let attrs = tag_attributes(name, rest);
            lemma_attrs_grow(m, attrs, m);
            lemma_row_grows(m, with_attrs_leniently(attrs, m));
        },
        EventView::Start { name, rest } => {
            let attrs = tag_attributes(name, rest);
            lemma_attrs_grow(m, attrs, m);
            let open = with_attrs_leniently(attrs, m);
            lemma_body_grows(m, rest_events(events), row_tag, open);
            lemma_row_grows(m, engine_at(row_body_leniently(rest_events(events), row_tag, open)));
        },
        _ => {},
    }
}

} // verus!
