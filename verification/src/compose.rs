//! One document after another: the rows of the events of both are the rows of the first and then
//! those of the second.

use vstd::prelude::*;
use vstd::utf8::encode_utf8;

use crate::columnar::EngineView;
use crate::events::{
    is_text, lemma_rest_events, readable, rest_events, tag_attributes, value_text, AttrView, EventView,
};
use crate::parse::{
    element_text, lemma_child_rest, lemma_row_rest, parse_rows, row_body, text_values, with_attrs,
    with_child, ParseEnd, RowEnd, TextEnd,
};
use crate::xml::scanner::field_values;

verus! {

/// The events of one document without its end, and then those of another.
pub open spec fn followed_by(events: Seq<EventView>, more: Seq<EventView>) -> Seq<EventView> {
    events.drop_last() + more
}

/// The rows of the events can be read, and none of them is cut off by the end of the document.
pub open spec fn whole_rows(events: Seq<EventView>, row_tag: Seq<u8>, m: EngineView) -> bool
    decreases events.len(),
    when readable(events)
{
    proof {
        lemma_rest_events(events);
    }
    let rest = rest_events(events);
    match events[0] {
        EventView::Empty { name, rest: raw } => if name == row_tag {
            let attrs = with_attrs(tag_attributes(name, raw), m);
            attrs.1 is None && whole_rows(rest, row_tag, attrs.0.finished())
        } else {
            whole_rows(rest, row_tag, m)
        },
        EventView::Start { name, rest: raw } => if name == row_tag {
            let attrs = with_attrs(tag_attributes(name, raw), m);
            proof {
                lemma_row_rest(rest, row_tag, attrs.0);
            }
            attrs.1 is None && match row_body(rest, row_tag, attrs.0) {
                RowEnd::Closed { m: next, rest: left } => whole_rows(
                    left,
                    row_tag,
                    next.finished(),
                ),
                _ => false,
            }
        } else {
            whole_rows(rest, row_tag, m)
        },
        EventView::Eof => true,
        EventView::Failed { .. } => false,
        _ => whole_rows(rest, row_tag, m),
    }
}

/// Two documents one after the other can be read as one, and start with the first event of the first.
pub proof fn lemma_followed_by(events: Seq<EventView>, more: Seq<EventView>)
    requires
        readable(events),
        readable(more),
    ensures
        readable(followed_by(events, more)),
        events[0] is Eof ==> followed_by(events, more) == more,
        !(events[0] is Eof) ==> followed_by(events, more)[0] == events[0] && rest_events(
            followed_by(events, more),
        ) == followed_by(rest_events(events), more),
{
    let both = followed_by(events, more);
    let n = events.len() - 1;
    assert(both.last() == more.last());
    assert forall|i: int| 0 <= i < both.len() - 1 implies !(#[trigger] both[i] is Eof) by {
        if i < n {
            assert(both[i] == events[i]);
        } else {
            assert(both[i] == more[i - n]);
        }
    }
    assert forall|i: int| 0 <= i < both.len() implies is_text(#[trigger] both[i]) by {
        if i < n {
            assert(both[i] == events[i]);
        } else {
            assert(both[i] == more[i - n]);
        }
    }
    if events[0] is Eof {
        assert(both =~= more);
    } else {
        assert(n > 0);
        assert(both[0] == events[0]);
        assert(both.skip(1) =~= followed_by(events.skip(1), more));
    }
}

/// An element that is whole in a document is the same where another document follows.
proof fn lemma_element_followed(
    events: Seq<EventView>,
    more: Seq<EventView>,
    close: Seq<u8>,
    values: Seq<Seq<u8>>,
    text: Seq<char>,
)
    requires
        readable(events),
        readable(more),
    ensures
        element_text(events, close, values, text) matches TextEnd::Closed { text: t, rest }
            ==> element_text(followed_by(events, more), close, values, text) == (TextEnd::Closed {
            text: t,
            rest: followed_by(rest, more),
        }),
    decreases events.len(),
{
    lemma_rest_events(events);
    lemma_followed_by(events, more);
    let rest = rest_events(events);
    lemma_rest_events(rest);
    lemma_followed_by(rest, more);
    let after = rest_events(rest);
    match events[0] {
        EventView::Start { name, .. } => if values.contains(name) {
            match rest[0] {
                EventView::Text { content } => {
                    match value_text(content) {
                        Ok(t) => {
                            lemma_element_followed(after, more, close, values, t);
                        },
                        Err(_) => {},
                    }
                },
                _ => {
                    if after.len() < events.len() {
                        lemma_element_followed(after, more, close, values, text);
                    }
                },
            }
        } else {
            lemma_element_followed(rest, more, close, values, text);
        },
        EventView::Eof => {},
        _ => {
            lemma_element_followed(rest, more, close, values, text);
        },
    }
}

/// A child of a row that is whole in a document is the same where another document follows.
proof fn lemma_child_followed(
    name: Seq<u8>,
    attrs: Seq<AttrView>,
    empty: bool,
    rest: Seq<EventView>,
    more: Seq<EventView>,
    m: EngineView,
)
    requires
        readable(rest),
        readable(more),
    ensures
        with_child(name, attrs, empty, rest, m) matches RowEnd::Closed { m: next, rest: left }
            ==> with_child(name, attrs, empty, followed_by(rest, more), m) == (RowEnd::Closed {
            m: next,
            rest: followed_by(left, more),
        }),
{
    lemma_element_followed(
        rest,
        more,
        encode_utf8("Field"@),
        field_values(),
        Seq::empty(),
    );
    lemma_element_followed(
        rest,
        more,
        encode_utf8("Text"@),
        text_values(),
        Seq::empty(),
    );
}

/// A row that is whole in a document is the same where another document follows.
proof fn lemma_row_followed(
    events: Seq<EventView>,
    more: Seq<EventView>,
    row_tag: Seq<u8>,
    m: EngineView,
)
    requires
        readable(events),
        readable(more),
    ensures
        row_body(events, row_tag, m) matches RowEnd::Closed { m: next, rest } ==> row_body(
            followed_by(events, more),
            row_tag,
            m,
        ) == (RowEnd::Closed { m: next, rest: followed_by(rest, more) }),
    decreases events.len(),
{
    lemma_rest_events(events);
    lemma_followed_by(events, more);
    lemma_child_rest(events, m);
    let rest = rest_events(events);
    match events[0] {
        EventView::Start { name, rest: raw } => {
            let attrs = tag_attributes(name, raw);
            lemma_child_followed(name, attrs, false, rest, more, m);
            if let RowEnd::Closed { m: next, rest: left } = with_child(name, attrs, false, rest, m) {
                lemma_row_followed(left, more, row_tag, next);
            }
        },
        EventView::Empty { name, rest: raw } => {
            let attrs = tag_attributes(name, raw);
            lemma_child_followed(name, attrs, true, rest, more, m);
            if let RowEnd::Closed { m: next, rest: left } = with_child(name, attrs, true, rest, m) {
                lemma_row_followed(left, more, row_tag, next);
            }
        },
        EventView::Eof => {},
        _ => {
            lemma_row_followed(rest, more, row_tag, m);
        },
    }
}

/// Reading one document and then another is reading the two in one: where the rows of the first
/// are whole, the second goes on from the table that the first leaves, and the rows of the two are
/// whole where those of the second are.
pub proof fn documents_compose(
    events: Seq<EventView>,
    more: Seq<EventView>,
    row_tag: Seq<u8>,
    m: EngineView,
)
    requires
        readable(events),
        readable(more),
        whole_rows(events, row_tag, m),
    ensures
        parse_rows(events, row_tag, m) matches ParseEnd::Done { m: middle } && parse_rows(
            followed_by(events, more),
            row_tag,
            m,
        ) == parse_rows(more, row_tag, middle) && whole_rows(
            followed_by(events, more),
            row_tag,
            m,
        ) == whole_rows(more, row_tag, middle),
    decreases events.len(),
{
    lemma_rest_events(events);
    lemma_followed_by(events, more);
    let rest = rest_events(events);
    match events[0] {
        EventView::Empty { name, rest: raw } => if name == row_tag {
            let attrs = with_attrs(tag_attributes(name, raw), m);
            documents_compose(rest, more, row_tag, attrs.0.finished());
        } else {
            documents_compose(rest, more, row_tag, m);
        },
        EventView::Start { name, rest: raw } => if name == row_tag {
            let attrs = with_attrs(tag_attributes(name, raw), m);
            lemma_row_rest(rest, row_tag, attrs.0);
            lemma_row_followed(rest, more, row_tag, attrs.0);
            if let RowEnd::Closed { m: next, rest: left } = row_body(rest, row_tag, attrs.0) {
                documents_compose(left, more, row_tag, next.finished());
            }
        } else {
            documents_compose(rest, more, row_tag, m);
        },
        EventView::Eof => {},
        _ => {
            documents_compose(rest, more, row_tag, m);
        },
    }
}

} // verus!
