//! Two tables that take the same rows.

use vstd::prelude::*;
use vstd::utf8::encode_utf8;

use crate::bytes::LT;
use crate::columnar::EngineView;
use crate::compose::whole_rows;
use crate::events::{
    document_events, lemma_rest_events, readable, rest_events, tag_attributes, value_text, AttrView,
    EventView,
};
use crate::growth::table_at;
use crate::markup::{lemma_next_row, next_row};
use crate::parse::{
    element_text, element_text_leniently, engine_at, first_text, key_or, lemma_child_rest,
    lemma_child_rest_leniently, lemma_row_rest, named_text, one_row_leniently, parse_rows, parsed,
    row_body, row_body_leniently, tail_rows, text_keys, text_values, with_attrs,
    with_attrs_leniently, with_child, with_child_leniently, with_element, ParseEnd, RowEnd, TextEnd,
};
use crate::text::plain_text;
use crate::xml::scanner::{field_keys, field_values};
use crate::xml::splitter::special_spans;

verus! {

/// Two tables that agree still do after a field arrives at both, and after a row of both ends.
#[verifier::opaque]
pub open spec fn keeps_same(same: spec_fn(EngineView, EngineView) -> bool) -> bool {
    &&& forall|a: EngineView, b: EngineView, raw: Seq<char>, value: Option<Seq<char>>|
        #![trigger same(a, b), a.put(raw, value)]
        same(a, b) ==> same(a.put(raw, value), b.put(raw, value))
    &&& forall|a: EngineView, b: EngineView|
        #![trigger same(a, b), a.finished()]
        same(a, b) ==> same(a.finished(), b.finished())
}

proof fn lemma_put_same(
    same: spec_fn(EngineView, EngineView) -> bool,
    a: EngineView,
    b: EngineView,
    raw: Seq<char>,
    value: Option<Seq<char>>,
)
    requires
        keeps_same(same),
        same(a, b),
    ensures
        same(a.put(raw, value), b.put(raw, value)),
{
    reveal(keeps_same);
}

proof fn lemma_finished_same(
    same: spec_fn(EngineView, EngineView) -> bool,
    a: EngineView,
    b: EngineView,
)
    requires
        keeps_same(same),
        same(a, b),
    ensures
        same(a.finished(), b.finished()),
{
    reveal(keeps_same);
}

/// Tables that agree still do after the attributes of a row, which end alike in both.
pub proof fn lemma_attrs_same(
    same: spec_fn(EngineView, EngineView) -> bool,
    small: EngineView,
    big: EngineView,
    attrs: Seq<AttrView>,
)
    requires
        keeps_same(same),
        same(small, big),
    ensures
        same(with_attrs(attrs, small).0, with_attrs(attrs, big).0),
        with_attrs(attrs, small).1 == with_attrs(attrs, big).1,
    decreases attrs.len(),
{
    if attrs.len() > 0 {
        if let AttrView::Pair { key, value } = attrs[0] {
            if let Ok(v) = value_text(value) {
                let name = plain_text(key);
                lemma_put_same(same, small, big, name, Some(v));
                lemma_attrs_same(
                    same,
                    small.put(name, Some(v)),
                    big.put(name, Some(v)),
                    attrs.drop_first(),
                );
            }
        }
    }
}

/// Two ends of a row, or of a child of it, are the same but for the tables, and the tables agree.
pub open spec fn ends_same(
    same: spec_fn(EngineView, EngineView) -> bool,
    less: RowEnd,
    more: RowEnd,
) -> bool {
    match (less, more) {
        (RowEnd::Closed { m: small, rest: a }, RowEnd::Closed { m: big, rest: b }) => a == b
            && same(small, big),
        (RowEnd::Eof { m: small }, RowEnd::Eof { m: big }) => same(small, big),
        (RowEnd::Failed { m: small, message: a }, RowEnd::Failed { m: big, message: b }) => a == b
            && same(small, big),
        _ => false,
    }
}

proof fn lemma_element_same(
    same: spec_fn(EngineView, EngineView) -> bool,
    small: EngineView,
    big: EngineView,
    key: Seq<char>,
    body: TextEnd,
)
    requires
        keeps_same(same),
        same(small, big),
    ensures
        ends_same(same, with_element(small, key, body), with_element(big, key, body)),
{
    if let TextEnd::Closed { text, rest } = body {
        lemma_put_same(same, small, big, key, Some(text));
    }
}

proof fn lemma_child_same(
    same: spec_fn(EngineView, EngineView) -> bool,
    small: EngineView,
    big: EngineView,
    name: Seq<u8>,
    attrs: Seq<AttrView>,
    empty: bool,
    rest: Seq<EventView>,
)
    requires
        keeps_same(same),
        same(small, big),
    ensures
        ends_same(same, with_child(name, attrs, empty, rest, small),
            with_child(name, attrs, empty, rest, big),
        ),
{
    if name == encode_utf8("Field"@) {
        let body = if empty {
            TextEnd::Closed { text: Seq::empty(), rest }
        } else {
            element_text(rest, encode_utf8("Field"@), field_values(), Seq::empty())
        };
        let key = key_or(named_text(attrs, field_keys()), "Field"@);
        lemma_element_same(same, small, big, key, body);
    } else if name == encode_utf8("Text"@) {
        let body = if empty {
            TextEnd::Closed { text: Seq::empty(), rest }
        } else {
            element_text(rest, encode_utf8("Text"@), text_values(), Seq::empty())
        };
        let key = key_or(named_text(attrs, text_keys()), "Text"@);
        lemma_element_same(same, small, big, key, body);
    } else if name == encode_utf8("Section"@) {
        let value = Some(first_text(attrs, encode_utf8("SectionNumber"@)));
        lemma_put_same(same, small, big, "Section"@, value);
    } else {
        lemma_put_same(same, small, big, plain_text(name), Some(Seq::empty()));
    }
}

/// Tables that agree still do after the body of a row, which ends alike in both.
pub proof fn lemma_body_same(
    same: spec_fn(EngineView, EngineView) -> bool,
    small: EngineView,
    big: EngineView,
    events: Seq<EventView>,
    row_tag: Seq<u8>,
)
    requires
        readable(events),
        keeps_same(same),
        same(small, big),
    ensures
        ends_same(same, row_body(events, row_tag, small), row_body(events, row_tag, big)),
    decreases events.len(),
{
    lemma_rest_events(events);
    lemma_child_rest(events, small);
    let rest = rest_events(events);
    match events[0] {
        EventView::Start { name, rest: raw } => {
            let attrs = tag_attributes(name, raw);
            lemma_child_same(same, small, big, name, attrs, false, rest);
            if let RowEnd::Closed { m, rest: left } = with_child(name, attrs, false, rest, small) {
                let other = engine_at(with_child(name, attrs, false, rest, big));
                lemma_body_same(same, m, other, left, row_tag);
            }
        },
        EventView::Empty { name, rest: raw } => {
            let attrs = tag_attributes(name, raw);
            lemma_child_same(same, small, big, name, attrs, true, rest);
            if let RowEnd::Closed { m, rest: left } = with_child(name, attrs, true, rest, small) {
                let other = engine_at(with_child(name, attrs, true, rest, big));
                lemma_body_same(same, m, other, left, row_tag);
            }
        },
        EventView::End { name } => {
            if name != row_tag {
                lemma_body_same(same, small, big, rest, row_tag);
            }
        },
        EventView::Eof => {},
        EventView::Failed { .. } => {},
        _ => {
            lemma_body_same(same, small, big, rest, row_tag);
        },
    }
}

/// Two ends of a document are the same but for the tables, and the tables agree.
pub open spec fn parses_same(
    same: spec_fn(EngineView, EngineView) -> bool,
    less: ParseEnd,
    more: ParseEnd,
) -> bool {
    match (less, more) {
        (ParseEnd::Done { m: small }, ParseEnd::Done { m: big }) => same(small, big),
        (
            ParseEnd::Broken { m: small, message: a, position: i },
            ParseEnd::Broken { m: big, message: b, position: j },
        ) => a == b && i == j && same(small, big),
        (
            ParseEnd::Failed { m: small, message: a },
            ParseEnd::Failed { m: big, message: b },
        ) => a == b && same(small, big),
        _ => false,
    }
}

/// Tables that agree still do after the rows of a document, which end alike in both.
pub proof fn rows_keep_same(
    same: spec_fn(EngineView, EngineView) -> bool,
    small: EngineView,
    big: EngineView,
    events: Seq<EventView>,
    row_tag: Seq<u8>,
)
    requires
        readable(events),
        keeps_same(same),
        same(small, big),
    ensures
        parses_same(same, parse_rows(events, row_tag, small), parse_rows(events, row_tag, big)),
        whole_rows(events, row_tag, small) == whole_rows(events, row_tag, big),
    decreases events.len(),
{
    lemma_rest_events(events);
    let rest = rest_events(events);
    match events[0] {
        EventView::Empty { name, rest: raw } => {
            if name == row_tag {
                let attrs = tag_attributes(name, raw);
                let less = with_attrs(attrs, small);
                let more = with_attrs(attrs, big);
                lemma_attrs_same(same, small, big, attrs);
                lemma_finished_same(same, less.0, more.0);
                rows_keep_same(same, less.0.finished(), more.0.finished(), rest, row_tag);
            } else {
                rows_keep_same(same, small, big, rest, row_tag);
            }
        },
        EventView::Start { name, rest: raw } => {
            if name == row_tag {
                let attrs = tag_attributes(name, raw);
                let less = with_attrs(attrs, small);
                let more = with_attrs(attrs, big);
                lemma_attrs_same(same, small, big, attrs);
                lemma_row_rest(rest, row_tag, less.0);
                lemma_body_same(same, less.0, more.0, rest, row_tag);
                if let RowEnd::Closed { m, rest: left } = row_body(rest, row_tag, less.0) {
                    let other = engine_at(row_body(rest, row_tag, more.0));
                    lemma_finished_same(same, m, other);
                    rows_keep_same(same, m.finished(), other.finished(), left, row_tag);
                }
            } else {
                rows_keep_same(same, small, big, rest, row_tag);
            }
        },
        EventView::Eof => {},
        EventView::Failed { .. } => {},
        _ => {
            rows_keep_same(same, small, big, rest, row_tag);
        },
    }
}

proof fn lemma_lenient_attrs_same(
    same: spec_fn(EngineView, EngineView) -> bool,
    small: EngineView,
    big: EngineView,
    attrs: Seq<AttrView>,
)
    requires
        keeps_same(same),
        same(small, big),
    ensures
        same(with_attrs_leniently(attrs, small), with_attrs_leniently(attrs, big)),
    decreases attrs.len(),
{
    if attrs.len() > 0 {
        let rest = attrs.drop_first();
        match attrs[0] {
            AttrView::Pair { key, value } => {
                let name = plain_text(key);
                let text = Some(
                    match value_text(value) {
                        Ok(v) => v,
                        Err(_) => Seq::empty(),
                    },
                );
                lemma_put_same(same, small, big, name, text);
                lemma_lenient_attrs_same(same, small.put(name, text), big.put(name, text), rest);
            },
            AttrView::Broken { .. } => {
                lemma_lenient_attrs_same(same, small, big, rest);
            },
        }
    }
}

proof fn lemma_lenient_child_same(
    same: spec_fn(EngineView, EngineView) -> bool,
    small: EngineView,
    big: EngineView,
    name: Seq<u8>,
    attrs: Seq<AttrView>,
    empty: bool,
    rest: Seq<EventView>,
)
    requires
        keeps_same(same),
        same(small, big),
    ensures
        ends_same(
            same,
            with_child_leniently(name, attrs, empty, rest, small),
            with_child_leniently(name, attrs, empty, rest, big),
        ),
{
    if name == encode_utf8("Field"@) {
        let body = if empty {
            TextEnd::Closed { text: Seq::empty(), rest }
        } else {
            element_text_leniently(rest, name, field_values(), Seq::empty())
        };
        let key = key_or(named_text(attrs, field_keys()), "Field"@);
        lemma_element_same(same, small, big, key, body);
    } else if name == encode_utf8("Text"@) {
        if !empty {
            let body = element_text_leniently(rest, name, text_values(), Seq::empty());
            let key = key_or(named_text(attrs, text_keys()), "Text"@);
            if let TextEnd::Closed { text, rest: left } = body {
                lemma_put_same(same, small, big, key, Some(text));
            }
        }
    } else {
        lemma_child_same(same, small, big, name, attrs, empty, rest);
    }
}

proof fn lemma_lenient_body_same(
    same: spec_fn(EngineView, EngineView) -> bool,
    small: EngineView,
    big: EngineView,
    events: Seq<EventView>,
    row_tag: Seq<u8>,
)
    requires
        readable(events),
        keeps_same(same),
        same(small, big),
    ensures
        ends_same(
            same,
            row_body_leniently(events, row_tag, small),
            row_body_leniently(events, row_tag, big),
        ),
    decreases events.len(),
{
    lemma_rest_events(events);
    lemma_child_rest_leniently(events, small);
    let rest = rest_events(events);
    match events[0] {
        EventView::Start { name, rest: raw } => {
            let attrs = tag_attributes(name, raw);
            lemma_lenient_child_same(same, small, big, name, attrs, false, rest);
            if let RowEnd::Closed { m, rest: left } = with_child_leniently(
                name,
                attrs,
                false,
                rest,
                small,
            ) {
                let other = engine_at(with_child_leniently(name, attrs, false, rest, big));
                lemma_lenient_body_same(same, m, other, left, row_tag);
            }
        },
        EventView::Empty { name, rest: raw } => {
            let attrs = tag_attributes(name, raw);
            lemma_lenient_child_same(same, small, big, name, attrs, true, rest);
            if let RowEnd::Closed { m, rest: left } = with_child_leniently(
                name,
                attrs,
                true,
                rest,
                small,
            ) {
                let other = engine_at(with_child_leniently(name, attrs, true, rest, big));
                lemma_lenient_body_same(same, m, other, left, row_tag);
            }
        },
        EventView::End { name } => {
            if name != row_tag {
                lemma_lenient_body_same(same, small, big, rest, row_tag);
            }
        },
        EventView::Eof => {},
        EventView::Failed { .. } => {},
        _ => {
            lemma_lenient_body_same(same, small, big, rest, row_tag);
        },
    }
}

/// Tables that agree still do after a row that is read where errors are passed over.
pub proof fn lenient_row_keeps_same(
    same: spec_fn(EngineView, EngineView) -> bool,
    small: EngineView,
    big: EngineView,
    events: Seq<EventView>,
    row_tag: Seq<u8>,
)
    requires
        readable(events),
        keeps_same(same),
        same(small, big),
    ensures
        same(
            one_row_leniently(events, row_tag, small).0,
            one_row_leniently(events, row_tag, big).0,
        ),
        one_row_leniently(events, row_tag, small).1 == one_row_leniently(events, row_tag, big).1,
{
    lemma_rest_events(events);
    match events[0] {
        EventView::Empty { name, rest } => {
            let attrs = tag_attributes(name, rest);
            lemma_lenient_attrs_same(same, small, big, attrs);
            lemma_finished_same(
                same,
                with_attrs_leniently(attrs, small),
                with_attrs_leniently(attrs, big),
            );
        },
        EventView::Start { name, rest } => {
            let attrs = tag_attributes(name, rest);
            let left = rest_events(events);
            let less = with_attrs_leniently(attrs, small);
            let more = with_attrs_leniently(attrs, big);
            lemma_lenient_attrs_same(same, small, big, attrs);
            lemma_lenient_body_same(same, less, more, left, row_tag);
            lemma_finished_same(
                same,
                engine_at(row_body_leniently(left, row_tag, less)),
                engine_at(row_body_leniently(left, row_tag, more)),
            );
        },
        _ => {},
    }
}

/// The events of a document can be read, and so can those of what follows from each `<` on.
pub open spec fn readable_throughout(bytes: Seq<u8>) -> bool {
    &&& readable(document_events(bytes))
    &&& forall|k: int|
        0 <= k < bytes.len() && bytes[k] == LT ==> readable(
            #[trigger] document_events(bytes.skip(k)),
        )
}

proof fn lemma_tail_same(
    same: spec_fn(EngineView, EngineView) -> bool,
    small: EngineView,
    big: EngineView,
    bytes: Seq<u8>,
    row_tag: Seq<u8>,
    pos: int,
)
    requires
        readable_throughout(bytes),
        keeps_same(same),
        same(small, big),
    ensures
        same(tail_rows(bytes, row_tag, pos, small), tail_rows(bytes, row_tag, pos, big)),
    decreases bytes.len() - pos,
{
    lemma_next_row(bytes, row_tag, special_spans(bytes, 0), pos);
    if let Some(start) = next_row(bytes, row_tag, special_spans(bytes, 0), pos) {
        let events = document_events(bytes.skip(start));
        lenient_row_keeps_same(same, small, big, events, row_tag);
        let less = one_row_leniently(events, row_tag, small);
        let more = one_row_leniently(events, row_tag, big);
        if less.1 {
            lemma_tail_same(same, less.0, more.0, bytes, row_tag, start + 1);
        }
    }
}

/// Tables that agree still do after a document, with the rows that are read after an error, and the
/// error is the same. This holds of each document whose events can be read.
pub proof fn documents_keep_same(
    same: spec_fn(EngineView, EngineView) -> bool,
    small: EngineView,
    big: EngineView,
    bytes: Seq<u8>,
    row_tag: Seq<u8>,
)
    requires
        keeps_same(same),
        same(small, big),
    ensures
        readable_throughout(bytes) ==> same(
            parsed(bytes, row_tag, small).0,
            parsed(bytes, row_tag, big).0,
        ) && parsed(bytes, row_tag, small).1 == parsed(bytes, row_tag, big).1,
{
    if readable_throughout(bytes) {
        rows_keep_same(same, small, big, document_events(bytes), row_tag);
        let less = parse_rows(document_events(bytes), row_tag, small);
        let more = parse_rows(document_events(bytes), row_tag, big);
        if let ParseEnd::Broken { m, position, .. } = less {
            lemma_tail_same(same, m, table_at(more), bytes, row_tag, position);
        }
    }
}

} // verus!
