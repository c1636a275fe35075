//! Rows out of XML events, into the columnar engine.

use vstd::prelude::*;
use vstd::slice::slice_subrange;
use vstd::utf8::{decode_utf8, encode_utf8, valid_utf8};

use crate::bytes::{
    byte_from, bytes_from, find_byte, find_bytes, is_space, lemma_byte_from, offset, same_bytes,
    FORM_FEED, GT, LT, SLASH,
};
use crate::column::opt_text;
use crate::columnar::{ColumnarEngine, EngineView};
use crate::events::{
    attr_text, attr_views, attributes_of, document_events, lemma_rest_events, readable,
    rest_events, tag_attributes, value_text, AttrItem, AttrView, EventSource, EventView, Tag,
    XmlEvent, XmlReader,
};
use crate::growth::{
    grown, lemma_grown_again, lemma_grown_same, lenient_row_only_adds, rows_only_add,
};
use crate::laws::aligned;
use crate::markup::{lemma_next_row, next_row, spans};
use crate::names::same_text;
use crate::numbers::{decimal, size_text};
use crate::splitter::{find_special_regions, next_row_start};
use crate::text::{is_utf8, lemma_slice_valid, plain_text, utf8_text};
use crate::xml::scanner::{field_keys, field_values};
use crate::xml::splitter::special_spans;
use crate::xml::tokens::{byte_strings, is_one_of, is_ws};

verus! {

/// The engine after the attributes arrive as fields, and the message of the first one that is
/// broken or whose value cannot be read; what comes after it does not count.
pub open spec fn with_attrs(attrs: Seq<AttrView>, m: EngineView) -> (EngineView, Option<Seq<char>>)
    decreases attrs.len(),
{
    if attrs.len() == 0 {
        (m, None)
    } else {
        match attrs[0] {
            AttrView::Pair { key, value } => match value_text(value) {
                Ok(v) => with_attrs(attrs.drop_first(), m.put(plain_text(key), Some(v))),
                Err(message) => (m, Some(message)),
            },
            AttrView::Broken { message } => (m, Some(message)),
        }
    }
}

/// The text of the first attribute that is named by one of `keys` and can be read.
pub open spec fn named_text(attrs: Seq<AttrView>, keys: Seq<Seq<u8>>) -> Option<Seq<char>>
    decreases attrs.len(),
{
    if attrs.len() == 0 {
        None
    } else {
        match attrs[0] {
            AttrView::Pair { key, value } => match value_text(value) {
                Ok(v) => if keys.contains(key) {
                    Some(v)
                } else {
                    named_text(attrs.drop_first(), keys)
                },
                Err(_) => named_text(attrs.drop_first(), keys),
            },
            AttrView::Broken { .. } => named_text(attrs.drop_first(), keys),
        }
    }
}

/// The text of the first attribute named `key`; the empty text where there is none or it cannot be
/// read.
pub open spec fn first_text(attrs: Seq<AttrView>, key: Seq<u8>) -> Seq<char>
    decreases attrs.len(),
{
    if attrs.len() == 0 {
        Seq::empty()
    } else {
        match attrs[0] {
            AttrView::Pair { key: k, value } => if k == key {
                match value_text(value) {
                    Ok(v) => v,
                    Err(_) => Seq::empty(),
                }
            } else {
                first_text(attrs.drop_first(), key)
            },
            AttrView::Broken { .. } => first_text(attrs.drop_first(), key),
        }
    }
}

/// The key of a field or text element.
pub open spec fn key_or(found: Option<Seq<char>>, default: Seq<char>) -> Seq<char> {
    match found {
        Some(key) => key,
        None => default,
    }
}

/// How the body of an element ended.
#[verifier::ext_equal]
pub enum TextEnd {
    /// With its close tag: the text, and the events after it.
    Closed { text: Seq<char>, rest: Seq<EventView> },
    /// With the document.
    Eof,
    /// With an error.
    Failed { message: Seq<char> },
}

/// The text of an element named `close`, with `text` found so far: the text right after the start
/// tag of an element named by one of `values`, the last one of them.
pub open spec fn element_text(
    events: Seq<EventView>,
    close: Seq<u8>,
    values: Seq<Seq<u8>>,
    text: Seq<char>,
) -> TextEnd
    decreases events.len(),
    when readable(events)
{
    proof {
        lemma_rest_events(events);
        lemma_rest_events(rest_events(events));
    }
    let rest = rest_events(events);
    match events[0] {
        EventView::Start { name, .. } => if values.contains(name) {
            match rest[0] {
                EventView::Failed { message, .. } => TextEnd::Failed { message },
                EventView::Text { content } => match value_text(content) {
                    Ok(t) => element_text(rest_events(rest), close, values, t),
                    Err(message) => TextEnd::Failed { message },
                },
                _ => element_text(rest_events(rest), close, values, text),
            }
        } else {
            element_text(rest, close, values, text)
        },
        EventView::End { name } => if name == close {
            TextEnd::Closed { text, rest }
        } else {
            element_text(rest, close, values, text)
        },
        EventView::Eof => TextEnd::Eof,
        EventView::Failed { message, .. } => TextEnd::Failed { message },
        _ => element_text(rest, close, values, text),
    }
}

/// How the body of a row ended.
#[verifier::ext_equal]
pub enum RowEnd {
    /// With its close tag; the events after it.
    Closed { m: EngineView, rest: Seq<EventView> },
    /// With the document.
    Eof { m: EngineView },
    /// With an error.
    Failed { m: EngineView, message: Seq<char> },
}

/// The engine where a row ended.
pub open spec fn engine_at(end: RowEnd) -> EngineView {
    match end {
        RowEnd::Closed { m, .. } => m,
        RowEnd::Eof { m } => m,
        RowEnd::Failed { m, .. } => m,
    }
}

/// The names of the attributes that name a text.
pub open spec fn text_keys() -> Seq<Seq<u8>> {
    seq![encode_utf8("Name"@)]
}

/// The names of the elements that hold the value of a text.
pub open spec fn text_values() -> Seq<Seq<u8>> {
    seq![encode_utf8("TextValue"@)]
}

/// What one child element of a row does: `body` tells how its body ended, where it has one.
pub open spec fn with_element(
    m: EngineView,
    key: Seq<char>,
    body: TextEnd,
) -> RowEnd {
    match body {
        TextEnd::Closed { text, rest } => RowEnd::Closed { m: m.put(key, Some(text)), rest },
        TextEnd::Eof => RowEnd::Eof { m },
        TextEnd::Failed { message } => RowEnd::Failed { m, message },
    }
}

/// What a child tag of a row does: a `<Field>` or `<Text>` element gives a field of its key with
/// its text, a `<Section>` the field `Section`, and any other tag an empty field of its name.
pub open spec fn with_child(
    name: Seq<u8>,
    attrs: Seq<AttrView>,
    empty: bool,
    rest: Seq<EventView>,
    m: EngineView,
) -> RowEnd {
    if name == encode_utf8("Field"@) {
        with_element(
            m,
            key_or(named_text(attrs, field_keys()), "Field"@),
            if empty {
                TextEnd::Closed { text: Seq::empty(), rest }
            } else {
                element_text(rest, encode_utf8("Field"@), field_values(), Seq::empty())
            },
        )
    } else if name == encode_utf8("Text"@) {
        with_element(
            m,
            key_or(named_text(attrs, text_keys()), "Text"@),
            if empty {
                TextEnd::Closed { text: Seq::empty(), rest }
            } else {
                element_text(rest, encode_utf8("Text"@), text_values(), Seq::empty())
            },
        )
    } else if name == encode_utf8("Section"@) {
        RowEnd::Closed {
            m: m.put("Section"@, Some(first_text(attrs, encode_utf8("SectionNumber"@)))),
            rest,
        }
    } else {
        RowEnd::Closed { m: m.put(plain_text(name), Some(Seq::empty())), rest }
    }
}

/// The body of a row, up to its close tag.
pub open spec fn row_body(events: Seq<EventView>, row_tag: Seq<u8>, m: EngineView) -> RowEnd
    decreases events.len(),
    when readable(events)
{
    proof {
        lemma_rest_events(events);
        lemma_child_rest(events, m);
    }
    let rest = rest_events(events);
    match events[0] {
        EventView::Start { name, rest: raw } => match with_child(
            name,
            tag_attributes(name, raw),
            false,
            rest,
            m,
        ) {
            RowEnd::Closed { m: next, rest: left } => row_body(left, row_tag, next),
            end => end,
        },
        EventView::Empty { name, rest: raw } => match with_child(
            name,
            tag_attributes(name, raw),
            true,
            rest,
            m,
        ) {
            RowEnd::Closed { m: next, rest: left } => row_body(left, row_tag, next),
            end => end,
        },
        EventView::End { name } => if name == row_tag {
            RowEnd::Closed { m, rest }
        } else {
            row_body(rest, row_tag, m)
        },
        EventView::Eof => RowEnd::Eof { m },
        EventView::Failed { message, .. } => RowEnd::Failed { m, message },
        _ => row_body(rest, row_tag, m),
    }
}

/// What is left after the body of an element is readable still and not longer.
pub proof fn lemma_element_rest(
    events: Seq<EventView>,
    close: Seq<u8>,
    values: Seq<Seq<u8>>,
    text: Seq<char>,
)
    requires
        readable(events),
    ensures
        element_text(events, close, values, text) matches TextEnd::Closed { text: t, rest }
            ==> readable(rest) && rest.len() < events.len(),
    decreases events.len(),
{
    lemma_rest_events(events);
    let rest = rest_events(events);
    lemma_rest_events(rest);
    match events[0] {
        EventView::Start { name, .. } => {
            if values.contains(name) {
                match rest[0] {
                    EventView::Failed { .. } => {},
                    EventView::Text { content } => {
                        if let Ok(t) = value_text(content) {
                            lemma_element_rest(rest_events(rest), close, values, t);
                        }
                    },
                    _ => {
                        lemma_element_rest(rest_events(rest), close, values, text);
                    },
                }
            } else {
                lemma_element_rest(rest, close, values, text);
            }
        },
        EventView::End { name } => {
            if name != close {
                lemma_element_rest(rest, close, values, text);
            }
        },
        EventView::Eof => {},
        EventView::Failed { .. } => {},
        _ => {
            lemma_element_rest(rest, close, values, text);
        },
    }
}

/// What is left after a child of a row is readable still and shorter.
pub proof fn lemma_child_rest(events: Seq<EventView>, m: EngineView)
    requires
        readable(events),
    ensures
        forall|name: Seq<u8>, attrs: Seq<AttrView>, empty: bool|
            !(events[0] is Eof) ==> (#[trigger] with_child(
                name,
                attrs,
                empty,
                rest_events(events),
                m,
            ) matches RowEnd::Closed { m: next, rest } ==> readable(rest) && rest.len()
                < events.len()),
        forall|name: Seq<u8>, attrs: Seq<AttrView>, empty: bool|
            engine_at(
                #[trigger] with_child(name, attrs, empty, rest_events(events), m),
            ).rows == m.rows,
{
    lemma_rest_events(events);
    let rest = rest_events(events);
    lemma_element_rest(rest, encode_utf8("Field"@), field_values(), Seq::empty());
    lemma_element_rest(rest, encode_utf8("Text"@), text_values(), Seq::empty());
}

/// How the rows of a document ended.
#[verifier::ext_equal]
pub enum ParseEnd {
    /// With the document.
    Done { m: EngineView },
    /// With an error between rows; the message, and the offset that was reached.
    Broken { m: EngineView, message: Seq<char>, position: int },
    /// With an error in a row.
    Failed { m: EngineView, message: Seq<char> },
}

/// The rows of a document.
pub open spec fn parse_rows(events: Seq<EventView>, row_tag: Seq<u8>, m: EngineView) -> ParseEnd
    decreases events.len(),
    when readable(events)
{
    proof {
        lemma_rest_events(events);
    }
    let rest = rest_events(events);
    match events[0] {
        EventView::Empty { name, rest: raw } => if name == row_tag {
            let attrs = with_attrs(tag_attributes(name, raw), m);
            match attrs.1 {
                Some(message) => ParseEnd::Failed { m: attrs.0, message },
                None => parse_rows(rest, row_tag, attrs.0.finished()),
            }
        } else {
            parse_rows(rest, row_tag, m)
        },
        EventView::Start { name, rest: raw } => if name == row_tag {
            let attrs = with_attrs(tag_attributes(name, raw), m);
            match attrs.1 {
                Some(message) => ParseEnd::Failed { m: attrs.0, message },
                None => {
                    proof {
                        lemma_row_rest(rest, row_tag, attrs.0);
                    }
                    match row_body(rest, row_tag, attrs.0) {
                        RowEnd::Closed { m: next, rest: left } => parse_rows(
                            left,
                            row_tag,
                            next.finished(),
                        ),
                        RowEnd::Eof { m: next } => ParseEnd::Done { m: next },
                        RowEnd::Failed { m: next, message } => ParseEnd::Failed {
                            m: next,
                            message,
                        },
                    }
                },
            }
        } else {
            parse_rows(rest, row_tag, m)
        },
        EventView::Eof => ParseEnd::Done { m },
        EventView::Failed { message, position } => ParseEnd::Broken { m, message, position },
        _ => parse_rows(rest, row_tag, m),
    }
}

/// What is left after a row is readable still and shorter; the row does not count yet.
pub proof fn lemma_row_rest(events: Seq<EventView>, row_tag: Seq<u8>, m: EngineView)
    requires
        readable(events),
    ensures
        row_body(events, row_tag, m) matches RowEnd::Closed { m: next, rest } ==> readable(rest)
            && rest.len() < events.len(),
        engine_at(row_body(events, row_tag, m)).rows == m.rows,
    decreases events.len(),
{
    lemma_rest_events(events);
    lemma_child_rest(events, m);
    let rest = rest_events(events);
    match events[0] {
        EventView::Start { name, rest: raw } => {
            if let RowEnd::Closed { m: next, rest: left } = with_child(
                name,
                tag_attributes(name, raw),
                false,
                rest,
                m,
            ) {
                lemma_row_rest(left, row_tag, next);
            }
        },
        EventView::Empty { name, rest: raw } => {
            if let RowEnd::Closed { m: next, rest: left } = with_child(
                name,
                tag_attributes(name, raw),
                true,
                rest,
                m,
            ) {
                lemma_row_rest(left, row_tag, next);
            }
        },
        EventView::End { name } => {
            if name != row_tag {
                lemma_row_rest(rest, row_tag, m);
            }
        },
        EventView::Eof => {},
        EventView::Failed { .. } => {},
        _ => {
            lemma_row_rest(rest, row_tag, m);
        },
    }
}

/// The attributes of a row do not end it.
pub proof fn lemma_attrs_rows(attrs: Seq<AttrView>, m: EngineView)
    ensures
        with_attrs(attrs, m).0.rows == m.rows,
    decreases attrs.len(),
{
    if attrs.len() > 0 {
        if let AttrView::Pair { key, value } = attrs[0] {
            if let Ok(v) = value_text(value) {
                lemma_attrs_rows(attrs.drop_first(), m.put(plain_text(key), Some(v)));
            }
        }
    }
}

/// The engine after the attributes arrive as fields: a broken attribute is passed over, and a value
/// that cannot be read is empty.
pub open spec fn with_attrs_leniently(attrs: Seq<AttrView>, m: EngineView) -> EngineView
    decreases attrs.len(),
{
    if attrs.len() == 0 {
        m
    } else {
        with_attrs_leniently(
            attrs.drop_first(),
            match attrs[0] {
                AttrView::Pair { key, value } => m.put(
                    plain_text(key),
                    Some(
                        match value_text(value) {
                            Ok(v) => v,
                            Err(_) => Seq::empty(),
                        },
                    ),
                ),
                AttrView::Broken { .. } => m,
            },
        )
    }
}

/// The text of an element named `close`, with `text` found so far, where errors are passed over:
/// the text right after a tag named by one of `values`, the last one of them that can be read.
pub open spec fn element_text_leniently(
    events: Seq<EventView>,
    close: Seq<u8>,
    values: Seq<Seq<u8>>,
    text: Seq<char>,
) -> TextEnd
    decreases events.len(),
    when readable(events)
{
    proof {
        lemma_rest_events(events);
        lemma_rest_events(rest_events(events));
    }
    let rest = rest_events(events);
    match events[0] {
        EventView::Start { name, .. } | EventView::Empty { name, .. } => if values.contains(name) {
            element_text_leniently(
                rest_events(rest),
                close,
                values,
                match rest[0] {
                    EventView::Text { content } => match value_text(content) {
                        Ok(t) => t,
                        Err(_) => text,
                    },
                    _ => text,
                },
            )
        } else {
            element_text_leniently(rest, close, values, text)
        },
        EventView::End { name } => if name == close {
            TextEnd::Closed { text, rest }
        } else {
            element_text_leniently(rest, close, values, text)
        },
        EventView::Eof => TextEnd::Eof,
        _ => element_text_leniently(rest, close, values, text),
    }
}

/// What a child tag of a row does where errors are passed over. A text without content gives no
/// field.
pub open spec fn with_child_leniently(
    name: Seq<u8>,
    attrs: Seq<AttrView>,
    empty: bool,
    rest: Seq<EventView>,
    m: EngineView,
) -> RowEnd {
    if name == encode_utf8("Field"@) {
        with_element(
            m,
            key_or(named_text(attrs, field_keys()), "Field"@),
            if empty {
                TextEnd::Closed { text: Seq::empty(), rest }
            } else {
                element_text_leniently(rest, name, field_values(), Seq::empty())
            },
        )
    } else if name == encode_utf8("Text"@) {
        if empty {
            RowEnd::Closed { m, rest }
        } else {
            match element_text_leniently(rest, name, text_values(), Seq::empty()) {
                TextEnd::Closed { text, rest: left } => if text.len() == 0 {
                    RowEnd::Closed { m, rest: left }
                } else {
                    RowEnd::Closed {
                        m: m.put(key_or(named_text(attrs, text_keys()), "Text"@), Some(text)),
                        rest: left,
                    }
                },
                _ => RowEnd::Eof { m },
            }
        }
    } else {
        with_child(name, attrs, empty, rest, m)
    }
}

/// What is left after the body of an element is readable still and shorter; no error ends it.
pub proof fn lemma_element_rest_leniently(
    events: Seq<EventView>,
    close: Seq<u8>,
    values: Seq<Seq<u8>>,
    text: Seq<char>,
)
    requires
        readable(events),
    ensures
        element_text_leniently(events, close, values, text) matches TextEnd::Closed {
            text: t,
            rest,
        } ==> readable(rest) && rest.len() < events.len(),
        !(element_text_leniently(events, close, values, text) is Failed),
    decreases events.len(),
{
    lemma_rest_events(events);
    let rest = rest_events(events);
    lemma_rest_events(rest);
    match events[0] {
        EventView::Start { name, .. } | EventView::Empty { name, .. } => {
            if values.contains(name) {
                let next = match rest[0] {
                    EventView::Text { content } => match value_text(content) {
                        Ok(t) => t,
                        Err(_) => text,
                    },
                    _ => text,
                };
                lemma_element_rest_leniently(rest_events(rest), close, values, next);
            } else {
                lemma_element_rest_leniently(rest, close, values, text);
            }
        },
        EventView::End { name } => {
            if name != close {
                lemma_element_rest_leniently(rest, close, values, text);
            }
        },
        EventView::Eof => {},
        _ => {
            lemma_element_rest_leniently(rest, close, values, text);
        },
    }
}

/// What is left after a child of a row is readable still and shorter.
pub proof fn lemma_child_rest_leniently(events: Seq<EventView>, m: EngineView)
    requires
        readable(events),
    ensures
        forall|name: Seq<u8>, attrs: Seq<AttrView>, empty: bool|
            !(events[0] is Eof) ==> (#[trigger] with_child_leniently(
                name,
                attrs,
                empty,
                rest_events(events),
                m,
            ) matches RowEnd::Closed { m: next, rest } ==> readable(rest) && rest.len()
                < events.len()),
        forall|name: Seq<u8>, attrs: Seq<AttrView>, empty: bool|
            engine_at(
                #[trigger] with_child_leniently(name, attrs, empty, rest_events(events), m),
            ).rows == m.rows,
{
    lemma_rest_events(events);
    lemma_child_rest(events, m);
    let rest = rest_events(events);
    lemma_element_rest_leniently(rest, encode_utf8("Field"@), field_values(), Seq::empty());
    lemma_element_rest_leniently(rest, encode_utf8("Text"@), text_values(), Seq::empty());
}

/// The body of a row where errors in its elements are passed over; an error between them ends it.
pub open spec fn row_body_leniently(
    events: Seq<EventView>,
    row_tag: Seq<u8>,
    m: EngineView,
) -> RowEnd
    decreases events.len(),
    when readable(events)
{
    proof {
        lemma_rest_events(events);
        lemma_child_rest_leniently(events, m);
    }
    let rest = rest_events(events);
    match events[0] {
        EventView::Start { name, rest: raw } => match with_child_leniently(
            name,
            tag_attributes(name, raw),
            false,
            rest,
            m,
        ) {
            RowEnd::Closed { m: next, rest: left } => row_body_leniently(left, row_tag, next),
            end => end,
        },
        EventView::Empty { name, rest: raw } => match with_child_leniently(
            name,
            tag_attributes(name, raw),
            true,
            rest,
            m,
        ) {
            RowEnd::Closed { m: next, rest: left } => row_body_leniently(left, row_tag, next),
            end => end,
        },
        EventView::End { name } => if name == row_tag {
            RowEnd::Closed { m, rest }
        } else {
            row_body_leniently(rest, row_tag, m)
        },
        EventView::Eof => RowEnd::Eof { m },
        EventView::Failed { message, .. } => RowEnd::Failed { m, message },
        _ => row_body_leniently(rest, row_tag, m),
    }
}

/// The row that the events start with, if they start with one; and whether to look for another.
pub open spec fn one_row_leniently(
    events: Seq<EventView>,
    row_tag: Seq<u8>,
    m: EngineView,
) -> (EngineView, bool) {
    match events[0] {
        EventView::Failed { .. } => (m, false),
        EventView::Empty { name, rest } => if name == row_tag {
            (with_attrs_leniently(tag_attributes(name, rest), m).finished(), true)
        } else {
            (m, true)
        },
        EventView::Start { name, rest } => if name == row_tag {
            match row_body_leniently(
                rest_events(events),
                row_tag,
                with_attrs_leniently(tag_attributes(name, rest), m),
            ) {
                RowEnd::Closed { m: next, .. } => (next.finished(), true),
                RowEnd::Failed { m: next, .. } => (next.finished(), true),
                RowEnd::Eof { m: next } => (next, false),
            }
        } else {
            (m, true)
        },
        _ => (m, true),
    }
}

/// The rows from `pos` on, each read by itself from its start on.
pub open spec fn tail_rows(bytes: Seq<u8>, row_tag: Seq<u8>, pos: int, m: EngineView) -> EngineView
    decreases bytes.len() - pos,
{
    proof {
        lemma_next_row(bytes, row_tag, special_spans(bytes, 0), pos);
    }
    match next_row(bytes, row_tag, special_spans(bytes, 0), pos) {
        Some(start) => {
            let row = one_row_leniently(document_events(bytes.skip(start)), row_tag, m);
            if row.1 {
                tail_rows(bytes, row_tag, start + 1, row.0)
            } else {
                row.0
            }
        },
        None => m,
    }
}

/// ASCII white space: space, tab, line feed, form feed and carriage return.
pub open spec fn is_blank(b: u8) -> bool {
    is_space(b) || b == FORM_FEED
}

/// The first offset at or after `pos` without ASCII white space.
pub open spec fn past_blank(bytes: Seq<u8>, pos: int) -> int
    decreases bytes.len() - pos,
{
    if 0 <= pos < bytes.len() && is_blank(bytes[pos]) {
        past_blank(bytes, pos + 1)
    } else {
        pos
    }
}

/// Close tags, with white space after each, stand from `pos` to the end.
pub open spec fn close_tags_from(bytes: Seq<u8>, pos: int) -> bool
    decreases bytes.len() - pos,
{
    if pos >= bytes.len() {
        true
    } else if bytes[pos] == LT && pos + 1 < bytes.len() && bytes[pos + 1] == SLASH {
        proof {
            lemma_byte_from(bytes, GT, pos + 2);
        }
        match byte_from(bytes, GT, pos + 2) {
            Some(gt) => {
                proof {
                    lemma_past_blank(bytes, gt + 1);
                }
                close_tags_from(bytes, past_blank(bytes, gt + 1))
            },
            None => false,
        }
    } else {
        false
    }
}

/// Skipping white space does not go back, nor past the end.
pub proof fn lemma_past_blank(bytes: Seq<u8>, pos: int)
    ensures
        pos <= past_blank(bytes, pos),
        pos <= bytes.len() ==> past_blank(bytes, pos) <= bytes.len(),
    decreases bytes.len() - pos,
{
    if 0 <= pos < bytes.len() && is_blank(bytes[pos]) {
        lemma_past_blank(bytes, pos + 1);
    }
}

/// The message of a document that is not well formed.
pub open spec fn malformed(message: Seq<char>, position: int) -> Seq<char> {
    "malformed XML at byte "@ + decode_utf8(decimal(position)) + ": "@ + message
}

/// What follows an error between rows: the engine, and the message where the error counts. A close
/// tag without its start tag comes from a cut through the document: the rows after it still count.
/// Neither does the error count where only close tags follow.
pub open spec fn recovered(
    bytes: Seq<u8>,
    row_tag: Seq<u8>,
    message: Seq<char>,
    position: int,
    m: EngineView,
) -> (EngineView, Option<Seq<char>>) {
    if bytes_from(encode_utf8(message), encode_utf8("close tag"@), 0) is Some {
        (tail_rows(bytes, row_tag, position, m), None)
    } else if close_tags_from(bytes, past_blank(bytes, position)) {
        (m, None)
    } else {
        (m, Some(malformed(message, position)))
    }
}

/// The message of an error, if there is one.
pub open spec fn error_of(done: Result<(), String>) -> Option<Seq<char>> {
    match done {
        Ok(_) => None,
        Err(message) => Some(message@),
    }
}

/// The engine after a document, and the message where the document is not well formed.
pub open spec fn parsed(bytes: Seq<u8>, row_tag: Seq<u8>, m: EngineView) -> (
    EngineView,
    Option<Seq<char>>,
) {
    match parse_rows(document_events(bytes), row_tag, m) {
        ParseEnd::Done { m: next } => (next, None),
        ParseEnd::Failed { m: next, message } => (next, Some(message)),
        ParseEnd::Broken { m: next, message, position } => recovered(
            bytes,
            row_tag,
            message,
            position,
            next,
        ),
    }
}

/// How the body of an element ended.
enum TextResult {
    Closed(String),
    Eof,
    Failed(String),
}

/// How the body of a row ended.
enum RowResult {
    Closed,
    Eof,
    Failed(String),
}

/// The text of the first attribute that is named by one of `keys` and can be read.
fn find_named(attrs: &[AttrItem], keys: &[&[u8]]) -> (text: Option<String>)
    ensures
        opt_text(text) == named_text(attr_views(attrs@), byte_strings(keys@)),
{
    let ghost views = attr_views(attrs@);
    let ghost names = byte_strings(keys@);
    let mut i: usize = 0;
    assert(views.skip(0) =~= views);
    while i < attrs.len()
        invariant
            i <= attrs@.len(),
            views == attr_views(attrs@),
            names == byte_strings(keys@),
            named_text(views, names) == named_text(views.skip(i as int), names),
        decreases attrs@.len() - i,
    {
        assert(views.skip(i as int)[0] == attrs@[i as int]@);
        assert(views.skip(i as int).drop_first() =~= views.skip(i + 1));
        match &attrs[i] {
            AttrItem::Pair { key, value } => {
                if is_one_of(key.as_slice(), keys) {
                    match attr_text(value.as_slice()) {
                        Ok(text) => {
                            return Some(text);
                        },
                        Err(_) => {},
                    }
                }
            },
            AttrItem::Broken { .. } => {},
        }
        i += 1;
    }
    None
}

/// The text of the first attribute named `key`.
fn find_first(attrs: &[AttrItem], key: &[u8]) -> (text: String)
    ensures
        text@ == first_text(attr_views(attrs@), key@),
{
    let ghost views = attr_views(attrs@);
    let mut i: usize = 0;
    assert(views.skip(0) =~= views);
    while i < attrs.len()
        invariant
            i <= attrs@.len(),
            views == attr_views(attrs@),
            first_text(views, key@) == first_text(views.skip(i as int), key@),
        decreases attrs@.len() - i,
    {
        assert(views.skip(i as int)[0] == attrs@[i as int]@);
        assert(views.skip(i as int).drop_first() =~= views.skip(i + 1));
        match &attrs[i] {
            AttrItem::Pair { key: k, value } => {
                if same_bytes(k.as_slice(), key) {
                    return match attr_text(value.as_slice()) {
                        Ok(text) => text,
                        Err(_) => String::new(),
                    };
                }
            },
            AttrItem::Broken { .. } => {},
        }
        i += 1;
    }
    String::new()
}

/// The key of a field or text element.
fn element_key(attrs: &[AttrItem], keys: &[&[u8]], default: &str) -> (key: String)
    ensures
        key@ == key_or(named_text(attr_views(attrs@), byte_strings(keys@)), default@),
{
    match find_named(attrs, keys) {
        Some(key) => key,
        None => default.to_string(),
    }
}

/// The text of an element named `close`.
fn read_text<E: EventSource>(source: &mut E, close: &[u8], values: &[&[u8]]) -> (end: TextResult)
    requires
        readable(old(source).pending()),
    ensures
        readable(final(source).pending()),
        match element_text(old(source).pending(), close@, byte_strings(values@), Seq::empty()) {
            TextEnd::Closed { text, rest } => end matches TextResult::Closed(t) && t@ == text
                && final(source).pending() == rest,
            TextEnd::Eof => end is Eof,
            TextEnd::Failed { message } => end matches TextResult::Failed(t) && t@ == message,
        },
{
    let ghost events = source.pending();
    let ghost names = byte_strings(values@);
    let mut text = String::new();
    loop
        invariant
            names == byte_strings(values@),
            readable(source.pending()),
            events == old(source).pending(),
            element_text(events, close@, names, Seq::empty()) == element_text(
                source.pending(),
                close@,
                names,
                text@,
            ),
        decreases source.pending().len(),
    {
        proof {
            lemma_rest_events(source.pending());
            lemma_rest_events(rest_events(source.pending()));
        }
        match source.next_event() {
            XmlEvent::Start(tag) => {
                if is_one_of(tag.name.as_slice(), values) {
                    match source.next_event() {
                        XmlEvent::Failed { message, .. } => {
                            return TextResult::Failed(message);
                        },
                        XmlEvent::Text(content) => match attr_text(content.as_slice()) {
                            Ok(t) => {
                                text = t;
                            },
                            Err(message) => {
                                return TextResult::Failed(message);
                            },
                        },
                        _ => {},
                    }
                }
            },
            XmlEvent::End(name) => {
                if same_bytes(name.as_slice(), close) {
                    return TextResult::Closed(text);
                }
            },
            XmlEvent::Eof => {
                return TextResult::Eof;
            },
            XmlEvent::Failed { message, .. } => {
                return TextResult::Failed(message);
            },
            _ => {},
        }
    }
}

/// The text of an element named `close`, where errors are passed over; `None` where the document
/// ends in it.
fn read_text_leniently<E: EventSource>(source: &mut E, close: &[u8], values: &[&[u8]]) -> (end:
    Option<String>)
    requires
        readable(old(source).pending()),
    ensures
        readable(final(source).pending()),
        match element_text_leniently(
            old(source).pending(),
            close@,
            byte_strings(values@),
            Seq::empty(),
        ) {
            TextEnd::Closed { text, rest } => end matches Some(t) && t@ == text
                && final(source).pending() == rest,
            _ => end is None,
        },
{
    let ghost events = source.pending();
    let ghost names = byte_strings(values@);
    let mut text = String::new();
    loop
        invariant
            names == byte_strings(values@),
            readable(source.pending()),
            events == old(source).pending(),
            element_text_leniently(events, close@, names, Seq::empty()) == element_text_leniently(
                source.pending(),
                close@,
                names,
                text@,
            ),
        decreases source.pending().len(),
    {
        proof {
            lemma_rest_events(source.pending());
            lemma_rest_events(rest_events(source.pending()));
        }
        match source.next_event() {
            XmlEvent::Start(tag) | XmlEvent::Empty(tag) => {
                if is_one_of(tag.name.as_slice(), values) {
                    match source.next_event() {
                        XmlEvent::Text(content) => match attr_text(content.as_slice()) {
                            Ok(t) => {
                                text = t;
                            },
                            Err(_) => {},
                        },
                        _ => {},
                    }
                }
            },
            XmlEvent::End(name) => {
                if same_bytes(name.as_slice(), close) {
                    return Some(text);
                }
            },
            XmlEvent::Eof => {
                return None;
            },
            _ => {},
        }
    }
}

/// Close tags, with white space after each, are all that stands from `pos` on.
fn trailing_close_tags_only(bytes: &[u8], pos: usize) -> (only: bool)
    ensures
        only == close_tags_from(bytes@, past_blank(bytes@, pos as int)),
{
    let len: usize = bytes.len();
    let ghost start = past_blank(bytes@, pos as int);
    let mut at: usize = skip_blank(bytes, pos);
    while at < len
        invariant
            len == bytes@.len(),
            close_tags_from(bytes@, start) == close_tags_from(bytes@, at as int),
            start == past_blank(bytes@, pos as int),
        decreases len - at,
    {
        if bytes[at] != LT || at + 1 >= len || bytes[at + 1] != SLASH {
            return false;
        }
        proof {
            lemma_byte_from(bytes@, GT, at + 2);
        }
        match find_byte(bytes, GT, at + 2) {
            Some(gt) => {
                proof {
                    lemma_past_blank(bytes@, gt + 1);
                }
                at = skip_blank(bytes, gt + 1);
            },
            None => {
                return false;
            },
        }
    }
    true
}

/// The first offset at or after `pos` without ASCII white space.
fn skip_blank(bytes: &[u8], pos: usize) -> (at: usize)
    ensures
        at == past_blank(bytes@, pos as int),
{
    let mut at: usize = pos;
    while at < bytes.len() && (is_ws(bytes[at]) || bytes[at] == FORM_FEED)
        invariant
            past_blank(bytes@, pos as int) == past_blank(bytes@, at as int),
        decreases bytes@.len() - at,
    {
        at += 1;
    }
    at
}

/// The message of a document that is not well formed.
fn malformed_text(message: &str, position: usize) -> (text: String)
    ensures
        text@ == malformed(message@, position as int),
{
    let mut text = "malformed XML at byte ".to_string();
    let number = size_text(position);
    text.append(number.as_str());
    text.append(": ");
    text.append(message);
    text
}

/// The end of a row, and the engine then, are as the model says.
spec fn ends_as(end: RowEnd, result: RowResult, m: EngineView, rest: Seq<EventView>) -> bool {
    match end {
        RowEnd::Closed { m: next, rest: left } => result is Closed && m == next && rest == left,
        RowEnd::Eof { m: next } => result is Eof && m == next,
        RowEnd::Failed { m: next, message } => result matches RowResult::Failed(t) && t@ == message
            && m == next,
    }
}

/// How the rows of a document ended.
pub enum ParseResult {
    Done,
    Broken { message: String, position: usize },
    Failed(String),
}

/// The names in a list of one or two.
proof fn lemma_names(one: &[u8], two: &[u8])
    ensures
        byte_strings(seq![one]) == seq![one@],
        byte_strings(seq![one, two]) == seq![one@, two@],
{
    assert(byte_strings(seq![one]) =~= seq![one@]);
    assert(byte_strings(seq![one, two]) =~= seq![one@, two@]);
}

impl ColumnarEngine {
    /// Put the attributes of a row tag into the row, up to the first one that cannot be read.
    fn put_attrs(&mut self, attrs: &[AttrItem]) -> (done: Result<(), String>)
        requires
            old(self).wf(),
        ensures
            final(self).wf(),
            final(self)@ == with_attrs(attr_views(attrs@), old(self)@).0,
            match with_attrs(attr_views(attrs@), old(self)@).1 {
                Some(message) => done matches Err(text) && text@ == message,
                None => done is Ok,
            },
    {
        let ghost views = attr_views(attrs@);
        let ghost m = self@;
        let mut i: usize = 0;
        assert(views.skip(0) =~= views);
        while i < attrs.len()
            invariant
                i <= attrs@.len(),
                views == attr_views(attrs@),
                m == old(self)@,
                self.wf(),
                with_attrs(views, m) == with_attrs(views.skip(i as int), self@),
            decreases attrs@.len() - i,
        {
            assert(views.skip(i as int)[0] == attrs@[i as int]@);
            assert(views.skip(i as int).drop_first() =~= views.skip(i + 1));
            match &attrs[i] {
                AttrItem::Pair { key, value } => match attr_text(value.as_slice()) {
                    Ok(text) => {
                        let name = utf8_text(key.as_slice());
                        self.push_field_str(name.as_str(), Some(text.as_str()));
                    },
                    Err(message) => {
                        return Err(message);
                    },
                },
                AttrItem::Broken { message } => {
                    return Err(message.clone());
                },
            }
            i += 1;
        }
        Ok(())
    }

    /// Put what a child tag of a row says into the row; read on to the close tag of a field or a
    /// text.
    fn read_child<E: EventSource>(&mut self, source: &mut E, tag: &Tag, empty: bool) -> (end:
        RowResult)
        requires
            old(self).wf(),
            valid_utf8(tag.name@ + tag.rest@),
            readable(old(source).pending()),
        ensures
            final(self).wf(),
            readable(final(source).pending()),
            ends_as(
                with_child(
                    tag.name@,
                    tag_attributes(tag.name@, tag.rest@),
                    empty,
                    old(source).pending(),
                    old(self)@,
                ),
                end,
                final(self)@,
                final(source).pending(),
            ),
    {
        let attrs = attributes_of(tag);
        let name = tag.name.as_slice();
        if same_bytes(name, "Field".as_bytes()) {
            let keys: [&[u8]; 2] = ["FieldName".as_bytes(), "Name".as_bytes()];
            let values: [&[u8]; 2] = ["FormattedValue".as_bytes(), "Value".as_bytes()];
            proof {
                lemma_names(keys@[0], keys@[1]);
                lemma_names(values@[0], values@[1]);
                assert(keys@ =~= seq![keys@[0], keys@[1]]);
                assert(values@ =~= seq![values@[0], values@[1]]);
            }
            let key = element_key(&attrs, &keys, "Field");
            if empty {
                self.push_field_str(key.as_str(), Some(""));
                proof {
                    reveal_strlit("");
                    assert(""@ =~= Seq::<char>::empty());
                }
                return RowResult::Closed;
            }
            match read_text(source, name, &values) {
                TextResult::Closed(text) => {
                    self.push_field_str(key.as_str(), Some(text.as_str()));
                    RowResult::Closed
                },
                TextResult::Eof => RowResult::Eof,
                TextResult::Failed(message) => RowResult::Failed(message),
            }
        } else if same_bytes(name, "Text".as_bytes()) {
            let keys: [&[u8]; 1] = ["Name".as_bytes()];
            let values: [&[u8]; 1] = ["TextValue".as_bytes()];
            proof {
                lemma_names(keys@[0], keys@[0]);
                lemma_names(values@[0], values@[0]);
                assert(keys@ =~= seq![keys@[0]]);
                assert(values@ =~= seq![values@[0]]);
            }
            let key = element_key(&attrs, &keys, "Text");
            if empty {
                self.push_field_str(key.as_str(), Some(""));
                proof {
                    reveal_strlit("");
                    assert(""@ =~= Seq::<char>::empty());
                }
                return RowResult::Closed;
            }
            match read_text(source, name, &values) {
                TextResult::Closed(text) => {
                    self.push_field_str(key.as_str(), Some(text.as_str()));
                    RowResult::Closed
                },
                TextResult::Eof => RowResult::Eof,
                TextResult::Failed(message) => RowResult::Failed(message),
            }
        } else if same_bytes(name, "Section".as_bytes()) {
            let number = find_first(&attrs, "SectionNumber".as_bytes());
            self.push_field_str("Section", Some(number.as_str()));
            RowResult::Closed
        } else {
            let key = utf8_text(name);
            self.push_field_str(key.as_str(), Some(""));
            proof {
                reveal_strlit("");
                assert(""@ =~= Seq::<char>::empty());
            }
            RowResult::Closed
        }
    }

    /// Read the body of a row.
    fn read_row<E: EventSource>(&mut self, source: &mut E, row_tag: &[u8]) -> (end: RowResult)
        requires
            old(self).wf(),
            readable(old(source).pending()),
        ensures
            final(self).wf(),
            readable(final(source).pending()),
            ends_as(
                row_body(old(source).pending(), row_tag@, old(self)@),
                end,
                final(self)@,
                final(source).pending(),
            ),
    {
        let ghost whole = row_body(source.pending(), row_tag@, self@);
        loop
            invariant
                self.wf(),
                readable(source.pending()),
                whole == row_body(old(source).pending(), row_tag@, old(self)@),
                whole == row_body(source.pending(), row_tag@, self@),
            decreases source.pending().len(),
        {
            let ghost events = source.pending();
            proof {
                lemma_rest_events(events);
                lemma_child_rest(events, self@);
            }
            match source.next_event() {
                XmlEvent::Start(tag) => match self.read_child(source, &tag, false) {
                    RowResult::Closed => {},
                    end => {
                        return end;
                    },
                },
                XmlEvent::Empty(tag) => match self.read_child(source, &tag, true) {
                    RowResult::Closed => {},
                    end => {
                        return end;
                    },
                },
                XmlEvent::End(name) => {
                    if same_bytes(name.as_slice(), row_tag) {
                        return RowResult::Closed;
                    }
                },
                XmlEvent::Eof => {
                    return RowResult::Eof;
                },
                XmlEvent::Failed { message, .. } => {
                    return RowResult::Failed(message);
                },
                _ => {},
            }
        }
    }

    /// Read the rows of a document.
    pub fn read_rows<E: EventSource>(&mut self, source: &mut E, row_tag: &[u8]) -> (end: ParseResult)
        requires
            old(self).wf(),
            readable(old(source).pending()),
            old(self)@.rows + old(source).pending().len() <= usize::MAX,
        ensures
            final(self).wf(),
            final(self)@.rows <= old(self)@.rows + old(source).pending().len(),
            match parse_rows(old(source).pending(), row_tag@, old(self)@) {
                ParseEnd::Done { m } => end is Done && final(self)@ == m,
                ParseEnd::Broken { m, message, position } => (end matches ParseResult::Broken {
                    message: t,
                    position: p,
                } && t@ == message && p == position && final(self)@ == m),
                ParseEnd::Failed { m, message } => end matches ParseResult::Failed(t) && t@
                    == message && final(self)@ == m,
            },
    {
        let ghost whole = parse_rows(source.pending(), row_tag@, self@);
        loop
            invariant
                self.wf(),
                readable(source.pending()),
                self@.rows + source.pending().len() <= old(self)@.rows + old(source).pending().len(),
                old(self)@.rows + old(source).pending().len() <= usize::MAX,
                whole == parse_rows(old(source).pending(), row_tag@, old(self)@),
                whole == parse_rows(source.pending(), row_tag@, self@),
            decreases source.pending().len(),
        {
            let ghost events = source.pending();
            proof {
                lemma_rest_events(events);
            }
            match source.next_event() {
                XmlEvent::Empty(tag) => {
                    if same_bytes(tag.name.as_slice(), row_tag) {
                        let attrs = attributes_of(&tag);
                        proof {
                            lemma_attrs_rows(attr_views(attrs@), self@);
                        }
                        match self.put_attrs(&attrs) {
                            Ok(_) => self.close_row(),
                            Err(message) => {
                                return ParseResult::Failed(message);
                            },
                        }
                    }
                },
                XmlEvent::Start(tag) => {
                    if same_bytes(tag.name.as_slice(), row_tag) {
                        let attrs = attributes_of(&tag);
                        proof {
                            lemma_attrs_rows(attr_views(attrs@), self@);
                        }
                        match self.put_attrs(&attrs) {
                            Ok(_) => {},
                            Err(message) => {
                                return ParseResult::Failed(message);
                            },
                        }
                        proof {
                            lemma_row_rest(source.pending(), row_tag@, self@);
                        }
                        match self.read_row(source, row_tag) {
                            RowResult::Closed => self.close_row(),
                            RowResult::Eof => {
                                return ParseResult::Done;
                            },
                            RowResult::Failed(message) => {
                                return ParseResult::Failed(message);
                            },
                        }
                    }
                },
                XmlEvent::Eof => {
                    return ParseResult::Done;
                },
                XmlEvent::Failed { message, position } => {
                    return ParseResult::Broken { message, position };
                },
                _ => {},
            }
        }
    }
}

impl ColumnarEngine {
    /// Put the attributes of a row tag into the row; errors are passed over.
    fn put_attrs_leniently(&mut self, attrs: &[AttrItem])
        requires
            old(self).wf(),
        ensures
            final(self).wf(),
            final(self)@ == with_attrs_leniently(attr_views(attrs@), old(self)@),
            final(self)@.rows == old(self)@.rows,
    {
        let ghost views = attr_views(attrs@);
        let ghost m = self@;
        let mut i: usize = 0;
        assert(views.skip(0) =~= views);
        while i < attrs.len()
            invariant
                i <= attrs@.len(),
                views == attr_views(attrs@),
                m == old(self)@,
                self.wf(),
                self@.rows == m.rows,
                with_attrs_leniently(views, m) == with_attrs_leniently(
                    views.skip(i as int),
                    self@,
                ),
            decreases attrs@.len() - i,
        {
            assert(views.skip(i as int)[0] == attrs@[i as int]@);
            assert(views.skip(i as int).drop_first() =~= views.skip(i + 1));
            match &attrs[i] {
                AttrItem::Pair { key, value } => {
                    let name = utf8_text(key.as_slice());
                    let text = match attr_text(value.as_slice()) {
                        Ok(text) => text,
                        Err(_) => String::new(),
                    };
                    self.push_field_str(name.as_str(), Some(text.as_str()));
                },
                AttrItem::Broken { .. } => {},
            }
            i += 1;
        }
    }

    /// Put what a child tag of a row says into the row; errors in its body are passed over.
    fn read_child_leniently<E: EventSource>(&mut self, source: &mut E, tag: &Tag, empty: bool) -> (
    end: RowResult)
        requires
            old(self).wf(),
            valid_utf8(tag.name@ + tag.rest@),
            readable(old(source).pending()),
        ensures
            final(self).wf(),
            readable(final(source).pending()),
            ends_as(
                with_child_leniently(
                    tag.name@,
                    tag_attributes(tag.name@, tag.rest@),
                    empty,
                    old(source).pending(),
                    old(self)@,
                ),
                end,
                final(self)@,
                final(source).pending(),
            ),
    {
        let name = tag.name.as_slice();
        if same_bytes(name, "Field".as_bytes()) {
            let attrs = attributes_of(tag);
            let keys: [&[u8]; 2] = ["FieldName".as_bytes(), "Name".as_bytes()];
            let values: [&[u8]; 2] = ["FormattedValue".as_bytes(), "Value".as_bytes()];
            proof {
                lemma_names(keys@[0], keys@[1]);
                lemma_names(values@[0], values@[1]);
                assert(keys@ =~= seq![keys@[0], keys@[1]]);
                assert(values@ =~= seq![values@[0], values@[1]]);
                lemma_element_rest_leniently(source.pending(), name@, field_values(), Seq::empty());
            }
            let key = element_key(&attrs, &keys, "Field");
            if empty {
                self.push_field_str(key.as_str(), Some(""));
                proof {
                    reveal_strlit("");
                    assert(""@ =~= Seq::<char>::empty());
                }
                return RowResult::Closed;
            }
            match read_text_leniently(source, name, &values) {
                Some(text) => {
                    self.push_field_str(key.as_str(), Some(text.as_str()));
                    RowResult::Closed
                },
                None => RowResult::Eof,
            }
        } else if same_bytes(name, "Text".as_bytes()) {
            if empty {
                return RowResult::Closed;
            }
            let attrs = attributes_of(tag);
            let keys: [&[u8]; 1] = ["Name".as_bytes()];
            let values: [&[u8]; 1] = ["TextValue".as_bytes()];
            proof {
                lemma_names(keys@[0], keys@[0]);
                lemma_names(values@[0], values@[0]);
                assert(keys@ =~= seq![keys@[0]]);
                assert(values@ =~= seq![values@[0]]);
            }
            let key = element_key(&attrs, &keys, "Text");
            match read_text_leniently(source, name, &values) {
                Some(text) => {
                    if !same_text(text.as_str(), "") {
                        self.push_field_str(key.as_str(), Some(text.as_str()));
                    }
                    proof {
                        reveal_strlit("");
                        assert(text@.len() == 0 ==> text@ =~= ""@);
                    }
                    RowResult::Closed
                },
                None => RowResult::Eof,
            }
        } else {
            self.read_child(source, tag, empty)
        }
    }

    /// Read the body of a row; errors in its elements are passed over.
    fn read_row_leniently<E: EventSource>(&mut self, source: &mut E, row_tag: &[u8]) -> (end:
        RowResult)
        requires
            old(self).wf(),
            readable(old(source).pending()),
        ensures
            final(self).wf(),
            final(self)@.rows == old(self)@.rows,
            ends_as(
                row_body_leniently(old(source).pending(), row_tag@, old(self)@),
                end,
                final(self)@,
                final(source).pending(),
            ),
    {
        let ghost whole = row_body_leniently(source.pending(), row_tag@, self@);
        loop
            invariant
                self.wf(),
                self@.rows == old(self)@.rows,
                readable(source.pending()),
                whole == row_body_leniently(old(source).pending(), row_tag@, old(self)@),
                whole == row_body_leniently(source.pending(), row_tag@, self@),
            decreases source.pending().len(),
        {
            let ghost events = source.pending();
            proof {
                lemma_rest_events(events);
                lemma_child_rest_leniently(events, self@);
            }
            match source.next_event() {
                XmlEvent::Start(tag) => match self.read_child_leniently(source, &tag, false) {
                    RowResult::Closed => {},
                    end => {
                        return end;
                    },
                },
                XmlEvent::Empty(tag) => match self.read_child_leniently(source, &tag, true) {
                    RowResult::Closed => {},
                    end => {
                        return end;
                    },
                },
                XmlEvent::End(name) => {
                    if same_bytes(name.as_slice(), row_tag) {
                        return RowResult::Closed;
                    }
                },
                XmlEvent::Eof => {
                    return RowResult::Eof;
                },
                XmlEvent::Failed { message, .. } => {
                    return RowResult::Failed(message);
                },
                _ => {},
            }
        }
    }

    /// Read the row that the events start with, if they start with one; and say whether to look
    /// for another.
    pub fn read_one_leniently<E: EventSource>(&mut self, source: &mut E, row_tag: &[u8]) -> (more:
        bool)
        requires
            old(self).wf(),
            readable(old(source).pending()),
            old(self)@.rows < usize::MAX,
        ensures
            final(self).wf(),
            final(self)@.rows <= old(self)@.rows + 1,
            (final(self)@, more) == one_row_leniently(
                old(source).pending(),
                row_tag@,
                old(self)@,
            ),
    {
        match source.next_event() {
            XmlEvent::Failed { .. } => false,
            XmlEvent::Empty(tag) => {
                if same_bytes(tag.name.as_slice(), row_tag) {
                    let attrs = attributes_of(&tag);
                    self.put_attrs_leniently(&attrs);
                    self.close_row();
                }
                true
            },
            XmlEvent::Start(tag) => {
                if same_bytes(tag.name.as_slice(), row_tag) {
                    let attrs = attributes_of(&tag);
                    self.put_attrs_leniently(&attrs);
                    match self.read_row_leniently(source, row_tag) {
                        RowResult::Closed | RowResult::Failed(_) => {
                            self.close_row();
                        },
                        RowResult::Eof => {
                            return false;
                        },
                    }
                }
                true
            },
            _ => true,
        }
    }

    /// Read the rows from `start` on, each by itself from its start on.
    fn parse_tail(&mut self, bytes: &[u8], row_tag: &[u8], start: usize)
        requires
            old(self).wf(),
            valid_utf8(bytes@),
            old(self)@.rows + bytes@.len() <= usize::MAX,
        ensures
            final(self).wf(),
            final(self)@ == tail_rows(bytes@, row_tag@, start as int, old(self)@),
            aligned(old(self)@) ==> grown(old(self)@, final(self)@),
    {
        let (regions, _) = find_special_regions(bytes);
        let ghost m = self@;
        let mut pos: usize = start;
        loop
            invariant
                spans(regions@) == special_spans(bytes@, 0),
                valid_utf8(bytes@),
                m == old(self)@,
                self.wf(),
                aligned(m) ==> grown(m, self@),
                pos <= bytes@.len() ==> self@.rows + bytes@.len() - pos <= usize::MAX,
                tail_rows(bytes@, row_tag@, start as int, m) == tail_rows(
                    bytes@,
                    row_tag@,
                    pos as int,
                    self@,
                ),
            decreases bytes@.len() - pos,
        {
            proof {
                lemma_next_row(bytes@, row_tag@, special_spans(bytes@, 0), pos as int);
            }
            match next_row_start(bytes, pos, row_tag, &regions) {
                Some(row) => {
                    let rest = slice_subrange(bytes, row, bytes.len());
                    assert(rest@ =~= bytes@.skip(row as int));
                    proof {
                        lemma_slice_valid(bytes@, row as int, bytes@.len() as int);
                    }
                    let mut source = XmlReader::new(rest);
                    proof {
                        if aligned(m) {
                            lenient_row_only_adds(source.pending(), row_tag@, self@);
                            lemma_grown_again(
                                m,
                                self@,
                                one_row_leniently(source.pending(), row_tag@, self@).0,
                            );
                        }
                    }
                    if !self.read_one_leniently(&mut source, row_tag) {
                        return;
                    }
                    pos = row + 1;
                },
                None => {
                    return;
                },
            }
        }
    }

    /// Go on after an error between rows.
    pub fn recover(&mut self, bytes: &[u8], row_tag: &[u8], message: &str, position: usize) -> (done:
        Result<(), String>)
        requires
            old(self).wf(),
            valid_utf8(bytes@),
            old(self)@.rows + bytes@.len() <= usize::MAX,
        ensures
            final(self).wf(),
            (final(self)@, error_of(done)) == recovered(
                bytes@,
                row_tag@,
                message@,
                position as int,
                old(self)@,
            ),
            aligned(old(self)@) ==> grown(old(self)@, final(self)@),
    {
        if find_bytes(message.as_bytes(), "close tag".as_bytes(), 0).is_some() {
            self.parse_tail(bytes, row_tag, position);
            return Ok(());
        }
        proof {
            lemma_grown_same(self@);
        }
        if trailing_close_tags_only(bytes, position) {
            return Ok(());
        }
        Err(malformed_text(message, position))
    }

    /// Parse the rows of a document.
    fn parse_bytes_quickxml(&mut self, bytes: &[u8], row_tag: &[u8]) -> (done: Result<(), String>)
        requires
            old(self).wf(),
            valid_utf8(bytes@),
            old(self)@.rows + 2 * bytes@.len() + 1 <= usize::MAX,
        ensures
            final(self).wf(),
            (final(self)@, error_of(done)) == parsed(bytes@, row_tag@, old(self)@),
            aligned(old(self)@) ==> grown(old(self)@, final(self)@),
    {
        let mut source = XmlReader::new(bytes);
        let ghost m = self@;
        proof {
            if aligned(m) {
                rows_only_add(source.pending(), row_tag@, m);
            }
        }
        match self.read_rows(&mut source, row_tag) {
            ParseResult::Done => Ok(()),
            ParseResult::Failed(message) => Err(message),
            ParseResult::Broken { message, position } => {
                let ghost mid = self@;
                let done = self.recover(bytes, row_tag, message.as_str(), position);
                proof {
                    if aligned(m) {
                        lemma_grown_again(m, mid, self@);
                    }
                }
                done
            },
        }
    }

    /// Parse the rows of a document. Bytes that are not valid UTF-8 are refused. A row whose number
    /// the row filter awaits stays until the filter is settled.
    pub fn parse_bytes(&mut self, bytes: &[u8], row_tag: &[u8]) -> (done: Result<(), String>)
        requires
            old(self).wf(),
            old(self)@.rows + 2 * bytes@.len() + 1 <= usize::MAX,
        ensures
            final(self).wf(),
            !valid_utf8(bytes@) ==> error_of(done) == Some("invalid UTF-8 in input"@)
                && final(self)@ == old(self)@,
            valid_utf8(bytes@) ==> (final(self)@, error_of(done)) == parsed(
                bytes@,
                row_tag@,
                old(self)@,
            ),
            aligned(old(self)@) ==> grown(old(self)@, final(self)@),
    {
        if !is_utf8(bytes) {
            proof {
                lemma_grown_same(self@);
            }
            return Err("invalid UTF-8 in input".to_string());
        }
        self.parse_bytes_quickxml(bytes, row_tag)
    }

    /// Parse the rows of a document, by its XML events alone. Bytes that are not valid UTF-8 are
    /// refused. A row whose number the row filter awaits stays until the filter is settled.
    pub fn parse_bytes_quickxml_only(&mut self, bytes: &[u8], row_tag: &[u8]) -> (done: Result<
        (),
        String,
    >)
        requires
            old(self).wf(),
            old(self)@.rows + 2 * bytes@.len() + 1 <= usize::MAX,
        ensures
            final(self).wf(),
            !valid_utf8(bytes@) ==> error_of(done) == Some("invalid UTF-8 in input"@)
                && final(self)@ == old(self)@,
            valid_utf8(bytes@) ==> (final(self)@, error_of(done)) == parsed(
                bytes@,
                row_tag@,
                old(self)@,
            ),
            aligned(old(self)@) ==> grown(old(self)@, final(self)@),
    {
        if !is_utf8(bytes) {
            proof {
                lemma_grown_same(self@);
            }
            return Err("invalid UTF-8 in input".to_string());
        }
        self.parse_bytes_quickxml(bytes, row_tag)
    }
}

} // verus!
