//! Reading on after an error: a row without errors is read as it is without one, and an error counts
//! unless only close tags follow.

use vstd::prelude::*;
use vstd::utf8::{decode_utf8, encode_utf8};

use crate::bytes::{byte_from, lemma_byte_from, lemma_bytes_from, occurs_at, GT};
use crate::columnar::EngineView;
use crate::events::{
    document_events, lemma_rest_events, readable, rest_events, tag_attributes, value_text, AttrView,
    EventView,
};
use crate::markup::{in_spans, lemma_next_row, next_row, row_start_at};
use crate::numbers::decimal;
use crate::parse::{
    close_tags_from, element_text, element_text_leniently, is_blank, lemma_child_rest,
    lemma_child_rest_leniently, lemma_element_rest, lemma_past_blank, lemma_row_rest,
    one_row_leniently, parse_rows, parsed, past_blank, recovered, row_body, row_body_leniently,
    tail_rows, text_values, with_attrs, with_attrs_leniently, with_child, with_child_leniently,
    ParseEnd, RowEnd, TextEnd,
};
use crate::reading::lemma_one_before;
use crate::text::plain_text;
use crate::xml::scanner::field_values;
use crate::xml::splitter::special_spans;

verus! {

/// Attributes that can all be read are read alike where errors are passed over.
pub proof fn sound_attributes_are_read_alike(attrs: Seq<AttrView>, m: EngineView)
    requires
        with_attrs(attrs, m).1 is None,
    ensures
        with_attrs_leniently(attrs, m) == with_attrs(attrs, m).0,
    decreases attrs.len(),
{
    if attrs.len() > 0 {
        if let AttrView::Pair { key, value } = attrs[0] {
            if let Ok(v) = value_text(value) {
                sound_attributes_are_read_alike(
                    attrs.drop_first(),
                    m.put(plain_text(key), Some(v)),
                );
            }
        }
    }
}

/// None of the first `n` events is a self-closing tag of one of the names.
pub open spec fn none_self_closing(events: Seq<EventView>, n: int, names: Seq<Seq<u8>>) -> bool {
    forall|i: int|
        0 <= i < n && i < events.len() ==> (#[trigger] events[i] matches EventView::Empty { name, .. }
            ==> !names.contains(name))
}

/// What is left after the body of an element are its last events.
proof fn lemma_element_tail(
    events: Seq<EventView>,
    close: Seq<u8>,
    values: Seq<Seq<u8>>,
    text: Seq<char>,
)
    requires
        readable(events),
    ensures
        element_text(events, close, values, text) matches TextEnd::Closed { text: t, rest }
            ==> rest.len() < events.len() && rest == events.skip(events.len() - rest.len()),
    decreases events.len(),
{
    lemma_rest_events(events);
    let rest = rest_events(events);
    lemma_rest_events(rest);
    lemma_element_rest(events, close, values, text);
    if !(events[0] is Eof) {
        let (from, found) = match events[0] {
            EventView::Start { name, .. } => if values.contains(name) {
                (
                    rest_events(rest),
                    match rest[0] {
                        EventView::Text { content } => match value_text(content) {
                            Ok(t) => t,
                            Err(_) => text,
                        },
                        _ => text,
                    },
                )
            } else {
                (rest, text)
            },
            _ => (rest, text),
        };
        lemma_element_tail(from, close, values, found);
        assert(from == events.skip(events.len() - from.len())) by {
            assert(rest == events.skip(1));
            if from != rest {
                if rest[0] is Eof {
                    assert(from == rest);
                } else {
                    assert(from == rest.skip(1));
                    assert(events.skip(1).skip(1) =~= events.skip(2));
                }
            }
        }
        if let TextEnd::Closed { rest: left, .. } = element_text(events, close, values, text) {
            let k = events.len() - from.len();
            assert(from.skip(from.len() - left.len()) =~= events.skip(events.len() - left.len()));
            assert(rest.skip(rest.len() - left.len()) =~= events.skip(events.len() - left.len()));
        }
    }
}

/// An element without errors and without self-closing value elements has the same text where errors
/// are passed over.
pub proof fn sound_element_is_read_alike(
    events: Seq<EventView>,
    close: Seq<u8>,
    values: Seq<Seq<u8>>,
    text: Seq<char>,
)
    requires
        readable(events),
        element_text(events, close, values, text) matches TextEnd::Closed { text: t, rest }
            && none_self_closing(events, events.len() - rest.len(), values),
    ensures
        element_text_leniently(events, close, values, text) == element_text(
            events,
            close,
            values,
            text,
        ),
    decreases events.len(),
{
    lemma_rest_events(events);
    let rest = rest_events(events);
    lemma_rest_events(rest);
    let end = element_text(events, close, values, text);
    if let TextEnd::Closed { text: t, rest: left } = end {
        lemma_element_rest(events, close, values, text);
        assert(none_self_closing(events, events.len() - left.len(), values));
        assert(rest == events.skip(1));
        assert(events[0] matches EventView::Empty { name, .. } ==> !values.contains(name)) by {
            assert(0 < events.len() - left.len());
        }
        match events[0] {
            EventView::Start { name, .. } => {
                if values.contains(name) {
                    let from = rest_events(rest);
                    let found = match rest[0] {
                        EventView::Text { content } => match value_text(content) {
                            Ok(t) => t,
                            Err(_) => text,
                        },
                        _ => text,
                    };
                    lemma_element_rest(from, close, values, found);
                    if rest[0] is Eof {
                    } else {
                        assert(from == rest.skip(1));
                        assert forall|i: int|
                            0 <= i < from.len() - left.len() && i < from.len() implies (
                        #[trigger] from[i] matches EventView::Empty { name, .. } ==> !values.contains(
                            name,
                        )) by {
                            assert(from[i] == events[i + 2]);
                        }
                        sound_element_is_read_alike(from, close, values, found);
                    }
                } else {
                    lemma_shifted(events, left.len() as int, values);
                    sound_element_is_read_alike(rest, close, values, text);
                }
            },
            EventView::End { name } => {
                if name != close {
                    lemma_shifted(events, left.len() as int, values);
                    sound_element_is_read_alike(rest, close, values, text);
                }
            },
            EventView::Eof => {},
            EventView::Failed { .. } => {},
            _ => {
                lemma_shifted(events, left.len() as int, values);
                sound_element_is_read_alike(rest, close, values, text);
            },
        }
    }
}

/// Without its first event a sequence keeps what holds of its first events.
proof fn lemma_shifted(events: Seq<EventView>, left: int, names: Seq<Seq<u8>>)
    requires
        events.len() > 0,
        none_self_closing(events, events.len() - left, names),
    ensures
        none_self_closing(events.skip(1), events.skip(1).len() - left, names),
{
    let rest = events.skip(1);
    assert forall|i: int| 0 <= i < rest.len() - left && i < rest.len() implies (
    #[trigger] rest[i] matches EventView::Empty { name, .. } ==> !names.contains(name)) by {
        assert(rest[i] == events[i + 1]);
    }
}

/// The names of the elements that are read otherwise where they are self-closing and errors are
/// passed over.
pub open spec fn told_apart() -> Seq<Seq<u8>> {
    seq![
        encode_utf8("Text"@),
        encode_utf8("FormattedValue"@),
        encode_utf8("Value"@),
        encode_utf8("TextValue"@),
    ]
}

/// None of the first `n` events starts a `<Text>` without content.
pub open spec fn texts_have_content(events: Seq<EventView>, n: int) -> bool {
    forall|i: int|
        0 <= i < n && i < events.len() ==> (#[trigger] events[i] matches EventView::Start { name, .. }
            ==> name == encode_utf8("Text"@) ==> !(element_text(
            events.skip(i + 1),
            encode_utf8("Text"@),
            text_values(),
            Seq::empty(),
        ) matches TextEnd::Closed { text, .. } && text.len() == 0))
}

/// A suffix keeps what holds of the first events.
proof fn lemma_suffix_keeps(events: Seq<EventView>, from: Seq<EventView>, left: int)
    requires
        0 <= left <= from.len() <= events.len(),
        from == events.skip(events.len() - from.len()),
        none_self_closing(events, events.len() - left, told_apart()),
        texts_have_content(events, events.len() - left),
    ensures
        none_self_closing(from, from.len() - left, told_apart()),
        texts_have_content(from, from.len() - left),
{
    let k = events.len() - from.len();
    assert forall|i: int| 0 <= i < from.len() - left && i < from.len() implies (
    #[trigger] from[i] matches EventView::Empty { name, .. } ==> !told_apart().contains(name)) by {
        assert(from[i] == events[i + k]);
    }
    assert forall|i: int| 0 <= i < from.len() - left && i < from.len() implies (
    #[trigger] from[i] matches EventView::Start { name, .. } ==> name == encode_utf8("Text"@) ==> !(
    element_text(
        from.skip(i + 1),
        encode_utf8("Text"@),
        text_values(),
        Seq::empty(),
    ) matches TextEnd::Closed { text, .. } && text.len() == 0)) by {
        assert(from[i] == events[i + k]);
        assert(from.skip(i + 1) =~= events.skip(i + k + 1));
    }
}

/// What is left after a child of a row are the last events.
proof fn lemma_child_tail(
    events: Seq<EventView>,
    name: Seq<u8>,
    attrs: Seq<AttrView>,
    empty: bool,
    m: EngineView,
)
    requires
        readable(events),
        !(events[0] is Eof),
    ensures
        with_child(name, attrs, empty, rest_events(events), m) matches RowEnd::Closed {
            m: next,
            rest,
        } ==> rest.len() < events.len() && rest == events.skip(events.len() - rest.len()),
{
    lemma_rest_events(events);
    let rest = rest_events(events);
    let none = Seq::<char>::empty();
    assert(rest == events.skip(1));
    lemma_element_tail(rest, encode_utf8("Field"@), field_values(), none);
    lemma_element_tail(rest, encode_utf8("Text"@), text_values(), none);
    if let RowEnd::Closed { rest: left, .. } = with_child(name, attrs, empty, rest, m) {
        assert(rest.skip(rest.len() - left.len()) =~= events.skip(events.len() - left.len()));
    }
}

/// What holds of all the names told apart holds of some of them, in what follows the first event.
proof fn lemma_some_names(events: Seq<EventView>, left: int, values: Seq<Seq<u8>>, after: int)
    requires
        events.len() > 0,
        left <= after,
        none_self_closing(events, events.len() - left, told_apart()),
        forall|i: int| 0 <= i < values.len() ==> told_apart().contains(#[trigger] values[i]),
    ensures
        none_self_closing(events.skip(1), events.skip(1).len() - after, values),
{
    let rest = events.skip(1);
    assert forall|i: int| 0 <= i < rest.len() - after && i < rest.len() implies (
    #[trigger] rest[i] matches EventView::Empty { name, .. } ==> !values.contains(name)) by {
        assert(rest[i] == events[i + 1]);
    }
}

/// The values of fields and texts are among the names told apart.
proof fn lemma_values_told_apart()
    ensures
        told_apart().contains(encode_utf8("Text"@)),
        forall|i: int|
            0 <= i < field_values().len() ==> told_apart().contains(#[trigger] field_values()[i]),
        forall|i: int|
            0 <= i < text_values().len() ==> told_apart().contains(#[trigger] text_values()[i]),
{
    let names = told_apart();
    assert(names[0] == encode_utf8("Text"@));
    assert(names[1] == encode_utf8("FormattedValue"@));
    assert(names[2] == encode_utf8("Value"@));
    assert(names[3] == encode_utf8("TextValue"@));
}

/// A child of a row without errors, without self-closing texts and values and with content in its
/// texts is read alike where errors are passed over.
#[verifier::spinoff_prover]
proof fn lemma_child_alike(
    events: Seq<EventView>,
    name: Seq<u8>,
    raw: Seq<u8>,
    empty: bool,
    m: EngineView,
    left: int,
)
    requires
        readable(events),
        events[0] == (if empty {
            EventView::Empty { name, rest: raw }
        } else {
            EventView::Start { name, rest: raw }
        }),
        with_child(name, tag_attributes(name, raw), empty, rest_events(events), m)
            matches RowEnd::Closed { m: next, rest } && 0 <= left <= rest.len(),
        none_self_closing(events, events.len() - left, told_apart()),
        texts_have_content(events, events.len() - left),
    ensures
        with_child_leniently(name, tag_attributes(name, raw), empty, rest_events(events), m)
            == with_child(name, tag_attributes(name, raw), empty, rest_events(events), m),
{
    lemma_rest_events(events);
    let rest = rest_events(events);
    let none = Seq::<char>::empty();
    assert(rest == events.skip(1));
    lemma_child_rest(events, m);
    lemma_values_told_apart();
    if name == encode_utf8("Field"@) {
        if !empty {
            if let TextEnd::Closed { rest: after, .. } = element_text(
                rest,
                name,
                field_values(),
                none,
            ) {
                lemma_some_names(events, left, field_values(), after.len() as int);
                sound_element_is_read_alike(rest, name, field_values(), none);
            }
        }
    } else if name == encode_utf8("Text"@) {
        if !empty {
            if let TextEnd::Closed { rest: after, .. } = element_text(
                rest,
                name,
                text_values(),
                none,
            ) {
                lemma_some_names(events, left, text_values(), after.len() as int);
                sound_element_is_read_alike(rest, name, text_values(), none);
                assert(events.skip(0int + 1) == rest);
            }
        }
    }
}

/// A self-closing part of a row, unless it is a `<Text>`, is read alike where errors are passed
/// over: it gives the same field under the same name. So is the tag of a part that is neither a
/// field nor a text.
pub proof fn self_closing_parts_are_read_alike(
    name: Seq<u8>,
    attrs: Seq<AttrView>,
    empty: bool,
    rest: Seq<EventView>,
    m: EngineView,
)
    requires
        name != encode_utf8("Text"@),
        empty || name != encode_utf8("Field"@),
    ensures
        with_child_leniently(name, attrs, empty, rest, m) == with_child(
            name,
            attrs,
            empty,
            rest,
            m,
        ),
{
}

/// A row without errors gives the same fields, names and values, whether it is read where errors
/// are passed over or not, and ends at the same place. This leaves out rows with a `<Text>` that is
/// self-closing or without content and rows with a self-closing value element.
pub proof fn sound_row_is_read_alike(events: Seq<EventView>, row_tag: Seq<u8>, m: EngineView)
    requires
        readable(events),
        row_body(events, row_tag, m) matches RowEnd::Closed { m: next, rest } && none_self_closing(
            events,
            events.len() - rest.len(),
            told_apart(),
        ) && texts_have_content(events, events.len() - rest.len()),
    ensures
        row_body_leniently(events, row_tag, m) == row_body(events, row_tag, m),
    decreases events.len(),
{
    lemma_rest_events(events);
    lemma_child_rest(events, m);
    lemma_row_rest(events, row_tag, m);
    lemma_child_rest_leniently(events, m);
    let rest = rest_events(events);
    if let RowEnd::Closed { rest: last, .. } = row_body(events, row_tag, m) {
        let n = last.len() as int;
        match events[0] {
            EventView::Start { name, rest: raw } => {
                let attrs = tag_attributes(name, raw);
                if let RowEnd::Closed { m: next, rest: left } = with_child(
                    name,
                    attrs,
                    false,
                    rest,
                    m,
                ) {
                    lemma_row_rest(left, row_tag, next);
                    lemma_child_alike(events, name, raw, false, m, n);
                    lemma_child_tail(events, name, attrs, false, m);
                    lemma_suffix_keeps(events, left, n);
                    sound_row_is_read_alike(left, row_tag, next);
                }
            },
            EventView::Empty { name, rest: raw } => {
                let attrs = tag_attributes(name, raw);
                if let RowEnd::Closed { m: next, rest: left } = with_child(
                    name,
                    attrs,
                    true,
                    rest,
                    m,
                ) {
                    lemma_row_rest(left, row_tag, next);
                    lemma_child_alike(events, name, raw, true, m, n);
                    lemma_child_tail(events, name, attrs, true, m);
                    lemma_suffix_keeps(events, left, n);
                    sound_row_is_read_alike(left, row_tag, next);
                }
            },
            EventView::End { name } => {
                if name != row_tag {
                    lemma_row_rest(rest, row_tag, m);
                    assert(rest == events.skip(1));
                    lemma_suffix_keeps(events, rest, n);
                    sound_row_is_read_alike(rest, row_tag, m);
                }
            },
            EventView::Eof => {},
            EventView::Failed { .. } => {},
            _ => {
                lemma_row_rest(rest, row_tag, m);
                assert(rest == events.skip(1));
                lemma_suffix_keeps(events, rest, n);
                sound_row_is_read_alike(rest, row_tag, m);
            },
        }
    }
}

/// A row of a document that is read after an error counts with the fields that it has without one.
pub proof fn sound_row_counts_alike(events: Seq<EventView>, row_tag: Seq<u8>, m: EngineView)
    requires
        readable(events),
        events[0] matches EventView::Start { name, rest: raw } && name == row_tag && with_attrs(
            tag_attributes(name, raw),
            m,
        ).1 is None && (row_body(
            rest_events(events),
            row_tag,
            with_attrs(tag_attributes(name, raw), m).0,
        ) matches RowEnd::Closed { m: next, rest } && none_self_closing(
            rest_events(events),
            rest_events(events).len() - rest.len(),
            told_apart(),
        ) && texts_have_content(
            rest_events(events),
            rest_events(events).len() - rest.len(),
        )),
    ensures
        events[0] matches EventView::Start { name, rest: raw } && (row_body(
            rest_events(events),
            row_tag,
            with_attrs(tag_attributes(name, raw), m).0,
        ) matches RowEnd::Closed { m: next, rest } && one_row_leniently(events, row_tag, m) == (
            next.finished(),
            true,
        ) && parse_rows(events, row_tag, m) == parse_rows(rest, row_tag, next.finished())),
{
    lemma_rest_events(events);
    if let EventView::Start { name, rest: raw } = events[0] {
        let attrs = tag_attributes(name, raw);
        sound_attributes_are_read_alike(attrs, m);
        let open = with_attrs(attrs, m).0;
        sound_row_is_read_alike(rest_events(events), row_tag, open);
        lemma_row_rest(rest_events(events), row_tag, open);
        if let RowEnd::Closed { m: next, rest } = row_body(rest_events(events), row_tag, open) {
            assert(one_row_leniently(events, row_tag, m) == (next.finished(), true));
            assert(parse_rows(events, row_tag, m) == parse_rows(rest, row_tag, next.finished()));
        }
    }
}

/// A self-closing row of a document that is read after an error counts alike too.
pub proof fn sound_self_closing_row_counts_alike(
    events: Seq<EventView>,
    row_tag: Seq<u8>,
    m: EngineView,
)
    requires
        readable(events),
        events[0] matches EventView::Empty { name, rest: raw } && name == row_tag && with_attrs(
            tag_attributes(name, raw),
            m,
        ).1 is None,
    ensures
        one_row_leniently(events, row_tag, m).1,
        parse_rows(events, row_tag, m) == parse_rows(
            rest_events(events),
            row_tag,
            one_row_leniently(events, row_tag, m).0,
        ),
{
    if let EventView::Empty { name, rest: raw } = events[0] {
        sound_attributes_are_read_alike(tag_attributes(name, raw), m);
    }
}

/// After an error between rows that speaks of a close tag, the rows that follow still count and
/// there is no error. Any other error counts, with its place and its message, unless only close
/// tags follow; the table stays as it is then.
pub proof fn stray_close_tags_are_passed_over(
    bytes: Seq<u8>,
    row_tag: Seq<u8>,
    message: Seq<char>,
    position: int,
    m: EngineView,
    k: int,
)
    ensures
        occurs_at(encode_utf8(message), encode_utf8("close tag"@), k) ==> recovered(
            bytes,
            row_tag,
            message,
            position,
            m,
        ) == (tail_rows(bytes, row_tag, position, m), None::<Seq<char>>),
        (forall|j: int| !#[trigger] occurs_at(
            encode_utf8(message),
            encode_utf8("close tag"@),
            j,
        )) ==> {
            let end = recovered(bytes, row_tag, message, position, m);
            &&& end.0 == m
            &&& close_tags_from(bytes, past_blank(bytes, position)) ==> end.1 is None
            &&& !close_tags_from(bytes, past_blank(bytes, position)) ==> end.1 == Some(
                "malformed XML at byte "@ + decode_utf8(decimal(position)) + ": "@ + message,
            )
        },
{
    lemma_bytes_from(encode_utf8(message), encode_utf8("close tag"@), 0);
}

/// A document whose rows are read to its end has no error, and the table is what they make of it.
/// An error in a row is handed on with its message.
pub proof fn document_ends_as_its_rows_do(bytes: Seq<u8>, row_tag: Seq<u8>, m: EngineView)
    ensures
        match parse_rows(document_events(bytes), row_tag, m) {
            ParseEnd::Done { m: next } => parsed(bytes, row_tag, m) == (next, None::<Seq<char>>),
            ParseEnd::Failed { m: next, message } => parsed(bytes, row_tag, m) == (
                next,
                Some(message),
            ),
            ParseEnd::Broken { m: next, message, position } => parsed(bytes, row_tag, m)
                == recovered(bytes, row_tag, message, position, next),
        },
{
}

/// An error between rows ends the reading there, with its message and its place.
pub proof fn error_between_rows_ends_the_reading(
    message: Seq<char>,
    position: int,
    rest: Seq<EventView>,
    row_tag: Seq<u8>,
    m: EngineView,
)
    requires
        readable(rest),
    ensures
        parse_rows(seq![EventView::Failed { message, position }] + rest, row_tag, m) == (
        ParseEnd::Broken { m, message, position }),
{
    lemma_one_before(EventView::Failed { message, position }, rest);
}

/// Reading on after an error goes from row start to row start: each row is read by itself, from its
/// start to the end of the document, and where no row starts any more, nothing is read.
pub proof fn rows_after_an_error_are_read_one_by_one(
    bytes: Seq<u8>,
    row_tag: Seq<u8>,
    pos: int,
    start: int,
    m: EngineView,
)
    requires
        pos <= start,
        forall|j: int|
            pos <= j < start ==> !(#[trigger] row_start_at(bytes, row_tag, j)
                && !in_spans(special_spans(bytes, 0), j)),
    ensures
        tail_rows(bytes, row_tag, pos, m) == tail_rows(bytes, row_tag, start, m),
        row_start_at(bytes, row_tag, start) && !in_spans(
            special_spans(bytes, 0),
            start,
        ) ==> {
            let row = one_row_leniently(document_events(bytes.skip(start)), row_tag, m);
            &&& row.1 ==> tail_rows(bytes, row_tag, pos, m) == tail_rows(
                bytes,
                row_tag,
                start + 1,
                row.0,
            )
            &&& !row.1 ==> tail_rows(bytes, row_tag, pos, m) == row.0
        },
        start >= bytes.len() ==> tail_rows(bytes, row_tag, pos, m) == m,
{
    let skip = special_spans(bytes, 0);
    lemma_next_row(bytes, row_tag, skip, pos);
    lemma_next_row(bytes, row_tag, skip, start);
    match (next_row(bytes, row_tag, skip, pos), next_row(bytes, row_tag, skip, start)) {
        (Some(a), Some(b)) => {
            assert(row_start_at(bytes, row_tag, a));
            assert(row_start_at(bytes, row_tag, b));
        },
        (Some(a), None) => {
            assert(row_start_at(bytes, row_tag, a));
        },
        (None, Some(b)) => {
            assert(row_start_at(bytes, row_tag, b));
        },
        _ => {},
    }
}

/// A close tag, with the white space after it.
pub open spec fn close_tag_bytes(name: Seq<u8>, blanks: Seq<u8>) -> Seq<u8> {
    seq![0x3cu8, 0x2fu8] + name + seq![0x3eu8] + blanks
}

/// ASCII white space: space, tab, line feed, form feed and carriage return.
pub open spec fn all_blank(s: Seq<u8>) -> bool {
    forall|i: int|
        0 <= i < s.len() ==> #[trigger] s[i] == 0x20 || s[i] == 0x09 || s[i] == 0x0a || s[i] == 0x0c
            || s[i] == 0x0d
}

/// Blanks are passed over up to the first byte that is none.
proof fn lemma_blanks_passed(bytes: Seq<u8>, pos: int, end: int)
    requires
        0 <= pos <= end <= bytes.len(),
        all_blank(bytes.subrange(pos, end)),
        end < bytes.len() ==> !all_blank(seq![bytes[end]]),
    ensures
        past_blank(bytes, pos) == end,
    decreases end - pos,
{
    if pos < end {
        let here = bytes.subrange(pos, end);
        assert(here[0] == bytes[pos]);
        assert forall|i: int| 0 <= i < bytes.subrange(pos + 1, end).len() implies {
            let b = #[trigger] bytes.subrange(pos + 1, end)[i];
            b == 0x20 || b == 0x09 || b == 0x0a || b == 0x0c || b == 0x0d
        } by {
            assert(here[i + 1] == bytes.subrange(pos + 1, end)[i]);
        }
        lemma_blanks_passed(bytes, pos + 1, end);
    } else if end < bytes.len() {
        let one = seq![bytes[end]];
        if is_blank(bytes[end]) {
            assert forall|i: int| 0 <= i < one.len() implies #[trigger] one[i] == 0x20 || one[i]
                == 0x09 || one[i] == 0x0a || one[i] == 0x0c || one[i] == 0x0d by {}
            assert(all_blank(one));
        }
    }
}

/// A close tag with white space after it is passed over: only close tags follow it if and only if
/// they do from there on. At the end of the document none need follow, and anything but a close tag
/// is something else.
pub proof fn close_tags_are_passed_over(
    bytes: Seq<u8>,
    pos: int,
    name: Seq<u8>,
    blanks: Seq<u8>,
)
    requires
        0 <= pos,
    ensures
        ({
            let after = pos + close_tag_bytes(name, blanks).len();
            occurs_at(bytes, close_tag_bytes(name, blanks), pos) && !name.contains(0x3eu8)
                && all_blank(blanks) && (after < bytes.len() ==> !all_blank(seq![bytes[after]]))
                ==> close_tags_from(bytes, pos) == close_tags_from(bytes, after)
        }),
        pos >= bytes.len() ==> close_tags_from(bytes, pos),
        pos < bytes.len() && bytes[pos] != 0x3c ==> !close_tags_from(bytes, pos),
        pos + 1 < bytes.len() && bytes[pos + 1] != 0x2f ==> !close_tags_from(bytes, pos),
        pos + 1 == bytes.len() ==> !close_tags_from(bytes, pos),
        pos < bytes.len() && (forall|i: int|
            pos + 2 <= i < bytes.len() ==> #[trigger] bytes[i] != 0x3e) ==> !close_tags_from(
            bytes,
            pos,
        ),
{
    lemma_byte_from(bytes, GT, pos + 2);
    let tag = close_tag_bytes(name, blanks);
    let after = pos + tag.len();
    if occurs_at(bytes, tag, pos) && !name.contains(0x3eu8) && all_blank(blanks) && (after
        < bytes.len() ==> !all_blank(seq![bytes[after]])) {
        let gt = pos + 2 + name.len();
        let here = bytes.subrange(pos, after);
        assert(here == tag);
        assert forall|i: int| 0 <= i < tag.len() implies bytes[pos + i] == #[trigger] tag[i] by {
            assert(here[i] == bytes[pos + i]);
        }
        assert(bytes[pos + 0] == tag[0]);
        assert(bytes[pos + 1] == tag[1]);
        assert(bytes[pos + (2 + name.len())] == tag[2 + name.len() as int]);
        lemma_byte_from(bytes, GT, pos + 2);
        assert(byte_from(bytes, GT, pos + 2) == Some(gt)) by {
            if let Some(at) = byte_from(bytes, GT, pos + 2) {
                if at < gt {
                    assert(bytes[pos + (at - pos)] == tag[at - pos]);
                    assert(tag[at - pos] == name[at - pos - 2]);
                }
            }
        }
        assert(bytes.subrange(gt + 1, after) =~= blanks) by {
            assert forall|i: int| 0 <= i < blanks.len() implies bytes.subrange(gt + 1, after)[i]
                == blanks[i] by {
                assert(bytes[pos + (3 + name.len() + i)] == tag[3 + name.len() + i]);
            }
        }
        lemma_blanks_passed(bytes, gt + 1, after);
        lemma_past_blank(bytes, gt + 1);
    }
}

/// After an error, a row whose tag cannot be read ends the reading, and so does a row that is cut
/// off: neither counts. A row with an error in it counts with the fields that come before.
pub proof fn errors_after_an_error_are_passed_over(
    bytes: Seq<u8>,
    row_tag: Seq<u8>,
    start: int,
    raw: Seq<u8>,
    m: EngineView,
)
    requires
        row_start_at(bytes, row_tag, start),
        !in_spans(special_spans(bytes, 0), start),
        readable(document_events(bytes.skip(start))),
    ensures
        ({
            let events = document_events(bytes.skip(start));
            &&& events[0] is Failed ==> tail_rows(bytes, row_tag, start, m) == m
            &&& events[0] == (EventView::Start { name: row_tag, rest: raw }) ==> {
                let open = with_attrs_leniently(tag_attributes(row_tag, raw), m);
                let body = row_body_leniently(events.skip(1), row_tag, open);
                &&& body matches RowEnd::Eof { m: left } ==> tail_rows(bytes, row_tag, start, m)
                    == left
                &&& body matches RowEnd::Failed { m: left, .. } ==> tail_rows(
                    bytes,
                    row_tag,
                    start,
                    m,
                ) == tail_rows(bytes, row_tag, start + 1, left.finished())
            }
            &&& events[0] == (EventView::Empty { name: row_tag, rest: raw }) ==> tail_rows(
                bytes,
                row_tag,
                start,
                m,
            ) == tail_rows(
                bytes,
                row_tag,
                start + 1,
                with_attrs_leniently(tag_attributes(row_tag, raw), m).finished(),
            )
            &&& events[0] matches EventView::Start { name: other, .. } ==> other != row_tag
                ==> tail_rows(bytes, row_tag, start, m) == tail_rows(bytes, row_tag, start + 1, m)
        }),
{
    let events = document_events(bytes.skip(start));
    lemma_rest_events(events);
    rows_after_an_error_are_read_one_by_one(bytes, row_tag, start, start, m);
}

} // verus!
