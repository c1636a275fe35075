//! What the events of a row are read as: each element gives the field that it names, with the text
//! that it holds last.

use vstd::prelude::*;
use vstd::utf8::{encode_utf8, encode_utf8_decode_utf8, valid_utf8};

use crate::columnar::EngineView;
use crate::events::{
    is_text, readable, rest_events, tag_attributes, value_text, AttrView, EventView,
};
use crate::parse::{
    element_text, element_text_leniently, first_text, key_or, named_text, row_body,
    row_body_leniently, text_keys, text_values, RowEnd, TextEnd,
};
use crate::values::text_without_entities_is_read_back;
use crate::xml::scanner::{field_keys, field_values};

verus! {

/// A part of the body of an element.
pub enum Piece {
    /// An element that holds a value, with its text.
    Value { name: Seq<u8>, raw: Seq<u8>, content: Seq<u8> },
    /// An element that would hold a value, without one.
    Blank { name: Seq<u8>, raw: Seq<u8> },
    /// Something else.
    Aside { event: EventView },
}

/// The events of a part.
pub open spec fn piece_events(piece: Piece) -> Seq<EventView> {
    match piece {
        Piece::Value { name, raw, content } => seq![
            EventView::Start { name, rest: raw },
            EventView::Text { content },
            EventView::End { name },
        ],
        Piece::Blank { name, raw } => seq![
            EventView::Start { name, rest: raw },
            EventView::End { name },
        ],
        Piece::Aside { event } => seq![event],
    }
}

/// The events of the parts, one after the other.
pub open spec fn pieces_events(pieces: Seq<Piece>) -> Seq<EventView>
    decreases pieces.len(),
{
    if pieces.len() == 0 {
        Seq::empty()
    } else {
        piece_events(pieces[0]) + pieces_events(pieces.drop_first())
    }
}

/// The part may stand in an element named `close` whose text is held by elements named by `values`:
/// its texts can be read, and it does not end the element.
pub open spec fn fits(piece: Piece, close: Seq<u8>, values: Seq<Seq<u8>>) -> bool {
    match piece {
        Piece::Value { name, raw, content } => values.contains(name) && name != close && valid_utf8(
            name + raw,
        ) && value_text(content) is Ok,
        Piece::Blank { name, raw } => values.contains(name) && name != close && valid_utf8(
            name + raw,
        ),
        Piece::Aside { event } => is_text(event) && match event {
            EventView::Start { name, .. } => !values.contains(name),
            EventView::Empty { name, .. } => !values.contains(name),
            EventView::End { name } => name != close,
            EventView::Text { .. } => true,
            EventView::Other => true,
            EventView::Failed { .. } => false,
            EventView::Eof => false,
        },
    }
}

/// The text of the last part that has one, or `found` where none has.
pub open spec fn last_text(pieces: Seq<Piece>, found: Seq<char>) -> Seq<char>
    decreases pieces.len(),
{
    if pieces.len() == 0 {
        found
    } else {
        match pieces.last() {
            Piece::Value { content, .. } => value_text(content)->Ok_0,
            _ => last_text(pieces.drop_last(), found),
        }
    }
}

/// One more event before readable ones leaves them readable.
pub proof fn lemma_one_before(event: EventView, rest: Seq<EventView>)
    requires
        readable(rest),
        is_text(event),
        !(event is Eof),
    ensures
        readable(seq![event] + rest),
        (seq![event] + rest)[0] == event,
        rest_events(seq![event] + rest) == rest,
{
    let all = seq![event] + rest;
    assert(all.last() == rest.last());
    assert forall|i: int| 0 <= i < all.len() - 1 implies !(#[trigger] all[i] is Eof) by {
        if i > 0 {
            assert(all[i] == rest[i - 1]);
        }
    }
    assert forall|i: int| 0 <= i < all.len() implies is_text(#[trigger] all[i]) by {
        if i > 0 {
            assert(all[i] == rest[i - 1]);
        }
    }
    assert(all.skip(1) =~= rest);
}

/// An event that neither holds a value nor ends the element is passed over.
proof fn lemma_aside(
    event: EventView,
    close: Seq<u8>,
    values: Seq<Seq<u8>>,
    found: Seq<char>,
    later: Seq<EventView>,
)
    requires
        readable(later),
        fits(Piece::Aside { event }, close, values),
    ensures
        readable(seq![event] + later),
        element_text(seq![event] + later, close, values, found) == element_text(
            later,
            close,
            values,
            found,
        ),
        element_text_leniently(seq![event] + later, close, values, found)
            == element_text_leniently(later, close, values, found),
{
    lemma_one_before(event, later);
}

/// The start of an element that holds a value, with the event after it.
proof fn lemma_value_start(
    name: Seq<u8>,
    raw: Seq<u8>,
    event: EventView,
    close: Seq<u8>,
    values: Seq<Seq<u8>>,
    found: Seq<char>,
    later: Seq<EventView>,
)
    requires
        readable(later),
        values.contains(name),
        valid_utf8(name + raw),
        event is Text || event is End,
    ensures
        ({
            let start = EventView::Start { name, rest: raw };
            let events = seq![start] + (seq![event] + later);
            &&& readable(events)
            &&& match event {
                EventView::Text { content } => match value_text(content) {
                    Ok(t) => element_text(events, close, values, found) == element_text(
                        later,
                        close,
                        values,
                        t,
                    ) && element_text_leniently(events, close, values, found)
                        == element_text_leniently(later, close, values, t),
                    Err(message) => element_text(events, close, values, found) == (
                    TextEnd::Failed { message }) && element_text_leniently(
                        events,
                        close,
                        values,
                        found,
                    ) == element_text_leniently(later, close, values, found),
                },
                _ => element_text(events, close, values, found) == element_text(
                    later,
                    close,
                    values,
                    found,
                ) && element_text_leniently(events, close, values, found)
                    == element_text_leniently(later, close, values, found),
            }
        }),
{
    lemma_one_before(event, later);
    lemma_one_before(EventView::Start { name, rest: raw }, seq![event] + later);
}

/// A part of an element leaves its text, or replaces the text before it.
proof fn lemma_piece(
    piece: Piece,
    close: Seq<u8>,
    values: Seq<Seq<u8>>,
    found: Seq<char>,
    later: Seq<EventView>,
)
    requires
        readable(later),
        fits(piece, close, values),
    ensures
        ({
            let events = piece_events(piece) + later;
            let next = match piece {
                Piece::Value { content, .. } => value_text(content)->Ok_0,
                _ => found,
            };
            &&& readable(events)
            &&& element_text(events, close, values, found) == element_text(
                later,
                close,
                values,
                next,
            )
            &&& element_text_leniently(events, close, values, found) == element_text_leniently(
                later,
                close,
                values,
                next,
            )
        }),
{
    let events = piece_events(piece) + later;
    match piece {
        Piece::Value { name, raw, content } => {
            let start = EventView::Start { name, rest: raw };
            let text = EventView::Text { content };
            let stop = EventView::End { name };
            let t = value_text(content)->Ok_0;
            lemma_aside(stop, close, values, t, later);
            lemma_value_start(name, raw, text, close, values, found, seq![stop] + later);
            assert(events =~= seq![start] + (seq![text] + (seq![stop] + later)));
        },
        Piece::Blank { name, raw } => {
            let start = EventView::Start { name, rest: raw };
            let stop = EventView::End { name };
            lemma_value_start(name, raw, stop, close, values, found, later);
            assert(events =~= seq![start] + (seq![stop] + later));
        },
        Piece::Aside { event } => {
            lemma_aside(event, close, values, found, later);
        },
    }
}

/// The first part comes first, and the text of the last one counts.
proof fn lemma_last_text_front(pieces: Seq<Piece>, found: Seq<char>)
    requires
        pieces.len() > 0,
    ensures
        last_text(pieces, found) == last_text(
            pieces.drop_first(),
            match pieces[0] {
                Piece::Value { content, .. } => value_text(content)->Ok_0,
                _ => found,
            },
        ),
    decreases pieces.len(),
{
    reveal_with_fuel(last_text, 2);
    if pieces.len() > 1 {
        assert(pieces.drop_last()[0] == pieces[0]);
        assert(pieces.drop_last().drop_first() =~= pieces.drop_first().drop_last());
        assert(pieces.drop_first().last() == pieces.last());
        lemma_last_text_front(pieces.drop_last(), found);
    } else {
        assert(pieces.drop_first().len() == 0);
        assert(pieces.drop_last().len() == 0);
    }
}

/// The events of an element: those of its parts, and its close tag; `rest` comes after it.
pub open spec fn element_events(pieces: Seq<Piece>, close: Seq<u8>, rest: Seq<EventView>) -> Seq<
    EventView,
> {
    pieces_events(pieces) + (seq![EventView::End { name: close }] + rest)
}

/// The body of an element ends with its close tag, and its text is the one that it holds last,
/// whether errors are passed over or not.
pub proof fn last_text_is_read(
    pieces: Seq<Piece>,
    close: Seq<u8>,
    values: Seq<Seq<u8>>,
    found: Seq<char>,
    rest: Seq<EventView>,
)
    requires
        readable(rest),
        forall|i: int| 0 <= i < pieces.len() ==> fits(#[trigger] pieces[i], close, values),
    ensures
        readable(element_events(pieces, close, rest)),
        element_text(element_events(pieces, close, rest), close, values, found)
            == (TextEnd::Closed { text: last_text(pieces, found), rest }),
        element_text_leniently(element_events(pieces, close, rest), close, values, found)
            == (TextEnd::Closed { text: last_text(pieces, found), rest }),
    decreases pieces.len(),
{
    let events = element_events(pieces, close, rest);
    let end = seq![EventView::End { name: close }] + rest;
    lemma_one_before(EventView::End { name: close }, rest);
    if pieces.len() == 0 {
        assert(events =~= end);
    } else {
        let tail = pieces.drop_first();
        let later = element_events(tail, close, rest);
        let next = match pieces[0] {
            Piece::Value { content, .. } => value_text(content)->Ok_0,
            _ => found,
        };
        assert forall|i: int| 0 <= i < tail.len() implies fits(#[trigger] tail[i], close, values) by {
            assert(tail[i] == pieces[i + 1]);
        }
        assert(fits(pieces[0], close, values));
        lemma_last_text_front(pieces, found);
        last_text_is_read(tail, close, values, next, rest);
        assert(events =~= piece_events(pieces[0]) + later);
        lemma_piece(pieces[0], close, values, found, later);
    }
}

/// Of the texts in an element the last one counts: it replaces those before it, and nothing that
/// comes after it but holds no text replaces it.
pub proof fn later_text_replaces_earlier(
    before: Seq<Piece>,
    name: Seq<u8>,
    raw: Seq<u8>,
    content: Seq<u8>,
    after: Seq<Piece>,
    close: Seq<u8>,
    values: Seq<Seq<u8>>,
    found: Seq<char>,
    t: Seq<char>,
    rest: Seq<EventView>,
)
    requires
        readable(rest),
        forall|i: int| 0 <= i < before.len() ==> fits(#[trigger] before[i], close, values),
        fits(Piece::Value { name, raw, content }, close, values),
        value_text(content) == Ok::<Seq<char>, Seq<char>>(t),
        forall|i: int|
            0 <= i < after.len() ==> fits(#[trigger] after[i], close, values) && !(
            after[i] is Value),
    ensures
        ({
            let pieces = before.push(Piece::Value { name, raw, content }) + after;
            let events = element_events(pieces, close, rest);
            &&& element_text(events, close, values, found) == (TextEnd::Closed { text: t, rest })
            &&& element_text_leniently(events, close, values, found) == (TextEnd::Closed {
                text: t,
                rest,
            })
        }),
{
    let value = Piece::Value { name, raw, content };
    let pieces = before.push(value) + after;
    assert forall|i: int| 0 <= i < pieces.len() implies fits(#[trigger] pieces[i], close, values) by {
        if i < before.len() {
            assert(pieces[i] == before[i]);
        } else if i > before.len() {
            assert(pieces[i] == after[i - before.len() - 1]);
        }
    }
    last_text_is_read(pieces, close, values, found, rest);
    lemma_trailing_pieces(before.push(value), after, found);
    assert(before.push(value).last() == value);
}

/// Parts without a text leave the last text as it is.
proof fn lemma_trailing_pieces(pieces: Seq<Piece>, after: Seq<Piece>, found: Seq<char>)
    requires
        forall|i: int| 0 <= i < after.len() ==> !((#[trigger] after[i]) is Value),
    ensures
        last_text(pieces + after, found) == last_text(pieces, found),
    decreases after.len(),
{
    if after.len() == 0 {
        assert(pieces + after =~= pieces);
    } else {
        assert((pieces + after).drop_last() =~= pieces + after.drop_last());
        assert((pieces + after).last() == after[after.len() - 1]);
        lemma_trailing_pieces(pieces, after.drop_last(), found);
    }
}

/// A field with a formatted value and a plain one holds the plain one, which comes last, in every
/// row.
pub proof fn value_after_formatted_value_counts(
    formatted: Seq<char>,
    plain: Seq<char>,
    rest: Seq<EventView>,
)
    requires
        readable(rest),
        forall|i: int| 0 <= i < encode_utf8(formatted).len() ==> encode_utf8(formatted)[i] != 0x26u8,
        forall|i: int| 0 <= i < encode_utf8(plain).len() ==> encode_utf8(plain)[i] != 0x26u8,
    ensures
        element_text(
            seq![
                EventView::Start { name: encode_utf8("FormattedValue"@), rest: Seq::empty() },
                EventView::Text { content: encode_utf8(formatted) },
                EventView::End { name: encode_utf8("FormattedValue"@) },
                EventView::Start { name: encode_utf8("Value"@), rest: Seq::empty() },
                EventView::Text { content: encode_utf8(plain) },
                EventView::End { name: encode_utf8("Value"@) },
                EventView::End { name: encode_utf8("Field"@) },
            ] + rest,
            encode_utf8("Field"@),
            field_values(),
            Seq::empty(),
        ) == (TextEnd::Closed { text: plain, rest }),
{
    let first = encode_utf8("FormattedValue"@);
    let last = encode_utf8("Value"@);
    let close = encode_utf8("Field"@);
    lemma_words();
    text_without_entities_is_read_back(formatted);
    text_without_entities_is_read_back(plain);
    assert(field_values()[0] == first && field_values()[1] == last);
    assert(first + Seq::<u8>::empty() =~= first);
    assert(last + Seq::<u8>::empty() =~= last);
    let a = Piece::Value { name: first, raw: Seq::empty(), content: encode_utf8(formatted) };
    let before = seq![a];
    let none = Seq::<Piece>::empty();
    later_text_replaces_earlier(
        before,
        last,
        Seq::empty(),
        encode_utf8(plain),
        none,
        close,
        field_values(),
        Seq::empty(),
        plain,
        rest,
    );
    let b = Piece::Value { name: last, raw: Seq::empty(), content: encode_utf8(plain) };
    let pieces = before.push(b) + none;
    assert(pieces.drop_first() =~= seq![b]);
    assert(seq![b].drop_first() =~= none);
    assert(pieces_events(none) =~= Seq::empty());
    assert(pieces_events(seq![b]) =~= piece_events(b));
    assert(pieces_events(pieces) =~= piece_events(a) + piece_events(b));
    assert(element_events(pieces, close, rest) =~= seq![
        EventView::Start { name: first, rest: Seq::empty() },
        EventView::Text { content: encode_utf8(formatted) },
        EventView::End { name: first },
        EventView::Start { name: last, rest: Seq::empty() },
        EventView::Text { content: encode_utf8(plain) },
        EventView::End { name: last },
        EventView::End { name: close },
    ] + rest);
}

/// The names of elements and attributes are apart, and they are text.
proof fn lemma_words()
    ensures
        encode_utf8("Field"@) != encode_utf8("Text"@),
        encode_utf8("Field"@) != encode_utf8("Section"@),
        encode_utf8("Text"@) != encode_utf8("Section"@),
        encode_utf8("FormattedValue"@) != encode_utf8("Field"@),
        encode_utf8("Value"@) != encode_utf8("Field"@),
        encode_utf8("FormattedValue"@) != encode_utf8("Value"@),
        encode_utf8("TextValue"@) != encode_utf8("Text"@),
        valid_utf8(encode_utf8("Field"@)),
        valid_utf8(encode_utf8("Text"@)),
        valid_utf8(encode_utf8("Section"@)),
        valid_utf8(encode_utf8("FormattedValue"@)),
        valid_utf8(encode_utf8("Value"@)),
        valid_utf8(encode_utf8("TextValue"@)),
{
    broadcast use vstd::utf8::encode_utf8_decode_utf8, vstd::utf8::encode_utf8_valid_utf8;

    reveal_strlit("Field");
    reveal_strlit("Text");
    reveal_strlit("Section");
    reveal_strlit("FormattedValue");
    reveal_strlit("Value");
    reveal_strlit("TextValue");
    assert("Field"@.len() == 5 && "Text"@.len() == 4 && "Section"@.len() == 7);
    assert("FormattedValue"@.len() == 14 && "TextValue"@.len() == 9 && "Value"@.len() == 5);
    assert("Value"@[0] != "Field"@[0]);
    assert(vstd::utf8::decode_utf8(encode_utf8("Field"@)) == "Field"@);
    assert(vstd::utf8::decode_utf8(encode_utf8("Text"@)) == "Text"@);
    assert(vstd::utf8::decode_utf8(encode_utf8("Section"@)) == "Section"@);
    assert(vstd::utf8::decode_utf8(encode_utf8("FormattedValue"@)) == "FormattedValue"@);
    assert(vstd::utf8::decode_utf8(encode_utf8("Value"@)) == "Value"@);
    assert(vstd::utf8::decode_utf8(encode_utf8("TextValue"@)) == "TextValue"@);
}

/// A value that cannot be read ends the element with its message; where errors are passed over, the
/// text before it stays.
pub proof fn unreadable_value_is_an_error(
    pieces: Seq<Piece>,
    name: Seq<u8>,
    raw: Seq<u8>,
    content: Seq<u8>,
    message: Seq<char>,
    close: Seq<u8>,
    values: Seq<Seq<u8>>,
    found: Seq<char>,
    rest: Seq<EventView>,
)
    requires
        readable(rest),
        forall|i: int| 0 <= i < pieces.len() ==> fits(#[trigger] pieces[i], close, values),
        values.contains(name),
        valid_utf8(name + raw),
        value_text(content) == Err::<Seq<char>, Seq<char>>(message),
    ensures
        ({
            let broken = seq![
                EventView::Start { name, rest: raw },
                EventView::Text { content },
            ];
            let events = pieces_events(pieces) + (broken + rest);
            &&& readable(events)
            &&& element_text(events, close, values, found) == (TextEnd::Failed { message })
            &&& element_text_leniently(events, close, values, found) == element_text_leniently(
                rest,
                close,
                values,
                last_text(pieces, found),
            )
        }),
    decreases pieces.len(),
{
    let start = EventView::Start { name, rest: raw };
    let text = EventView::Text { content };
    let broken = seq![start, text];
    let events = pieces_events(pieces) + (broken + rest);
    lemma_value_start(name, raw, text, close, values, found, rest);
    assert(broken + rest =~= seq![start] + (seq![text] + rest));
    if pieces.len() == 0 {
        assert(events =~= broken + rest);
    } else {
        let tail = pieces.drop_first();
        let later = pieces_events(tail) + (broken + rest);
        let next = match pieces[0] {
            Piece::Value { content, .. } => value_text(content)->Ok_0,
            _ => found,
        };
        assert forall|i: int| 0 <= i < tail.len() implies fits(#[trigger] tail[i], close, values) by {
            assert(tail[i] == pieces[i + 1]);
        }
        assert(fits(pieces[0], close, values));
        lemma_last_text_front(pieces, found);
        unreadable_value_is_an_error(
            tail,
            name,
            raw,
            content,
            message,
            close,
            values,
            next,
            rest,
        );
        assert(events =~= piece_events(pieces[0]) + later);
        lemma_piece(pieces[0], close, values, found, later);
    }
}

/// The attribute is named by one of `keys`, and its value reads as `text`.
pub open spec fn named_by(attr: AttrView, keys: Seq<Seq<u8>>, text: Seq<char>) -> bool {
    attr matches AttrView::Pair { key, value } && keys.contains(key) && value_text(value) == Ok::<
        Seq<char>,
        Seq<char>,
    >(text)
}

/// The attribute has another name, or its value cannot be read.
pub open spec fn names_nothing(attr: AttrView, keys: Seq<Seq<u8>>) -> bool {
    attr matches AttrView::Pair { key, value } ==> !keys.contains(key) || value_text(value) is Err
}

/// The attributes give the name `text`: the first one that is named by one of `keys` and can be
/// read does, or it is `default` where there is none.
pub open spec fn key_is(
    attrs: Seq<AttrView>,
    keys: Seq<Seq<u8>>,
    default: Seq<char>,
    text: Seq<char>,
) -> bool {
    ||| exists|i: int|
        {
            &&& 0 <= i < attrs.len()
            &&& named_by(#[trigger] attrs[i], keys, text)
            &&& forall|j: int| 0 <= j < i ==> names_nothing(#[trigger] attrs[j], keys)
        }
    ||| text == default && forall|j: int|
        0 <= j < attrs.len() ==> names_nothing(#[trigger] attrs[j], keys)
}

/// The first attribute that names something is found.
proof fn lemma_named_at(attrs: Seq<AttrView>, keys: Seq<Seq<u8>>, i: int, text: Seq<char>)
    requires
        0 <= i < attrs.len(),
        named_by(attrs[i], keys, text),
        forall|j: int| 0 <= j < i ==> names_nothing(#[trigger] attrs[j], keys),
    ensures
        named_text(attrs, keys) == Some(text),
    decreases attrs.len(),
{
    if i > 0 {
        let tail = attrs.drop_first();
        assert(names_nothing(attrs[0], keys));
        assert forall|j: int| 0 <= j < i - 1 implies names_nothing(#[trigger] tail[j], keys) by {
            assert(tail[j] == attrs[j + 1]);
        }
        assert(tail[i - 1] == attrs[i]);
        lemma_named_at(tail, keys, i - 1, text);
    }
}

/// No name is found where no attribute names something.
proof fn lemma_named_nowhere(attrs: Seq<AttrView>, keys: Seq<Seq<u8>>)
    requires
        forall|j: int| 0 <= j < attrs.len() ==> names_nothing(#[trigger] attrs[j], keys),
    ensures
        named_text(attrs, keys) is None,
    decreases attrs.len(),
{
    if attrs.len() > 0 {
        let tail = attrs.drop_first();
        assert(names_nothing(attrs[0], keys));
        assert forall|j: int| 0 <= j < tail.len() implies names_nothing(#[trigger] tail[j], keys) by {
            assert(tail[j] == attrs[j + 1]);
        }
        lemma_named_nowhere(tail, keys);
    }
}

/// The first attribute that names an element gives its key, however many follow.
pub proof fn first_name_counts(
    attrs: Seq<AttrView>,
    keys: Seq<Seq<u8>>,
    default: Seq<char>,
    text: Seq<char>,
)
    requires
        key_is(attrs, keys, default, text),
    ensures
        key_or(named_text(attrs, keys), default) == text,
{
    if exists|i: int|
        {
            &&& 0 <= i < attrs.len()
            &&& named_by(#[trigger] attrs[i], keys, text)
            &&& forall|j: int| 0 <= j < i ==> names_nothing(#[trigger] attrs[j], keys)
        } {
        let i = choose|i: int|
            {
                &&& 0 <= i < attrs.len()
                &&& named_by(#[trigger] attrs[i], keys, text)
                &&& forall|j: int| 0 <= j < i ==> names_nothing(#[trigger] attrs[j], keys)
            };
        lemma_named_at(attrs, keys, i, text);
    } else {
        lemma_named_nowhere(attrs, keys);
    }
}

/// The attribute goes by the name `key`.
pub open spec fn goes_by(attr: AttrView, key: Seq<u8>) -> bool {
    attr matches AttrView::Pair { key: k, .. } && k == key
}

/// The number of a section is `text`: the value of its first `SectionNumber` attribute, and empty
/// where there is none or it cannot be read.
pub open spec fn section_is(attrs: Seq<AttrView>, text: Seq<char>) -> bool {
    let key = encode_utf8("SectionNumber"@);
    ||| exists|i: int|
        {
            &&& 0 <= i < attrs.len()
            &&& goes_by(#[trigger] attrs[i], key)
            &&& forall|j: int| 0 <= j < i ==> !goes_by(#[trigger] attrs[j], key)
            &&& attrs[i] matches AttrView::Pair { value, .. } && match value_text(value) {
                Ok(v) => text == v,
                Err(_) => text.len() == 0,
            }
        }
    ||| text.len() == 0 && forall|j: int|
        0 <= j < attrs.len() ==> !goes_by(#[trigger] attrs[j], key)
}

/// The first attribute of a key is found.
proof fn lemma_first_at(attrs: Seq<AttrView>, key: Seq<u8>, i: int)
    requires
        0 <= i < attrs.len(),
        goes_by(attrs[i], key),
        forall|j: int| 0 <= j < i ==> !goes_by(#[trigger] attrs[j], key),
    ensures
        attrs[i] matches AttrView::Pair { value, .. } && first_text(attrs, key) == (
        match value_text(value) {
            Ok(v) => v,
            Err(_) => Seq::empty(),
        }),
    decreases attrs.len(),
{
    if i > 0 {
        let tail = attrs.drop_first();
        assert(!goes_by(attrs[0], key));
        assert forall|j: int| 0 <= j < i - 1 implies !goes_by(#[trigger] tail[j], key) by {
            assert(tail[j] == attrs[j + 1]);
        }
        assert(tail[i - 1] == attrs[i]);
        lemma_first_at(tail, key, i - 1);
    }
}

/// Nothing is found where no attribute has the key.
proof fn lemma_first_nowhere(attrs: Seq<AttrView>, key: Seq<u8>)
    requires
        forall|j: int| 0 <= j < attrs.len() ==> !goes_by(#[trigger] attrs[j], key),
    ensures
        first_text(attrs, key) == Seq::<char>::empty(),
    decreases attrs.len(),
{
    if attrs.len() > 0 {
        let tail = attrs.drop_first();
        assert(!goes_by(attrs[0], key));
        assert forall|j: int| 0 <= j < tail.len() implies !goes_by(#[trigger] tail[j], key) by {
            assert(tail[j] == attrs[j + 1]);
        }
        lemma_first_nowhere(tail, key);
    }
}

/// The first `SectionNumber` of a section is its number.
pub proof fn first_section_number_counts(attrs: Seq<AttrView>, text: Seq<char>)
    requires
        section_is(attrs, text),
    ensures
        first_text(attrs, encode_utf8("SectionNumber"@)) == text,
{
    let key = encode_utf8("SectionNumber"@);
    if exists|i: int|
        {
            &&& 0 <= i < attrs.len()
            &&& goes_by(#[trigger] attrs[i], key)
            &&& forall|j: int| 0 <= j < i ==> !goes_by(#[trigger] attrs[j], key)
            &&& attrs[i] matches AttrView::Pair { value, .. } && match value_text(value) {
                Ok(v) => text == v,
                Err(_) => text.len() == 0,
            }
        } {
        let i = choose|i: int|
            {
                &&& 0 <= i < attrs.len()
                &&& goes_by(#[trigger] attrs[i], key)
                &&& forall|j: int| 0 <= j < i ==> !goes_by(#[trigger] attrs[j], key)
                &&& attrs[i] matches AttrView::Pair { value, .. } && match value_text(value) {
                    Ok(v) => text == v,
                    Err(_) => text.len() == 0,
                }
            };
        lemma_first_at(attrs, key, i);
    } else {
        lemma_first_nowhere(attrs, key);
    }
    assert(text =~= first_text(attrs, key));
}

/// A part of the body of a row.
pub enum Child {
    /// A `<Field>` element with its body.
    Field { raw: Seq<u8>, pieces: Seq<Piece> },
    /// A self-closing `<Field>`.
    EmptyField { raw: Seq<u8> },
    /// A `<Text>` element with its body.
    Words { raw: Seq<u8>, pieces: Seq<Piece> },
    /// A self-closing `<Text>`.
    EmptyWords { raw: Seq<u8> },
    /// The tag of a `<Section>`.
    Section { raw: Seq<u8>, empty: bool },
    /// Another tag.
    Tag { name: Seq<char>, raw: Seq<u8>, empty: bool },
    /// Something between the tags.
    Aside { event: EventView },
}

/// The tag with this name.
pub open spec fn tag_event(name: Seq<u8>, raw: Seq<u8>, empty: bool) -> EventView {
    if empty {
        EventView::Empty { name, rest: raw }
    } else {
        EventView::Start { name, rest: raw }
    }
}

/// The events of a part of a row; `later` comes after it.
pub open spec fn child_events(child: Child, later: Seq<EventView>) -> Seq<EventView> {
    match child {
        Child::Field { raw, pieces } => seq![tag_event(encode_utf8("Field"@), raw, false)]
            + element_events(pieces, encode_utf8("Field"@), later),
        Child::EmptyField { raw } => seq![tag_event(encode_utf8("Field"@), raw, true)] + later,
        Child::Words { raw, pieces } => seq![tag_event(encode_utf8("Text"@), raw, false)]
            + element_events(pieces, encode_utf8("Text"@), later),
        Child::EmptyWords { raw } => seq![tag_event(encode_utf8("Text"@), raw, true)] + later,
        Child::Section { raw, empty } => seq![tag_event(encode_utf8("Section"@), raw, empty)]
            + later,
        Child::Tag { name, raw, empty } => seq![tag_event(encode_utf8(name), raw, empty)] + later,
        Child::Aside { event } => seq![event] + later,
    }
}

/// The part may stand in a row named `row_tag`: its texts can be read, and it does not end the row.
pub open spec fn stands_in_row(child: Child, row_tag: Seq<u8>) -> bool {
    match child {
        Child::Field { raw, pieces } => valid_utf8(encode_utf8("Field"@) + raw) && forall|i: int|
            0 <= i < pieces.len() ==> fits(
                #[trigger] pieces[i],
                encode_utf8("Field"@),
                seq![encode_utf8("FormattedValue"@), encode_utf8("Value"@)],
            ),
        Child::EmptyField { raw } => valid_utf8(encode_utf8("Field"@) + raw),
        Child::Words { raw, pieces } => valid_utf8(encode_utf8("Text"@) + raw) && forall|i: int|
            0 <= i < pieces.len() ==> fits(
                #[trigger] pieces[i],
                encode_utf8("Text"@),
                seq![encode_utf8("TextValue"@)],
            ),
        Child::EmptyWords { raw } => valid_utf8(encode_utf8("Text"@) + raw),
        Child::Section { raw, .. } => valid_utf8(encode_utf8("Section"@) + raw),
        Child::Tag { name, raw, .. } => valid_utf8(encode_utf8(name) + raw) && name != "Field"@
            && name != "Text"@ && name != "Section"@,
        Child::Aside { event } => match event {
            EventView::End { name } => name != row_tag,
            EventView::Text { .. } => true,
            EventView::Other => true,
            _ => false,
        },
    }
}

/// The part gives this field: a field or text that of its name with the text that it holds last, a
/// section its number, and another tag an empty field of its name. Where errors are passed over, a
/// text without content gives none.
pub open spec fn gives(
    child: Child,
    leniently: bool,
    field: Option<(Seq<char>, Seq<char>)>,
) -> bool {
    let none = Seq::<char>::empty();
    match child {
        Child::Field { raw, pieces } => field matches Some(f) && key_is(
            tag_attributes(encode_utf8("Field"@), raw),
            seq![encode_utf8("FieldName"@), encode_utf8("Name"@)],
            "Field"@,
            f.0,
        ) && f.1 == last_text(pieces, none),
        Child::EmptyField { raw } => field matches Some(f) && key_is(
            tag_attributes(encode_utf8("Field"@), raw),
            seq![encode_utf8("FieldName"@), encode_utf8("Name"@)],
            "Field"@,
            f.0,
        ) && f.1 == none,
        Child::Words { raw, pieces } => if leniently && last_text(pieces, none).len() == 0 {
            field is None
        } else {
            field matches Some(f) && key_is(
                tag_attributes(encode_utf8("Text"@), raw),
                seq![encode_utf8("Name"@)],
                "Text"@,
                f.0,
            ) && f.1 == last_text(pieces, none)
        },
        Child::EmptyWords { raw } => if leniently {
            field is None
        } else {
            field matches Some(f) && key_is(
                tag_attributes(encode_utf8("Text"@), raw),
                seq![encode_utf8("Name"@)],
                "Text"@,
                f.0,
            ) && f.1 == none
        },
        Child::Section { raw, .. } => field matches Some(f) && f.0 == "Section"@ && section_is(
            tag_attributes(encode_utf8("Section"@), raw),
            f.1,
        ),
        Child::Tag { name, .. } => field == Some((name, none)),
        Child::Aside { .. } => field is None,
    }
}

/// The table after the fields arrive.
pub open spec fn with_fields(
    m: EngineView,
    fields: Seq<Option<(Seq<char>, Seq<char>)>>,
) -> EngineView
    decreases fields.len(),
{
    if fields.len() == 0 {
        m
    } else {
        with_fields(
            match fields[0] {
                Some(f) => m.put(f.0, Some(f.1)),
                None => m,
            },
            fields.drop_first(),
        )
    }
}

/// The table after one field arrives, or none.
pub open spec fn with_one(m: EngineView, field: Option<(Seq<char>, Seq<char>)>) -> EngineView {
    match field {
        Some(f) => m.put(f.0, Some(f.1)),
        None => m,
    }
}

/// The tag of a part of a row opens it.
#[verifier::rlimit(30)]
proof fn lemma_child(
    child: Child,
    row_tag: Seq<u8>,
    leniently: bool,
    field: Option<(Seq<char>, Seq<char>)>,
    later: Seq<EventView>,
    m: EngineView,
)
    requires
        readable(later),
        stands_in_row(child, row_tag),
        gives(child, leniently, field),
    ensures
        readable(child_events(child, later)),
        !leniently ==> row_body(child_events(child, later), row_tag, m) == row_body(
            later,
            row_tag,
            with_one(m, field),
        ),
        leniently ==> row_body_leniently(child_events(child, later), row_tag, m)
            == row_body_leniently(later, row_tag, with_one(m, field)),
{
    let none = Seq::<char>::empty();
    let f = field->0;
    lemma_words();
    assert(field_values() =~= seq![encode_utf8("FormattedValue"@), encode_utf8("Value"@)]);
    assert(field_keys() =~= seq![encode_utf8("FieldName"@), encode_utf8("Name"@)]);
    assert(text_values() =~= seq![encode_utf8("TextValue"@)]);
    assert(text_keys() =~= seq![encode_utf8("Name"@)]);
    match child {
        Child::Field { raw, pieces } => {
            let name = encode_utf8("Field"@);
            first_name_counts(tag_attributes(name, raw), field_keys(), "Field"@, f.0);
            last_text_is_read(pieces, name, field_values(), none, later);
            lemma_one_before(tag_event(name, raw, false), element_events(pieces, name, later));
        },
        Child::EmptyField { raw } => {
            let name = encode_utf8("Field"@);
            first_name_counts(tag_attributes(name, raw), field_keys(), "Field"@, f.0);
            lemma_one_before(tag_event(name, raw, true), later);
        },
        Child::Words { raw, pieces } => {
            let name = encode_utf8("Text"@);
            last_text_is_read(pieces, name, text_values(), none, later);
            lemma_one_before(tag_event(name, raw, false), element_events(pieces, name, later));
            if field is Some {
                first_name_counts(tag_attributes(name, raw), text_keys(), "Text"@, f.0);
            }
        },
        Child::EmptyWords { raw } => {
            let name = encode_utf8("Text"@);
            lemma_one_before(tag_event(name, raw, true), later);
            if field is Some {
                first_name_counts(tag_attributes(name, raw), text_keys(), "Text"@, f.0);
            }
        },
        Child::Section { raw, empty } => {
            let name = encode_utf8("Section"@);
            first_section_number_counts(tag_attributes(name, raw), f.1);
            lemma_one_before(tag_event(name, raw, empty), later);
        },
        Child::Tag { name, raw, empty } => {
            encode_utf8_decode_utf8(name);
            encode_utf8_decode_utf8("Field"@);
            encode_utf8_decode_utf8("Text"@);
            encode_utf8_decode_utf8("Section"@);
            vstd::utf8::encode_utf8_valid_utf8(name);
            lemma_one_before(tag_event(encode_utf8(name), raw, empty), later);
        },
        Child::Aside { event } => {
            lemma_one_before(event, later);
        },
    }
}

/// The events of the parts of a row, one after the other; `later` comes after them.
pub open spec fn children_events(children: Seq<Child>, later: Seq<EventView>) -> Seq<EventView>
    decreases children.len(),
{
    if children.len() == 0 {
        later
    } else {
        child_events(children[0], children_events(children.drop_first(), later))
    }
}

/// The parts of a row are read as the fields that they give, in their order, and then what comes
/// after them is read, whether errors are passed over or not.
pub proof fn parts_are_read_as_fields(
    children: Seq<Child>,
    row_tag: Seq<u8>,
    leniently: bool,
    fields: Seq<Option<(Seq<char>, Seq<char>)>>,
    later: Seq<EventView>,
    m: EngineView,
)
    requires
        readable(later),
        children.len() == fields.len(),
        forall|i: int| 0 <= i < children.len() ==> stands_in_row(#[trigger] children[i], row_tag),
        forall|i: int|
            0 <= i < children.len() ==> gives(#[trigger] children[i], leniently, fields[i]),
    ensures
        readable(children_events(children, later)),
        !leniently ==> row_body(children_events(children, later), row_tag, m) == row_body(
            later,
            row_tag,
            with_fields(m, fields),
        ),
        leniently ==> row_body_leniently(children_events(children, later), row_tag, m)
            == row_body_leniently(later, row_tag, with_fields(m, fields)),
    decreases children.len(),
{
    if children.len() > 0 {
        let tail = children.drop_first();
        let more = fields.drop_first();
        assert forall|i: int| 0 <= i < tail.len() implies stands_in_row(
            #[trigger] tail[i],
            row_tag,
        ) && gives(tail[i], leniently, more[i]) by {
            assert(tail[i] == children[i + 1]);
            assert(more[i] == fields[i + 1]);
        }
        let next = with_one(m, fields[0]);
        parts_are_read_as_fields(tail, row_tag, leniently, more, later, next);
        assert(stands_in_row(children[0], row_tag));
        assert(gives(children[0], leniently, fields[0]));
        lemma_child(
            children[0],
            row_tag,
            leniently,
            fields[0],
            children_events(tail, later),
            m,
        );
    }
}

/// The body of a row is read as the fields that its parts give, in their order, and ends with the
/// close tag of the row, whether errors are passed over or not.
pub proof fn row_is_read_as_its_fields(
    children: Seq<Child>,
    row_tag: Seq<u8>,
    leniently: bool,
    fields: Seq<Option<(Seq<char>, Seq<char>)>>,
    rest: Seq<EventView>,
    m: EngineView,
)
    requires
        readable(rest),
        children.len() == fields.len(),
        forall|i: int| 0 <= i < children.len() ==> stands_in_row(#[trigger] children[i], row_tag),
        forall|i: int|
            0 <= i < children.len() ==> gives(#[trigger] children[i], leniently, fields[i]),
    ensures
        ({
            let events = children_events(children, seq![EventView::End { name: row_tag }] + rest);
            let end = RowEnd::Closed { m: with_fields(m, fields), rest };
            &&& readable(events)
            &&& !leniently ==> row_body(events, row_tag, m) == end
            &&& leniently ==> row_body_leniently(events, row_tag, m) == end
        }),
{
    let close = seq![EventView::End { name: row_tag }] + rest;
    lemma_one_before(EventView::End { name: row_tag }, rest);
    parts_are_read_as_fields(children, row_tag, leniently, fields, close, m);
}

/// A row that the document or an error cuts off ends there: the fields of its parts have arrived.
pub proof fn row_that_is_cut_off_ends_there(
    children: Seq<Child>,
    row_tag: Seq<u8>,
    leniently: bool,
    fields: Seq<Option<(Seq<char>, Seq<char>)>>,
    message: Seq<char>,
    position: int,
    rest: Seq<EventView>,
    m: EngineView,
)
    requires
        readable(rest),
        children.len() == fields.len(),
        forall|i: int| 0 <= i < children.len() ==> stands_in_row(#[trigger] children[i], row_tag),
        forall|i: int|
            0 <= i < children.len() ==> gives(#[trigger] children[i], leniently, fields[i]),
    ensures
        ({
            let cut = children_events(children, seq![EventView::Eof]);
            let broken = children_events(
                children,
                seq![EventView::Failed { message, position }] + rest,
            );
            let full = with_fields(m, fields);
            &&& readable(cut) && readable(broken)
            &&& !leniently ==> row_body(cut, row_tag, m) == (RowEnd::Eof { m: full }) && row_body(
                broken,
                row_tag,
                m,
            ) == (RowEnd::Failed { m: full, message })
            &&& leniently ==> row_body_leniently(cut, row_tag, m) == (RowEnd::Eof { m: full })
                && row_body_leniently(broken, row_tag, m) == (RowEnd::Failed { m: full, message })
        }),
{
    let end = seq![EventView::Eof];
    assert(readable(end));
    lemma_one_before(EventView::Failed { message, position }, rest);
    parts_are_read_as_fields(children, row_tag, leniently, fields, end, m);
    parts_are_read_as_fields(
        children,
        row_tag,
        leniently,
        fields,
        seq![EventView::Failed { message, position }] + rest,
        m,
    );
}

/// A value element with a tag or a comment behind its tag, in place of text, has no value: both are
/// passed over, and the text that was found before stays.
pub proof fn value_without_text_is_passed_over(
    name: Seq<u8>,
    raw: Seq<u8>,
    next: EventView,
    later: Seq<EventView>,
    close: Seq<u8>,
    values: Seq<Seq<u8>>,
    found: Seq<char>,
)
    requires
        readable(later),
        valid_utf8(name + raw),
        values.contains(name),
        is_text(next),
        !(next is Text) && !(next is Failed) && !(next is Eof),
    ensures
        ({
            let events = seq![tag_event(name, raw, false)] + (seq![next] + later);
            &&& readable(events)
            &&& element_text(events, close, values, found) == element_text(
                later,
                close,
                values,
                found,
            )
            &&& element_text_leniently(events, close, values, found) == element_text_leniently(
                later,
                close,
                values,
                found,
            )
        }),
{
    lemma_one_before(next, later);
    lemma_one_before(tag_event(name, raw, false), seq![next] + later);
}

/// A self-closing value element has no value. Where errors are passed over, text right behind it
/// counts as its value if it can be read.
pub proof fn self_closing_value_is_passed_over(
    name: Seq<u8>,
    raw: Seq<u8>,
    content: Seq<u8>,
    later: Seq<EventView>,
    close: Seq<u8>,
    values: Seq<Seq<u8>>,
    found: Seq<char>,
)
    requires
        readable(later),
        valid_utf8(name + raw),
        values.contains(name),
    ensures
        ({
            let empty = seq![tag_event(name, raw, true)];
            let text = seq![EventView::Text { content }];
            &&& readable(empty + later)
            &&& element_text(empty + later, close, values, found) == element_text(
                later,
                close,
                values,
                found,
            )
            &&& readable(empty + (text + later))
            &&& element_text_leniently(empty + (text + later), close, values, found)
                == element_text_leniently(
                later,
                close,
                values,
                match value_text(content) {
                    Ok(t) => t,
                    Err(_) => found,
                },
            )
        }),
{
    lemma_one_before(tag_event(name, raw, true), later);
    lemma_one_before(EventView::Text { content }, later);
    lemma_one_before(tag_event(name, raw, true), seq![EventView::Text { content }] + later);
}

/// The parts of an element are read one after the other, whatever comes after them, and the text of
/// the last that has one is kept.
pub proof fn parts_of_an_element_are_read(
    pieces: Seq<Piece>,
    close: Seq<u8>,
    values: Seq<Seq<u8>>,
    found: Seq<char>,
    later: Seq<EventView>,
)
    requires
        readable(later),
        forall|i: int| 0 <= i < pieces.len() ==> fits(#[trigger] pieces[i], close, values),
    ensures
        readable(pieces_events(pieces) + later),
        element_text(pieces_events(pieces) + later, close, values, found) == element_text(
            later,
            close,
            values,
            last_text(pieces, found),
        ),
        element_text_leniently(pieces_events(pieces) + later, close, values, found)
            == element_text_leniently(later, close, values, last_text(pieces, found)),
    decreases pieces.len(),
{
    let events = pieces_events(pieces) + later;
    if pieces.len() == 0 {
        assert(events =~= later);
    } else {
        let tail = pieces.drop_first();
        let after = pieces_events(tail) + later;
        let next = match pieces[0] {
            Piece::Value { content, .. } => value_text(content)->Ok_0,
            _ => found,
        };
        assert forall|i: int| 0 <= i < tail.len() implies fits(#[trigger] tail[i], close, values) by {
            assert(tail[i] == pieces[i + 1]);
        }
        assert(fits(pieces[0], close, values));
        lemma_last_text_front(pieces, found);
        parts_of_an_element_are_read(tail, close, values, next, later);
        assert(events =~= piece_events(pieces[0]) + after);
        lemma_piece(pieces[0], close, values, found, after);
    }
}

/// An error in an element ends the reading of it, with the message of the error. Where errors are
/// passed over, the element is read on, and a value element with an error in place of its text has
/// no value.
pub proof fn error_in_an_element_counts(
    pieces: Seq<Piece>,
    close: Seq<u8>,
    values: Seq<Seq<u8>>,
    found: Seq<char>,
    message: Seq<char>,
    position: int,
    name: Seq<u8>,
    raw: Seq<u8>,
    rest: Seq<EventView>,
)
    requires
        readable(rest),
        forall|i: int| 0 <= i < pieces.len() ==> fits(#[trigger] pieces[i], close, values),
        values.contains(name),
        valid_utf8(name + raw),
    ensures
        ({
            let broken = seq![EventView::Failed { message, position }] + rest;
            let within = seq![tag_event(name, raw, false)] + broken;
            let kept = last_text(pieces, found);
            &&& element_text(pieces_events(pieces) + broken, close, values, found)
                == (TextEnd::Failed { message })
            &&& element_text(pieces_events(pieces) + within, close, values, found)
                == (TextEnd::Failed { message })
            &&& element_text_leniently(pieces_events(pieces) + broken, close, values, found)
                == element_text_leniently(rest, close, values, kept)
            &&& element_text_leniently(pieces_events(pieces) + within, close, values, found)
                == element_text_leniently(rest, close, values, kept)
        }),
{
    let failed = EventView::Failed { message, position };
    let broken = seq![failed] + rest;
    lemma_one_before(failed, rest);
    lemma_one_before(tag_event(name, raw, false), broken);
    parts_of_an_element_are_read(pieces, close, values, found, broken);
    parts_of_an_element_are_read(
        pieces,
        close,
        values,
        found,
        seq![tag_event(name, raw, false)] + broken,
    );
}

/// A field or text that is cut off gives no field: the row ends with what arrived before. One with
/// an error gives no field either, and its message is that of the row, unless errors are passed
/// over.
pub proof fn field_that_is_cut_off_does_not_count(
    words: bool,
    raw: Seq<u8>,
    pieces: Seq<Piece>,
    message: Seq<char>,
    position: int,
    rest: Seq<EventView>,
    row_tag: Seq<u8>,
    m: EngineView,
)
    requires
        readable(rest),
        valid_utf8(element_tag_name(words) + raw),
        forall|i: int|
            0 <= i < pieces.len() ==> fits(
                #[trigger] pieces[i],
                element_tag_name(words),
                element_value_names(words),
            ),
    ensures
        ({
            let open = seq![tag_event(element_tag_name(words), raw, false)];
            let cut = open + (pieces_events(pieces) + seq![EventView::Eof]);
            let failed = seq![EventView::Failed { message, position }] + rest;
            let broken = open + (pieces_events(pieces) + failed);
            &&& row_body(cut, row_tag, m) == (RowEnd::Eof { m })
            &&& row_body_leniently(cut, row_tag, m) == (RowEnd::Eof { m })
            &&& row_body(broken, row_tag, m) == (RowEnd::Failed { m, message })
        }),
{
    let none = Seq::<char>::empty();
    let name = element_tag_name(words);
    let values = element_value_names(words);
    let eof = seq![EventView::Eof];
    let failed = EventView::Failed { message, position };
    lemma_words();
    assert(readable(eof));
    lemma_one_before(failed, rest);
    assert(element_value_names(false) =~= field_values());
    assert(element_value_names(true) =~= text_values());
    parts_of_an_element_are_read(pieces, name, values, none, eof);
    parts_of_an_element_are_read(pieces, name, values, none, seq![failed] + rest);
    lemma_one_before(tag_event(name, raw, false), pieces_events(pieces) + eof);
    lemma_one_before(tag_event(name, raw, false), pieces_events(pieces) + (seq![failed] + rest));
}

/// The name of a `<Text>`, or of a `<Field>`.
pub open spec fn element_tag_name(words: bool) -> Seq<u8> {
    if words {
        encode_utf8("Text"@)
    } else {
        encode_utf8("Field"@)
    }
}

/// The names of the elements that hold the value of a `<Text>`, or of a `<Field>`.
pub open spec fn element_value_names(words: bool) -> Seq<Seq<u8>> {
    if words {
        seq![encode_utf8("TextValue"@)]
    } else {
        seq![encode_utf8("FormattedValue"@), encode_utf8("Value"@)]
    }
}

} // verus!
