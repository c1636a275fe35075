//! What the scanner makes of rows as they are written: each element gives the field that it names,
//! with the text that it holds last.

use vstd::prelude::*;
use vstd::utf8::encode_utf8;

use crate::bytes::{
    byte_from, first_where, lemma_byte_from, lemma_first_where, lemma_first_where_is, LT,
};
use crate::markup::{in_spans, lemma_next_row, next_row, row_start_at, row_starts};
use crate::text::decoded;
use crate::xml::boundaries::takes_all_rows;
use crate::xml::rows::{no_rows, rows_of};
use crate::xml::scanner::{
    child_flow, children_flow, element_body, field_flow, field_keys, field_values,
    lemma_child_advances, one_row_flow, row_flow, rows_flow, text_flow, with_attrs, ChildFlowView,
    FlowView,
};
use crate::xml::sink::{CollectorView, ColumnarSink, RowCollector};
use crate::xml::splitter::special_spans;
use crate::xml::tokens::{
    attr_step, attr_value, close_extent, close_prefix, close_starts, lemma_attr_step,
    lemma_close_extent, lemma_name_stop, lemma_open_tag_bounds, lemma_token_advances, name_stop,
    open_tag, text_after, token, OpenTagView, TokenView,
};
use crate::xml::written::{
    all_well_formed, all_white, attr_bytes, attribute_is_scanned, attrs_bytes, close_bytes,
    close_tag_is_found, close_tag_is_the_next_markup, first_attribute_is_found, good_tag,
    lemma_both_stand, lemma_close_hit, lemma_hit_is_close, lemma_other_close, names_element,
    no_markup, stands_at, tag_bytes, tag_is_scanned, tag_is_the_next_markup, well_formed, white,
    white_space_is_no_attribute, Attr, Tagged,
};

verus! {

/// A part of the body of an element, with text before it.
pub enum Slot {
    /// An element that holds a value: its tag, its text and its close tag.
    Value { lead: Seq<u8>, tag: Tagged, text: Seq<u8>, tail: Seq<u8> },
    /// A tag of another element, or of one without a body.
    Tag { lead: Seq<u8>, tag: Tagged },
    /// A close tag of another element.
    Close { lead: Seq<u8>, name: Seq<u8>, tail: Seq<u8> },
}

/// The bytes of a part.
pub open spec fn slot_bytes(slot: Slot) -> Seq<u8> {
    match slot {
        Slot::Value { lead, tag, text, tail } => (lead + tag_bytes(tag)) + (text + close_bytes(
            tag.name,
            tail,
        )),
        Slot::Tag { lead, tag } => lead + tag_bytes(tag),
        Slot::Close { lead, name, tail } => lead + close_bytes(name, tail),
    }
}

/// The bytes of parts, one after the other.
pub open spec fn slots_bytes(slots: Seq<Slot>) -> Seq<u8>
    decreases slots.len(),
{
    if slots.len() == 0 {
        Seq::empty()
    } else {
        slot_bytes(slots[0]) + slots_bytes(slots.drop_first())
    }
}

/// The part may stand in an element named `close` whose text is held by elements named by `values`.
pub open spec fn good_slot(slot: Slot, close: Seq<u8>, values: Seq<Seq<u8>>) -> bool {
    match slot {
        Slot::Value { lead, tag, text, tail } => no_markup(lead) && good_tag(tag) && !tag.closing
            && values.contains(tag.name) && tag.name != close && no_markup(text) && all_white(tail),
        Slot::Tag { lead, tag } => no_markup(lead) && good_tag(tag) && (tag.closing
            || !values.contains(tag.name)),
        Slot::Close { lead, name, tail } => no_markup(lead) && names_element(name) && name != close
            && all_white(tail),
    }
}

/// The text of the last part that has one that is not empty, or `found` where none has.
pub open spec fn last_value(slots: Seq<Slot>, found: Seq<char>) -> Seq<char>
    decreases slots.len(),
{
    if slots.len() == 0 {
        found
    } else {
        match slots.last() {
            Slot::Value { text, .. } => if text.len() > 0 {
                decoded(text)
            } else {
                last_value(slots.drop_last(), found)
            },
            _ => last_value(slots.drop_last(), found),
        }
    }
}

/// What a part makes of the text that was found before it.
pub open spec fn after_slot(slot: Slot, found: Seq<char>) -> Seq<char> {
    match slot {
        Slot::Value { text, .. } => if text.len() > 0 {
            decoded(text)
        } else {
            found
        },
        _ => found,
    }
}

/// The last value is the last behind the first part, which may have one.
proof fn lemma_last_value_front(slots: Seq<Slot>, found: Seq<char>)
    requires
        slots.len() > 0,
    ensures
        last_value(slots, found) == last_value(slots.drop_first(), after_slot(slots[0], found)),
    decreases slots.len(),
{
    reveal_with_fuel(last_value, 2);
    if slots.len() > 1 {
        assert(slots.drop_last()[0] == slots[0]);
        assert(slots.drop_last().drop_first() =~= slots.drop_first().drop_last());
        assert(slots.drop_first().last() == slots.last());
        lemma_last_value_front(slots.drop_last(), found);
    } else {
        assert(slots.drop_first().len() == 0);
        assert(slots.drop_last().len() == 0);
    }
}

/// No region lies between the two offsets.
pub open spec fn clear(regions: Seq<(int, int)>, from: int, to: int) -> bool {
    forall|p: int| from <= p < to ==> !#[trigger] in_spans(regions, p)
}

/// The body of a value element, without markup, replaces the text before it unless it is empty.
pub proof fn value_text_is_decoded(found: Seq<char>, raw: Seq<u8>)
    requires
        no_markup(raw),
    ensures
        text_after(found, raw) == (if raw.len() > 0 {
            decoded(raw)
        } else {
            found
        }),
{
    lemma_byte_from(raw, LT, 0);
    if raw.len() > 0 {
        assert(raw[0] != 0x3c);
    }
}

/// A part of an element is passed over, and its text replaces the one before.
#[verifier::rlimit(30)]
proof fn lemma_slot(
    bytes: Seq<u8>,
    slot: Slot,
    at: int,
    found: Seq<char>,
    close: Seq<u8>,
    values: Seq<Seq<u8>>,
    regions: Seq<(int, int)>,
)
    requires
        stands_at(bytes, slot_bytes(slot), at),
        good_slot(slot, close, values),
        names_element(close),
        clear(regions, at, at + slot_bytes(slot).len()),
    ensures
        element_body(bytes, at, found, close, values, regions) == element_body(
            bytes,
            at + slot_bytes(slot).len(),
            after_slot(slot, found),
            close,
            values,
            regions,
        ),
        forall|j: int|
            at <= j < at + slot_bytes(slot).len() ==> !#[trigger] close_starts(
                bytes,
                close_prefix(close),
                regions,
            )(j),
{
    let hit = close_starts(bytes, close_prefix(close), regions);
    lemma_token_advances(bytes, at, regions);
    match slot {
        Slot::Value { lead, tag, text, tail } => {
            let head = lead + tag_bytes(tag);
            let rest = text + close_bytes(tag.name, tail);
            let from = at + head.len();
            lemma_both_stand(bytes, head, rest, at);
            lemma_both_stand(bytes, lead, tag_bytes(tag), at);
            lemma_both_stand(bytes, text, close_bytes(tag.name, tail), from);
            assert(!in_spans(regions, at + lead.len()));
            assert(close_bytes(tag.name, tail).len() > 0);
            assert(!in_spans(regions, from + text.len()));
            tag_is_the_next_markup(bytes, lead, tag, at, regions);
            tag_is_scanned(bytes, tag, at + lead.len());
            close_tag_is_found(bytes, text, tag.name, tail, from, regions);
            value_text_is_decoded(found, text);
            lemma_close_extent(
                bytes,
                close_prefix(tag.name),
                regions,
                from,
            );
            lemma_other_close(bytes, tag.name, tail, close, from + text.len(), regions);
            assert forall|j: int| at <= j < at + slot_bytes(slot).len() implies !#[trigger] hit(
                j,
            ) by {
                lemma_hit_is_close(bytes, close_prefix(close), regions, j);
                if j < at + lead.len() {
                    assert(bytes[at + (j - at)] == lead[j - at]);
                } else if j < from {
                    if j == at + lead.len() {
                        assert(bytes[j + 1] == tag.name[0]);
                    }
                } else if j < from + text.len() {
                    assert(bytes[from + (j - from)] == text[j - from]);
                }
            }
        },
        Slot::Tag { lead, tag } => {
            lemma_both_stand(bytes, lead, tag_bytes(tag), at);
            assert(tag_bytes(tag).len() > 0);
            assert(!in_spans(regions, at + lead.len()));
            tag_is_the_next_markup(bytes, lead, tag, at, regions);
            tag_is_scanned(bytes, tag, at + lead.len());
            assert forall|j: int| at <= j < at + slot_bytes(slot).len() implies !#[trigger] hit(
                j,
            ) by {
                lemma_hit_is_close(bytes, close_prefix(close), regions, j);
                if j < at + lead.len() {
                    assert(bytes[at + (j - at)] == lead[j - at]);
                } else if j == at + lead.len() {
                    assert(bytes[j + 1] == tag.name[0]);
                }
            }
        },
        Slot::Close { lead, name, tail } => {
            lemma_both_stand(bytes, lead, close_bytes(name, tail), at);
            assert(close_bytes(name, tail).len() > 0);
            assert(!in_spans(regions, at + lead.len()));
            close_tag_is_the_next_markup(bytes, lead, name, tail, at, regions);
            lemma_other_close(bytes, name, tail, close, at + lead.len(), regions);
            assert forall|j: int| at <= j < at + slot_bytes(slot).len() implies !#[trigger] hit(
                j,
            ) by {
                lemma_hit_is_close(bytes, close_prefix(close), regions, j);
                if j < at + lead.len() {
                    assert(bytes[at + (j - at)] == lead[j - at]);
                }
            }
        },
    }
}

/// The bytes of the body of an element, and of its close tag with text before it.
pub open spec fn body_bytes(
    slots: Seq<Slot>,
    lead: Seq<u8>,
    close: Seq<u8>,
    tail: Seq<u8>,
) -> Seq<u8> {
    slots_bytes(slots) + (lead + close_bytes(close, tail))
}

/// The body of an element is scanned as the text that it holds last, up to its close tag; and that
/// close tag is the first one of its name.
pub proof fn body_is_scanned_as_its_last_text(
    bytes: Seq<u8>,
    slots: Seq<Slot>,
    lead: Seq<u8>,
    close: Seq<u8>,
    tail: Seq<u8>,
    at: int,
    found: Seq<char>,
    values: Seq<Seq<u8>>,
    regions: Seq<(int, int)>,
)
    requires
        stands_at(bytes, body_bytes(slots, lead, close, tail), at),
        forall|i: int| 0 <= i < slots.len() ==> good_slot(#[trigger] slots[i], close, values),
        no_markup(lead),
        names_element(close),
        all_white(tail),
        clear(regions, at, at + body_bytes(slots, lead, close, tail).len()),
    ensures
        element_body(bytes, at, found, close, values, regions) == Some(
            (last_value(slots, found), at + body_bytes(slots, lead, close, tail).len()),
        ),
        close_extent(bytes, close_prefix(close), regions, at) == Some(
            (
                at + slots_bytes(slots).len() + lead.len(),
                at + body_bytes(slots, lead, close, tail).len(),
            ),
        ),
    decreases slots.len(),
{
    let end = lead + close_bytes(close, tail);
    let hit = close_starts(bytes, close_prefix(close), regions);
    assert(close_bytes(close, tail).len() > 0);
    lemma_token_advances(bytes, at, regions);
    if slots.len() == 0 {
        assert(body_bytes(slots, lead, close, tail) =~= end);
        assert(!in_spans(regions, at + lead.len()));
        close_tag_is_the_next_markup(bytes, lead, close, tail, at, regions);
        close_tag_is_found(bytes, lead, close, tail, at, regions);
    } else {
        let rest = slots.drop_first();
        let one = slot_bytes(slots[0]);
        let more = body_bytes(rest, lead, close, tail);
        assert(body_bytes(slots, lead, close, tail) =~= one + more);
        lemma_both_stand(bytes, one, more, at);
        assert forall|i: int| 0 <= i < rest.len() implies good_slot(
            #[trigger] rest[i],
            close,
            values,
        ) by {
            assert(rest[i] == slots[i + 1]);
        }
        assert(good_slot(slots[0], close, values));
        lemma_slot(bytes, slots[0], at, found, close, values, regions);
        lemma_last_value_front(slots, found);
        let next = at + one.len();
        body_is_scanned_as_its_last_text(
            bytes,
            rest,
            lead,
            close,
            tail,
            next,
            after_slot(slots[0], found),
            values,
            regions,
        );
        let place = next + slots_bytes(rest).len() + lead.len();
        lemma_both_stand(bytes, slots_bytes(rest), end, next);
        lemma_both_stand(bytes, lead, close_bytes(close, tail), next + slots_bytes(rest).len());
        assert(!in_spans(regions, place));
        lemma_close_hit(bytes, close, tail, place, regions);
        lemma_first_where(next, bytes.len() as int, hit);
        assert(first_where(next, bytes.len() as int, hit) == Some(place));
        assert forall|j: int| at <= j < place implies !#[trigger] hit(j) by {}
        lemma_first_where_is(at, bytes.len() as int, hit, Some(place));
    }
}

/// The attributes give the name `text`: the first one with one of the keys does, or it is `default`
/// where there is none.
pub open spec fn key_written(
    attrs: Seq<Attr>,
    keys: Seq<Seq<u8>>,
    default: Seq<char>,
    text: Seq<char>,
) -> bool {
    ||| exists|i: int|
        {
            &&& 0 <= i < attrs.len()
            &&& keys.contains((#[trigger] attrs[i]).key)
            &&& forall|j: int| 0 <= j < i ==> !keys.contains((#[trigger] attrs[j]).key)
            &&& text == decoded(attrs[i].value)
        }
    ||| text == default && forall|j: int|
        0 <= j < attrs.len() ==> !keys.contains((#[trigger] attrs[j]).key)
}

/// The first attribute that names an element gives its key, however many follow.
pub proof fn first_key_counts(
    attrs: Seq<Attr>,
    trail: Seq<u8>,
    keys: Seq<Seq<u8>>,
    default: Seq<char>,
    text: Seq<char>,
)
    requires
        all_well_formed(attrs),
        all_white(trail),
        key_written(attrs, keys, default, text),
    ensures
        attr_value(attrs_bytes(attrs) + trail, keys) matches Ok(raw) && text == (match raw {
            Some(v) => decoded(v),
            None => default,
        }),
{
    if exists|i: int|
        {
            &&& 0 <= i < attrs.len()
            &&& keys.contains((#[trigger] attrs[i]).key)
            &&& forall|j: int| 0 <= j < i ==> !keys.contains((#[trigger] attrs[j]).key)
            &&& text == decoded(attrs[i].value)
        } {
        let i = choose|i: int|
            {
                &&& 0 <= i < attrs.len()
                &&& keys.contains((#[trigger] attrs[i]).key)
                &&& forall|j: int| 0 <= j < i ==> !keys.contains((#[trigger] attrs[j]).key)
                &&& text == decoded(attrs[i].value)
            };
        first_attribute_is_found(attrs, trail, keys, i);
    } else {
        first_attribute_is_found(attrs, trail, keys, attrs.len() as int);
    }
}

/// A part of the body of a row, with text before it.
pub enum Mark {
    /// A `<Field>` with its body; a `<Text>` where `words` says so.
    Element {
        lead: Seq<u8>,
        words: bool,
        attrs: Seq<Attr>,
        trail: Seq<u8>,
        slots: Seq<Slot>,
        gap: Seq<u8>,
        tail: Seq<u8>,
    },
    /// Another tag, or a self-closing one.
    Single { lead: Seq<u8>, tag: Tagged },
    /// A close tag of something else than the row.
    Close { lead: Seq<u8>, name: Seq<u8>, tail: Seq<u8> },
}

/// The name of a `<Field>` or of a `<Text>`.
pub open spec fn element_name(words: bool) -> Seq<u8> {
    if words {
        encode_utf8("Text"@)
    } else {
        encode_utf8("Field"@)
    }
}

/// The names of the elements that hold the value of a field or of a text.
pub open spec fn element_values(words: bool) -> Seq<Seq<u8>> {
    if words {
        seq![encode_utf8("TextValue"@)]
    } else {
        seq![encode_utf8("FormattedValue"@), encode_utf8("Value"@)]
    }
}

/// The names of the attributes that name a field or a text.
pub open spec fn element_keys(words: bool) -> Seq<Seq<u8>> {
    if words {
        seq![encode_utf8("Name"@)]
    } else {
        seq![encode_utf8("FieldName"@), encode_utf8("Name"@)]
    }
}

/// The name of a field or a text without one.
pub open spec fn element_default(words: bool) -> Seq<char> {
    if words {
        "Text"@
    } else {
        "Field"@
    }
}

/// The tag of a field or text.
pub open spec fn element_tag(words: bool, attrs: Seq<Attr>, trail: Seq<u8>) -> Tagged {
    Tagged { name: element_name(words), attrs, trail, closing: false }
}

/// The bytes of a part of a row.
pub open spec fn mark_bytes(mark: Mark) -> Seq<u8> {
    match mark {
        Mark::Element { lead, words, attrs, trail, slots, gap, tail } => (lead + tag_bytes(
            element_tag(words, attrs, trail),
        )) + body_bytes(slots, gap, element_name(words), tail),
        Mark::Single { lead, tag } => lead + tag_bytes(tag),
        Mark::Close { lead, name, tail } => lead + close_bytes(name, tail),
    }
}

/// The part may stand in a row named `row_tag`.
pub open spec fn good_mark(mark: Mark, row_tag: Seq<u8>) -> bool {
    match mark {
        Mark::Element { lead, words, attrs, trail, slots, gap, tail } => {
            &&& no_markup(lead) && no_markup(gap)
            &&& all_well_formed(attrs)
            &&& all_white(trail) && all_white(tail)
            &&& forall|i: int|
                0 <= i < slots.len() ==> good_slot(
                    #[trigger] slots[i],
                    element_name(words),
                    element_values(words),
                )
        },
        Mark::Single { lead, tag } => no_markup(lead) && good_tag(tag) && (tag.closing || (tag.name
            != element_name(true) && tag.name != element_name(false))),
        Mark::Close { lead, name, tail } => no_markup(lead) && names_element(name) && name
            != row_tag && all_white(tail),
    }
}

/// The part is a field or a text, which a sink may drop by its name.
pub open spec fn is_element(mark: Mark) -> bool {
    match mark {
        Mark::Element { .. } => true,
        Mark::Single { tag, .. } => tag.name == element_name(true) || tag.name == element_name(
            false,
        ),
        Mark::Close { .. } => false,
    }
}

/// The part gives this field: a field or text that of its name with the text that it holds last, a
/// section its number, and another tag an empty field of its name.
pub open spec fn mark_gives(mark: Mark, field: Option<(Seq<char>, Seq<char>)>) -> bool {
    let none = Seq::<char>::empty();
    match mark {
        Mark::Element { words, attrs, slots, .. } => field matches Some(f) && key_written(
            attrs,
            element_keys(words),
            element_default(words),
            f.0,
        ) && f.1 == last_value(slots, none),
        Mark::Single { tag, .. } => field matches Some(f) && (if tag.name == element_name(false) {
            key_written(tag.attrs, element_keys(false), "Field"@, f.0) && f.1 == none
        } else if tag.name == element_name(true) {
            key_written(tag.attrs, element_keys(true), "Text"@, f.0) && f.1 == none
        } else if tag.name == encode_utf8("Section"@) {
            f.0 == "Section"@ && key_written(
                tag.attrs,
                seq![encode_utf8("SectionNumber"@)],
                none,
                f.1,
            )
        } else {
            tag.name == encode_utf8(f.0) && f.1 == none
        }),
        Mark::Close { .. } => field is None,
    }
}

/// The sink after a part of a row gives its field. A field or text that the sink drops does not
/// come.
pub open spec fn delivered<S: ColumnarSink>(
    m: S::Model,
    mark: Mark,
    field: Option<(Seq<char>, Seq<char>)>,
    dropped: Set<Seq<char>>,
) -> S::Model {
    match field {
        Some(f) => if is_element(mark) && dropped.contains(f.0) {
            m
        } else {
            S::with_field(m, f.0, f.1)
        },
        None => m,
    }
}

/// The names of elements are apart, and may name elements.
proof fn lemma_element_names()
    ensures
        names_element(encode_utf8("Field"@)),
        names_element(encode_utf8("Text"@)),
        encode_utf8("Field"@) != encode_utf8("Text"@),
        encode_utf8("Field"@) != encode_utf8("Section"@),
        encode_utf8("Text"@) != encode_utf8("Section"@),
{
    broadcast use vstd::utf8::is_ascii_chars_encode_utf8, vstd::utf8::encode_utf8_decode_utf8;

    reveal_strlit("Field");
    reveal_strlit("Text");
    reveal_strlit("Section");
    assert(vstd::utf8::is_ascii_chars("Field"@));
    assert(vstd::utf8::is_ascii_chars("Text"@));
    assert("Field"@.len() == 5 && "Text"@.len() == 4 && "Section"@.len() == 7);
    assert(vstd::utf8::decode_utf8(encode_utf8("Field"@)) == "Field"@);
    assert(vstd::utf8::decode_utf8(encode_utf8("Text"@)) == "Text"@);
    assert(vstd::utf8::decode_utf8(encode_utf8("Section"@)) == "Section"@);
    let a = encode_utf8("Field"@);
    let b = encode_utf8("Text"@);
    assert(a[0] == "Field"@[0] as u8 && a[1] == "Field"@[1] as u8 && a[2] == "Field"@[2] as u8
        && a[3] == "Field"@[3] as u8 && a[4] == "Field"@[4] as u8);
    assert(b[0] == "Text"@[0] as u8 && b[1] == "Text"@[1] as u8 && b[2] == "Text"@[2] as u8 && b[3]
        == "Text"@[3] as u8);
    assert forall|i: int| 0 <= i < a.len() implies !white(#[trigger] a[i])
        && a[i] != 0x3e && a[i] != 0x2f && a[i] != 0x3c by {
        assert(i == 0 || i == 1 || i == 2 || i == 3 || i == 4);
    }
    assert forall|i: int| 0 <= i < b.len() implies !white(#[trigger] b[i])
        && b[i] != 0x3e && b[i] != 0x2f && b[i] != 0x3c by {
        assert(i == 0 || i == 1 || i == 2 || i == 3);
    }
}

/// A part of a row is scanned as the field that it gives, and the row goes on after it.
#[verifier::rlimit(60)]
#[verifier::spinoff_prover]
pub proof fn part_is_scanned_as_its_field<S: ColumnarSink>(
    settings: spec_fn(S::Model) -> bool,
    dropped: Set<Seq<char>>,
    bytes: Seq<u8>,
    mark: Mark,
    field: Option<(Seq<char>, Seq<char>)>,
    at: int,
    row_tag: Seq<u8>,
    regions: Seq<(int, int)>,
    m: S::Model,
)
    requires
        takes_all_rows::<S>(settings, dropped),
        settings(m),
        stands_at(bytes, mark_bytes(mark), at),
        good_mark(mark, row_tag),
        mark_gives(mark, field),
        clear(regions, at, at + mark_bytes(mark).len()),
    ensures
        child_flow::<S>(bytes, at, row_tag, regions, m) == (
            ChildFlowView::Continue(at + mark_bytes(mark).len()),
            delivered::<S>(m, mark, field, dropped),
        ),
        settings(delivered::<S>(m, mark, field, dropped)),
{
    lemma_element_names();
    let f = field->0;
    let none = Seq::<char>::empty();
    assert(S::takes_values(m));
    assert((S::resolved(m, f.0) is None) == dropped.contains(f.0));
    assert(settings(S::with_field(m, f.0, f.1)));
    assert(element_values(false) =~= field_values());
    assert(element_keys(false) =~= field_keys());
    match mark {
        Mark::Element { lead, words, attrs, trail, slots, gap, tail } => {
            let tag = element_tag(words, attrs, trail);
            let name = element_name(words);
            let head = lead + tag_bytes(tag);
            let body = body_bytes(slots, gap, name, tail);
            lemma_both_stand(bytes, head, body, at);
            assert(tag_bytes(tag).len() > 0);
            assert(!in_spans(regions, at + lead.len()));
            tag_is_the_next_markup(bytes, lead, tag, at, regions);
            let from = at + head.len();
            body_is_scanned_as_its_last_text(
                bytes,
                slots,
                gap,
                name,
                tail,
                from,
                none,
                element_values(words),
                regions,
            );
            first_key_counts(attrs, trail, element_keys(words), element_default(words), f.0);
        },
        Mark::Single { lead, tag } => {
            assert(tag_bytes(tag).len() > 0);
            assert(!in_spans(regions, at + lead.len()));
            tag_is_the_next_markup(bytes, lead, tag, at, regions);
            if tag.name == element_name(false) {
                first_key_counts(tag.attrs, tag.trail, element_keys(false), "Field"@, f.0);
            } else if tag.name == element_name(true) {
                first_key_counts(tag.attrs, tag.trail, element_keys(true), "Text"@, f.0);
            } else if tag.name == encode_utf8("Section"@) {
                let keys = seq![encode_utf8("SectionNumber"@)];
                first_key_counts(tag.attrs, tag.trail, keys, none, f.1);
            } else {
                vstd::utf8::encode_utf8_valid_utf8(f.0);
                vstd::utf8::encode_utf8_decode_utf8(f.0);
            }
        },
        Mark::Close { lead, name, tail } => {
            assert(close_bytes(name, tail).len() > 0);
            assert(!in_spans(regions, at + lead.len()));
            close_tag_is_the_next_markup(bytes, lead, name, tail, at, regions);
        },
    }
}

/// The bytes of parts of a row, one after the other.
pub open spec fn marks_bytes(marks: Seq<Mark>) -> Seq<u8>
    decreases marks.len(),
{
    if marks.len() == 0 {
        Seq::empty()
    } else {
        mark_bytes(marks[0]) + marks_bytes(marks.drop_first())
    }
}

/// The sink after the parts of a row give their fields.
pub open spec fn all_delivered<S: ColumnarSink>(
    m: S::Model,
    marks: Seq<Mark>,
    fields: Seq<Option<(Seq<char>, Seq<char>)>>,
    dropped: Set<Seq<char>>,
) -> S::Model
    decreases marks.len(),
{
    if marks.len() == 0 {
        m
    } else {
        all_delivered::<S>(
            delivered::<S>(m, marks[0], fields[0], dropped),
            marks.drop_first(),
            fields.drop_first(),
            dropped,
        )
    }
}

/// The bytes of the parts of a row, and of its close tag with text before it.
pub open spec fn inside_bytes(
    marks: Seq<Mark>,
    lead: Seq<u8>,
    row_tag: Seq<u8>,
    tail: Seq<u8>,
) -> Seq<u8> {
    marks_bytes(marks) + (lead + close_bytes(row_tag, tail))
}

/// The body of a row is scanned as the fields that its parts give, in their order, up to its close
/// tag, and the row ends there.
pub proof fn row_body_is_scanned_as_its_fields<S: ColumnarSink>(
    settings: spec_fn(S::Model) -> bool,
    dropped: Set<Seq<char>>,
    bytes: Seq<u8>,
    marks: Seq<Mark>,
    fields: Seq<Option<(Seq<char>, Seq<char>)>>,
    lead: Seq<u8>,
    tail: Seq<u8>,
    at: int,
    row_tag: Seq<u8>,
    regions: Seq<(int, int)>,
    m: S::Model,
)
    requires
        takes_all_rows::<S>(settings, dropped),
        settings(m),
        stands_at(bytes, inside_bytes(marks, lead, row_tag, tail), at),
        marks.len() == fields.len(),
        forall|i: int| 0 <= i < marks.len() ==> good_mark(#[trigger] marks[i], row_tag),
        forall|i: int| 0 <= i < marks.len() ==> mark_gives(#[trigger] marks[i], fields[i]),
        no_markup(lead),
        names_element(row_tag),
        all_white(tail),
        clear(regions, at, at + inside_bytes(marks, lead, row_tag, tail).len()),
    ensures
        children_flow::<S>(bytes, at, row_tag, regions, m) == (
            FlowView::At(at + inside_bytes(marks, lead, row_tag, tail).len()),
            S::ended(all_delivered::<S>(m, marks, fields, dropped)),
        ),
        settings(all_delivered::<S>(m, marks, fields, dropped)),
    decreases marks.len(),
{
    lemma_child_advances::<S>(bytes, at, row_tag, regions, m);
    if marks.len() == 0 {
        assert(inside_bytes(marks, lead, row_tag, tail) =~= lead + close_bytes(row_tag, tail));
        assert(close_bytes(row_tag, tail).len() > 0);
        assert(!in_spans(regions, at + lead.len()));
        close_tag_is_the_next_markup(bytes, lead, row_tag, tail, at, regions);
    } else {
        let rest = marks.drop_first();
        let more = fields.drop_first();
        let one = mark_bytes(marks[0]);
        assert(inside_bytes(marks, lead, row_tag, tail) =~= one + inside_bytes(
            rest,
            lead,
            row_tag,
            tail,
        ));
        lemma_both_stand(bytes, one, inside_bytes(rest, lead, row_tag, tail), at);
        assert forall|i: int| 0 <= i < rest.len() implies good_mark(#[trigger] rest[i], row_tag)
            && mark_gives(rest[i], more[i]) by {
            assert(rest[i] == marks[i + 1]);
            assert(more[i] == fields[i + 1]);
        }
        assert(good_mark(marks[0], row_tag));
        assert(mark_gives(marks[0], fields[0]));
        part_is_scanned_as_its_field::<S>(
            settings,
            dropped,
            bytes,
            marks[0],
            fields[0],
            at,
            row_tag,
            regions,
            m,
        );
        let next = delivered::<S>(m, marks[0], fields[0], dropped);
        assert(!S::rejects(next));
        row_body_is_scanned_as_its_fields::<S>(
            settings,
            dropped,
            bytes,
            rest,
            more,
            lead,
            tail,
            at + one.len(),
            row_tag,
            regions,
            next,
        );
    }
}

/// The sink after the attributes of a row arrive as fields, in their order.
pub open spec fn attrs_delivered<S: ColumnarSink>(m: S::Model, attrs: Seq<Attr>) -> S::Model
    decreases attrs.len(),
{
    if attrs.len() == 0 {
        m
    } else {
        attrs_delivered::<S>(
            S::with_field(m, decoded(attrs[0].key), decoded(attrs[0].value)),
            attrs.drop_first(),
        )
    }
}

/// The attributes of a row are scanned as fields: the key of each is the name, its value the text.
pub proof fn attributes_are_scanned_as_fields<S: ColumnarSink>(
    attrs: Seq<Attr>,
    trail: Seq<u8>,
    m: S::Model,
)
    requires
        all_well_formed(attrs),
        all_white(trail),
    ensures
        with_attrs::<S>(attrs_bytes(attrs) + trail, m) == (attrs_delivered::<S>(m, attrs), false),
    decreases attrs.len(),
{
    let s = attrs_bytes(attrs) + trail;
    if attrs.len() == 0 {
        assert(s =~= trail);
        white_space_is_no_attribute(trail);
    } else {
        let a = attrs[0];
        let tail = attrs.drop_first();
        assert(well_formed(a));
        assert forall|k: int| 0 <= k < tail.len() implies well_formed(#[trigger] tail[k]) by {
            assert(tail[k] == attrs[k + 1]);
        }
        attribute_is_scanned(a, attrs_bytes(tail) + trail);
        assert(s =~= attr_bytes(a) + (attrs_bytes(tail) + trail));
        lemma_attr_step(s);
        let next = S::with_field(m, decoded(a.key), decoded(a.value));
        attributes_are_scanned_as_fields::<S>(tail, trail, next);
    }
}

/// A row as it is written: its tag, its parts, and text and white space at its close tag; and the
/// fields that its parts give.
pub struct Row {
    pub tag: Tagged,
    pub marks: Seq<Mark>,
    pub lead: Seq<u8>,
    pub tail: Seq<u8>,
    pub fields: Seq<Option<(Seq<char>, Seq<char>)>>,
}

/// The bytes of a row. A self-closing row has no more than its tag.
pub open spec fn row_bytes(row: Row) -> Seq<u8> {
    if row.tag.closing {
        tag_bytes(row.tag)
    } else {
        tag_bytes(row.tag) + inside_bytes(row.marks, row.lead, row.tag.name, row.tail)
    }
}

/// The row is well formed, and gives its fields.
pub open spec fn good_row(row: Row, row_tag: Seq<u8>) -> bool {
    &&& row.tag.name == row_tag
    &&& good_tag(row.tag)
    &&& row.marks.len() == row.fields.len()
    &&& forall|i: int| 0 <= i < row.marks.len() ==> good_mark(#[trigger] row.marks[i], row_tag)
    &&& forall|i: int| 0 <= i < row.marks.len() ==> mark_gives(#[trigger] row.marks[i], row.fields[i])
    &&& no_markup(row.lead)
    &&& all_white(row.tail)
    &&& row.tag.closing ==> row.marks.len() == 0
}

/// The sink after a row: it begins, its attributes arrive, then the fields of its parts, and it
/// ends.
pub open spec fn row_delivered<S: ColumnarSink>(
    m: S::Model,
    row: Row,
    dropped: Set<Seq<char>>,
) -> S::Model {
    S::ended(
        all_delivered::<S>(
            attrs_delivered::<S>(S::begun(m), row.tag.attrs),
            row.marks,
            row.fields,
            dropped,
        ),
    )
}

/// Attributes leave the settings of a sink as they are.
proof fn lemma_attrs_settings<S: ColumnarSink>(
    settings: spec_fn(S::Model) -> bool,
    dropped: Set<Seq<char>>,
    attrs: Seq<Attr>,
    m: S::Model,
)
    requires
        takes_all_rows::<S>(settings, dropped),
        settings(m),
    ensures
        settings(attrs_delivered::<S>(m, attrs)),
    decreases attrs.len(),
{
    if attrs.len() > 0 {
        let next = S::with_field(m, decoded(attrs[0].key), decoded(attrs[0].value));
        assert(settings(next));
        lemma_attrs_settings::<S>(settings, dropped, attrs.drop_first(), next);
    }
}

/// A row is scanned as its fields: those of its attributes first, then those of its parts. It ends
/// where its close tag does, or its own tag where that is self-closing.
pub proof fn row_is_scanned_as_its_fields<S: ColumnarSink>(
    settings: spec_fn(S::Model) -> bool,
    dropped: Set<Seq<char>>,
    bytes: Seq<u8>,
    row: Row,
    at: int,
    row_tag: Seq<u8>,
    regions: Seq<(int, int)>,
    m: S::Model,
)
    requires
        takes_all_rows::<S>(settings, dropped),
        settings(m),
        stands_at(bytes, row_bytes(row), at),
        good_row(row, row_tag),
        clear(regions, at, at + row_bytes(row).len()),
    ensures
        row_flow::<S>(bytes, at, row_tag, regions, m) == (
            FlowView::At(at + row_bytes(row).len()),
            row_delivered::<S>(m, row, dropped),
        ),
        settings(row_delivered::<S>(m, row, dropped)),
{
    let tag = row.tag;
    let open = attrs_delivered::<S>(S::begun(m), tag.attrs);
    assert(settings(S::begun(m)));
    attributes_are_scanned_as_fields::<S>(tag.attrs, tag.trail, S::begun(m));
    lemma_attrs_settings::<S>(settings, dropped, tag.attrs, S::begun(m));
    if tag.closing {
        tag_is_scanned(bytes, tag, at);
        assert(settings(S::ended(open)));
    } else {
        let inside = inside_bytes(row.marks, row.lead, tag.name, row.tail);
        lemma_both_stand(bytes, tag_bytes(tag), inside, at);
        tag_is_scanned(bytes, tag, at);
        row_body_is_scanned_as_its_fields::<S>(
            settings,
            dropped,
            bytes,
            row.marks,
            row.fields,
            row.lead,
            row.tail,
            at + tag_bytes(tag).len(),
            row_tag,
            regions,
            open,
        );
        assert(settings(S::ended(all_delivered::<S>(open, row.marks, row.fields, dropped))));
    }
}

/// The sink after rows, one after the other.
pub open spec fn rows_delivered<S: ColumnarSink>(
    m: S::Model,
    rows: Seq<Row>,
    dropped: Set<Seq<char>>,
) -> S::Model
    decreases rows.len(),
{
    if rows.len() == 0 {
        m
    } else {
        rows_delivered::<S>(row_delivered::<S>(m, rows[0], dropped), rows.drop_first(), dropped)
    }
}

/// The rows stand in the document at the given offsets, one after the other, outside comments and
/// CDATA sections, and no other row starts from `from` on but in one of them.
pub open spec fn rows_stand(
    bytes: Seq<u8>,
    rows: Seq<Row>,
    starts: Seq<int>,
    row_tag: Seq<u8>,
    regions: Seq<(int, int)>,
    from: int,
) -> bool {
    &&& rows.len() == starts.len()
    &&& forall|i: int|
        0 <= i < rows.len() ==> {
            &&& good_row(#[trigger] rows[i], row_tag)
            &&& stands_at(bytes, row_bytes(rows[i]), starts[i])
            &&& clear(regions, starts[i], starts[i] + row_bytes(rows[i]).len())
            &&& from <= starts[i]
        }
    &&& forall|i: int, j: int|
        0 <= i < j < rows.len() ==> (#[trigger] starts[i]) + row_bytes(rows[i]).len()
            <= #[trigger] starts[j]
    &&& forall|p: int|
        from <= p && #[trigger] row_start_at(bytes, row_tag, p) && !in_spans(regions, p)
            ==> exists|i: int|
            0 <= i < rows.len() && starts[i] <= p < (#[trigger] starts[i]) + row_bytes(
                rows[i],
            ).len()
}

/// A row starts where its tag stands.
pub proof fn lemma_row_starts(bytes: Seq<u8>, tag: Tagged, at: int)
    requires
        stands_at(bytes, tag_bytes(tag), at),
        good_tag(tag),
    ensures
        row_start_at(bytes, tag.name, at),
{
    tag_is_scanned(bytes, tag, at);
    lemma_open_tag_bounds(bytes, at);
    let stop = name_stop(bytes, at + 1);
    lemma_name_stop(bytes, at + 1);
    assert(bytes.subrange(at + 1, stop) == tag.name);
}

/// The rows of a document are scanned as their fields, in order: each row that stands in it counts
/// once, and nothing else does.
pub proof fn rows_are_scanned_as_their_fields<S: ColumnarSink>(
    settings: spec_fn(S::Model) -> bool,
    dropped: Set<Seq<char>>,
    bytes: Seq<u8>,
    rows: Seq<Row>,
    starts: Seq<int>,
    row_tag: Seq<u8>,
    regions: Seq<(int, int)>,
    from: int,
    m: S::Model,
)
    requires
        takes_all_rows::<S>(settings, dropped),
        settings(m),
        rows_stand(bytes, rows, starts, row_tag, regions, from),
    ensures
        rows_flow::<S>(bytes, from, row_tag, regions, m) == rows_delivered::<S>(m, rows, dropped),
    decreases rows.len(),
{
    lemma_next_row(bytes, row_tag, regions, from);
    if rows.len() == 0 {
        if let Some(at) = next_row(bytes, row_tag, regions, from) {
            assert(row_start_at(bytes, row_tag, at));
        }
    } else {
        let row = rows[0];
        let at = starts[0];
        let end = at + row_bytes(row).len();
        let rest = rows.drop_first();
        let later = starts.drop_first();
        assert(good_row(rows[0], row_tag));
        if !row.tag.closing {
            lemma_both_stand(
                bytes,
                tag_bytes(row.tag),
                inside_bytes(row.marks, row.lead, row.tag.name, row.tail),
                at,
            );
        }
        lemma_row_starts(bytes, row.tag, at);
        assert(tag_bytes(row.tag).len() > 2);
        assert(!in_spans(regions, at));
        assert(next_row(bytes, row_tag, regions, from) == Some(at)) by {
            if let Some(p) = next_row(bytes, row_tag, regions, from) {
                assert(row_start_at(bytes, row_tag, p));
                let i = choose|i: int|
                    0 <= i < rows.len() && starts[i] <= p < (#[trigger] starts[i]) + row_bytes(
                        rows[i],
                    ).len();
                if i > 0 {
                    assert(starts[0] + row_bytes(rows[0]).len() <= starts[i]);
                }
                assert(at <= p);
                if at < p {
                    assert(row_start_at(bytes, row_tag, at));
                }
            } else {
                assert(row_start_at(bytes, row_tag, at));
            }
        }
        row_is_scanned_as_its_fields::<S>(
            settings,
            dropped,
            bytes,
            row,
            at,
            row_tag,
            regions,
            m,
        );
        let next = row_delivered::<S>(m, row, dropped);
        assert(rows_stand(bytes, rest, later, row_tag, regions, end)) by {
            assert forall|i: int| 0 <= i < rest.len() implies {
                &&& good_row(#[trigger] rest[i], row_tag)
                &&& stands_at(bytes, row_bytes(rest[i]), later[i])
                &&& clear(regions, later[i], later[i] + row_bytes(rest[i]).len())
                &&& end <= later[i]
            } by {
                assert(rest[i] == rows[i + 1]);
                assert(later[i] == starts[i + 1]);
                assert(starts[0] + row_bytes(rows[0]).len() <= starts[i + 1]);
            }
            assert forall|i: int, j: int| 0 <= i < j < rest.len() implies (#[trigger] later[i])
                + row_bytes(rest[i]).len() <= #[trigger] later[j] by {
                assert(starts[i + 1] + row_bytes(rows[i + 1]).len() <= starts[j + 1]);
            }
            assert forall|p: int|
                end <= p && #[trigger] row_start_at(bytes, row_tag, p) && !in_spans(
                    regions,
                    p,
                ) implies exists|i: int|
                0 <= i < rest.len() && later[i] <= p < (#[trigger] later[i]) + row_bytes(
                    rest[i],
                ).len() by {
                let i = choose|i: int|
                    0 <= i < rows.len() && starts[i] <= p < (#[trigger] starts[i]) + row_bytes(
                        rows[i],
                    ).len();
                assert(i > 0);
                assert(later[i - 1] == starts[i]);
                assert(rest[i - 1] == rows[i]);
            }
        }
        rows_are_scanned_as_their_fields::<S>(
            settings,
            dropped,
            bytes,
            rest,
            later,
            row_tag,
            regions,
            end,
            next,
        );
    }
}

/// The fields that are not dropped, in their order.
pub open spec fn not_dropped(
    fields: Seq<(Seq<char>, Seq<char>)>,
    dropped: Set<Seq<char>>,
) -> Seq<(Seq<char>, Seq<char>)>
    decreases fields.len(),
{
    if fields.len() == 0 {
        fields
    } else {
        let before = not_dropped(fields.drop_last(), dropped);
        if dropped.contains(fields.last().0) {
            before
        } else {
            before.push(fields.last())
        }
    }
}

/// The fields of attributes: the keys and the values.
pub open spec fn attr_fields(attrs: Seq<Attr>) -> Seq<(Seq<char>, Seq<char>)> {
    Seq::new(attrs.len(), |i: int| (decoded(attrs[i].key), decoded(attrs[i].value)))
}

/// The fields that there are.
pub open spec fn some_fields(fields: Seq<Option<(Seq<char>, Seq<char>)>>) -> Seq<
    (Seq<char>, Seq<char>),
>
    decreases fields.len(),
{
    if fields.len() == 0 {
        Seq::empty()
    } else {
        match fields.last() {
            Some(f) => some_fields(fields.drop_last()).push(f),
            None => some_fields(fields.drop_last()),
        }
    }
}

/// The fields of a row: those of its attributes, and then those of its parts.
pub open spec fn row_fields(row: Row) -> Seq<(Seq<char>, Seq<char>)> {
    attr_fields(row.tag.attrs) + some_fields(row.fields)
}

/// Leaving out the dropped fields of two lists leaves them out of both.
proof fn lemma_not_dropped_adds(
    a: Seq<(Seq<char>, Seq<char>)>,
    b: Seq<(Seq<char>, Seq<char>)>,
    dropped: Set<Seq<char>>,
)
    ensures
        not_dropped(a + b, dropped) == not_dropped(a, dropped) + not_dropped(b, dropped),
    decreases b.len(),
{
    if b.len() == 0 {
        assert(a + b =~= a);
        assert(not_dropped(a, dropped) + not_dropped(b, dropped) =~= not_dropped(a, dropped));
    } else {
        assert((a + b).drop_last() =~= a + b.drop_last());
        lemma_not_dropped_adds(a, b.drop_last(), dropped);
        assert(not_dropped(a + b, dropped) =~= not_dropped(a, dropped) + not_dropped(b, dropped));
    }
}

/// The first field comes first among the fields that are there.
proof fn lemma_some_front(fields: Seq<Option<(Seq<char>, Seq<char>)>>)
    requires
        fields.len() > 0,
    ensures
        some_fields(fields) == (match fields[0] {
            Some(f) => seq![f] + some_fields(fields.drop_first()),
            None => some_fields(fields.drop_first()),
        }),
    decreases fields.len(),
{
    reveal_with_fuel(some_fields, 2);
    if fields.len() > 1 {
        assert(fields.drop_last()[0] == fields[0]);
        assert(fields.drop_last().drop_first() =~= fields.drop_first().drop_last());
        assert(fields.drop_first().last() == fields.last());
        lemma_some_front(fields.drop_last());
        if let Some(f) = fields[0] {
            if let Some(g) = fields.last() {
                let mid = some_fields(fields.drop_first().drop_last());
                assert((seq![f] + mid).push(g) =~= seq![f] + mid.push(g));
            }
        }
    } else {
        assert(fields.drop_first().len() == 0);
        assert(fields.drop_last().len() == 0);
        if let Some(f) = fields[0] {
            assert(some_fields(fields) =~= seq![f]);
            assert(seq![f] + some_fields(fields.drop_first()) =~= seq![f]);
        }
    }
}

/// A collector after one field.
proof fn lemma_collected(m: CollectorView, name: Seq<char>, value: Seq<char>)
    ensures
        ({
            let after = RowCollector::with_field(m, name, value);
            &&& after.rows == m.rows
            &&& after.dropped == m.dropped
            &&& after.row == m.row + not_dropped(seq![(name, value)], m.dropped)
        }),
{
    let one = seq![(name, value)];
    reveal_with_fuel(not_dropped, 2);
    assert(one.drop_last() =~= Seq::empty());
    if m.dropped.contains(name) {
        assert(m.row + not_dropped(one, m.dropped) =~= m.row);
    } else {
        assert(not_dropped(one, m.dropped) =~= one);
        assert(m.row + one =~= m.row.push((name, value)));
    }
}

/// Attributes are collected as fields.
proof fn lemma_attrs_collected(m: CollectorView, attrs: Seq<Attr>)
    ensures
        ({
            let after = attrs_delivered::<RowCollector>(m, attrs);
            &&& after.rows == m.rows
            &&& after.dropped == m.dropped
            &&& after.row == m.row + not_dropped(attr_fields(attrs), m.dropped)
        }),
    decreases attrs.len(),
{
    if attrs.len() == 0 {
        assert(m.row + not_dropped(attr_fields(attrs), m.dropped) =~= m.row);
    } else {
        let f = (decoded(attrs[0].key), decoded(attrs[0].value));
        let next = RowCollector::with_field(m, f.0, f.1);
        let tail = attrs.drop_first();
        lemma_collected(m, f.0, f.1);
        lemma_attrs_collected(next, tail);
        assert(attr_fields(attrs) =~= seq![f] + attr_fields(tail));
        lemma_not_dropped_adds(seq![f], attr_fields(tail), m.dropped);
        assert(next.row + not_dropped(attr_fields(tail), m.dropped) =~= m.row + not_dropped(
            attr_fields(attrs),
            m.dropped,
        ));
    }
}

/// The parts of a row are collected as fields.
proof fn lemma_marks_collected(
    m: CollectorView,
    marks: Seq<Mark>,
    fields: Seq<Option<(Seq<char>, Seq<char>)>>,
)
    requires
        marks.len() == fields.len(),
    ensures
        ({
            let after = all_delivered::<RowCollector>(m, marks, fields, m.dropped);
            &&& after.rows == m.rows
            &&& after.dropped == m.dropped
            &&& after.row == m.row + not_dropped(some_fields(fields), m.dropped)
        }),
    decreases marks.len(),
{
    if marks.len() == 0 {
        assert(m.row + not_dropped(some_fields(fields), m.dropped) =~= m.row);
    } else {
        let next = delivered::<RowCollector>(m, marks[0], fields[0], m.dropped);
        let tail = fields.drop_first();
        lemma_some_front(fields);
        if let Some(f) = fields[0] {
            lemma_collected(m, f.0, f.1);
            let one = seq![f];
            assert(one == seq![(f.0, f.1)]);
            lemma_not_dropped_adds(one, some_fields(tail), m.dropped);
            reveal_with_fuel(not_dropped, 2);
            assert(one.drop_last() =~= Seq::empty());
            assert(next.row =~= m.row + not_dropped(one, m.dropped));
        }
        lemma_marks_collected(next, marks.drop_first(), tail);
        assert(next.row + not_dropped(some_fields(tail), m.dropped) =~= m.row + not_dropped(
            some_fields(fields),
            m.dropped,
        ));
    }
}

/// Rows are collected one after the other.
proof fn lemma_rows_collected(m: CollectorView, rows: Seq<Row>)
    requires
        forall|i: int| 0 <= i < rows.len() ==> (#[trigger] rows[i]).marks.len()
            == rows[i].fields.len(),
    ensures
        ({
            let after = rows_delivered::<RowCollector>(m, rows, m.dropped);
            &&& after.dropped == m.dropped
            &&& after.rows.len() == m.rows.len() + rows.len()
            &&& forall|i: int| 0 <= i < m.rows.len() ==> #[trigger] after.rows[i] == m.rows[i]
            &&& forall|i: int|
                m.rows.len() <= i < after.rows.len() ==> #[trigger] after.rows[i] == not_dropped(
                    row_fields(rows[i - m.rows.len()]),
                    m.dropped,
                )
        }),
    decreases rows.len(),
{
    if rows.len() > 0 {
        let row = rows[0];
        let begun = RowCollector::begun(m);
        let open = attrs_delivered::<RowCollector>(begun, row.tag.attrs);
        let full = all_delivered::<RowCollector>(open, row.marks, row.fields, m.dropped);
        let next = row_delivered::<RowCollector>(m, row, m.dropped);
        lemma_attrs_collected(begun, row.tag.attrs);
        lemma_marks_collected(open, row.marks, row.fields);
        lemma_not_dropped_adds(attr_fields(row.tag.attrs), some_fields(row.fields), m.dropped);
        assert(full.row =~= not_dropped(row_fields(row), m.dropped));
        assert(next.rows == m.rows.push(full.row));
        let tail = rows.drop_first();
        assert forall|i: int| 0 <= i < tail.len() implies (#[trigger] tail[i]).marks.len()
            == tail[i].fields.len() by {
            assert(tail[i] == rows[i + 1]);
        }
        lemma_rows_collected(next, tail);
        let after = rows_delivered::<RowCollector>(m, rows, m.dropped);
        assert forall|i: int| 0 <= i < m.rows.len() implies #[trigger] after.rows[i] == m.rows[i] by {
            assert(next.rows[i] == m.rows[i]);
        }
        assert forall|i: int| m.rows.len() <= i < after.rows.len() implies #[trigger] after.rows[i]
            == not_dropped(row_fields(rows[i - m.rows.len()]), m.dropped) by {
            if i == m.rows.len() {
                assert(next.rows[i] == full.row);
            } else {
                assert(tail[i - next.rows.len()] == rows[i - m.rows.len()]);
            }
        }
    }
}

/// Scanning a document gives back the rows that are written in it, each with the fields of its
/// attributes and of its parts, in their order, without those of the dropped names.
pub proof fn written_rows_are_scanned_back(
    bytes: Seq<u8>,
    rows: Seq<Row>,
    starts: Seq<int>,
    row_tag: Seq<u8>,
    dropped: Set<Seq<char>>,
)
    requires
        rows_stand(bytes, rows, starts, row_tag, special_spans(bytes, 0), 0),
    ensures
        rows_of(bytes, row_tag, dropped).len() == rows.len(),
        forall|i: int|
            0 <= i < rows.len() ==> #[trigger] rows_of(bytes, row_tag, dropped)[i] == not_dropped(
                row_fields(rows[i]),
                dropped,
            ),
{
    let settings = |m: CollectorView| m.dropped == dropped;
    let m = no_rows(dropped);
    assert(takes_all_rows::<RowCollector>(settings, dropped));
    rows_are_scanned_as_their_fields::<RowCollector>(
        settings,
        dropped,
        bytes,
        rows,
        starts,
        row_tag,
        special_spans(bytes, 0),
        0,
        m,
    );
    assert forall|i: int| 0 <= i < rows.len() implies (#[trigger] rows[i]).marks.len()
        == rows[i].fields.len() by {
        assert(good_row(rows[i], row_tag));
    }
    lemma_rows_collected(m, rows);
}

/// Where no name is dropped, all fields stay.
pub proof fn nothing_is_dropped(fields: Seq<(Seq<char>, Seq<char>)>)
    ensures
        not_dropped(fields, Set::empty()) == fields,
    decreases fields.len(),
{
    if fields.len() > 0 {
        nothing_is_dropped(fields.drop_last());
        assert(fields.drop_last().push(fields.last()) =~= fields);
    }
}

/// The parts of a row are scanned as the fields that they give, in their order, and then what comes
/// after them is scanned.
pub proof fn parts_are_scanned_as_fields<S: ColumnarSink>(
    settings: spec_fn(S::Model) -> bool,
    dropped: Set<Seq<char>>,
    bytes: Seq<u8>,
    marks: Seq<Mark>,
    fields: Seq<Option<(Seq<char>, Seq<char>)>>,
    at: int,
    row_tag: Seq<u8>,
    regions: Seq<(int, int)>,
    m: S::Model,
)
    requires
        takes_all_rows::<S>(settings, dropped),
        settings(m),
        stands_at(bytes, marks_bytes(marks), at),
        marks.len() == fields.len(),
        forall|i: int| 0 <= i < marks.len() ==> good_mark(#[trigger] marks[i], row_tag),
        forall|i: int| 0 <= i < marks.len() ==> mark_gives(#[trigger] marks[i], fields[i]),
        clear(regions, at, at + marks_bytes(marks).len()),
    ensures
        children_flow::<S>(bytes, at, row_tag, regions, m) == children_flow::<S>(
            bytes,
            at + marks_bytes(marks).len(),
            row_tag,
            regions,
            all_delivered::<S>(m, marks, fields, dropped),
        ),
        settings(all_delivered::<S>(m, marks, fields, dropped)),
    decreases marks.len(),
{
    if marks.len() > 0 {
        let rest = marks.drop_first();
        let more = fields.drop_first();
        let one = mark_bytes(marks[0]);
        lemma_both_stand(bytes, one, marks_bytes(rest), at);
        assert forall|i: int| 0 <= i < rest.len() implies good_mark(#[trigger] rest[i], row_tag)
            && mark_gives(rest[i], more[i]) by {
            assert(rest[i] == marks[i + 1]);
            assert(more[i] == fields[i + 1]);
        }
        assert(good_mark(marks[0], row_tag));
        assert(mark_gives(marks[0], fields[0]));
        lemma_child_advances::<S>(bytes, at, row_tag, regions, m);
        part_is_scanned_as_its_field::<S>(
            settings,
            dropped,
            bytes,
            marks[0],
            fields[0],
            at,
            row_tag,
            regions,
            m,
        );
        let next = delivered::<S>(m, marks[0], fields[0], dropped);
        assert(!S::rejects(next));
        parts_are_scanned_as_fields::<S>(
            settings,
            dropped,
            bytes,
            rest,
            more,
            at + one.len(),
            row_tag,
            regions,
            next,
        );
    }
}

/// A row after whose parts no markup follows is cut off: it does not end, and does not count.
pub proof fn row_without_close_tag_is_cut_off<S: ColumnarSink>(
    settings: spec_fn(S::Model) -> bool,
    dropped: Set<Seq<char>>,
    bytes: Seq<u8>,
    tag: Tagged,
    marks: Seq<Mark>,
    fields: Seq<Option<(Seq<char>, Seq<char>)>>,
    at: int,
    regions: Seq<(int, int)>,
    m: S::Model,
)
    requires
        takes_all_rows::<S>(settings, dropped),
        settings(m),
        stands_at(bytes, tag_bytes(tag) + marks_bytes(marks), at),
        good_tag(tag),
        !tag.closing,
        marks.len() == fields.len(),
        forall|i: int| 0 <= i < marks.len() ==> good_mark(#[trigger] marks[i], tag.name),
        forall|i: int| 0 <= i < marks.len() ==> mark_gives(#[trigger] marks[i], fields[i]),
        clear(regions, at, at + (tag_bytes(tag) + marks_bytes(marks)).len()),
        forall|i: int|
            at + (tag_bytes(tag) + marks_bytes(marks)).len() <= i < bytes.len() ==> (
            #[trigger] bytes[i]) != 0x3c,
    ensures
        row_flow::<S>(bytes, at, tag.name, regions, m) == (
            FlowView::Truncated,
            all_delivered::<S>(
                attrs_delivered::<S>(S::begun(m), tag.attrs),
                marks,
                fields,
                dropped,
            ),
        ),
{
    let open = attrs_delivered::<S>(S::begun(m), tag.attrs);
    assert(settings(S::begun(m)));
    attributes_are_scanned_as_fields::<S>(tag.attrs, tag.trail, S::begun(m));
    lemma_attrs_settings::<S>(settings, dropped, tag.attrs, S::begun(m));
    lemma_both_stand(bytes, tag_bytes(tag), marks_bytes(marks), at);
    tag_is_scanned(bytes, tag, at);
    let from = at + tag_bytes(tag).len();
    parts_are_scanned_as_fields::<S>(
        settings,
        dropped,
        bytes,
        marks,
        fields,
        from,
        tag.name,
        regions,
        open,
    );
    lemma_byte_from(bytes, LT, from + marks_bytes(marks).len());
}

/// The rest of a row that the sink rejects is passed over up to its close tag, and the row ends
/// there.
pub proof fn rejected_row_is_passed_over<S: ColumnarSink>(
    bytes: Seq<u8>,
    cur: int,
    slots: Seq<Slot>,
    lead: Seq<u8>,
    tail: Seq<u8>,
    next: int,
    row_tag: Seq<u8>,
    regions: Seq<(int, int)>,
    m: S::Model,
    after: S::Model,
)
    requires
        0 <= cur,
        child_flow::<S>(bytes, cur, row_tag, regions, m) == (
            ChildFlowView::Continue(next),
            after,
        ),
        S::rejects(after),
        stands_at(bytes, body_bytes(slots, lead, row_tag, tail), next),
        forall|i: int|
            0 <= i < slots.len() ==> good_slot(#[trigger] slots[i], row_tag, Seq::empty()),
        no_markup(lead),
        names_element(row_tag),
        all_white(tail),
        clear(regions, next, next + body_bytes(slots, lead, row_tag, tail).len()),
    ensures
        children_flow::<S>(bytes, cur, row_tag, regions, m) == (
            FlowView::At(next + body_bytes(slots, lead, row_tag, tail).len()),
            S::ended(after),
        ),
{
    body_is_scanned_as_its_last_text(
        bytes,
        slots,
        lead,
        row_tag,
        tail,
        next,
        Seq::empty(),
        Seq::empty(),
        regions,
    );
    lemma_child_advances::<S>(bytes, cur, row_tag, regions, m);
}

/// A value that starts with markup leaves the text before it; of another one the part before its
/// markup counts.
pub proof fn markup_ends_a_value(found: Seq<char>, text: Seq<u8>, rest: Seq<u8>)
    requires
        no_markup(text),
    ensures
        text_after(found, seq![0x3cu8] + rest) == found,
        text.len() > 0 ==> text_after(found, text + (seq![0x3cu8] + rest)) == decoded(text),
{
    let raw = text + (seq![0x3cu8] + rest);
    lemma_byte_from(raw, LT, 0);
    assert(raw[text.len() as int] == 0x3c);
    if text.len() > 0 {
        assert(raw[0] == text[0]);
        assert(byte_from(raw, LT, 0) == Some(text.len() as int)) by {
            if let Some(i) = byte_from(raw, LT, 0) {
                if i < text.len() {
                    assert(raw[i] == text[i]);
                }
            }
        }
        assert(raw.subrange(0, text.len() as int) =~= text);
    }
}

/// The scanner stops at a malformed attribute: what comes before it has arrived, and the row is
/// abandoned.
pub proof fn row_with_malformed_attribute_is_abandoned<S: ColumnarSink>(
    attrs: Seq<Attr>,
    bad: Seq<u8>,
    m: S::Model,
)
    requires
        all_well_formed(attrs),
        attr_step(bad) is Malformed,
    ensures
        with_attrs::<S>(attrs_bytes(attrs) + bad, m) == (attrs_delivered::<S>(m, attrs), true),
    decreases attrs.len(),
{
    let s = attrs_bytes(attrs) + bad;
    if attrs.len() == 0 {
        assert(s =~= bad);
    } else {
        let a = attrs[0];
        let tail = attrs.drop_first();
        assert(well_formed(a));
        assert forall|k: int| 0 <= k < tail.len() implies well_formed(#[trigger] tail[k]) by {
            assert(tail[k] == attrs[k + 1]);
        }
        attribute_is_scanned(a, attrs_bytes(tail) + bad);
        assert(s =~= attr_bytes(a) + (attrs_bytes(tail) + bad));
        lemma_attr_step(s);
        let next = S::with_field(m, decoded(a.key), decoded(a.value));
        row_with_malformed_attribute_is_abandoned::<S>(tail, bad, next);
    }
}

/// The first malformed attribute ends the look for a name, unless the name comes before it.
proof fn lemma_malformed_behind(attrs: Seq<Attr>, bad: Seq<u8>, keys: Seq<Seq<u8>>)
    requires
        all_well_formed(attrs),
        forall|i: int| 0 <= i < attrs.len() ==> !keys.contains((#[trigger] attrs[i]).key),
        attr_step(bad) is Malformed,
    ensures
        attr_value(attrs_bytes(attrs) + bad, keys) is Err,
    decreases attrs.len(),
{
    let s = attrs_bytes(attrs) + bad;
    if attrs.len() == 0 {
        assert(s =~= bad);
    } else {
        let a = attrs[0];
        let tail = attrs.drop_first();
        assert(well_formed(a));
        assert forall|k: int| 0 <= k < tail.len() implies well_formed(#[trigger] tail[k])
            && !keys.contains(tail[k].key) by {
            assert(tail[k] == attrs[k + 1]);
        }
        attribute_is_scanned(a, attrs_bytes(tail) + bad);
        assert(s =~= attr_bytes(a) + (attrs_bytes(tail) + bad));
        lemma_attr_step(s);
        lemma_malformed_behind(tail, bad, keys);
    }
}

/// The names of attributes that are looked for in an element of the given name.
pub open spec fn looks_for(name: Seq<u8>, keys: Seq<Seq<u8>>) -> bool {
    ||| name == encode_utf8("Field"@) && keys == seq![
        encode_utf8("FieldName"@),
        encode_utf8("Name"@),
    ]
    ||| name == encode_utf8("Text"@) && keys == seq![encode_utf8("Name"@)]
    ||| name == encode_utf8("Section"@) && keys == seq![encode_utf8("SectionNumber"@)]
}

/// A `<Field>`, `<Text>` or `<Section>` with a malformed attribute makes the scanner abandon the
/// row, unless the name that it looks for comes before the malformed attribute. The part does not
/// count.
pub proof fn part_with_malformed_attribute_is_abandoned<S: ColumnarSink>(
    bytes: Seq<u8>,
    cur: int,
    tag: OpenTagView,
    attrs: Seq<Attr>,
    bad: Seq<u8>,
    keys: Seq<Seq<u8>>,
    row_tag: Seq<u8>,
    regions: Seq<(int, int)>,
    m: S::Model,
)
    requires
        0 <= cur,
        token(bytes, cur, regions) == TokenView::Open(tag),
        tag.interior == attrs_bytes(attrs) + bad,
        all_well_formed(attrs),
        attr_step(bad) is Malformed,
        looks_for(tag.name, keys),
        forall|i: int| 0 <= i < attrs.len() ==> !keys.contains((#[trigger] attrs[i]).key),
    ensures
        children_flow::<S>(bytes, cur, row_tag, regions, m) == (FlowView::Recover, m),
{
    lemma_element_names();
    lemma_child_advances::<S>(bytes, cur, row_tag, regions, m);
    lemma_malformed_behind(attrs, bad, keys);
}

/// The rows behind the tag of an abandoned row are scanned as if it were no row. The fields that
/// have arrived of it are left to the sink.
pub proof fn rows_after_an_abandoned_row_are_scanned<S: ColumnarSink>(
    bytes: Seq<u8>,
    at: int,
    open: OpenTagView,
    attrs: Seq<Attr>,
    bad: Seq<u8>,
    row_tag: Seq<u8>,
    regions: Seq<(int, int)>,
    m: S::Model,
)
    requires
        row_start_at(bytes, row_tag, at),
        !in_spans(regions, at),
        open_tag(bytes, at) == Some(open),
        open.interior == attrs_bytes(attrs) + bad,
        all_well_formed(attrs),
        attr_step(bad) is Malformed,
    ensures
        rows_flow::<S>(bytes, at, row_tag, regions, m) == rows_flow::<S>(
            bytes,
            at + 1,
            row_tag,
            regions,
            attrs_delivered::<S>(S::begun(m), attrs),
        ),
        one_row_flow::<S>(bytes, at, row_tag, regions, m) == one_row_flow::<S>(
            bytes,
            at + 1,
            row_tag,
            regions,
            attrs_delivered::<S>(S::begun(m), attrs),
        ),
{
    lemma_next_row(bytes, row_tag, regions, at);
    assert(row_starts(bytes, row_tag, regions)(at));
    row_with_malformed_attribute_is_abandoned::<S>(attrs, bad, S::begun(m));
}

/// A row that is abandoned for one of its parts does not count, and the rows behind its tag are
/// scanned.
pub proof fn rows_after_an_abandoned_part_are_scanned<S: ColumnarSink>(
    bytes: Seq<u8>,
    at: int,
    row_tag: Seq<u8>,
    regions: Seq<(int, int)>,
    m: S::Model,
)
    requires
        row_start_at(bytes, row_tag, at),
        !in_spans(regions, at),
        open_tag(bytes, at) matches Some(open) && !open.self_closing && !with_attrs::<S>(
            open.interior,
            S::begun(m),
        ).1 && children_flow::<S>(
            bytes,
            open.after,
            row_tag,
            regions,
            with_attrs::<S>(open.interior, S::begun(m)).0,
        ).0 is Recover,
    ensures
        ({
            let open = open_tag(bytes, at)->0;
            let left = children_flow::<S>(
                bytes,
                open.after,
                row_tag,
                regions,
                with_attrs::<S>(open.interior, S::begun(m)).0,
            ).1;
            rows_flow::<S>(bytes, at, row_tag, regions, m) == rows_flow::<S>(
                bytes,
                at + 1,
                row_tag,
                regions,
                left,
            ) && one_row_flow::<S>(bytes, at, row_tag, regions, m) == one_row_flow::<S>(
                bytes,
                at + 1,
                row_tag,
                regions,
                left,
            )
        }),
{
    lemma_next_row(bytes, row_tag, regions, at);
    assert(row_starts(bytes, row_tag, regions)(at));
}

/// A row that is cut off ends the scan: it does not count, and no row is looked for behind it.
pub proof fn row_that_is_cut_off_ends_the_scan<S: ColumnarSink>(
    bytes: Seq<u8>,
    at: int,
    row_tag: Seq<u8>,
    regions: Seq<(int, int)>,
    m: S::Model,
)
    requires
        row_start_at(bytes, row_tag, at),
        !in_spans(regions, at),
        row_flow::<S>(bytes, at, row_tag, regions, m).0 is Truncated,
    ensures
        rows_flow::<S>(bytes, at, row_tag, regions, m) == row_flow::<S>(
            bytes,
            at,
            row_tag,
            regions,
            m,
        ).1,
        one_row_flow::<S>(bytes, at, row_tag, regions, m).0 is None,
{
    lemma_next_row(bytes, row_tag, regions, at);
    assert(row_starts(bytes, row_tag, regions)(at));
}

/// A sink that takes no values, or no fields, gets nothing of a `<Field>` or a `<Text>`: the scan
/// goes on behind its close tag, or behind its tag where that is self-closing.
pub proof fn fields_that_are_not_taken_are_passed_over<S: ColumnarSink>(
    bytes: Seq<u8>,
    tag: OpenTagView,
    regions: Seq<(int, int)>,
    m: S::Model,
)
    requires
        !S::takes_values(m) || forall|name: Seq<char>| (#[trigger] S::resolved(m, name)) is None,
        attr_value(tag.interior, field_keys()) is Ok,
        attr_value(tag.interior, seq![encode_utf8("Name"@)]) is Ok,
    ensures
        tag.self_closing ==> field_flow::<S>(bytes, tag, regions, m) == (
            FlowView::At(tag.after),
            m,
        ) && text_flow::<S>(bytes, tag, regions, m) == (FlowView::At(tag.after), m),
        !tag.self_closing ==> field_flow::<S>(bytes, tag, regions, m) == (
            match close_extent(bytes, close_prefix(encode_utf8("Field"@)), regions, tag.after) {
                Some(extent) => FlowView::At(extent.1),
                None => FlowView::Truncated,
            },
            m,
        ),
        !tag.self_closing ==> text_flow::<S>(bytes, tag, regions, m) == (
            match close_extent(bytes, close_prefix(encode_utf8("Text"@)), regions, tag.after) {
                Some(extent) => FlowView::At(extent.1),
                None => FlowView::Truncated,
            },
            m,
        ),
{
}

/// What is no element, such as a comment or a declaration, is passed over: in a row, unless the sink
/// has rejected it, and in a field.
pub proof fn asides_are_passed_over<S: ColumnarSink>(
    bytes: Seq<u8>,
    cur: int,
    next: int,
    row_tag: Seq<u8>,
    regions: Seq<(int, int)>,
    text: Seq<char>,
    values: Seq<Seq<u8>>,
    m: S::Model,
)
    requires
        0 <= cur,
        token(bytes, cur, regions) == TokenView::Skip(next),
    ensures
        !S::rejects(m) ==> children_flow::<S>(bytes, cur, row_tag, regions, m) == children_flow::<
            S,
        >(bytes, next, row_tag, regions, m),
        element_body(bytes, cur, text, row_tag, values, regions) == element_body(
            bytes,
            next,
            text,
            row_tag,
            values,
            regions,
        ),
{
    lemma_token_advances(bytes, cur, regions);
    lemma_child_advances::<S>(bytes, cur, row_tag, regions, m);
}

} // verus!
