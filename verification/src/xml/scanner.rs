//! The row scanner for Crystal Reports XML.
//!
//! Rows hold `<Field>`, `<Text>` and `<Section>` children, and value elements hold plain text:
//! - The attributes of a row become fields.
//! - The key of a field is its first attribute named `FieldName` or `Name`, else `Field`. Its value
//!   is the text of its `<FormattedValue>` and `<Value>` children; the last one wins, and a body
//!   that is empty or starts with markup does not count.
//! - The key of a text is its `Name` attribute, else `Text`. Its value comes from `<TextValue>`.
//! - A section gives the field `Section` with its `SectionNumber` attribute, else the empty text.
//! - Any other child gives a field of its tag name with the empty text.
//! - A field or text that the sink drops is skipped up to its close tag.
//! - A row that the sink rejects is skipped up to its close tag.
//! - A row that the input cuts off ends the scan. A row with a malformed attribute is abandoned,
//!   and the scan goes on at the next row start.

use std::ops::Range;

use vstd::prelude::*;
use vstd::utf8::encode_utf8;

use crate::bytes::{count_matches, occurrences, offset, same_bytes, LT};
use crate::error::Error;
use crate::markup::{lemma_next_row, next_row, ordered_spans, spans};
use crate::text::{decode_attr, decoded, plain_text, utf8_text};
use crate::xml::sink::ColumnarSink;
use crate::xml::splitter::{find_special_regions, next_row_start, special_spans};
use crate::xml::tokens::{
    assign_text, attr_step, attr_value, byte_strings, bytes_left, close_extent, close_prefix,
    close_prefix_of, find_attr_value, find_close_after, is_one_of, lemma_attr_step,
    lemma_close_extent, lemma_token_advances, next_token, open_tag, raw_text_until, scan_open_tag,
    spans_fit, text_after, token, AttrIter, AttrStep, OpenTag, OpenTagView, Token, TokenView,
};

verus! {

/// How one structural unit ended.
#[verifier::ext_equal]
pub enum FlowView {
    /// The scan goes on at this offset.
    At(int),
    /// The input ended in the middle of the row.
    Truncated,
    /// The row is malformed.
    Recover,
}

/// How one structural unit ended.
pub enum Flow {
    /// The scan goes on at this offset.
    At(usize),
    /// The input ended in the middle of the row.
    Truncated,
    /// The row is malformed.
    Recover,
}

impl View for Flow {
    type V = FlowView;

    open spec fn view(&self) -> FlowView {
        match *self {
            Flow::At(next) => FlowView::At(next as int),
            Flow::Truncated => FlowView::Truncated,
            Flow::Recover => FlowView::Recover,
        }
    }
}

/// How one piece of markup in a row ended.
#[verifier::ext_equal]
pub enum ChildFlowView {
    /// The row goes on at this offset.
    Continue(int),
    /// The row ended; the offset just past its close tag.
    RowEnd(int),
    /// The input ended in the middle of the row.
    Truncated,
    /// The row is malformed.
    Recover,
}

/// How one piece of markup in a row ended.
pub enum ChildFlow {
    /// The row goes on at this offset.
    Continue(usize),
    /// The row ended; the offset just past its close tag.
    RowEnd(usize),
    /// The input ended in the middle of the row.
    Truncated,
    /// The row is malformed.
    Recover,
}

impl View for ChildFlow {
    type V = ChildFlowView;

    open spec fn view(&self) -> ChildFlowView {
        match *self {
            ChildFlow::Continue(next) => ChildFlowView::Continue(next as int),
            ChildFlow::RowEnd(after) => ChildFlowView::RowEnd(after as int),
            ChildFlow::Truncated => ChildFlowView::Truncated,
            ChildFlow::Recover => ChildFlowView::Recover,
        }
    }
}

/// The end of a child element as the end of a piece of markup in a row.
pub open spec fn lifted(flow: FlowView) -> ChildFlowView {
    match flow {
        FlowView::At(next) => ChildFlowView::Continue(next),
        FlowView::Truncated => ChildFlowView::Truncated,
        FlowView::Recover => ChildFlowView::Recover,
    }
}

/// The end of a child element as the end of a piece of markup in a row.
pub fn lift(flow: Flow) -> (child: ChildFlow)
    ensures
        child@ == lifted(flow@),
{
    match flow {
        Flow::At(next) => ChildFlow::Continue(next),
        Flow::Truncated => ChildFlow::Truncated,
        Flow::Recover => ChildFlow::Recover,
    }
}

/// The text of an element and the offset just past its close tag, from `cur` in its body on, with
/// `text` found so far. `close` is the name of the element, `values` are the names of the elements
/// that hold its text. There is no answer where the input ends first.
pub open spec fn element_body(
    bytes: Seq<u8>,
    cur: int,
    text: Seq<char>,
    close: Seq<u8>,
    values: Seq<Seq<u8>>,
    regions: Seq<(int, int)>,
) -> Option<(Seq<char>, int)>
    decreases bytes_left(bytes, cur),
    when 0 <= cur
{
    proof {
        lemma_token_advances(bytes, cur, regions);
    }
    match token(bytes, cur, regions) {
        TokenView::End => None,
        TokenView::Skip(next) => element_body(bytes, next, text, close, values, regions),
        TokenView::Close { name, after } => if name == close {
            Some((text, after))
        } else {
            element_body(bytes, after, text, close, values, regions)
        },
        TokenView::Open(tag) => if values.contains(tag.name) && !tag.self_closing {
            proof {
                lemma_close_extent(bytes, close_prefix(tag.name), regions, tag.after);
            }
            match close_extent(bytes, close_prefix(tag.name), regions, tag.after) {
                Some(extent) => element_body(
                    bytes,
                    extent.1,
                    text_after(text, bytes.subrange(tag.after, extent.0)),
                    close,
                    values,
                    regions,
                ),
                None => None,
            }
        } else {
            element_body(bytes, tag.after, text, close, values, regions)
        },
    }
}

/// What an element with the key `key` does to the sink, and where it ends. Where the sink takes no
/// values or drops the field, the element is skipped up to its close tag. A self-closing element
/// has no body: it ends with its tag, and its text is empty.
pub open spec fn element_flow<S: ColumnarSink>(
    bytes: Seq<u8>,
    tag: OpenTagView,
    key: Seq<char>,
    close: Seq<u8>,
    values: Seq<Seq<u8>>,
    regions: Seq<(int, int)>,
    m: S::Model,
) -> (FlowView, S::Model) {
    let skipped = !S::takes_values(m) || S::resolved(m, key) is None;
    if tag.self_closing {
        (
            FlowView::At(tag.after),
            if skipped {
                m
            } else {
                S::with_field(m, key, Seq::empty())
            },
        )
    } else if skipped {
        match close_extent(bytes, close_prefix(close), regions, tag.after) {
            Some(extent) => (FlowView::At(extent.1), m),
            None => (FlowView::Truncated, m),
        }
    } else {
        match element_body(bytes, tag.after, Seq::empty(), close, values, regions) {
            Some(end) => (FlowView::At(end.1), S::with_field(m, key, end.0)),
            None => (FlowView::Truncated, m),
        }
    }
}

/// The names of the attributes that name a field.
pub open spec fn field_keys() -> Seq<Seq<u8>> {
    seq![encode_utf8("FieldName"@), encode_utf8("Name"@)]
}

/// The names of the elements that hold the value of a field.
pub open spec fn field_values() -> Seq<Seq<u8>> {
    seq![encode_utf8("FormattedValue"@), encode_utf8("Value"@)]
}

/// What a `<Field>` element does to the sink, and where it ends.
pub open spec fn field_flow<S: ColumnarSink>(
    bytes: Seq<u8>,
    tag: OpenTagView,
    regions: Seq<(int, int)>,
    m: S::Model,
) -> (FlowView, S::Model) {
    match attr_value(tag.interior, field_keys()) {
        Ok(raw) => element_flow::<S>(
            bytes,
            tag,
            match raw {
                Some(v) => decoded(v),
                None => "Field"@,
            },
            encode_utf8("Field"@),
            field_values(),
            regions,
            m,
        ),
        Err(_) => (FlowView::Recover, m),
    }
}

/// What a `<Text>` element does to the sink, and where it ends.
pub open spec fn text_flow<S: ColumnarSink>(
    bytes: Seq<u8>,
    tag: OpenTagView,
    regions: Seq<(int, int)>,
    m: S::Model,
) -> (FlowView, S::Model) {
    match attr_value(tag.interior, seq![encode_utf8("Name"@)]) {
        Ok(raw) => element_flow::<S>(
            bytes,
            tag,
            match raw {
                Some(v) => decoded(v),
                None => "Text"@,
            },
            encode_utf8("Text"@),
            seq![encode_utf8("TextValue"@)],
            regions,
            m,
        ),
        Err(_) => (FlowView::Recover, m),
    }
}

/// What a `<Section>` element does to the sink, and where it ends.
pub open spec fn section_flow<S: ColumnarSink>(tag: OpenTagView, m: S::Model) -> (
    FlowView,
    S::Model,
) {
    match attr_value(tag.interior, seq![encode_utf8("SectionNumber"@)]) {
        Ok(raw) => (
            FlowView::At(tag.after),
            S::with_field(
                m,
                "Section"@,
                match raw {
                    Some(v) => decoded(v),
                    None => Seq::empty(),
                },
            ),
        ),
        Err(_) => (FlowView::Recover, m),
    }
}

/// What the next piece of markup in a row does to the sink, and where it ends.
pub open spec fn child_flow<S: ColumnarSink>(
    bytes: Seq<u8>,
    cur: int,
    row_tag: Seq<u8>,
    regions: Seq<(int, int)>,
    m: S::Model,
) -> (ChildFlowView, S::Model) {
    match token(bytes, cur, regions) {
        TokenView::End => (ChildFlowView::Truncated, m),
        TokenView::Skip(next) => (ChildFlowView::Continue(next), m),
        TokenView::Close { name, after } => if name == row_tag {
            (ChildFlowView::RowEnd(after), m)
        } else {
            (ChildFlowView::Continue(after), m)
        },
        TokenView::Open(tag) => if tag.name == encode_utf8("Field"@) {
            let end = field_flow::<S>(bytes, tag, regions, m);
            (lifted(end.0), end.1)
        } else if tag.name == encode_utf8("Text"@) {
            let end = text_flow::<S>(bytes, tag, regions, m);
            (lifted(end.0), end.1)
        } else if tag.name == encode_utf8("Section"@) {
            let end = section_flow::<S>(tag, m);
            (lifted(end.0), end.1)
        } else {
            (
                ChildFlowView::Continue(tag.after),
                S::with_field(m, plain_text(tag.name), Seq::empty()),
            )
        },
    }
}

/// What the children of a row do to the sink, from `cur` on, and where the row ends.
pub open spec fn children_flow<S: ColumnarSink>(
    bytes: Seq<u8>,
    cur: int,
    row_tag: Seq<u8>,
    regions: Seq<(int, int)>,
    m: S::Model,
) -> (FlowView, S::Model)
    decreases bytes_left(bytes, cur),
    when 0 <= cur
{
    proof {
        lemma_child_advances::<S>(bytes, cur, row_tag, regions, m);
    }
    let step = child_flow::<S>(bytes, cur, row_tag, regions, m);
    match step.0 {
        ChildFlowView::Continue(next) => if S::rejects(step.1) {
            match close_extent(bytes, close_prefix(row_tag), regions, next) {
                Some(extent) => (FlowView::At(extent.1), S::ended(step.1)),
                None => (FlowView::Truncated, step.1),
            }
        } else {
            children_flow::<S>(bytes, next, row_tag, regions, step.1)
        },
        ChildFlowView::RowEnd(after) => (FlowView::At(after), S::ended(step.1)),
        ChildFlowView::Truncated => (FlowView::Truncated, step.1),
        ChildFlowView::Recover => (FlowView::Recover, step.1),
    }
}

/// The model after the attributes in `interior` arrive as fields, and whether one is malformed.
pub open spec fn with_attrs<S: ColumnarSink>(interior: Seq<u8>, m: S::Model) -> (S::Model, bool)
    decreases interior.len(),
{
    match attr_step(interior) {
        AttrStep::End => (m, false),
        AttrStep::Malformed => (m, true),
        AttrStep::Pair { key, value, rest } => {
            proof {
                lemma_attr_step(interior);
            }
            with_attrs::<S>(rest, S::with_field(m, decoded(key), decoded(value)))
        },
    }
}

/// What the row that starts at `lt` does to the sink, and where it ends.
pub open spec fn row_flow<S: ColumnarSink>(
    bytes: Seq<u8>,
    lt: int,
    row_tag: Seq<u8>,
    regions: Seq<(int, int)>,
    m: S::Model,
) -> (FlowView, S::Model) {
    match open_tag(bytes, lt) {
        None => (FlowView::Truncated, m),
        Some(open) => {
            let attrs = with_attrs::<S>(open.interior, S::begun(m));
            if attrs.1 {
                (FlowView::Recover, attrs.0)
            } else if open.self_closing {
                (FlowView::At(open.after), S::ended(attrs.0))
            } else {
                children_flow::<S>(bytes, open.after, row_tag, regions, attrs.0)
            }
        },
    }
}

/// Where the scan goes on after a row that starts at `start` and ends at `next`.
pub open spec fn past_row(start: int, next: int) -> int {
    if next > start + 1 {
        next
    } else {
        start + 1
    }
}

/// The model after the rows from `pos` on.
pub open spec fn rows_flow<S: ColumnarSink>(
    bytes: Seq<u8>,
    pos: int,
    row_tag: Seq<u8>,
    regions: Seq<(int, int)>,
    m: S::Model,
) -> S::Model
    decreases bytes_left(bytes, pos),
{
    proof {
        lemma_next_row(bytes, row_tag, regions, pos);
    }
    match next_row(bytes, row_tag, regions, pos) {
        None => m,
        Some(start) => {
            let row = row_flow::<S>(bytes, start, row_tag, regions, m);
            match row.0 {
                FlowView::At(next) => rows_flow::<S>(
                    bytes,
                    past_row(start, next),
                    row_tag,
                    regions,
                    row.1,
                ),
                FlowView::Truncated => row.1,
                FlowView::Recover => rows_flow::<S>(bytes, start + 1, row_tag, regions, row.1),
            }
        },
    }
}

/// The model after all rows of a chunk.
pub open spec fn chunk_flow<S: ColumnarSink>(
    bytes: Seq<u8>,
    row_tag: Seq<u8>,
    m: S::Model,
) -> S::Model {
    rows_flow::<S>(bytes, 0, row_tag, special_spans(bytes, 0), m)
}

/// The model after the first whole row at or after `pos`, and where the scan goes on; there is no
/// offset where the rows run out or the input cuts a row off.
pub open spec fn one_row_flow<S: ColumnarSink>(
    bytes: Seq<u8>,
    pos: int,
    row_tag: Seq<u8>,
    regions: Seq<(int, int)>,
    m: S::Model,
) -> (Option<int>, S::Model)
    decreases bytes_left(bytes, pos),
{
    proof {
        lemma_next_row(bytes, row_tag, regions, pos);
    }
    match next_row(bytes, row_tag, regions, pos) {
        None => (None, m),
        Some(start) => {
            let row = row_flow::<S>(bytes, start, row_tag, regions, m);
            match row.0 {
                FlowView::At(next) => (Some(past_row(start, next)), row.1),
                FlowView::Truncated => (None, row.1),
                FlowView::Recover => one_row_flow::<S>(bytes, start + 1, row_tag, regions, row.1),
            }
        },
    }
}

/// An element ends past `cur`, in the input.
pub proof fn lemma_body_advances(
    bytes: Seq<u8>,
    cur: int,
    text: Seq<char>,
    close: Seq<u8>,
    values: Seq<Seq<u8>>,
    regions: Seq<(int, int)>,
)
    requires
        0 <= cur,
    ensures
        element_body(bytes, cur, text, close, values, regions) matches Some(end) ==> cur < end.1
            <= bytes.len(),
    decreases bytes_left(bytes, cur),
{
    lemma_token_advances(bytes, cur, regions);
    match token(bytes, cur, regions) {
        TokenView::End => {},
        TokenView::Skip(next) => {
            lemma_body_advances(bytes, next, text, close, values, regions);
        },
        TokenView::Close { name, after } => {
            if name != close {
                lemma_body_advances(bytes, after, text, close, values, regions);
            }
        },
        TokenView::Open(tag) => {
            if values.contains(tag.name) && !tag.self_closing {
                lemma_close_extent(bytes, close_prefix(tag.name), regions, tag.after);
                if let Some(extent) = close_extent(
                    bytes,
                    close_prefix(tag.name),
                    regions,
                    tag.after,
                ) {
                    lemma_body_advances(
                        bytes,
                        extent.1,
                        text_after(text, bytes.subrange(tag.after, extent.0)),
                        close,
                        values,
                        regions,
                    );
                }
            } else {
                lemma_body_advances(bytes, tag.after, text, close, values, regions);
            }
        },
    }
}

/// A piece of markup in a row ends past `cur`.
pub proof fn lemma_child_advances<S: ColumnarSink>(
    bytes: Seq<u8>,
    cur: int,
    row_tag: Seq<u8>,
    regions: Seq<(int, int)>,
    m: S::Model,
)
    requires
        0 <= cur,
    ensures
        child_flow::<S>(bytes, cur, row_tag, regions, m).0 matches ChildFlowView::Continue(next)
            ==> cur < next && bytes_left(bytes, next) < bytes_left(bytes, cur),
{
    lemma_token_advances(bytes, cur, regions);
    if let TokenView::Open(tag) = token(bytes, cur, regions) {
        lemma_close_extent(bytes, close_prefix(encode_utf8("Field"@)), regions, tag.after);
        lemma_close_extent(bytes, close_prefix(encode_utf8("Text"@)), regions, tag.after);
        lemma_body_advances(
            bytes,
            tag.after,
            Seq::empty(),
            encode_utf8("Field"@),
            field_values(),
            regions,
        );
        lemma_body_advances(
            bytes,
            tag.after,
            Seq::empty(),
            encode_utf8("Text"@),
            seq![encode_utf8("TextValue"@)],
            regions,
        );
    }
}

/// Scans the body of an element from `from` on, up to its close tag, for its text.
fn scan_element_body(
    bytes: &[u8],
    from: usize,
    close: &[u8],
    values: &[&[u8]],
    regions: &[Range<usize>],
) -> (end: Option<(String, usize)>)
    requires
        from <= bytes@.len(),
        spans_fit(spans(regions@), bytes@.len() as int),
    ensures
        match (
            end,
            element_body(
                bytes@,
                from as int,
                Seq::empty(),
                close@,
                byte_strings(values@),
                spans(regions@),
            ),
        ) {
            (Some(e), Some(view)) => e.0@ == view.0 && e.1 == view.1 && from < e.1 <= bytes@.len(),
            (None, None) => true,
            _ => false,
        },
{
    let len: usize = bytes.len();
    let mut text: String = String::new();
    let mut cur: usize = from;
    let ghost wanted = element_body(
        bytes@,
        from as int,
        Seq::empty(),
        close@,
        byte_strings(values@),
        spans(regions@),
    );
    proof {
        lemma_body_advances(
            bytes@,
            from as int,
            Seq::empty(),
            close@,
            byte_strings(values@),
            spans(regions@),
        );
    }
    loop
        invariant
            len == bytes@.len(),
            from <= cur <= bytes@.len(),
            spans_fit(spans(regions@), bytes@.len() as int),
            wanted == element_body(
                bytes@,
                cur as int,
                text@,
                close@,
                byte_strings(values@),
                spans(regions@),
            ),
            wanted matches Some(end) ==> from < end.1 <= bytes@.len(),
            wanted == element_body(
                bytes@,
                from as int,
                Seq::empty(),
                close@,
                byte_strings(values@),
                spans(regions@),
            ),
        decreases bytes@.len() - cur,
    {
        match next_token(bytes, cur, regions) {
            Token::End => {
                return None;
            },
            Token::Skip(next) => {
                cur = next;
            },
            Token::Close(name, after) => {
                if same_bytes(name, close) {
                    return Some((text, after));
                }
                cur = after;
            },
            Token::Open(tag) => {
                if is_one_of(tag.name, values) && !tag.self_closing {
                    let prefix = close_prefix_of(tag.name);
                    let start: usize = tag.after();
                    match raw_text_until(bytes, start, &prefix, regions) {
                        Some((raw, after)) => {
                            proof {
                                lemma_close_extent(bytes@, prefix@, spans(regions@), start as int);
                            }
                            assign_text(&mut text, raw);
                            cur = after;
                        },
                        None => {
                            return None;
                        },
                    }
                } else {
                    cur = tag.after();
                }
            },
        }
    }
}

/// Handles an element with the key `key`: skips it where the sink takes no values or drops the
/// field, else delivers its text. A self-closing element has no body.
fn scan_element<S: ColumnarSink>(
    bytes: &[u8],
    open: &OpenTag<'_>,
    key: &str,
    close: &[u8],
    values: &[&[u8]],
    regions: &[Range<usize>],
    sink: &mut S,
) -> (flow: Flow)
    requires
        open.fits(bytes@),
        spans_fit(spans(regions@), bytes@.len() as int),
    ensures
        (flow@, final(sink).model()) == element_flow::<S>(
            bytes@,
            open.seen_in(bytes@),
            key@,
            close@,
            byte_strings(values@),
            spans(regions@),
            old(sink).model(),
        ),
        flow matches Flow::At(next) ==> open.gt < next <= bytes@.len(),
{
    let len: usize = bytes.len();
    let takes = sink.needs_value();
    if !takes && sink.needs_resolve() {
        if sink.wants(key) {
            let _ = sink.resolve(key);
        }
    }
    let skipped = !takes || sink.resolve(key).is_none();
    if open.self_closing {
        if !skipped {
            sink.resolve_and_put(key, "");
        }
        assert(""@ =~= Seq::<char>::empty()) by {
            reveal_strlit("");
        }
        return Flow::At(open.after());
    }
    if skipped {
        let prefix = close_prefix_of(close);
        return match find_close_after(bytes, open.after(), &prefix, regions) {
            Some(after) => Flow::At(after),
            None => Flow::Truncated,
        };
    }
    match scan_element_body(bytes, open.after(), close, values, regions) {
        Some((text, after)) => {
            sink.resolve_and_put(key, text.as_str());
            Flow::At(after)
        },
        None => Flow::Truncated,
    }
}

/// Handles one `<Field>` element.
pub fn field_element<S: ColumnarSink>(
    bytes: &[u8],
    open: &OpenTag<'_>,
    regions: &[Range<usize>],
    sink: &mut S,
) -> (flow: Flow)
    requires
        open.fits(bytes@),
        spans_fit(spans(regions@), bytes@.len() as int),
    ensures
        (flow@, final(sink).model()) == field_flow::<S>(
            bytes@,
            open.seen_in(bytes@),
            spans(regions@),
            old(sink).model(),
        ),
        flow matches Flow::At(next) ==> open.gt < next <= bytes@.len(),
{
    let keys: [&[u8]; 2] = ["FieldName".as_bytes(), "Name".as_bytes()];
    let values: [&[u8]; 2] = ["FormattedValue".as_bytes(), "Value".as_bytes()];
    assert(byte_strings(keys@) =~= field_keys());
    assert(byte_strings(values@) =~= field_values());
    let key: String = match find_attr_value(open.interior(bytes), &keys) {
        Ok(Some(raw)) => decode_attr(raw),
        Ok(None) => "Field".to_owned(),
        Err(_) => {
            return Flow::Recover;
        },
    };
    scan_element(bytes, open, key.as_str(), "Field".as_bytes(), &values, regions, sink)
}

/// Handles one `<Text>` element.
pub fn text_element<S: ColumnarSink>(
    bytes: &[u8],
    open: &OpenTag<'_>,
    regions: &[Range<usize>],
    sink: &mut S,
) -> (flow: Flow)
    requires
        open.fits(bytes@),
        spans_fit(spans(regions@), bytes@.len() as int),
    ensures
        (flow@, final(sink).model()) == text_flow::<S>(
            bytes@,
            open.seen_in(bytes@),
            spans(regions@),
            old(sink).model(),
        ),
        flow matches Flow::At(next) ==> open.gt < next <= bytes@.len(),
{
    let keys: [&[u8]; 1] = ["Name".as_bytes()];
    let values: [&[u8]; 1] = ["TextValue".as_bytes()];
    assert(byte_strings(keys@) =~= seq![encode_utf8("Name"@)]);
    assert(byte_strings(values@) =~= seq![encode_utf8("TextValue"@)]);
    let key: String = match find_attr_value(open.interior(bytes), &keys) {
        Ok(Some(raw)) => decode_attr(raw),
        Ok(None) => "Text".to_owned(),
        Err(_) => {
            return Flow::Recover;
        },
    };
    scan_element(bytes, open, key.as_str(), "Text".as_bytes(), &values, regions, sink)
}

/// Delivers the `Section` field of a `<Section>` element.
pub fn section_element<S: ColumnarSink>(bytes: &[u8], open: &OpenTag<'_>, sink: &mut S) -> (flow:
    Flow)
    requires
        open.fits(bytes@),
    ensures
        (flow@, final(sink).model()) == section_flow::<S>(
            open.seen_in(bytes@),
            old(sink).model(),
        ),
        flow matches Flow::At(next) ==> next == open.gt + 1,
{
    let len: usize = bytes.len();
    let keys: [&[u8]; 1] = ["SectionNumber".as_bytes()];
    assert(byte_strings(keys@) =~= seq![encode_utf8("SectionNumber"@)]);
    let number: String = match find_attr_value(open.interior(bytes), &keys) {
        Ok(Some(raw)) => decode_attr(raw),
        Ok(None) => String::new(),
        Err(_) => {
            return Flow::Recover;
        },
    };
    sink.resolve_and_put("Section", number.as_str());
    Flow::At(open.after())
}

/// Delivers every attribute of an open tag as a field. Returns whether one is malformed.
pub fn emit_all_attrs<S: ColumnarSink>(bytes: &[u8], open: &OpenTag<'_>, sink: &mut S) -> (bad:
    bool)
    requires
        open.fits(bytes@),
    ensures
        (final(sink).model(), bad) == with_attrs::<S>(
            open.seen_in(bytes@).interior,
            old(sink).model(),
        ),
{
    let interior = open.interior(bytes);
    let mut attrs = AttrIter::new(interior);
    loop
        invariant
            with_attrs::<S>(open.seen_in(bytes@).interior, old(sink).model()) == with_attrs::<S>(
                attrs.left(),
                sink.model(),
            ),
        decreases attrs.left().len(),
    {
        proof {
            lemma_attr_step(attrs.left());
        }
        match attrs.next() {
            None => {
                return false;
            },
            Some(Err(_)) => {
                return true;
            },
            Some(Ok((key_raw, value_raw))) => {
                let key = decode_attr(key_raw);
                let value = decode_attr(value_raw);
                sink.resolve_and_put(key.as_str(), value.as_str());
            },
        }
    }
}

/// Handles the next piece of markup in a row.
pub fn scan_child<S: ColumnarSink>(
    bytes: &[u8],
    cur: usize,
    row_tag: &[u8],
    regions: &[Range<usize>],
    sink: &mut S,
) -> (flow: ChildFlow)
    requires
        cur <= bytes@.len(),
        spans_fit(spans(regions@), bytes@.len() as int),
    ensures
        (flow@, final(sink).model()) == child_flow::<S>(
            bytes@,
            cur as int,
            row_tag@,
            spans(regions@),
            old(sink).model(),
        ),
        flow matches ChildFlow::Continue(next) ==> cur < next <= bytes@.len(),
        flow matches ChildFlow::RowEnd(after) ==> cur < after <= bytes@.len(),
{
    let len: usize = bytes.len();
    match next_token(bytes, cur, regions) {
        Token::End => ChildFlow::Truncated,
        Token::Skip(next) => ChildFlow::Continue(next),
        Token::Close(name, after) => if same_bytes(name, row_tag) {
            ChildFlow::RowEnd(after)
        } else {
            ChildFlow::Continue(after)
        },
        Token::Open(tag) => {
            if same_bytes(tag.name, "Field".as_bytes()) {
                lift(field_element(bytes, &tag, regions, sink))
            } else if same_bytes(tag.name, "Text".as_bytes()) {
                lift(text_element(bytes, &tag, regions, sink))
            } else if same_bytes(tag.name, "Section".as_bytes()) {
                lift(section_element(bytes, &tag, sink))
            } else {
                let name = utf8_text(tag.name);
                let empty = String::new();
                sink.resolve_and_put(name.as_str(), empty.as_str());
                ChildFlow::Continue(tag.after())
            }
        },
    }
}

/// Parses the row that starts with the `<` at `lt`.
pub fn parse_row<S: ColumnarSink>(
    bytes: &[u8],
    lt: usize,
    row_tag: &[u8],
    regions: &[Range<usize>],
    sink: &mut S,
) -> (flow: Flow)
    requires
        lt < bytes@.len(),
        bytes@[lt as int] == LT,
        spans_fit(spans(regions@), bytes@.len() as int),
    ensures
        (flow@, final(sink).model()) == row_flow::<S>(
            bytes@,
            lt as int,
            row_tag@,
            spans(regions@),
            old(sink).model(),
        ),
        flow matches Flow::At(next) ==> lt < next <= bytes@.len(),
{
    let len: usize = bytes.len();
    let open = match scan_open_tag(bytes, lt) {
        Some(open) => open,
        None => {
            return Flow::Truncated;
        },
    };
    sink.begin_row();
    if emit_all_attrs(bytes, &open, sink) {
        return Flow::Recover;
    }
    if open.self_closing {
        sink.end_row();
        return Flow::At(open.after());
    }
    let mut cur: usize = open.after();
    loop
        invariant
            lt < cur <= bytes@.len(),
            spans_fit(spans(regions@), bytes@.len() as int),
            row_flow::<S>(bytes@, lt as int, row_tag@, spans(regions@), old(sink).model())
                == children_flow::<S>(
                bytes@,
                cur as int,
                row_tag@,
                spans(regions@),
                sink.model(),
            ),
        decreases bytes@.len() - cur,
    {
        match scan_child(bytes, cur, row_tag, regions, sink) {
            ChildFlow::Continue(next) => {
                cur = next;
            },
            ChildFlow::RowEnd(after) => {
                sink.end_row();
                return Flow::At(after);
            },
            ChildFlow::Truncated => {
                return Flow::Truncated;
            },
            ChildFlow::Recover => {
                return Flow::Recover;
            },
        }
        if sink.row_rejected() {
            let prefix = close_prefix_of(row_tag);
            return match find_close_after(bytes, cur, &prefix, regions) {
                Some(after) => {
                    sink.end_row();
                    Flow::At(after)
                },
                None => Flow::Truncated,
            };
        }
    }
}

/// Scans a chunk and delivers its rows to `sink`. No chunk is refused.
pub fn scan_chunk<S: ColumnarSink>(bytes: &[u8], row_tag: &[u8], sink: &mut S) -> (done: Result<
    (),
    Error,
>)
    ensures
        done is Ok,
        final(sink).model() == chunk_flow::<S>(bytes@, row_tag@, old(sink).model()),
{
    let len: usize = bytes.len();
    let regions = find_special_regions(bytes).0;
    let mut pos: usize = 0;
    proof {
        lemma_ordered_spans_fit(spans(regions@), 0, bytes@.len() as int);
    }
    loop
        invariant
            len == bytes@.len(),
            pos <= len,
            spans(regions@) == special_spans(bytes@, 0),
            spans_fit(spans(regions@), bytes@.len() as int),
            chunk_flow::<S>(bytes@, row_tag@, old(sink).model()) == rows_flow::<S>(
                bytes@,
                pos as int,
                row_tag@,
                spans(regions@),
                sink.model(),
            ),
        decreases len - pos,
    {
        proof {
            lemma_next_row(bytes@, row_tag@, spans(regions@), pos as int);
        }
        match next_row_start(bytes, pos, row_tag, &regions) {
            Some(start) => {
                match parse_row(bytes, start, row_tag, &regions, sink) {
                    Flow::At(next) => {
                        pos = if next > start + 1 {
                            next
                        } else {
                            start + 1
                        };
                    },
                    Flow::Truncated => {
                        return Ok(());
                    },
                    Flow::Recover => {
                        pos = start + 1;
                    },
                }
            },
            None => {
                return Ok(());
            },
        }
    }
}

/// Scans the first whole row at or after `from` and delivers it to `sink`. Returns where the scan
/// goes on, or nothing where the rows run out or the input cuts a row off.
pub fn scan_one_row<S: ColumnarSink>(
    bytes: &[u8],
    from: usize,
    row_tag: &[u8],
    regions: &[Range<usize>],
    sink: &mut S,
) -> (next: Option<usize>)
    requires
        spans_fit(spans(regions@), bytes@.len() as int),
    ensures
        (offset(next), final(sink).model()) == one_row_flow::<S>(
            bytes@,
            from as int,
            row_tag@,
            spans(regions@),
            old(sink).model(),
        ),
        next matches Some(n) ==> from < n <= bytes@.len(),
{
    let len: usize = bytes.len();
    let mut pos: usize = from;
    loop
        invariant
            len == bytes@.len(),
            from <= pos,
            spans_fit(spans(regions@), bytes@.len() as int),
            one_row_flow::<S>(bytes@, from as int, row_tag@, spans(regions@), old(sink).model())
                == one_row_flow::<S>(
                bytes@,
                pos as int,
                row_tag@,
                spans(regions@),
                sink.model(),
            ),
        decreases bytes_left(bytes@, pos as int),
    {
        proof {
            lemma_next_row(bytes@, row_tag@, spans(regions@), pos as int);
        }
        let start: usize = match next_row_start(bytes, pos, row_tag, regions) {
            Some(start) => start,
            None => {
                return None;
            },
        };
        match parse_row(bytes, start, row_tag, regions, sink) {
            Flow::At(next) => {
                return Some(
                    if next > start + 1 {
                        next
                    } else {
                        start + 1
                    },
                );
            },
            Flow::Truncated => {
                return None;
            },
            Flow::Recover => {
                pos = start + 1;
            },
        }
    }
}

/// How a field starts.
pub const FIELD_OPEN: [u8; 6] = [0x3c, 0x46, 0x69, 0x65, 0x6c, 0x64];

/// How many fields open in a region.
pub fn count_field_openings(region: &[u8]) -> (count: u64)
    ensures
        count == occurrences(region@, FIELD_OPEN@, 0),
{
    count_matches(region, &FIELD_OPEN) as u64
}

/// Spans in order fit the input that they are ordered in.
pub proof fn lemma_ordered_spans_fit(spans: Seq<(int, int)>, lo: int, hi: int)
    requires
        ordered_spans(spans, lo, hi),
    ensures
        spans_fit(spans, hi),
{
    assert forall|k: int| 0 <= k < spans.len() implies (#[trigger] spans[k]).1 <= hi by {}
}

} // verus!
