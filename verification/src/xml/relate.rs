//! Two sinks that take the same rows: what relates them after each event relates them at the end.

use vstd::prelude::*;
use vstd::utf8::encode_utf8;

use crate::markup::{lemma_next_row, next_row};
use crate::text::{decoded, plain_text};
use crate::xml::scanner::{
    child_flow, children_flow, chunk_flow, element_flow, field_keys, field_values,
    lemma_child_advances, past_row, row_flow, rows_flow, with_attrs, ChildFlowView, FlowView,
};
use crate::xml::sink::ColumnarSink;
use crate::xml::splitter::special_spans;
use crate::xml::tokens::{
    attr_step, attr_value, bytes_left, lemma_attr_step, lemma_open_tag_bounds, open_tag, token,
    AttrStep, OpenTagView, TokenView,
};

verus! {

/// Each event takes related sinks to related sinks: `before` relates them between rows, `within`
/// in a row and `after` at the end of a row. Sinks that are related in a row agree on what they
/// take.
pub open spec fn keeps_related<S: ColumnarSink, T: ColumnarSink>(
    before: spec_fn(S::Model, T::Model) -> bool,
    within: spec_fn(S::Model, T::Model) -> bool,
    after: spec_fn(S::Model, T::Model) -> bool,
) -> bool {
    &&& forall|m: S::Model, n: T::Model|
        #![trigger before(m, n), S::begun(m)]
        before(m, n) ==> within(S::begun(m), T::begun(n))
    &&& forall|m: S::Model, n: T::Model, name: Seq<char>, value: Seq<char>|
        #![trigger within(m, n), S::with_field(m, name, value)]
        within(m, n) ==> within(S::with_field(m, name, value), T::with_field(n, name, value))
    &&& forall|m: S::Model, n: T::Model|
        #![trigger within(m, n), S::ended(m)]
        within(m, n) ==> after(S::ended(m), T::ended(n))
    &&& forall|m: S::Model, n: T::Model| #[trigger]
        within(m, n) ==> S::rejects(m) == T::rejects(n) && S::takes_values(m) == T::takes_values(n)
    &&& forall|m: S::Model, n: T::Model, name: Seq<char>|
        #![trigger within(m, n), S::resolved(m, name)]
        within(m, n) ==> (S::resolved(m, name) is None) == (T::resolved(n, name) is None)
}

proof fn lemma_related_attrs<S: ColumnarSink, T: ColumnarSink>(
    before: spec_fn(S::Model, T::Model) -> bool,
    within: spec_fn(S::Model, T::Model) -> bool,
    after: spec_fn(S::Model, T::Model) -> bool,
    interior: Seq<u8>,
    m: S::Model,
    n: T::Model,
)
    requires
        keeps_related::<S, T>(before, within, after),
        within(m, n),
    ensures
        with_attrs::<S>(interior, m).1 == with_attrs::<T>(interior, n).1,
        within(with_attrs::<S>(interior, m).0, with_attrs::<T>(interior, n).0),
    decreases interior.len(),
{
    if let AttrStep::Pair { key, value, rest } = attr_step(interior) {
        lemma_attr_step(interior);
        let m2 = S::with_field(m, decoded(key), decoded(value));
        let n2 = T::with_field(n, decoded(key), decoded(value));
        assert(within(m2, n2));
        lemma_related_attrs::<S, T>(before, within, after, rest, m2, n2);
    }
}

proof fn lemma_related_element<S: ColumnarSink, T: ColumnarSink>(
    before: spec_fn(S::Model, T::Model) -> bool,
    within: spec_fn(S::Model, T::Model) -> bool,
    after: spec_fn(S::Model, T::Model) -> bool,
    bytes: Seq<u8>,
    tag: OpenTagView,
    key: Seq<char>,
    close: Seq<u8>,
    values: Seq<Seq<u8>>,
    regions: Seq<(int, int)>,
    m: S::Model,
    n: T::Model,
)
    requires
        keeps_related::<S, T>(before, within, after),
        within(m, n),
    ensures
        ({
            let s = element_flow::<S>(bytes, tag, key, close, values, regions, m);
            let t = element_flow::<T>(bytes, tag, key, close, values, regions, n);
            s.0 == t.0 && within(s.1, t.1)
        }),
{
    assert((S::resolved(m, key) is None) == (T::resolved(n, key) is None));
    if let Some(end) = crate::xml::scanner::element_body(
        bytes,
        tag.after,
        Seq::empty(),
        close,
        values,
        regions,
    ) {
        assert(within(S::with_field(m, key, end.0), T::with_field(n, key, end.0)));
    }
}

proof fn lemma_related_child<S: ColumnarSink, T: ColumnarSink>(
    before: spec_fn(S::Model, T::Model) -> bool,
    within: spec_fn(S::Model, T::Model) -> bool,
    after: spec_fn(S::Model, T::Model) -> bool,
    bytes: Seq<u8>,
    cur: int,
    row_tag: Seq<u8>,
    regions: Seq<(int, int)>,
    m: S::Model,
    n: T::Model,
)
    requires
        keeps_related::<S, T>(before, within, after),
        within(m, n),
    ensures
        ({
            let s = child_flow::<S>(bytes, cur, row_tag, regions, m);
            let t = child_flow::<T>(bytes, cur, row_tag, regions, n);
            s.0 == t.0 && within(s.1, t.1)
        }),
{
    if let TokenView::Open(tag) = token(bytes, cur, regions) {
        let field_key = match attr_value(tag.interior, field_keys()) {
            Ok(Some(v)) => decoded(v),
            _ => "Field"@,
        };
        lemma_related_element::<S, T>(
            before,
            within,
            after,
            bytes,
            tag,
            field_key,
            encode_utf8("Field"@),
            field_values(),
            regions,
            m,
            n,
        );
        let text_key = match attr_value(tag.interior, seq![encode_utf8("Name"@)]) {
            Ok(Some(v)) => decoded(v),
            _ => "Text"@,
        };
        lemma_related_element::<S, T>(
            before,
            within,
            after,
            bytes,
            tag,
            text_key,
            encode_utf8("Text"@),
            seq![encode_utf8("TextValue"@)],
            regions,
            m,
            n,
        );
        let number = match attr_value(tag.interior, seq![encode_utf8("SectionNumber"@)]) {
            Ok(Some(v)) => decoded(v),
            _ => Seq::empty(),
        };
        assert(within(
            S::with_field(m, "Section"@, number),
            T::with_field(n, "Section"@, number),
        ));
        let name = plain_text(tag.name);
        assert(within(
            S::with_field(m, name, Seq::empty()),
            T::with_field(n, name, Seq::empty()),
        ));
    }
}

proof fn lemma_related_children<S: ColumnarSink, T: ColumnarSink>(
    before: spec_fn(S::Model, T::Model) -> bool,
    within: spec_fn(S::Model, T::Model) -> bool,
    after: spec_fn(S::Model, T::Model) -> bool,
    bytes: Seq<u8>,
    cur: int,
    row_tag: Seq<u8>,
    regions: Seq<(int, int)>,
    m: S::Model,
    n: T::Model,
)
    requires
        keeps_related::<S, T>(before, within, after),
        within(m, n),
        0 <= cur,
    ensures
        ({
            let s = children_flow::<S>(bytes, cur, row_tag, regions, m);
            let t = children_flow::<T>(bytes, cur, row_tag, regions, n);
            s.0 == t.0 && if s.0 is At {
                after(s.1, t.1)
            } else {
                within(s.1, t.1)
            }
        }),
    decreases bytes_left(bytes, cur),
{
    lemma_child_advances::<S>(bytes, cur, row_tag, regions, m);
    lemma_related_child::<S, T>(before, within, after, bytes, cur, row_tag, regions, m, n);
    let s = child_flow::<S>(bytes, cur, row_tag, regions, m);
    let t = child_flow::<T>(bytes, cur, row_tag, regions, n);
    assert(within(s.1, t.1));
    if let ChildFlowView::Continue(next) = s.0 {
        if !S::rejects(s.1) {
            lemma_related_children::<S, T>(
                before,
                within,
                after,
                bytes,
                next,
                row_tag,
                regions,
                s.1,
                t.1,
            );
        }
    }
}

/// A row takes sinks that are related before it to sinks that are related after it, and ends alike
/// for both. A row that is cut off or malformed leaves them related in a row, or as they were.
pub proof fn lemma_related_row<S: ColumnarSink, T: ColumnarSink>(
    before: spec_fn(S::Model, T::Model) -> bool,
    within: spec_fn(S::Model, T::Model) -> bool,
    after: spec_fn(S::Model, T::Model) -> bool,
    bytes: Seq<u8>,
    lt: int,
    row_tag: Seq<u8>,
    regions: Seq<(int, int)>,
    m: S::Model,
    n: T::Model,
)
    requires
        keeps_related::<S, T>(before, within, after),
        before(m, n),
        0 <= lt < bytes.len(),
    ensures
        ({
            let s = row_flow::<S>(bytes, lt, row_tag, regions, m);
            let t = row_flow::<T>(bytes, lt, row_tag, regions, n);
            s.0 == t.0 && if s.0 is At {
                after(s.1, t.1)
            } else {
                within(s.1, t.1) || before(s.1, t.1)
            }
        }),
{
    lemma_open_tag_bounds(bytes, lt);
    if let Some(open) = open_tag(bytes, lt) {
        assert(within(S::begun(m), T::begun(n)));
        lemma_related_attrs::<S, T>(
            before,
            within,
            after,
            open.interior,
            S::begun(m),
            T::begun(n),
        );
        let s = with_attrs::<S>(open.interior, S::begun(m));
        let t = with_attrs::<T>(open.interior, T::begun(n));
        if !s.1 && !open.self_closing {
            lemma_related_children::<S, T>(
                before,
                within,
                after,
                bytes,
                open.after,
                row_tag,
                regions,
                s.0,
                t.0,
            );
        }
    }
}

/// Rows take related sinks to related sinks.
pub proof fn lemma_related_rows<S: ColumnarSink, T: ColumnarSink>(
    before: spec_fn(S::Model, T::Model) -> bool,
    within: spec_fn(S::Model, T::Model) -> bool,
    bytes: Seq<u8>,
    pos: int,
    row_tag: Seq<u8>,
    regions: Seq<(int, int)>,
    m: S::Model,
    n: T::Model,
)
    requires
        keeps_related::<S, T>(before, within, before),
        forall|m: S::Model, n: T::Model| #[trigger] within(m, n) ==> before(m, n),
        before(m, n),
        0 <= pos,
    ensures
        before(
            rows_flow::<S>(bytes, pos, row_tag, regions, m),
            rows_flow::<T>(bytes, pos, row_tag, regions, n),
        ),
    decreases bytes_left(bytes, pos),
{
    lemma_next_row(bytes, row_tag, regions, pos);
    if let Some(start) = next_row(bytes, row_tag, regions, pos) {
        lemma_related_row::<S, T>(before, within, before, bytes, start, row_tag, regions, m, n);
        let s = row_flow::<S>(bytes, start, row_tag, regions, m);
        let t = row_flow::<T>(bytes, start, row_tag, regions, n);
        match s.0 {
            FlowView::At(next) => {
                lemma_related_rows::<S, T>(
                    before,
                    within,
                    bytes,
                    past_row(start, next),
                    row_tag,
                    regions,
                    s.1,
                    t.1,
                );
            },
            FlowView::Truncated => {},
            FlowView::Recover => {
                lemma_related_rows::<S, T>(
                    before,
                    within,
                    bytes,
                    start + 1,
                    row_tag,
                    regions,
                    s.1,
                    t.1,
                );
            },
        }
    }
}

/// Two sinks that are related before a chunk are related after it, where each event keeps them
/// related.
pub proof fn related_after_chunk<S: ColumnarSink, T: ColumnarSink>(
    before: spec_fn(S::Model, T::Model) -> bool,
    within: spec_fn(S::Model, T::Model) -> bool,
    bytes: Seq<u8>,
    row_tag: Seq<u8>,
    m: S::Model,
    n: T::Model,
)
    requires
        keeps_related::<S, T>(before, within, before),
        forall|m: S::Model, n: T::Model| #[trigger] within(m, n) ==> before(m, n),
        before(m, n),
    ensures
        before(chunk_flow::<S>(bytes, row_tag, m), chunk_flow::<T>(bytes, row_tag, n)),
{
    lemma_related_rows::<S, T>(
        before,
        within,
        bytes,
        0,
        row_tag,
        special_spans(bytes, 0),
        m,
        n,
    );
}

} // verus!
