//! What the events of a document are read as: its rows, each with the fields that it holds, in a
//! table that gives them back.

use vstd::prelude::*;
use vstd::utf8::{encode_utf8, encode_utf8_decode_utf8, encode_utf8_valid_utf8, valid_utf8};

use crate::chunked::{lemma_finished_reads, lemma_put_reads, reading, typed};
use crate::columnar::EngineView;
use crate::events::{is_text, readable, tag_attributes, value_text, AttrView, EventView};
use crate::laws::{aligned, even, lemma_column, stored};
use crate::parse::{one_row_leniently, parse_rows, with_attrs, with_attrs_leniently, ParseEnd};
use crate::plan::PlanView;
use crate::reading::{
    children_events, gives, lemma_one_before, row_is_read_as_its_fields,
    row_that_is_cut_off_ends_there, stands_in_row, tag_event, with_fields, with_one, Child,
};
use crate::text::plain_text;

verus! {

/// The attributes give these fields, one each: the names are the keys, and the texts the values.
pub open spec fn attrs_give(
    attrs: Seq<AttrView>,
    fields: Seq<Option<(Seq<char>, Seq<char>)>>,
) -> bool {
    &&& attrs.len() == fields.len()
    &&& forall|i: int|
        0 <= i < attrs.len() ==> (#[trigger] attrs[i] matches AttrView::Pair { key, value }
            && fields[i] matches Some(f) && key == encode_utf8(f.0) && value_text(value) == Ok::<
            Seq<char>,
            Seq<char>,
        >(f.1))
}

/// The attributes of a row are read as the fields that they give, in their order, whether errors
/// are passed over or not.
pub proof fn attributes_are_read_as_fields(
    attrs: Seq<AttrView>,
    fields: Seq<Option<(Seq<char>, Seq<char>)>>,
    m: EngineView,
)
    requires
        attrs_give(attrs, fields),
    ensures
        with_attrs(attrs, m) == (with_fields(m, fields), None::<Seq<char>>),
        with_attrs_leniently(attrs, m) == with_fields(m, fields),
    decreases attrs.len(),
{
    if attrs.len() > 0 {
        let tail = attrs.drop_first();
        let more = fields.drop_first();
        assert(attrs[0] is Pair);
        assert forall|i: int| 0 <= i < tail.len() implies (#[trigger] tail[i] matches AttrView::Pair {
            key,
            value,
        } && more[i] matches Some(f) && key == encode_utf8(f.0) && value_text(value) == Ok::<
            Seq<char>,
            Seq<char>,
        >(f.1)) by {
            assert(tail[i] == attrs[i + 1]);
            assert(more[i] == fields[i + 1]);
        }
        let f = fields[0]->0;
        encode_utf8_valid_utf8(f.0);
        encode_utf8_decode_utf8(f.0);
        attributes_are_read_as_fields(tail, more, m.put(f.0, Some(f.1)));
    }
}

/// The first attribute of a row that is broken or cannot be read ends the reading with its message;
/// the fields before it have arrived. Where errors are passed over, a broken one gives no field,
/// and one that cannot be read an empty one.
pub proof fn bad_attribute_is_an_error(
    attrs: Seq<AttrView>,
    fields: Seq<Option<(Seq<char>, Seq<char>)>>,
    bad: AttrView,
    rest: Seq<AttrView>,
    message: Seq<char>,
    m: EngineView,
)
    requires
        attrs_give(attrs, fields),
        match bad {
            AttrView::Pair { value, .. } => value_text(value) == Err::<Seq<char>, Seq<char>>(
                message,
            ),
            AttrView::Broken { message: said } => said == message,
        },
    ensures
        with_attrs(attrs + (seq![bad] + rest), m) == (with_fields(m, fields), Some(message)),
        bad is Broken ==> with_attrs_leniently(attrs + (seq![bad] + rest), m)
            == with_attrs_leniently(rest, with_fields(m, fields)),
        bad matches AttrView::Pair { key, value } ==> with_attrs_leniently(
            attrs + (seq![bad] + rest),
            m,
        ) == with_attrs_leniently(
            rest,
            with_fields(m, fields).put(plain_text(key), Some(Seq::empty())),
        ),
    decreases attrs.len(),
{
    let all = attrs + (seq![bad] + rest);
    if attrs.len() > 0 {
        let tail = attrs.drop_first();
        let more = fields.drop_first();
        assert(attrs[0] is Pair);
        assert forall|i: int| 0 <= i < tail.len() implies (#[trigger] tail[i] matches AttrView::Pair {
            key,
            value,
        } && more[i] matches Some(f) && key == encode_utf8(f.0) && value_text(value) == Ok::<
            Seq<char>,
            Seq<char>,
        >(f.1)) by {
            assert(tail[i] == attrs[i + 1]);
            assert(more[i] == fields[i + 1]);
        }
        let f = fields[0]->0;
        encode_utf8_valid_utf8(f.0);
        encode_utf8_decode_utf8(f.0);
        assert(all.drop_first() =~= tail + (seq![bad] + rest));
        assert(all[0] == attrs[0]);
        bad_attribute_is_an_error(tail, more, bad, rest, message, m.put(f.0, Some(f.1)));
    } else {
        assert(all =~= seq![bad] + rest);
        assert(all.drop_first() =~= rest);
        assert(all[0] == bad);
    }
}

/// A row in a document, with what stands before it, and the fields that its attributes and its
/// parts give.
pub struct RowParts {
    pub before: Seq<EventView>,
    pub raw: Seq<u8>,
    pub empty: bool,
    pub children: Seq<Child>,
    pub attrs: Seq<Option<(Seq<char>, Seq<char>)>>,
    pub fields: Seq<Option<(Seq<char>, Seq<char>)>>,
}

/// The event may stand between rows.
pub open spec fn between_rows(event: EventView, row_tag: Seq<u8>) -> bool {
    is_text(event) && match event {
        EventView::Start { name, .. } => name != row_tag,
        EventView::Empty { name, .. } => name != row_tag,
        EventView::Failed { .. } => false,
        EventView::Eof => false,
        _ => true,
    }
}

/// The row is whole, and it gives its fields.
pub open spec fn row_is_whole(row: RowParts, row_tag: Seq<u8>) -> bool {
    &&& valid_utf8(row_tag + row.raw)
    &&& forall|i: int|
        0 <= i < row.before.len() ==> between_rows(#[trigger] row.before[i], row_tag)
    &&& attrs_give(tag_attributes(row_tag, row.raw), row.attrs)
    &&& row.children.len() == row.fields.len()
    &&& forall|i: int|
        0 <= i < row.children.len() ==> stands_in_row(#[trigger] row.children[i], row_tag)
    &&& forall|i: int|
        0 <= i < row.children.len() ==> gives(#[trigger] row.children[i], false, row.fields[i])
    &&& row.empty ==> row.children.len() == 0
}

/// The events of the row itself; `later` comes after it.
pub open spec fn row_itself(row: RowParts, row_tag: Seq<u8>, later: Seq<EventView>) -> Seq<
    EventView,
> {
    seq![tag_event(row_tag, row.raw, row.empty)] + (if row.empty {
        later
    } else {
        children_events(row.children, seq![EventView::End { name: row_tag }] + later)
    })
}

/// The events of rows, one after the other; `later` comes after them.
pub open spec fn rows_events(
    rows: Seq<RowParts>,
    row_tag: Seq<u8>,
    later: Seq<EventView>,
) -> Seq<EventView>
    decreases rows.len(),
{
    if rows.len() == 0 {
        later
    } else {
        rows[0].before + row_itself(
            rows[0],
            row_tag,
            rows_events(rows.drop_first(), row_tag, later),
        )
    }
}

/// The table after a row: its fields arrive, those of its attributes first, and it ends.
pub open spec fn with_row(m: EngineView, row: RowParts) -> EngineView {
    with_fields(with_fields(m, row.attrs), row.fields).finished()
}

/// The table after rows, one after the other.
pub open spec fn with_rows(m: EngineView, rows: Seq<RowParts>) -> EngineView
    decreases rows.len(),
{
    if rows.len() == 0 {
        m
    } else {
        with_rows(with_row(m, rows[0]), rows.drop_first())
    }
}

/// What stands between rows gives no field.
pub proof fn what_stands_between_rows_does_not_count(
    before: Seq<EventView>,
    row_tag: Seq<u8>,
    later: Seq<EventView>,
    m: EngineView,
)
    requires
        readable(later),
        forall|i: int| 0 <= i < before.len() ==> between_rows(#[trigger] before[i], row_tag),
    ensures
        readable(before + later),
        parse_rows(before + later, row_tag, m) == parse_rows(later, row_tag, m),
    decreases before.len(),
{
    if before.len() == 0 {
        assert(before + later =~= later);
    } else {
        let tail = before.drop_first();
        assert(between_rows(before[0], row_tag));
        assert forall|i: int| 0 <= i < tail.len() implies between_rows(
            #[trigger] tail[i],
            row_tag,
        ) by {
            assert(tail[i] == before[i + 1]);
        }
        what_stands_between_rows_does_not_count(tail, row_tag, later, m);
        lemma_one_before(before[0], tail + later);
        assert(before + later =~= seq![before[0]] + (tail + later));
    }
}

/// One row of a document is read as its fields, and then the rows after it are read.
proof fn lemma_row_itself(row: RowParts, row_tag: Seq<u8>, later: Seq<EventView>, m: EngineView)
    requires
        readable(later),
        row_is_whole(row, row_tag),
    ensures
        readable(row_itself(row, row_tag, later)),
        parse_rows(row_itself(row, row_tag, later), row_tag, m) == parse_rows(
            later,
            row_tag,
            with_row(m, row),
        ),
{
    let tag = tag_event(row_tag, row.raw, row.empty);
    let attrs = tag_attributes(row_tag, row.raw);
    let open = with_fields(m, row.attrs);
    attributes_are_read_as_fields(attrs, row.attrs, m);
    row_is_read_as_its_fields(row.children, row_tag, false, row.fields, later, open);
    if row.empty {
        lemma_one_before(tag, later);
    } else {
        let body = children_events(row.children, seq![EventView::End { name: row_tag }] + later);
        lemma_one_before(tag, body);
    }
}

/// A document is read as its rows: each gives the fields of its attributes and then those of its
/// parts, in their order, and counts once.
pub proof fn document_is_read_as_its_rows(
    rows: Seq<RowParts>,
    row_tag: Seq<u8>,
    later: Seq<EventView>,
    m: EngineView,
)
    requires
        readable(later),
        forall|i: int| 0 <= i < rows.len() ==> row_is_whole(#[trigger] rows[i], row_tag),
    ensures
        readable(rows_events(rows, row_tag, later)),
        parse_rows(rows_events(rows, row_tag, later), row_tag, m) == parse_rows(
            later,
            row_tag,
            with_rows(m, rows),
        ),
        later == seq![EventView::Eof] ==> parse_rows(rows_events(rows, row_tag, later), row_tag, m)
            == (ParseEnd::Done { m: with_rows(m, rows) }),
    decreases rows.len(),
{
    if rows.len() > 0 {
        let tail = rows.drop_first();
        assert forall|i: int| 0 <= i < tail.len() implies row_is_whole(
            #[trigger] tail[i],
            row_tag,
        ) by {
            assert(tail[i] == rows[i + 1]);
        }
        assert(row_is_whole(rows[0], row_tag));
        let rest = rows_events(tail, row_tag, later);
        document_is_read_as_its_rows(tail, row_tag, later, with_row(m, rows[0]));
        lemma_row_itself(rows[0], row_tag, rest, m);
        what_stands_between_rows_does_not_count(
            rows[0].before,
            row_tag,
            row_itself(rows[0], row_tag, rest),
            m,
        );
    }
}

/// A row that is read where errors are passed over gives its fields and counts once.
pub proof fn row_after_an_error_is_read_as_its_fields(
    raw: Seq<u8>,
    empty: bool,
    children: Seq<Child>,
    attrs: Seq<Option<(Seq<char>, Seq<char>)>>,
    fields: Seq<Option<(Seq<char>, Seq<char>)>>,
    row_tag: Seq<u8>,
    later: Seq<EventView>,
    m: EngineView,
)
    requires
        readable(later),
        valid_utf8(row_tag + raw),
        attrs_give(tag_attributes(row_tag, raw), attrs),
        children.len() == fields.len(),
        forall|i: int| 0 <= i < children.len() ==> stands_in_row(#[trigger] children[i], row_tag),
        forall|i: int| 0 <= i < children.len() ==> gives(#[trigger] children[i], true, fields[i]),
        empty ==> children.len() == 0,
    ensures
        ({
            let body = children_events(children, seq![EventView::End { name: row_tag }] + later);
            let events = seq![tag_event(row_tag, raw, empty)] + (if empty {
                later
            } else {
                body
            });
            one_row_leniently(events, row_tag, m) == (
                with_fields(with_fields(m, attrs), fields).finished(),
                true,
            )
        }),
{
    let tag = tag_event(row_tag, raw, empty);
    let open = with_fields(m, attrs);
    attributes_are_read_as_fields(tag_attributes(row_tag, raw), attrs, m);
    row_is_read_as_its_fields(children, row_tag, true, fields, later, open);
    if empty {
        lemma_one_before(tag, later);
    } else {
        let body = children_events(children, seq![EventView::End { name: row_tag }] + later);
        lemma_one_before(tag, body);
    }
}

/// A row that the document cuts off does not count, though its fields have arrived. An error in a
/// row ends the reading with its message; where errors are passed over, the row counts with the
/// fields before the error.
pub proof fn row_that_is_cut_off_does_not_count(
    raw: Seq<u8>,
    children: Seq<Child>,
    leniently: bool,
    attrs: Seq<Option<(Seq<char>, Seq<char>)>>,
    fields: Seq<Option<(Seq<char>, Seq<char>)>>,
    row_tag: Seq<u8>,
    message: Seq<char>,
    position: int,
    rest: Seq<EventView>,
    m: EngineView,
)
    requires
        readable(rest),
        valid_utf8(row_tag + raw),
        attrs_give(tag_attributes(row_tag, raw), attrs),
        children.len() == fields.len(),
        forall|i: int| 0 <= i < children.len() ==> stands_in_row(#[trigger] children[i], row_tag),
        forall|i: int|
            0 <= i < children.len() ==> gives(#[trigger] children[i], leniently, fields[i]),
    ensures
        ({
            let start = seq![EventView::Start { name: row_tag, rest: raw }];
            let cut = start + children_events(children, seq![EventView::Eof]);
            let broken = start + children_events(
                children,
                seq![EventView::Failed { message, position }] + rest,
            );
            let full = with_fields(with_fields(m, attrs), fields);
            &&& !leniently ==> parse_rows(cut, row_tag, m) == (ParseEnd::Done { m: full })
                && parse_rows(broken, row_tag, m) == (ParseEnd::Failed { m: full, message })
            &&& leniently ==> one_row_leniently(cut, row_tag, m) == (full, false)
                && one_row_leniently(broken, row_tag, m) == (full.finished(), true)
        }),
{
    let start = EventView::Start { name: row_tag, rest: raw };
    let open = with_fields(m, attrs);
    attributes_are_read_as_fields(tag_attributes(row_tag, raw), attrs, m);
    row_that_is_cut_off_ends_there(
        children,
        row_tag,
        leniently,
        fields,
        message,
        position,
        rest,
        open,
    );
    lemma_one_before(start, children_events(children, seq![EventView::Eof]));
    lemma_one_before(
        start,
        children_events(children, seq![EventView::Failed { message, position }] + rest),
    );
}

/// The value that the last of the fields of a column has; nothing where there is none.
pub open spec fn last_for(
    plan: PlanView,
    fields: Seq<Option<(Seq<char>, Seq<char>)>>,
    column: Seq<char>,
) -> Option<Seq<char>>
    decreases fields.len(),
{
    if fields.len() == 0 {
        None
    } else {
        match fields.last() {
            Some(f) => if plan.resolve(f.0) == Some(column) {
                Some(f.1)
            } else {
                last_for(plan, fields.drop_last(), column)
            },
            None => last_for(plan, fields.drop_last(), column),
        }
    }
}

/// The last field of a column is the last one behind the first field, or the first where that is
/// its own.
proof fn lemma_last_for_front(
    plan: PlanView,
    fields: Seq<Option<(Seq<char>, Seq<char>)>>,
    column: Seq<char>,
)
    requires
        fields.len() > 0,
    ensures
        last_for(plan, fields, column) == (match last_for(plan, fields.drop_first(), column) {
            Some(v) => Some(v),
            None => match fields[0] {
                Some(f) => if plan.resolve(f.0) == Some(column) {
                    Some(f.1)
                } else {
                    None
                },
                None => None,
            },
        }),
    decreases fields.len(),
{
    reveal_with_fuel(last_for, 2);
    if fields.len() > 1 {
        assert(fields.drop_last()[0] == fields[0]);
        assert(fields.drop_last().drop_first() =~= fields.drop_first().drop_last());
        assert(fields.drop_first().last() == fields.last());
        lemma_last_for_front(plan, fields.drop_last(), column);
    } else {
        assert(fields.drop_first().len() == 0);
        assert(fields.drop_last().len() == 0);
    }
}

/// How the current row reads after fields arrive: each column has the value that came last for it,
/// as a column of its type stores it, and the whole rows stay as they were.
pub proof fn fields_are_read_back(
    m: EngineView,
    fields: Seq<Option<(Seq<char>, Seq<char>)>>,
)
    requires
        aligned(m),
        typed(m),
    ensures
        aligned(with_fields(m, fields)),
        typed(with_fields(m, fields)),
        with_fields(m, fields).rows == m.rows,
        with_fields(m, fields).plan == m.plan,
        forall|column: Seq<char>| #[trigger]
            with_fields(m, fields).has(column) <==> m.has(column) || last_for(
                m.plan,
                fields,
                column,
            ) is Some,
        forall|column: Seq<char>, i: int|
            0 <= i ==> #[trigger] reading(with_fields(m, fields), column, i) == (match last_for(
                m.plan,
                fields,
                column,
            ) {
                Some(v) => if i == m.rows {
                    stored(m.plan.type_of(column), Some(v))
                } else {
                    reading(m, column, i)
                },
                None => reading(m, column, i),
            }),
    decreases fields.len(),
{
    if fields.len() > 0 {
        let next = with_one(m, fields[0]);
        let tail = fields.drop_first();
        if let Some(f) = fields[0] {
            lemma_put_reads(m, f.0, Some(f.1));
        }
        fields_are_read_back(next, tail);
        assert forall|column: Seq<char>| #[trigger]
            with_fields(m, fields).has(column) <==> m.has(column) || last_for(
                m.plan,
                fields,
                column,
            ) is Some by {
            lemma_last_for_front(m.plan, fields, column);
            assert(with_fields(next, tail).has(column) <==> next.has(column) || last_for(
                m.plan,
                tail,
                column,
            ) is Some);
        }
        assert forall|column: Seq<char>, i: int| 0 <= i implies #[trigger] reading(
            with_fields(m, fields),
            column,
            i,
        ) == (match last_for(m.plan, fields, column) {
            Some(v) => if i == m.rows {
                stored(m.plan.type_of(column), Some(v))
            } else {
                reading(m, column, i)
            },
            None => reading(m, column, i),
        }) by {
            lemma_last_for_front(m.plan, fields, column);
            assert(reading(with_fields(next, tail), column, i) == (match last_for(
                m.plan,
                tail,
                column,
            ) {
                Some(v) => if i == m.rows {
                    stored(m.plan.type_of(column), Some(v))
                } else {
                    reading(next, column, i)
                },
                None => reading(next, column, i),
            }));
        }
    }
}

/// The value that a row gives a column: that of the last part of the row for it, or that of the
/// last attribute where no part gives one.
pub open spec fn row_value(plan: PlanView, row: RowParts, column: Seq<char>) -> Option<Seq<char>> {
    match last_for(plan, row.fields, column) {
        Some(v) => Some(v),
        None => last_for(plan, row.attrs, column),
    }
}

/// The table of a document gives its rows back: it has a row for each, and in each row a column has
/// the value that came last for it, as a column of its type stores it, and null where none came.
/// There is a column for each field that is not dropped, and no other.
pub proof fn table_gives_rows_back(m: EngineView, rows: Seq<RowParts>)
    requires
        even(m),
        typed(m),
        m.plan.filter is None,
    ensures
        even(with_rows(m, rows)),
        typed(with_rows(m, rows)),
        with_rows(m, rows).plan == m.plan,
        with_rows(m, rows).rows == m.rows + rows.len(),
        forall|column: Seq<char>| #[trigger]
            with_rows(m, rows).has(column) <==> m.has(column) || exists|k: int|
                0 <= k < rows.len() && row_value(m.plan, #[trigger] rows[k], column) is Some,
        forall|column: Seq<char>, i: int|
            0 <= i < m.rows ==> #[trigger] reading(with_rows(m, rows), column, i) == reading(
                m,
                column,
                i,
            ),
        forall|column: Seq<char>, i: int|
            m.rows <= i < m.rows + rows.len() ==> #[trigger] reading(
                with_rows(m, rows),
                column,
                i,
            ) == (match row_value(m.plan, rows[i - m.rows], column) {
                Some(v) => stored(m.plan.type_of(column), Some(v)),
                None => None,
            }),
    decreases rows.len(),
{
    if rows.len() > 0 {
        let row = rows[0];
        let tail = rows.drop_first();
        let first = with_fields(m, row.attrs);
        let full = with_fields(first, row.fields);
        let next = with_row(m, row);
        fields_are_read_back(m, row.attrs);
        fields_are_read_back(first, row.fields);
        lemma_finished_reads(full);
        table_gives_rows_back(next, tail);
        let after = with_rows(m, rows);
        assert forall|column: Seq<char>| #[trigger]
            after.has(column) <==> m.has(column) || exists|k: int|
                0 <= k < rows.len() && row_value(m.plan, #[trigger] rows[k], column) is Some by {
            assert(next.has(column) == full.has(column));
            assert(full.has(column) <==> first.has(column) || last_for(
                m.plan,
                row.fields,
                column,
            ) is Some);
            assert(next.has(column) <==> m.has(column) || row_value(m.plan, row, column) is Some);
            if exists|k: int|
                0 <= k < tail.len() && row_value(m.plan, #[trigger] tail[k], column) is Some {
                let k = choose|k: int|
                    0 <= k < tail.len() && row_value(m.plan, #[trigger] tail[k], column) is Some;
                assert(rows[k + 1] == tail[k]);
            }
            if exists|k: int|
                0 <= k < rows.len() && row_value(m.plan, #[trigger] rows[k], column) is Some {
                let k = choose|k: int|
                    0 <= k < rows.len() && row_value(m.plan, #[trigger] rows[k], column) is Some;
                if k > 0 {
                    assert(tail[k - 1] == rows[k]);
                }
            }
        }
        assert forall|column: Seq<char>, i: int| 0 <= i <= m.rows implies #[trigger] reading(
            next,
            column,
            i,
        ) == (if i < m.rows {
            reading(m, column, i)
        } else {
            match row_value(m.plan, row, column) {
                Some(v) => stored(m.plan.type_of(column), Some(v)),
                None => None,
            }
        }) by {
            assert(reading(full, column, i) == (match last_for(m.plan, row.fields, column) {
                Some(v) => if i == m.rows {
                    stored(m.plan.type_of(column), Some(v))
                } else {
                    reading(first, column, i)
                },
                None => reading(first, column, i),
            }));
            if i == m.rows && m.has(column) {
                lemma_column(m, column);
            }
        }
        assert forall|column: Seq<char>, i: int| 0 <= i < m.rows implies #[trigger] reading(
            after,
            column,
            i,
        ) == reading(m, column, i) by {
            assert(reading(after, column, i) == reading(next, column, i));
        }
        assert forall|column: Seq<char>, i: int|
            m.rows <= i < m.rows + rows.len() implies #[trigger] reading(after, column, i) == (
        match row_value(m.plan, rows[i - m.rows], column) {
            Some(v) => stored(m.plan.type_of(column), Some(v)),
            None => None,
        }) by {
            if i == m.rows {
                assert(reading(after, column, i) == reading(next, column, i));
            } else {
                assert(tail[i - m.rows - 1] == rows[i - m.rows]);
                assert(reading(with_rows(next, tail), column, i) == (match row_value(
                    m.plan,
                    tail[i - next.rows],
                    column,
                ) {
                    Some(v) => stored(m.plan.type_of(column), Some(v)),
                    None => None,
                }));
            }
        }
    }
}

} // verus!
