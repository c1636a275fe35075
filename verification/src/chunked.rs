//! A document that is read in chunks: the tables of the chunks, merged, read as the table of the
//! whole document.

use vstd::prelude::*;
use vstd::utf8::decode_utf8;

use crate::column::{bool_text, code_of, lemma_retained_map, retained, ColumnView};
use crate::columnar::{extended_engine, filled, EngineView};
use crate::compose::{documents_compose, followed_by, lemma_followed_by, whole_rows};
use crate::events::{lemma_rest_events, readable, rest_events, tag_attributes, EventView};
use crate::growth::table_at;
use crate::laws::{
    aligned, even, field_arrives, lemma_column, lemma_popped, lemma_row_filled, lemma_with_column,
    lemma_with_nulls, merge_kind, merged_table_has_both, merged_text, pushed_value_is_last,
    row_ends, sound, stored, types_agree,
};
use crate::numbers::decimal;
use crate::order::{lemma_columns_placed, placed, placed_all, placed_in_either};
use crate::parse::{lemma_row_rest, parse_rows, row_body, with_attrs, ParseEnd, RowEnd};
use crate::plan::{FieldType, FilterView, PlanView};
use crate::tandem::{keeps_same, lemma_attrs_same, lemma_body_same, parses_same, rows_keep_same};

verus! {

/// The text in row `i` under a name; null where the table does not have the column or the row.
pub open spec fn reading(m: EngineView, name: Seq<char>, i: int) -> Option<Seq<char>> {
    if m.has(name) {
        m.column(name).text_at(i)
    } else {
        None
    }
}

/// Each column is of the type that the plan gives it.
pub open spec fn typed(m: EngineView) -> bool {
    forall|name: Seq<char>| #[trigger]
        m.has(name) ==> m.column(name).kind() == m.plan.type_of(name)
}

/// The text is a number that the row filter awaits the text of.
pub open spec fn awaited(m: EngineView, field: Seq<char>) -> bool {
    let name = m.plan.renamed(field);
    m.plan.type_of(name) == FieldType::Float64 && reading(m, name, m.rows as int) is Some
}

/// A row that reads as the current row of the table stays.
pub open spec fn kept(m: EngineView) -> bool {
    match m.plan.filter {
        Some(FilterView::Equal { field, value }) => awaited(m, field) || reading(
            m,
            m.plan.renamed(field),
            m.rows as int,
        ) == Some(value),
        Some(FilterView::NotEqual { field, value }) => awaited(m, field) || reading(
            m,
            m.plan.renamed(field),
            m.rows as int,
        ) != Some(value),
        _ => true,
    }
}

/// How a table reads after a field arrives.
pub proof fn lemma_put_reads(m: EngineView, raw: Seq<char>, value: Option<Seq<char>>)
    requires
        aligned(m),
        typed(m),
    ensures
        aligned(m.put(raw, value)),
        typed(m.put(raw, value)),
        m.put(raw, value).rows == m.rows,
        m.put(raw, value).plan == m.plan,
        forall|name: Seq<char>| #[trigger]
            m.put(raw, value).has(name) <==> m.has(name) || m.plan.resolve(raw) == Some(name),
        forall|name: Seq<char>, i: int|
            0 <= i ==> #[trigger] reading(m.put(raw, value), name, i) == (if m.plan.resolve(raw)
                == Some(name) && i == m.rows {
                stored(m.plan.type_of(name), value)
            } else {
                reading(m, name, i)
            }),
{
    field_arrives(m, raw, value);
    if let Some(name) = m.plan.resolve(raw) {
        let kind = m.plan.type_of(name);
        let mid = m.ensured(name);
        let after = m.put(raw, value);
        if !m.has(name) {
            lemma_with_column(m, name, kind);
            lemma_with_nulls(ColumnView::empty(kind), m.rows);
        }
        lemma_column(mid, name);
        let column = mid.column(name);
        lemma_popped(column);
        let open = if column.len() > mid.rows {
            column.popped()
        } else {
            column
        };
        pushed_value_is_last(open, value);
        assert(after.order == mid.order);
        assert(after.column(name) == open.pushed(value));
        assert(after.column(name).kind() == kind);
        assert forall|other: Seq<char>| #[trigger] after.has(other) implies after.column(
            other,
        ).kind() == after.plan.type_of(other) by {
            if other != name {
                assert(m.has(other));
            }
        }
        assert forall|other: Seq<char>, i: int| 0 <= i implies #[trigger] reading(after, other, i)
            == (if other == name && i == m.rows {
            stored(kind, value)
        } else {
            reading(m, other, i)
        }) by {
            if other != name {
                if m.has(other) {
                    assert(after.has(other));
                }
            } else if i < m.rows {
                assert(after.column(name).text_at(i) == open.text_at(i));
            } else if i > m.rows {
                if m.has(name) {
                    lemma_column(m, name);
                }
            }
        }
    }
}

/// How a table reads after a row ends.
pub proof fn lemma_finished_reads(m: EngineView)
    requires
        aligned(m),
        typed(m),
    ensures
        even(m.finished()),
        typed(m.finished()),
        m.finished().plan == m.plan,
        m.finished().rows == (if kept(m) {
            m.rows + 1
        } else {
            m.rows
        }),
        forall|name: Seq<char>| #[trigger] m.finished().has(name) == m.has(name),
        forall|name: Seq<char>, i: int|
            0 <= i ==> #[trigger] reading(m.finished(), name, i) == (if kept(m) || i < m.rows {
                reading(m, name, i)
            } else {
                None
            }),
{
    let full = m.row_filled();
    let after = m.finished();
    lemma_row_filled(m);
    row_ends(m);
    assert forall|name: Seq<char>| #[trigger] m.has(name) implies {
        let column = full.column(name);
        &&& full.has(name)
        &&& column.kind() == m.column(name).kind()
        &&& column.len() == m.rows + 1
        &&& forall|i: int| 0 <= i ==> #[trigger] column.text_at(i) == m.column(name).text_at(i)
    } by {
        lemma_column(m, name);
        let column = m.column(name);
        assert(full.column(name) == filled(column, m.rows + 1));
        if column.len() < m.rows + 1 {
            lemma_with_nulls(column, (m.rows + 1 - column.len()) as nat);
        }
    }
    assert(full.keeps_row() == kept(m)) by {
        match m.plan.filter {
            Some(FilterView::Equal { field, value }) => {
                let name = m.plan.renamed(field);
                assert(full.has(name) == m.has(name));
            },
            Some(FilterView::NotEqual { field, value }) => {
                let name = m.plan.renamed(field);
                assert(full.has(name) == m.has(name));
            },
            _ => {},
        }
    }
    assert forall|name: Seq<char>| #[trigger] m.has(name) implies {
        let column = after.column(name);
        &&& after.has(name)
        &&& column.kind() == m.column(name).kind()
        &&& forall|i: int|
            0 <= i ==> #[trigger] column.text_at(i) == (if kept(m) || i < m.rows {
                m.column(name).text_at(i)
            } else {
                None
            })
    } by {
        lemma_column(m, name);
        let place = code_of(m.order, name);
        assert(full.column(name) == full.columns[place]);
        assert(sound(full.columns[place]));
        lemma_popped(full.columns[place]);
        if kept(m) {
            assert(after.column(name) == full.column(name));
        } else {
            assert(after.column(name) == full.column(name).popped());
            assert forall|i: int| 0 <= i implies #[trigger] after.column(name).text_at(i) == (if i
                < m.rows {
                m.column(name).text_at(i)
            } else {
                None
            }) by {
                if i < m.rows {
                    assert(full.column(name).text_at(i) == m.column(name).text_at(i));
                }
            }
        }
    }
    assert forall|name: Seq<char>| #[trigger] after.has(name) implies after.column(name).kind()
        == after.plan.type_of(name) by {
        assert(m.has(name));
    }
}

/// The table `big` reads as the rows of `first` and then those of `small`, and so does the current
/// row. Its columns are those of `first`, and those of `small` put in their places among them.
pub open spec fn reads_after(first: EngineView, small: EngineView, big: EngineView) -> bool {
    &&& aligned(small)
    &&& aligned(big)
    &&& typed(small)
    &&& typed(big)
    &&& small.plan == big.plan
    &&& big.rows == first.rows + small.rows
    &&& big.order == placed_all(first.order, small.plan.schema_order, small.order)
    &&& forall|name: Seq<char>| #[trigger] big.has(name) <==> first.has(name) || small.has(name)
    &&& forall|name: Seq<char>, i: int|
        0 <= i ==> #[trigger] reading(big, name, i) == merged_text(first, small, name, i)
}

proof fn lemma_put_after(
    first: EngineView,
    small: EngineView,
    big: EngineView,
    raw: Seq<char>,
    value: Option<Seq<char>>,
)
    requires
        reads_after(first, small, big),
    ensures
        reads_after(first, small.put(raw, value), big.put(raw, value)),
        small.put(raw, value).plan == small.plan,
{
    lemma_put_reads(small, raw, value);
    lemma_put_reads(big, raw, value);
    let less = small.put(raw, value);
    let more = big.put(raw, value);
    if let Some(name) = small.plan.resolve(raw) {
        let schema = small.plan.schema_order;
        assert(less.order == placed(small.order, schema, name));
        assert(more.order == placed(big.order, schema, name));
        placed_in_either(first.order, schema, small.order, name);
    }
    assert forall|name: Seq<char>| #[trigger] more.has(name) <==> first.has(name) || less.has(
        name,
    ) by {
        assert(big.has(name) <==> first.has(name) || small.has(name));
    }
    assert forall|name: Seq<char>, i: int| 0 <= i implies #[trigger] reading(more, name, i)
        == merged_text(first, less, name, i) by {
        assert(reading(big, name, i) == merged_text(first, small, name, i));
        if i >= first.rows {
            assert(reading(less, name, i - first.rows) == (if small.plan.resolve(raw) == Some(name)
                && i - first.rows == small.rows {
                stored(small.plan.type_of(name), value)
            } else {
                reading(small, name, i - first.rows)
            }));
        }
    }
}

proof fn lemma_finished_after(first: EngineView, small: EngineView, big: EngineView)
    requires
        reads_after(first, small, big),
    ensures
        reads_after(first, small.finished(), big.finished()),
        small.finished().plan == small.plan,
{
    lemma_finished_reads(small);
    lemma_finished_reads(big);
    let less = small.finished();
    let more = big.finished();
    assert(kept(small) == kept(big)) by {
        match small.plan.filter {
            Some(FilterView::Equal { field, value }) => {
                let name = small.plan.renamed(field);
                assert(reading(big, name, big.rows as int) == reading(
                    small,
                    name,
                    small.rows as int,
                ));
            },
            Some(FilterView::NotEqual { field, value }) => {
                let name = small.plan.renamed(field);
                assert(reading(big, name, big.rows as int) == reading(
                    small,
                    name,
                    small.rows as int,
                ));
            },
            _ => {},
        }
    }
    assert forall|name: Seq<char>| #[trigger] more.has(name) <==> first.has(name) || less.has(
        name,
    ) by {
        assert(big.has(name) <==> first.has(name) || small.has(name));
        assert(less.has(name) == small.has(name));
    }
    assert forall|name: Seq<char>, i: int| 0 <= i implies #[trigger] reading(more, name, i)
        == merged_text(first, less, name, i) by {
        assert(reading(big, name, i) == merged_text(first, small, name, i));
        if i >= first.rows {
            assert(reading(less, name, i - first.rows) == (if kept(small) || i - first.rows
                < small.rows {
                reading(small, name, i - first.rows)
            } else {
                None
            }));
        }
    }
}

/// Two ends of a document are the same but for the tables, and the tables read one after the other.
pub open spec fn parses_after(first: EngineView, less: ParseEnd, more: ParseEnd) -> bool {
    parses_same(|small: EngineView, big: EngineView| reads_after(first, small, big), less, more)
}

/// Tables that read one after the other, the second one and the merged one under this plan.
spec fn after(first: EngineView, plan: PlanView) -> spec_fn(EngineView, EngineView) -> bool {
    |small: EngineView, big: EngineView| small.plan == plan && reads_after(first, small, big)
}

/// Rows come to the second table and to the merged one alike.
proof fn lemma_after_keeps(first: EngineView, plan: PlanView)
    ensures
        keeps_same(after(first, plan)),
{
    reveal(keeps_same);
    let same = after(first, plan);
    assert forall|a: EngineView, b: EngineView, raw: Seq<char>, value: Option<Seq<char>>|
        #![trigger same(a, b), a.put(raw, value)]
        same(a, b) implies same(a.put(raw, value), b.put(raw, value)) by {
        lemma_put_after(first, a, b, raw, value);
    }
    assert forall|a: EngineView, b: EngineView|
        #![trigger same(a, b), a.finished()]
        same(a, b) implies same(a.finished(), b.finished()) by {
        lemma_finished_after(first, a, b);
    }
}

/// A table without rows, and a table before any row of it, read one after the other.
proof fn lemma_nothing_after(m: EngineView)
    requires
        even(m),
        typed(m),
    ensures
        reads_after(m, EngineView::empty(m.plan), m),
{
    let none = EngineView::empty(m.plan);
    assert forall|name: Seq<char>, i: int| 0 <= i implies #[trigger] reading(m, name, i)
        == merged_text(m, none, name, i) by {
        if m.has(name) {
            lemma_column(m, name);
        }
    }
}

/// The rows of a document are the same whatever table they go to: they come after the rows that are
/// there, and read as in a table of their own.
pub proof fn rows_read_the_same(events: Seq<EventView>, row_tag: Seq<u8>, m: EngineView)
    requires
        readable(events),
        even(m),
        typed(m),
    ensures
        parses_after(
            m,
            parse_rows(events, row_tag, EngineView::empty(m.plan)),
            parse_rows(events, row_tag, m),
        ),
        whole_rows(events, row_tag, EngineView::empty(m.plan)) == whole_rows(events, row_tag, m),
{
    lemma_nothing_after(m);
    lemma_after_keeps(m, m.plan);
    rows_keep_same(after(m, m.plan), EngineView::empty(m.plan), m, events, row_tag);
}

/// Whole rows leave every column with one cell for each row, and of its type.
proof fn lemma_whole_rows_even(events: Seq<EventView>, row_tag: Seq<u8>, m: EngineView)
    requires
        readable(events),
        even(m),
        typed(m),
        whole_rows(events, row_tag, m),
    ensures
        parse_rows(events, row_tag, m) matches ParseEnd::Done { m: after } && even(after) && typed(
            after,
        ) && after.plan == m.plan,
    decreases events.len(),
{
    lemma_rest_events(events);
    lemma_nothing_after(m);
    lemma_after_keeps(m, m.plan);
    let same = after(m, m.plan);
    let none = EngineView::empty(m.plan);
    let rest = rest_events(events);
    match events[0] {
        EventView::Empty { name, rest: raw } => {
            if name == row_tag {
                let attrs = tag_attributes(name, raw);
                let open = with_attrs(attrs, m).0;
                lemma_attrs_same(same, none, m, attrs);
                lemma_finished_reads(open);
                lemma_whole_rows_even(rest, row_tag, open.finished());
            } else {
                lemma_whole_rows_even(rest, row_tag, m);
            }
        },
        EventView::Start { name, rest: raw } => {
            if name == row_tag {
                let attrs = tag_attributes(name, raw);
                let open = with_attrs(attrs, m).0;
                lemma_attrs_same(same, none, m, attrs);
                lemma_row_rest(rest, row_tag, open);
                lemma_body_same(same, with_attrs(attrs, none).0, open, rest, row_tag);
                if let RowEnd::Closed { m: full, rest: left } = row_body(rest, row_tag, open) {
                    lemma_finished_reads(full);
                    lemma_whole_rows_even(left, row_tag, full.finished());
                }
            } else {
                lemma_whole_rows_even(rest, row_tag, m);
            }
        },
        EventView::Eof => {},
        EventView::Failed { .. } => {},
        _ => {
            lemma_whole_rows_even(rest, row_tag, m);
        },
    }
}

/// The events of all chunks as those of one document.
pub open spec fn in_one(chunks: Seq<Seq<EventView>>) -> Seq<EventView>
    decreases chunks.len(),
{
    if chunks.len() == 0 {
        seq![EventView::Eof]
    } else {
        followed_by(in_one(chunks.drop_last()), chunks.last())
    }
}

/// The tables of all chunks, each read by itself, merged in order into one table.
pub open spec fn merged_chunks(
    chunks: Seq<Seq<EventView>>,
    row_tag: Seq<u8>,
    plan: PlanView,
) -> Option<EngineView>
    decreases chunks.len(),
{
    let none = EngineView::empty(plan);
    if chunks.len() == 0 {
        Some(none)
    } else {
        match merged_chunks(chunks.drop_last(), row_tag, plan) {
            Some(m) => extended_engine(m, table_at(parse_rows(chunks.last(), row_tag, none))),
            None => None,
        }
    }
}

/// Two tables read the same: they have the same columns in the same order, the same number of rows,
/// and the same text in each cell.
pub open spec fn reads_as(a: EngineView, b: EngineView) -> bool {
    &&& a.rows == b.rows
    &&& a.order == b.order
    &&& forall|name: Seq<char>, i: int|
        0 <= i < a.rows ==> #[trigger] reading(a, name, i) == reading(b, name, i)
}

/// The texts of a column.
pub open spec fn column_texts(column: ColumnView) -> Seq<Option<Seq<char>>> {
    Seq::new(column.len(), |i: int| column.text_at(i))
}

/// The texts that are kept are those of the kept cells.
pub proof fn lemma_retained_texts(column: ColumnView, keep: Seq<bool>)
    ensures
        column_texts(column.retained(keep)) == retained(column_texts(column), keep),
{
    let one = column_texts(column);
    let two = column_texts(column.retained(keep));
    match column {
        ColumnView::Text(cells) => {
            assert(one =~= cells);
            assert(two =~= retained(cells, keep));
        },
        ColumnView::Int(cells) => {
            let f = |n: Option<i64>|
                match n {
                    Some(n) => Some(decode_utf8(decimal(n as int))),
                    None => None,
                };
            lemma_retained_map(cells, keep, f);
            assert(one =~= cells.map_values(f));
            assert(two =~= retained(cells, keep).map_values(f));
        },
        ColumnView::Float(cells) => {
            assert(one =~= cells);
            assert(two =~= retained(cells, keep));
        },
        ColumnView::Bool(cells) => {
            let f = |b: Option<bool>|
                match b {
                    Some(b) => Some(bool_text(b)),
                    None => None,
                };
            lemma_retained_map(cells, keep, f);
            assert(one =~= cells.map_values(f));
            assert(two =~= retained(cells, keep).map_values(f));
        },
        ColumnView::Dict { codes, dict } => {
            let f = |code: Option<int>|
                match code {
                    Some(c) => Some(dict[c]),
                    None => None,
                };
            lemma_retained_map(codes, keep, f);
            assert(one =~= codes.map_values(f));
            assert(two =~= retained(codes, keep).map_values(f));
        },
    }
}

/// Tables that read the same still do after a filter on floating point numbers is settled.
proof fn lemma_settled_reads(a: EngineView, b: EngineView, texts: Seq<Option<Seq<char>>>)
    requires
        even(a),
        even(b),
        typed(a),
        typed(b),
        a.plan == b.plan,
        reads_as(a, b),
    ensures
        reads_as(a.settled(texts), b.settled(texts)),
{
    assert forall|field: Seq<char>| a.floating(field) == b.floating(field) by {
        let name = a.plan.renamed(field);
        assert(a.has(name) == b.has(name));
    }
    if a.awaits_texts() {
        let keep = a.kept_rows(texts);
        assert(keep =~= b.kept_rows(texts));
        let less = a.settled(texts);
        let more = b.settled(texts);
        assert forall|name: Seq<char>, i: int| 0 <= i < less.rows implies #[trigger] reading(
            less,
            name,
            i,
        ) == reading(more, name, i) by {
            assert(a.has(name) == b.has(name));
            if a.has(name) {
                lemma_column(a, name);
                lemma_column(b, name);
                let one = a.column(name);
                let two = b.column(name);
                assert(column_texts(one) =~= column_texts(two)) by {
                    assert forall|k: int| 0 <= k < a.rows implies one.text_at(k) == two.text_at(
                        k,
                    ) by {
                        assert(reading(a, name, k) == reading(b, name, k));
                    }
                }
                lemma_retained_texts(one, keep);
                lemma_retained_texts(two, keep);
                let kept_one = one.retained(keep);
                let kept_two = two.retained(keep);
                assert(less.column(name) == kept_one);
                assert(more.column(name) == kept_two);
                assert(column_texts(kept_one).len() == kept_one.len());
                if i < kept_one.len() {
                    assert(column_texts(kept_one)[i] == column_texts(kept_two)[i]);
                }
            }
        }
    }
}

proof fn lemma_chunks_read(chunks: Seq<Seq<EventView>>, row_tag: Seq<u8>, plan: PlanView)
    requires
        forall|k: int|
            0 <= k < chunks.len() ==> readable(#[trigger] chunks[k]) && whole_rows(
                chunks[k],
                row_tag,
                EngineView::empty(plan),
            ),
    ensures
        readable(in_one(chunks)),
        whole_rows(in_one(chunks), row_tag, EngineView::empty(plan)),
        parse_rows(in_one(chunks), row_tag, EngineView::empty(plan)) matches ParseEnd::Done {
            m: whole,
        } && even(whole) && typed(whole) && whole.plan == plan && (merged_chunks(
            chunks,
            row_tag,
            plan,
        ) matches Some(c) && even(c) && typed(c) && c.plan == plan && reads_as(c, whole)),
    decreases chunks.len(),
{
    let none = EngineView::empty(plan);
    if chunks.len() > 0 {
        let front = chunks.drop_last();
        let last = chunks.last();
        assert forall|k: int| 0 <= k < front.len() implies readable(#[trigger] front[k])
            && whole_rows(front[k], row_tag, none) by {
            assert(front[k] == chunks[k]);
        }
        assert(last == chunks[chunks.len() - 1]);
        lemma_chunks_read(front, row_tag, plan);
        let before = table_at(parse_rows(in_one(front), row_tag, none));
        let part = table_at(parse_rows(last, row_tag, none));
        let whole = table_at(parse_rows(last, row_tag, before));
        let merged = merged_chunks(front, row_tag, plan)->0;
        lemma_followed_by(in_one(front), last);
        documents_compose(in_one(front), last, row_tag, none);
        rows_read_the_same(last, row_tag, before);
        lemma_whole_rows_even(last, row_tag, none);
        lemma_whole_rows_even(last, row_tag, before);
        merged_table_has_both(merged, part);
        assert(types_agree(merged, part));
        let c = merged_chunks(chunks, row_tag, plan)->0;
        lemma_columns_placed(merged, part, part.order.len());
        assert(part.order.take(part.order.len() as int) =~= part.order);
        assert(c.order == whole.order);
        assert forall|name: Seq<char>, i: int| 0 <= i < c.rows implies #[trigger] reading(
            c,
            name,
            i,
        ) == reading(whole, name, i) by {
            assert(merged.has(name) == before.has(name));
            assert(reading(whole, name, i) == merged_text(before, part, name, i));
            if i < merged.rows {
                assert(reading(merged, name, i) == reading(before, name, i));
            }
            if c.has(name) {
                assert(c.column(name).text_at(i) == merged_text(merged, part, name, i));
            }
        }
        assert forall|name: Seq<char>| #[trigger] c.has(name) implies c.column(name).kind()
            == c.plan.type_of(name) by {
            assert(c.column(name).kind() == merge_kind(merged, part, name));
        }
    }
}

/// Reading a document in chunks gives what reading it in one gives: the chunks, each read into a
/// table of its own, merge, and the merged table reads as that of the whole document, with the
/// columns in the same order. So do the two after a filter on floating point numbers is settled. No
/// row may be cut by the end of a chunk.
pub proof fn chunks_read_as_whole(
    chunks: Seq<Seq<EventView>>,
    row_tag: Seq<u8>,
    plan: PlanView,
)
    requires
        forall|k: int|
            0 <= k < chunks.len() ==> readable(#[trigger] chunks[k]) && whole_rows(
                chunks[k],
                row_tag,
                EngineView::empty(plan),
            ),
    ensures
        parse_rows(in_one(chunks), row_tag, EngineView::empty(plan)) matches ParseEnd::Done {
            m: whole,
        } && (merged_chunks(chunks, row_tag, plan) matches Some(merged) && reads_as(merged, whole)
            && forall|texts: Seq<Option<Seq<char>>>|
            reads_as(merged.settled(texts), #[trigger] whole.settled(texts))),
{
    lemma_chunks_read(chunks, row_tag, plan);
    let whole = table_at(parse_rows(in_one(chunks), row_tag, EngineView::empty(plan)));
    let merged = merged_chunks(chunks, row_tag, plan)->0;
    assert forall|texts: Seq<Option<Seq<char>>>|
        reads_as(merged.settled(texts), #[trigger] whole.settled(texts)) by {
        lemma_settled_reads(merged, whole, texts);
    }
}

} // verus!
