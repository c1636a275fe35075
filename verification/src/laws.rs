//! What holds of every table: its columns stay aligned, and cells are not lost.

use vstd::prelude::*;

use crate::column::{
    code_of, coded, distinct, lemma_code_holds, lemma_code_of, recoded, with_entries, with_entry,
    ColumnView,
};
use crate::columnar::{
    cut, extended_engine, filled, insert_place, lemma_insert_apart, lemma_place_before, place_of,
    with_nulls, EngineView, AUTO_DICT_ROWS,
};
use crate::plan::{FieldType, FilterView};

verus! {

/// Each code of a dictionary column is the place of an entry.
pub open spec fn sound(column: ColumnView) -> bool {
    match column {
        ColumnView::Dict { codes, dict } => forall|i: int|
            0 <= i < codes.len() ==> (#[trigger] codes[i] matches Some(code) ==> 0 <= code
                < dict.len()),
        _ => true,
    }
}

/// The text that a value has in a column of some type.
pub open spec fn stored(kind: FieldType, value: Option<Seq<char>>) -> Option<Seq<char>> {
    ColumnView::empty(kind).pushed(value).text_at(0)
}

/// An entry that is added is in the dictionary; the others stay where they are.
proof fn lemma_entry(dict: Seq<Seq<char>>, v: Seq<char>)
    ensures
        with_entry(dict, v).contains(v),
        dict.len() <= with_entry(dict, v).len(),
        forall|i: int| 0 <= i < dict.len() ==> #[trigger] with_entry(dict, v)[i] == dict[i],
{
    if !dict.contains(v) {
        assert(dict.push(v)[dict.len() as int] == v);
    }
}

/// A value that arrives is the last cell of its column, and the cells before it keep their texts.
pub proof fn pushed_value_is_last(column: ColumnView, value: Option<Seq<char>>)
    requires
        sound(column),
    ensures
        sound(column.pushed(value)),
        column.pushed(value).kind() == column.kind(),
        column.pushed(value).len() == column.len() + 1,
        column.pushed(value).text_at(column.len() as int) == stored(column.kind(), value),
        forall|i: int|
            0 <= i < column.len() ==> #[trigger] column.pushed(value).text_at(i) == column.text_at(
                i,
            ),
{
    if let ColumnView::Dict { codes, dict } = column {
        if let Some(v) = value {
            let after = with_entry(dict, v);
            lemma_entry(dict, v);
            lemma_code_holds(after, v);
            let none = Seq::<Seq<char>>::empty();
            lemma_entry(none, v);
            lemma_code_holds(with_entry(none, v), v);
            let new_codes = codes.push(Some(code_of(after, v)));
            assert(column.pushed(value) == (ColumnView::Dict { codes: new_codes, dict: after }));
            assert forall|i: int| 0 <= i < new_codes.len() implies (
            #[trigger] new_codes[i] matches Some(code) ==> 0 <= code < after.len()) by {
                if i < codes.len() {
                    assert(new_codes[i] == codes[i]);
                }
            }
        }
    }
}

/// Without its last cell, a column keeps the texts of the others.
pub proof fn lemma_popped(column: ColumnView)
    requires
        sound(column),
    ensures
        sound(column.popped()),
        column.popped().kind() == column.kind(),
        column.len() > 0 ==> column.popped().len() == column.len() - 1,
        forall|i: int|
            0 <= i < column.len() - 1 ==> #[trigger] column.popped().text_at(i) == column.text_at(
                i,
            ),
{
}

/// Nulls that arrive come after the cells of a column.
pub proof fn lemma_with_nulls(column: ColumnView, n: nat)
    requires
        sound(column),
    ensures
        sound(with_nulls(column, n)),
        with_nulls(column, n).kind() == column.kind(),
        with_nulls(column, n).len() == column.len() + n,
        forall|i: int|
            0 <= i < column.len() ==> #[trigger] with_nulls(column, n).text_at(i)
                == column.text_at(i),
        forall|i: int| column.len() <= i ==> #[trigger] with_nulls(column, n).text_at(i) is None,
    decreases n,
{
    if n > 0 {
        let before = with_nulls(column, (n - 1) as nat);
        lemma_with_nulls(column, (n - 1) as nat);
        pushed_value_is_last(before, None);
        assert forall|i: int| 0 <= i < column.len() implies #[trigger] with_nulls(column, n).text_at(
            i,
        ) == column.text_at(i) by {
            assert(before.pushed(None).text_at(i) == before.text_at(i));
        }
        assert forall|i: int| column.len() <= i implies #[trigger] with_nulls(column, n).text_at(
            i,
        ) is None by {
            if i < before.len() {
                assert(before.pushed(None).text_at(i) == before.text_at(i));
            }
        }
    }
}

/// A column that is cut off keeps the cells before the cut.
pub proof fn lemma_cut(column: ColumnView, len: nat)
    requires
        sound(column),
    ensures
        sound(cut(column, len)),
        cut(column, len).kind() == column.kind(),
        cut(column, len).len() == (if column.len() > len {
            len
        } else {
            column.len()
        }),
        forall|i: int|
            0 <= i < cut(column, len).len() ==> #[trigger] cut(column, len).text_at(i)
                == column.text_at(i),
    decreases column.len(),
{
    if column.len() > len {
        lemma_popped(column);
        lemma_cut(column.popped(), len);
        assert forall|i: int| 0 <= i < cut(column, len).len() implies #[trigger] cut(
            column,
            len,
        ).text_at(i) == column.text_at(i) by {
            assert(cut(column.popped(), len).text_at(i) == column.popped().text_at(i));
        }
    }
}

/// Every name has its own column, and every column has a cell for each whole row and at most one
/// more, for the current row.
pub open spec fn aligned(m: EngineView) -> bool {
    &&& m.order.len() == m.columns.len()
    &&& m.order.no_duplicates()
    &&& forall|i: int|
        0 <= i < m.columns.len() ==> sound(#[trigger] m.columns[i]) && m.rows <= m.columns[i].len()
            <= m.rows + 1
}

/// Every column has exactly one cell for each row.
pub open spec fn even(m: EngineView) -> bool {
    &&& aligned(m)
    &&& forall|i: int| 0 <= i < m.columns.len() ==> (#[trigger] m.columns[i]).len() == m.rows
}

/// The cells of the whole rows have the same texts in both tables, for each column of the first.
pub open spec fn same_cells(a: EngineView, b: EngineView) -> bool {
    forall|name: Seq<char>, i: int|
        a.has(name) && 0 <= i < a.rows ==> b.has(name) && #[trigger] a.column(name).text_at(i)
            == b.column(name).text_at(i)
}

/// A new column goes among the others.
proof fn lemma_insert_place(order: Seq<Seq<char>>, schema: Seq<Seq<char>>, name: Seq<char>)
    ensures
        0 <= insert_place(order, schema, name) <= order.len(),
{
    lemma_place_before(order, schema, place_of(schema, name));
}

/// The column of a name that a table has.
pub proof fn lemma_column(m: EngineView, name: Seq<char>)
    requires
        aligned(m),
        m.has(name),
    ensures
        0 <= code_of(m.order, name) < m.columns.len(),
        m.order[code_of(m.order, name)] == name,
        m.column(name) == m.columns[code_of(m.order, name)],
        sound(m.column(name)),
        m.rows <= m.column(name).len() <= m.rows + 1,
{
    lemma_code_holds(m.order, name);
}

/// A new column leaves the others as they are.
pub proof fn lemma_with_column(m: EngineView, name: Seq<char>, kind: FieldType)
    requires
        aligned(m),
        !m.has(name),
    ensures
        aligned(m.with_column(name, kind)),
        even(m) ==> even(m.with_column(name, kind)),
        m.with_column(name, kind).has(name),
        m.with_column(name, kind).column(name) == with_nulls(ColumnView::empty(kind), m.rows),
        forall|other: Seq<char>|
            other != name ==> (#[trigger] m.with_column(name, kind).has(other) == m.has(other)) && (
            m.has(other) ==> m.with_column(name, kind).column(other) == m.column(other)),
{
    let after = m.with_column(name, kind);
    let place = insert_place(m.order, m.plan.schema_order, name);
    let fresh = with_nulls(ColumnView::empty(kind), m.rows);
    lemma_insert_place(m.order, m.plan.schema_order, name);
    lemma_insert_apart(m.order, place, name);
    lemma_with_nulls(ColumnView::empty(kind), m.rows);
    assert(after.order[place] == name);
    lemma_code_of(after.order, place);
    assert forall|i: int| 0 <= i < after.columns.len() implies sound(#[trigger] after.columns[i])
        && m.rows <= after.columns[i].len() <= m.rows + 1 by {
        if i < place {
            assert(after.columns[i] == m.columns[i]);
        } else if i > place {
            assert(after.columns[i] == m.columns[i - 1]);
        }
    }
    if even(m) {
        assert forall|i: int| 0 <= i < after.columns.len() implies (
        #[trigger] after.columns[i]).len() == m.rows by {
            if i < place {
                assert(after.columns[i] == m.columns[i]);
            } else if i > place {
                assert(after.columns[i] == m.columns[i - 1]);
            }
        }
    }
    assert forall|other: Seq<char>| other != name implies (#[trigger] after.has(other) == m.has(
        other,
    )) && (m.has(other) ==> after.column(other) == m.column(other)) by {
        if m.has(other) {
            lemma_code_holds(m.order, other);
            let k = code_of(m.order, other);
            let there = if k < place {
                k
            } else {
                k + 1
            };
            assert(after.order[there] == other);
            assert(after.columns[there] == m.columns[k]);
            lemma_code_of(after.order, there);
        }
        if after.has(other) {
            let k = choose|k: int| 0 <= k < after.order.len() && after.order[k] == other;
            if k < place {
                assert(m.order[k] == other);
            } else {
                assert(m.order[k - 1] == other);
            }
        }
    }
}

/// The table `after` is `m` with the value in the current row of the named column; the other
/// columns are the same.
pub open spec fn cell_set(
    m: EngineView,
    after: EngineView,
    name: Seq<char>,
    value: Option<Seq<char>>,
) -> bool {
    &&& after.has(name)
    &&& after.column(name).len() == m.rows + 1
    &&& after.column(name).text_at(m.rows as int) == stored(after.column(name).kind(), value)
    &&& forall|other: Seq<char>| #[trigger]
        after.has(other) && other != name ==> m.has(other) && after.column(other) == m.column(other)
    &&& forall|other: Seq<char>| #[trigger] m.has(other) ==> after.has(other)
}

/// A field that arrives is the last cell of its column, whatever the current row had there: the
/// last value wins. The columns stay aligned, and no other cell changes.
pub proof fn field_arrives(m: EngineView, raw: Seq<char>, value: Option<Seq<char>>)
    requires
        aligned(m),
    ensures
        aligned(m.put(raw, value)),
        same_cells(m, m.put(raw, value)),
        m.put(raw, value).rows == m.rows,
        m.put(raw, value).plan == m.plan,
        match m.plan.resolve(raw) {
            Some(name) => cell_set(m, m.put(raw, value), name, value),
            None => m.put(raw, value) == m,
        },
{
    if let Some(name) = m.plan.resolve(raw) {
        let mid = m.ensured(name);
        let after = m.put(raw, value);
        if !m.has(name) {
            lemma_with_column(m, name, m.plan.type_of(name));
            lemma_with_nulls(ColumnView::empty(m.plan.type_of(name)), m.rows);
        }
        lemma_column(mid, name);
        let place = code_of(mid.order, name);
        let column = mid.columns[place];
        lemma_popped(column);
        let open = if column.len() > mid.rows {
            column.popped()
        } else {
            column
        };
        pushed_value_is_last(open, value);
        assert(after.order == mid.order);
        assert(after.columns[place] == open.pushed(value));
        assert(after.has(name));
        assert(after.column(name) == open.pushed(value));
        assert(open.len() == m.rows);
        assert(after.column(name).text_at(m.rows as int) == stored(open.kind(), value));
        assert forall|i: int| 0 <= i < after.columns.len() implies sound(
            #[trigger] after.columns[i],
        ) && after.rows <= after.columns[i].len() <= after.rows + 1 by {
            if i != place {
                assert(after.columns[i] == mid.columns[i]);
            }
        }
        assert forall|other: Seq<char>| other != name implies (#[trigger] after.has(other) == m.has(
            other,
        )) && (m.has(other) ==> after.column(other) == m.column(other)) by {
            assert(after.has(other) == mid.has(other));
            if mid.has(other) {
                lemma_code_holds(mid.order, other);
            }
            if !m.has(name) {
                assert(mid.has(other) == m.has(other));
            }
        }
        assert(cell_set(m, after, name, value)) by {
            assert forall|other: Seq<char>| #[trigger] m.has(other) implies after.has(other) by {
                if other != name {
                    assert(after.has(other) == m.has(other));
                }
            }
        }
        assert forall|n: Seq<char>, i: int| m.has(n) && 0 <= i < m.rows implies after.has(n)
            && #[trigger] m.column(n).text_at(i) == after.column(n).text_at(i) by {
            if n == name {
                assert(open.pushed(value).text_at(i) == open.text_at(i));
                if column.len() > mid.rows {
                    assert(column.popped().text_at(i) == column.text_at(i));
                }
            } else {
                assert(after.has(n) == m.has(n));
            }
        }
    }
}

/// Filling up the current row leaves the cells of the whole rows as they are.
pub proof fn lemma_row_filled(m: EngineView)
    requires
        aligned(m),
    ensures
        aligned(m.row_filled()),
        same_cells(m, m.row_filled()),
        forall|i: int|
            0 <= i < m.columns.len() ==> (#[trigger] m.row_filled().columns[i]).len() == m.rows + 1,
{
    let after = m.row_filled();
    assert forall|i: int| 0 <= i < m.columns.len() implies {
        let column = #[trigger] after.columns[i];
        &&& sound(column)
        &&& column.len() == m.rows + 1
        &&& forall|k: int|
            0 <= k < m.rows ==> #[trigger] column.text_at(k) == m.columns[i].text_at(k)
    } by {
        let column = m.columns[i];
        assert(after.columns[i] == filled(column, m.rows + 1));
        if column.len() < m.rows + 1 {
            lemma_with_nulls(column, (m.rows + 1 - column.len()) as nat);
        }
    }
    assert forall|name: Seq<char>, i: int| m.has(name) && 0 <= i < m.rows implies after.has(name)
        && #[trigger] m.column(name).text_at(i) == after.column(name).text_at(i) by {
        lemma_code_holds(m.order, name);
        assert(after.column(name) == after.columns[code_of(m.order, name)]);
    }
}

/// The end of a row leaves every column with one cell for each row, and no cell of the rows before
/// it changes. The row counts if and only if the filter keeps it; a row that it does not keep
/// leaves no cell.
pub proof fn row_ends(m: EngineView)
    requires
        aligned(m),
    ensures
        even(m.finished()),
        same_cells(m, m.finished()),
        m.finished().order == m.order,
        m.finished().rows == (if m.row_filled().keeps_row() {
            m.rows + 1
        } else {
            m.rows
        }),
{
    let full = m.row_filled();
    let after = m.finished();
    lemma_row_filled(m);
    if full.keeps_row() {
        assert forall|i: int| 0 <= i < after.columns.len() implies sound(#[trigger] after.columns[i])
            && after.columns[i].len() == after.rows by {
            assert(after.columns[i] == full.columns[i]);
        }
        assert forall|name: Seq<char>, i: int| m.has(name) && 0 <= i < m.rows implies after.has(
            name,
        ) && #[trigger] m.column(name).text_at(i) == after.column(name).text_at(i) by {
            assert(full.has(name));
        }
    } else {
        assert forall|i: int| 0 <= i < after.columns.len() implies {
            let column = #[trigger] after.columns[i];
            &&& sound(column)
            &&& column.len() == m.rows
            &&& forall|k: int|
                0 <= k < m.rows ==> #[trigger] column.text_at(k) == full.columns[i].text_at(k)
        } by {
            assert(after.columns[i] == full.columns[i].popped());
            assert(full.columns[i].len() == m.rows + 1);
            lemma_popped(full.columns[i]);
        }
        assert forall|name: Seq<char>, i: int| m.has(name) && 0 <= i < m.rows implies after.has(
            name,
        ) && #[trigger] m.column(name).text_at(i) == after.column(name).text_at(i) by {
            lemma_code_holds(m.order, name);
            assert(full.has(name));
            assert(after.column(name) == after.columns[code_of(m.order, name)]);
        }
    }
}

/// A comparison for equality and one for inequality of the same field and value give opposite
/// answers. A field that is missing or null is not equal to any value.
pub proof fn filters_are_opposite(
    m: EngineView,
    field: Seq<char>,
    value: Seq<char>,
    number: Option<Seq<char>>,
)
    ensures
        m.passes(FilterView::NotEqual { field, value }, number) == !m.passes(
            FilterView::Equal { field, value },
            number,
        ),
        m.compared(field, number) is None ==> !m.passes(FilterView::Equal { field, value }, number),
{
}

/// A row that awaits no number ends the same way whether the text of a number is known or not. One
/// that awaits a number stays until it is settled.
pub proof fn only_numbers_are_awaited(m: EngineView, number: Option<Seq<char>>)
    ensures
        match m.plan.filter {
            Some(filter) => if m.row_filled().awaits(filter) {
                m.finished().rows == m.rows + 1
            } else {
                m.finished() == m.finished_with(number)
            },
            None => m.finished() == m.finished_with(number),
        },
{
}

/// Cutting off the current row leaves every column with one cell for each row, and no cell of the
/// rows changes.
pub proof fn partial_row_is_cut_off(m: EngineView)
    requires
        aligned(m),
    ensures
        even(m.normalized()),
        same_cells(m, m.normalized()),
        m.normalized().rows == m.rows,
        m.normalized().order == m.order,
{
    let after = m.normalized();
    assert forall|i: int| 0 <= i < after.columns.len() implies {
        let column = #[trigger] after.columns[i];
        &&& sound(column)
        &&& column.len() == m.rows
        &&& forall|k: int|
            0 <= k < m.rows ==> #[trigger] column.text_at(k) == m.columns[i].text_at(k)
    } by {
        assert(after.columns[i] == cut(m.columns[i], m.rows));
        lemma_cut(m.columns[i], m.rows);
    }
    assert forall|name: Seq<char>, i: int| m.has(name) && 0 <= i < m.rows implies after.has(name)
        && #[trigger] m.column(name).text_at(i) == after.column(name).text_at(i) by {
        lemma_code_holds(m.order, name);
        assert(after.column(name) == after.columns[code_of(m.order, name)]);
    }
}

/// Cutting off the current row twice is cutting it off once.
pub proof fn normalizing_twice_is_once(m: EngineView)
    ensures
        m.normalized().normalized() == m.normalized(),
{
    let once = m.normalized();
    let twice = once.normalized();
    assert forall|i: int| 0 <= i < once.columns.len() implies twice.columns[i]
        == once.columns[i] by {
        assert(once.columns[i] == cut(m.columns[i], m.rows));
        assert(twice.columns[i] == cut(once.columns[i], m.rows));
        lemma_cut_len(m.columns[i], m.rows);
    }
    assert(twice.columns =~= once.columns);
}

/// A column that is cut off has at most as many cells as the cut leaves.
proof fn lemma_cut_len(column: ColumnView, len: nat)
    ensures
        cut(column, len).len() <= len,
    decreases column.len(),
{
    if column.len() > len {
        lemma_cut_len(column.popped(), len);
    }
}

/// A dictionary with more entries keeps its own where they are, and has the others.
proof fn lemma_entries(dict: Seq<Seq<char>>, more: Seq<Seq<char>>)
    ensures
        dict.len() <= with_entries(dict, more).len(),
        forall|i: int|
            0 <= i < dict.len() ==> #[trigger] with_entries(dict, more)[i] == dict[i],
        forall|i: int|
            0 <= i < more.len() ==> with_entries(dict, more).contains(#[trigger] more[i]),
    decreases more.len(),
{
    if more.len() > 0 {
        let front = more.drop_last();
        let before = with_entries(dict, front);
        lemma_entries(dict, front);
        lemma_entry(before, more.last());
        assert forall|i: int| 0 <= i < dict.len() implies #[trigger] with_entries(dict, more)[i]
            == dict[i] by {
            assert(with_entries(dict, more)[i] == before[i]);
        }
        assert forall|i: int| 0 <= i < more.len() implies with_entries(dict, more).contains(
            #[trigger] more[i],
        ) by {
            if i < front.len() {
                assert(front[i] == more[i]);
                let k = choose|k: int| 0 <= k < before.len() && before[k] == more[i];
                assert(with_entries(dict, more)[k] == more[i]);
            }
        }
    }
}

/// A column that takes the cells of another one has the texts of both, its own first.
pub proof fn extended_column_has_both(a: ColumnView, b: ColumnView)
    requires
        sound(a),
        sound(b),
        a.kind() == b.kind(),
    ensures
        a.extended(b) matches Some(c) && sound(c) && c.kind() == a.kind() && c.len() == a.len()
            + b.len() && (forall|i: int|
            0 <= i < a.len() ==> #[trigger] c.text_at(i) == a.text_at(i)) && (forall|i: int|
            0 <= i < b.len() ==> c.text_at(i + a.len()) == #[trigger] b.text_at(i)),
{
    let c = a.extended(b)->0;
    match (a, b) {
        (
            ColumnView::Dict { codes: own, dict: to },
            ColumnView::Dict { codes: other, dict: from },
        ) => {
            let all = with_entries(to, from);
            lemma_entries(to, from);
            let added = recoded(other, from, all);
            assert(c == (ColumnView::Dict { codes: own + added, dict: all }));
            assert forall|i: int| 0 <= i < other.len() implies (#[trigger] added[i] matches Some(code)
                ==> 0 <= code < all.len() && all[code] == from[other[i]->0]) by {
                if let Some(code) = other[i] {
                    assert(all.contains(from[code]));
                    lemma_code_holds(all, from[code]);
                }
            }
            assert forall|i: int| 0 <= i < (own + added).len() implies (
            #[trigger] (own + added)[i] matches Some(code) ==> 0 <= code < all.len()) by {
                if i < own.len() {
                    assert((own + added)[i] == own[i]);
                } else {
                    assert((own + added)[i] == added[i - own.len()]);
                }
            }
            assert forall|i: int| 0 <= i < a.len() implies #[trigger] c.text_at(i) == a.text_at(
                i,
            ) by {
                assert((own + added)[i] == own[i]);
            }
            assert forall|i: int| 0 <= i < b.len() implies c.text_at(i + a.len())
                == #[trigger] b.text_at(i) by {
                assert((own + added)[i + own.len()] == added[i]);
            }
        },
        _ => {},
    }
}

/// A text column that becomes a dictionary keeps its texts.
pub proof fn dictionary_keeps_texts(column: ColumnView, min_rows: nat)
    requires
        sound(column),
    ensures
        sound(column.upgraded(min_rows)),
        column.upgraded(min_rows).len() == column.len(),
        forall|i: int|
            0 <= i < column.len() ==> #[trigger] column.upgraded(min_rows).text_at(i)
                == column.text_at(i),
{
    if let ColumnView::Text(cells) = column {
        let dict = distinct(cells);
        let codes = coded(cells, dict);
        lemma_distinct(cells);
        assert forall|i: int| 0 <= i < cells.len() implies (#[trigger] codes[i] matches Some(code)
            ==> 0 <= code < dict.len() && Some(dict[code]) == cells[i]) by {
            if let Some(v) = cells[i] {
                assert(dict.contains(v));
                lemma_code_holds(dict, v);
            }
        }
        if column.upgraded(min_rows) != column {
            assert(column.upgraded(min_rows) == (ColumnView::Dict { codes, dict }));
            assert forall|i: int| 0 <= i < column.len() implies #[trigger] column.upgraded(
                min_rows,
            ).text_at(i) == column.text_at(i) by {
                assert(codes[i] is Some == cells[i] is Some);
            }
        }
    }
}

/// The distinct texts hold every text.
proof fn lemma_distinct(cells: Seq<Option<Seq<char>>>)
    ensures
        forall|i: int|
            0 <= i < cells.len() ==> (#[trigger] cells[i] matches Some(v) ==> distinct(
                cells,
            ).contains(v)),
    decreases cells.len(),
{
    if cells.len() > 0 {
        let front = cells.drop_last();
        let before = distinct(front);
        lemma_distinct(front);
        if let Some(v) = cells.last() {
            lemma_entry(before, v);
        }
        assert forall|i: int| 0 <= i < cells.len() implies (#[trigger] cells[i] matches Some(v)
            ==> distinct(cells).contains(v)) by {
            if i < front.len() {
                assert(front[i] == cells[i]);
                if let Some(v) = cells[i] {
                    let k = choose|k: int| 0 <= k < before.len() && before[k] == v;
                    assert(distinct(cells)[k] == v);
                }
            }
        }
    }
}

/// Dictionaries leave the table as it reads: the same columns, the same rows, the same texts.
pub proof fn dictionaries_keep_cells(m: EngineView)
    requires
        aligned(m),
    ensures
        aligned(m.auto_upgraded()),
        same_cells(m, m.auto_upgraded()),
        m.auto_upgraded().order == m.order,
        m.auto_upgraded().rows == m.rows,
{
    let after = m.auto_upgraded();
    if m.plan.auto_dict {
        assert forall|i: int| 0 <= i < after.columns.len() implies {
            let column = #[trigger] after.columns[i];
            &&& sound(column)
            &&& column.len() == m.columns[i].len()
            &&& forall|k: int|
                0 <= k < m.rows ==> #[trigger] column.text_at(k) == m.columns[i].text_at(k)
        } by {
            assert(after.columns[i] == m.columns[i].upgraded(AUTO_DICT_ROWS as nat));
            dictionary_keeps_texts(m.columns[i], AUTO_DICT_ROWS as nat);
        }
        assert forall|name: Seq<char>, i: int| m.has(name) && 0 <= i < m.rows implies after.has(
            name,
        ) && #[trigger] m.column(name).text_at(i) == after.column(name).text_at(i) by {
            lemma_code_holds(m.order, name);
            assert(after.column(name) == after.columns[code_of(m.order, name)]);
        }
    }
}

/// The type of the column of this name before its cells are merged.
pub open spec fn merge_kind(m: EngineView, other: EngineView, name: Seq<char>) -> FieldType {
    if m.has(name) {
        m.column(name).kind()
    } else {
        other.plan.type_of(name)
    }
}

/// One of the first `n` columns of the table has this name.
pub open spec fn has_among(m: EngineView, n: nat, name: Seq<char>) -> bool {
    m.order.take(n as int).contains(name)
}

proof fn lemma_with_columns_of(m: EngineView, other: EngineView, n: nat)
    requires
        even(m),
        n <= other.order.len(),
    ensures
        even(m.with_columns_of(other, n)),
        m.with_columns_of(other, n).rows == m.rows,
        m.with_columns_of(other, n).plan == m.plan,
        forall|name: Seq<char>| #[trigger]
            m.with_columns_of(other, n).has(name) <==> m.has(name) || has_among(other, n, name),
        forall|name: Seq<char>| #[trigger]
            m.with_columns_of(other, n).has(name) ==> m.with_columns_of(other, n).column(name) == (
            if m.has(name) {
                m.column(name)
            } else {
                with_nulls(ColumnView::empty(other.plan.type_of(name)), m.rows)
            }),
    decreases n,
{
    if n == 0 {
        assert forall|name: Seq<char>| !has_among(other, 0, name) by {}
    } else {
        let before = m.with_columns_of(other, (n - 1) as nat);
        let after = m.with_columns_of(other, n);
        let last = other.order[n - 1];
        lemma_with_columns_of(m, other, (n - 1) as nat);
        if !before.has(last) {
            lemma_with_column(before, last, other.plan.type_of(last));
        }
        assert(other.order.take(n as int) =~= other.order.take(n - 1).push(last));
        assert forall|name: Seq<char>| has_among(other, n, name) == (has_among(
            other,
            (n - 1) as nat,
            name,
        ) || name == last) by {
            let short = other.order.take(n - 1);
            if short.contains(name) {
                let k = choose|k: int| 0 <= k < short.len() && short[k] == name;
                assert(short.push(last)[k] == name);
            }
            if name == last {
                assert(short.push(last)[n - 1] == name);
            }
            if short.push(last).contains(name) && name != last {
                let k = choose|k: int| 0 <= k < n && short.push(last)[k] == name;
                assert(short[k] == name);
            }
        }
        assert forall|name: Seq<char>| #[trigger] after.has(name) <==> m.has(name) || has_among(
            other,
            n,
            name,
        ) by {
            assert(before.has(name) <==> m.has(name) || has_among(other, (n - 1) as nat, name));
            if name != last && !before.has(last) {
                assert(after.has(name) == before.has(name));
            }
        }
        assert forall|name: Seq<char>| #[trigger] after.has(name) implies after.column(name) == (
        if m.has(name) {
            m.column(name)
        } else {
            with_nulls(ColumnView::empty(other.plan.type_of(name)), m.rows)
        }) by {
            assert(before.has(name) <==> m.has(name) || has_among(other, (n - 1) as nat, name));
            if name != last && !before.has(last) {
                assert(after.has(name) == before.has(name));
            }
        }
    }
}

/// Two columns can be merged if and only if they are of one type.
proof fn lemma_extended_kind(a: ColumnView, b: ColumnView)
    ensures
        a.extended(b) is Some <==> a.kind() == b.kind(),
{
}

/// The text that a merged table has: that of the first table in its rows, and that of the other one
/// in the rows after them; null where a table does not have the column.
pub open spec fn merged_text(
    a: EngineView,
    b: EngineView,
    name: Seq<char>,
    i: int,
) -> Option<Seq<char>> {
    if i < a.rows {
        if a.has(name) {
            a.column(name).text_at(i)
        } else {
            None
        }
    } else if b.has(name) {
        b.column(name).text_at(i - a.rows)
    } else {
        None
    }
}

/// The columns of both tables, under each name that both have, are of one type.
pub open spec fn types_agree(a: EngineView, b: EngineView) -> bool {
    forall|name: Seq<char>| #[trigger]
        b.has(name) ==> merge_kind(a, b, name) == b.column(name).kind()
}

/// Merging two tables puts the rows of one after the rows of the other: the merged table has the
/// columns of both, of the types that they have, and each cell reads as in its table, or null where
/// that table does not have the column. The merge fails if and only if the types of a column
/// differ.
pub proof fn merged_table_has_both(a: EngineView, b: EngineView)
    requires
        even(a),
        even(b),
    ensures
        extended_engine(a, b) is Some <==> types_agree(a, b),
        extended_engine(a, b) matches Some(c) ==> {
            &&& even(c)
            &&& c.rows == a.rows + b.rows
            &&& c.plan == a.plan
            &&& forall|name: Seq<char>| #[trigger] c.has(name) <==> a.has(name) || b.has(name)
            &&& forall|name: Seq<char>| #[trigger]
                c.has(name) ==> c.column(name).kind() == merge_kind(a, b, name)
            &&& forall|name: Seq<char>, i: int|
                c.has(name) && 0 <= i < c.rows ==> #[trigger] c.column(name).text_at(i)
                    == merged_text(a, b, name, i)
        },
{
    let n = b.order.len();
    let full = a.with_columns_of(b, n);
    lemma_with_columns_of(a, b, n);
    assert(b.order.take(n as int) =~= b.order);
    assert forall|name: Seq<char>| #[trigger] full.has(name) <==> a.has(name) || b.has(name) by {
        assert(has_among(b, n, name) == b.has(name));
    }
    // The columns of the full table, one by one.
    assert forall|i: int| 0 <= i < full.columns.len() implies {
        let name = full.order[i];
        &&& full.has(name)
        &&& full.column(name) == full.columns[i]
        &&& (#[trigger] full.merged(b, i)) is Some <==> (b.has(name) ==> merge_kind(a, b, name)
            == b.column(name).kind())
    } by {
        let name = full.order[i];
        lemma_code_of(full.order, i);
        assert(full.has(name));
        lemma_with_nulls(ColumnView::empty(b.plan.type_of(name)), a.rows);
        lemma_extended_kind(full.columns[i], b.column(name));
    }
    let len = full.columns.len();
    if types_agree(a, b) {
        assert(full.can_merge(b, len));
    }
    if full.can_merge(b, len) {
        assert forall|name: Seq<char>| #[trigger] b.has(name) implies merge_kind(a, b, name)
            == b.column(name).kind() by {
            assert(full.has(name));
            lemma_code_holds(full.order, name);
            let i = code_of(full.order, name);
            assert(full.merged(b, i) is Some);
        }
        let c = extended_engine(a, b)->0;
        assert(c.order == full.order);
        assert forall|i: int| 0 <= i < len implies {
            let name = full.order[i];
            let column = #[trigger] c.columns[i];
            &&& sound(column)
            &&& column.kind() == merge_kind(a, b, name)
            &&& column.len() == c.rows
            &&& forall|k: int|
                0 <= k < c.rows ==> #[trigger] column.text_at(k) == merged_text(a, b, name, k)
        } by {
            let name = full.order[i];
            let column = full.columns[i];
            assert(full.merged(b, i) is Some);
            assert(c.columns[i] == full.merged(b, i)->0);
            lemma_with_nulls(ColumnView::empty(b.plan.type_of(name)), a.rows);
            if b.has(name) {
                lemma_column(b, name);
                extended_column_has_both(column, b.column(name));
                let both = column.extended(b.column(name))->0;
                assert forall|k: int| 0 <= k < c.rows implies #[trigger] both.text_at(k)
                    == merged_text(a, b, name, k) by {
                    if k < a.rows {
                        assert(both.text_at(k) == column.text_at(k));
                    } else {
                        let t = b.column(name).text_at(k - a.rows);
                        assert(both.text_at((k - a.rows) + column.len()) == t);
                    }
                }
            } else {
                lemma_with_nulls(column, b.rows);
                let padded = with_nulls(column, b.rows);
                assert forall|k: int| 0 <= k < c.rows implies #[trigger] padded.text_at(k)
                    == merged_text(a, b, name, k) by {
                    if k < a.rows {
                        assert(padded.text_at(k) == column.text_at(k));
                    }
                }
            }
        }
        assert forall|name: Seq<char>| #[trigger] c.has(name) <==> a.has(name) || b.has(name) by {
            assert(c.has(name) == full.has(name));
        }
        assert forall|name: Seq<char>| #[trigger] c.has(name) implies c.column(name).kind()
            == merge_kind(a, b, name) by {
            lemma_code_holds(c.order, name);
            assert(c.column(name) == c.columns[code_of(c.order, name)]);
        }
        assert forall|name: Seq<char>, i: int| c.has(name) && 0 <= i < c.rows implies
            #[trigger] c.column(name).text_at(i) == merged_text(a, b, name, i) by {
            lemma_code_holds(c.order, name);
            assert(c.column(name) == c.columns[code_of(c.order, name)]);
        }
    }
}

} // verus!
