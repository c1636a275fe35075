//! What becomes of a table: which rows a filter keeps, in which order the columns stand, and what
//! sorting, dictionaries and lists of tables make of it.

use vstd::prelude::*;
use vstd::utf8::encode_utf8;

use crate::column::{code_of, distinct, lemma_code_of, ColumnView};
use crate::columnar::{
    bytes_le, filled, half_extended, insert_place, lemma_place_holds, lemma_with_columns_keeps,
    listed, lists, name_le, named_columns, place_of, sorted_names, unified, EngineView,
};
use crate::laws::{
    aligned, field_arrives, lemma_column, lemma_popped, lemma_row_filled, pushed_value_is_last,
    row_ends,
};
use crate::order::{later, lemma_first_later, placed};
use crate::plan::{FieldType, FilterView};
use crate::values::{
    few_texts_become_a_dictionary, texts_are_stored_as_they_came, truth_values_are_stored,
};

verus! {

/// A filter compares the text that the current row has in the column of its field: it keeps a row
/// for equality if and only if the texts are the same. A field without a column or without a value
/// is equal to none. A comparison of two columns keeps every row.
pub proof fn filters_go_by_the_text_of_the_field(
    m: EngineView,
    field: Seq<char>,
    value: Seq<char>,
    number: Option<Seq<char>>,
    filter: FilterView,
)
    ensures
        ({
            let column = m.plan.renamed(field);
            let equal = m.passes(FilterView::Equal { field, value }, number);
            let other = m.passes(FilterView::NotEqual { field, value }, number);
            &&& other == !equal
            &&& !m.has(column) ==> !equal
            &&& m.has(column) ==> match m.column(column).text_at(m.rows as int) {
                Some(text) => equal == (if m.column(column).kind() == FieldType::Float64 {
                    number == Some(value)
                } else {
                    text == value
                }),
                None => !equal,
            }
        }),
        filter is Compare ==> m.passes(filter, number),
{
}

/// A row counts if and only if the filter keeps it, and every row counts where there is no filter.
pub proof fn rows_count_if_they_pass(m: EngineView, number: Option<Seq<char>>)
    ensures
        m.plan.filter is None ==> m.finished_with(number).rows == m.rows + 1 && m.finished().rows
            == m.rows + 1,
        m.plan.filter matches Some(filter) ==> m.finished_with(number).rows == (
        if m.row_filled().passes(filter, number) {
            m.rows + 1
        } else {
            m.rows
        }),
        m.finished_with(number).order == m.order,
        m.finished_with(number).plan == m.plan,
{
}

/// A row with a text in its column passes a filter on equality with this text and no other, where
/// the column is of texts, dictionary entries or truth values.
pub proof fn field_passes_the_filter_for_its_text(
    m: EngineView,
    raw: Seq<char>,
    text: Seq<char>,
    value: Seq<char>,
)
    requires
        aligned(m),
        m.plan.resolve(raw) is Some,
        m.plan.filter == Some(FilterView::Equal { field: raw, value }),
        m.has(m.plan.renamed(raw)),
        ({
            let kind = m.column(m.plan.renamed(raw)).kind();
            kind == FieldType::String || kind == FieldType::Dictionary || (kind
                == FieldType::Boolean && (text == "true"@ || text == "false"@))
        }),
    ensures
        m.put(raw, Some(text)).finished().rows == (if text == value {
            m.rows + 1
        } else {
            m.rows
        }),
{
    let name = m.plan.renamed(raw);
    let after = m.put(raw, Some(text));
    let full = after.row_filled();
    field_arrives(m, raw, Some(text));
    lemma_column(m, name);
    lemma_row_filled(after);
    row_ends(after);
    lemma_column(after, name);
    let kind = m.column(name).kind();
    let place = code_of(m.order, name);
    let column = m.columns[place];
    let open = if column.len() > m.rows {
        column.popped()
    } else {
        column
    };
    lemma_popped(column);
    pushed_value_is_last(open, Some(text));
    assert(m.ensured(name) == m);
    assert(after.column(name) == open.pushed(Some(text)));
    if kind == FieldType::Boolean {
        truth_values_are_stored(open, text);
    } else {
        texts_are_stored_as_they_came(open, text);
    }
    assert(full.column(name) == filled(after.column(name), m.rows + 1));
    assert(full.column(name) == after.column(name));
}

/// A new column comes before the first column that is later in the schema; the columns of the
/// schema that stand in its order still do with it, and the others keep their order. A column that
/// is not in the schema goes to the end.
pub proof fn schema_columns_stay_in_order(
    order: Seq<Seq<char>>,
    schema: Seq<Seq<char>>,
    name: Seq<char>,
)
    requires
        !order.contains(name),
        in_schema_order(order, schema),
        schema.no_duplicates(),
    ensures
        in_schema_order(placed(order, schema, name), schema),
        !schema.contains(name) ==> placed(order, schema, name) == order.push(name),
        exists|at: int|
            0 <= at <= order.len() && placed(order, schema, name) == #[trigger] order.insert(
                at,
                name,
            ),
{
    let at = insert_place(order, schema, name);
    let after = placed(order, schema, name);
    if schema.contains(name) {
        lemma_first_later(order, schema, place_of(schema, name));
        lemma_place_holds(schema, name);
    } else {
        assert(order.insert(order.len() as int, name) =~= order.push(name));
    }
    assert(after == order.insert(at, name));
    assert forall|a: int, b: int, i: int, j: int|
        #![trigger after[a], after[b], schema[i], schema[j]]
        0 <= a < b < after.len() && 0 <= i < schema.len() && 0 <= j < schema.len() && after[a]
            == schema[i] && after[b] == schema[j] implies i < j by {
        let x = if a < at {
            a
        } else {
            a - 1
        };
        let y = if b < at {
            b
        } else {
            b - 1
        };
        if a != at {
            assert(after[a] == order[x]);
        }
        if b != at {
            assert(after[b] == order[y]);
        }
        if a == at {
            assert(schema.contains(schema[i]));
            lemma_place(schema, i);
            lemma_place(schema, j);
            assert(schema.contains(schema[j]));
            // The first later column stands right after the new one, and the others after it.
            let p = place_of(schema, name);
            assert(later(schema, order[at], p));
            let k = place_of(schema, order[at]);
            lemma_place_holds(schema, order[at]);
            if y > at {
                assert(order[at] == schema[k] && order[y] == schema[j]);
            }
        } else if b == at {
            assert(schema.contains(schema[i]));
            assert(schema.contains(schema[j]));
            lemma_place(schema, i);
            lemma_place(schema, j);
            let p = place_of(schema, name);
            assert(!later(schema, order[x], p));
            if i == j {
                assert(order.contains(order[x]));
            }
        } else {
            assert(order[x] == schema[i] && order[y] == schema[j]);
        }
    }
}

/// The columns that are in the schema stand in its order.
pub open spec fn in_schema_order(order: Seq<Seq<char>>, schema: Seq<Seq<char>>) -> bool {
    forall|a: int, b: int, i: int, j: int|
        #![trigger order[a], order[b], schema[i], schema[j]]
        0 <= a < b < order.len() && 0 <= i < schema.len() && 0 <= j < schema.len() && order[a]
            == schema[i] && order[b] == schema[j] ==> i < j
}

/// A name of a schema without repetitions has the place that it stands at.
proof fn lemma_place(schema: Seq<Seq<char>>, i: int)
    requires
        schema.no_duplicates(),
        0 <= i < schema.len(),
    ensures
        place_of(schema, schema[i]) == i,
{
    assert(schema.contains(schema[i]));
    lemma_place_holds(schema, schema[i]);
}

/// A column that comes to a table stands where its place in the schema is; a table that has it
/// stays as it is.
pub proof fn new_columns_are_placed(m: EngineView, name: Seq<char>)
    ensures
        m.ensured(name).order == placed(m.order, m.plan.schema_order, name),
        m.has(name) ==> m.ensured(name) == m,
{
}

/// Automatic dictionaries come only where the plan asks for them, and to text columns of at least
/// 512 cells only.
pub proof fn dictionaries_come_where_they_pay(m: EngineView, i: int)
    requires
        0 <= i < m.columns.len(),
    ensures
        !m.plan.auto_dict ==> m.auto_upgraded() == m,
        m.columns[i].len() < 512 ==> m.auto_upgraded().columns[i] == m.columns[i],
        m.plan.auto_dict && (m.columns[i] matches ColumnView::Text(cells) && cells.len() >= 512
            && distinct(cells).len() <= 16) ==> m.auto_upgraded().columns[i].kind()
            == FieldType::Dictionary,
        m.columns[i].kind() != FieldType::String ==> m.auto_upgraded().columns[i] == m.columns[i],
{
    few_texts_become_a_dictionary(m.columns[i], 512);
}

/// A merge that fails has not added rows, and has left the plan as it was.
pub proof fn failed_merge_adds_no_rows(m: EngineView, other: EngineView, left: EngineView)
    requires
        half_extended(m, other, left),
    ensures
        left.rows == m.rows,
        left.plan == m.plan,
{
    lemma_with_columns_keeps(m, other, other.order.len());
}

/// Names are ordered by their bytes: the first byte that differs decides, and a name comes before
/// those that it starts.
pub proof fn names_are_ordered_by_their_bytes(
    common: Seq<u8>,
    x: u8,
    y: u8,
    a: Seq<u8>,
    b: Seq<u8>,
)
    ensures
        bytes_le(common, common + a),
        a.len() > 0 ==> !bytes_le(common + a, common),
        x < y ==> bytes_le(common + (seq![x] + a), common + (seq![y] + b)),
        x < y ==> !bytes_le(common + (seq![y] + b), common + (seq![x] + a)),
    decreases common.len(),
{
    if common.len() == 0 {
        assert(common + a =~= a);
        assert(common + (seq![x] + a) =~= seq![x] + a);
        assert(common + (seq![y] + b) =~= seq![y] + b);
    } else {
        let rest = common.drop_first();
        names_are_ordered_by_their_bytes(rest, x, y, a, b);
        assert((common + a).drop_first() =~= rest + a);
        assert((common + (seq![x] + a)).drop_first() =~= rest + (seq![x] + a));
        assert((common + (seq![y] + b)).drop_first() =~= rest + (seq![y] + b));
    }
}

/// Names in sorted order stand so two by two.
pub proof fn sorted_names_ascend(names: Seq<Seq<char>>, i: int, j: int)
    requires
        sorted_names(names, names.len() as int),
        0 <= i < j < names.len(),
    ensures
        bytes_le(encode_utf8(names[i]), encode_utf8(names[j])),
{
    assert(name_le(names[i], names[j]));
}

/// Tables with the same named columns, in whatever order, have the same columns, and the same cells
/// in each.
pub proof fn reordered_tables_have_the_same_columns(a: EngineView, b: EngineView, name: Seq<char>)
    requires
        aligned(a),
        aligned(b),
        named_columns(a).to_multiset() == named_columns(b).to_multiset(),
    ensures
        a.has(name) == b.has(name),
        a.has(name) ==> a.column(name) == b.column(name),
{
    if a.has(name) {
        lemma_found(a, b, name);
    }
    if b.has(name) {
        lemma_found(b, a, name);
    }
}

/// Tables with the same named columns have the same column under a name.
proof fn lemma_found(a: EngineView, b: EngineView, name: Seq<char>)
    requires
        aligned(a),
        aligned(b),
        named_columns(a).to_multiset() == named_columns(b).to_multiset(),
        a.has(name),
    ensures
        b.has(name),
        a.column(name) == b.column(name),
{
    broadcast use vstd::seq_lib::group_to_multiset_ensures;

    lemma_column(a, name);
    let i = code_of(a.order, name);
    let pair = named_columns(a)[i];
    assert(pair == (name, a.column(name)));
    assert(named_columns(a).contains(pair));
    assert(named_columns(a).to_multiset().count(pair) > 0);
    assert(named_columns(b).contains(pair));
    let j = choose|j: int| 0 <= j < named_columns(b).len() && named_columns(b)[j] == pair;
    assert(b.order[j] == name);
    lemma_code_of(b.order, j);
}

/// The list of the columns of several tables: it has each column of a table with rows, once, with
/// the type that it has in the first such table, and no other.
pub proof fn unified_columns_are_those_of_the_tables(engines: Seq<EngineView>)
    requires
        forall|k: int| 0 <= k < engines.len() ==> aligned(#[trigger] engines[k]),
    ensures
        forall|a: int, b: int|
            0 <= a < b < unified(engines).len() ==> (#[trigger] unified(engines)[a]).0 != (
            #[trigger] unified(engines)[b]).0,
        forall|name: Seq<char>| #[trigger]
            lists(unified(engines), name) <==> exists|k: int|
                0 <= k < engines.len() && (#[trigger] engines[k]).rows > 0 && engines[k].has(name),
        forall|i: int|
            0 <= i < unified(engines).len() ==> exists|k: int|
                {
                    &&& 0 <= k < engines.len()
                    &&& (#[trigger] engines[k]).rows > 0
                    &&& engines[k].has((#[trigger] unified(engines)[i]).0)
                    &&& engines[k].column(unified(engines)[i].0).kind() == unified(engines)[i].1
                    &&& forall|j: int|
                        0 <= j < k && (#[trigger] engines[j]).rows > 0 ==> !engines[j].has(
                            unified(engines)[i].0,
                        )
                },
    decreases engines.len(),
{
    if engines.len() > 0 {
        let front = engines.drop_last();
        let last = engines.last();
        let before = unified(front);
        let all = unified(engines);
        assert(forall|k: int| 0 <= k < front.len() ==> front[k] == engines[k]);
        assert(engines[engines.len() - 1] == last);
        assert forall|k: int| 0 <= k < front.len() implies aligned(#[trigger] front[k]) by {
            assert(aligned(engines[k]));
        }
        unified_columns_are_those_of_the_tables(front);
        if last.rows > 0 {
            lemma_listed(before, last, last.order.len());
            assert(last.order.take(last.order.len() as int) =~= last.order);
        }
        assert forall|name: Seq<char>| #[trigger] lists(all, name) <==> exists|k: int|
            0 <= k < engines.len() && (#[trigger] engines[k]).rows > 0 && engines[k].has(name) by {
            assert(lists(before, name) <==> exists|k: int|
                0 <= k < front.len() && (#[trigger] front[k]).rows > 0 && front[k].has(name));
            if exists|k: int|
                0 <= k < front.len() && (#[trigger] front[k]).rows > 0 && front[k].has(name) {
                let k = choose|k: int|
                    0 <= k < front.len() && (#[trigger] front[k]).rows > 0 && front[k].has(name);
                assert(engines[k].rows > 0 && engines[k].has(name));
            }
            if exists|k: int|
                0 <= k < engines.len() && (#[trigger] engines[k]).rows > 0 && engines[k].has(name) {
                let k = choose|k: int|
                    0 <= k < engines.len() && (#[trigger] engines[k]).rows > 0 && engines[k].has(
                        name,
                    );
                if k < front.len() {
                    assert(front[k].rows > 0 && front[k].has(name));
                }
            }
        }
        assert forall|i: int| 0 <= i < all.len() implies exists|k: int|
            {
                &&& 0 <= k < engines.len()
                &&& (#[trigger] engines[k]).rows > 0
                &&& engines[k].has((#[trigger] all[i]).0)
                &&& engines[k].column(all[i].0).kind() == all[i].1
                &&& forall|j: int|
                    0 <= j < k && (#[trigger] engines[j]).rows > 0 ==> !engines[j].has(all[i].0)
            } by {
            if i < before.len() {
                assert(all[i] == before[i]);
                let k = choose|k: int|
                    {
                        &&& 0 <= k < front.len()
                        &&& (#[trigger] front[k]).rows > 0
                        &&& front[k].has(before[i].0)
                        &&& front[k].column(before[i].0).kind() == before[i].1
                        &&& forall|j: int|
                            0 <= j < k && (#[trigger] front[j]).rows > 0 ==> !front[j].has(
                                before[i].0,
                            )
                    };
                assert forall|j: int| 0 <= j < k && (#[trigger] engines[j]).rows > 0 implies !engines[j].has(
                    all[i].0,
                ) by {
                    assert(front[j].rows > 0);
                }
                assert(engines[k].rows > 0);
            } else {
                let k = engines.len() - 1;
                assert(!lists(before, all[i].0));
                assert forall|j: int| 0 <= j < k && (#[trigger] engines[j]).rows > 0 implies !engines[j].has(
                    all[i].0,
                ) by {
                    assert(front[j].rows > 0);
                }
                assert(engines[k].rows > 0);
            }
        }
    }
}

/// The columns of one more table come after those of the tables before it, in the order that they
/// have in the table.
pub proof fn unified_columns_come_in_order(engines: Seq<EngineView>, last: EngineView)
    requires
        forall|k: int| 0 <= k < engines.len() ==> aligned(#[trigger] engines[k]),
        aligned(last),
    ensures
        ({
            let before = unified(engines);
            let all = unified(engines.push(last));
            &&& before.len() <= all.len()
            &&& forall|i: int| 0 <= i < before.len() ==> #[trigger] all[i] == before[i]
            &&& last.rows == 0 ==> all == before
            &&& forall|i: int, j: int|
                before.len() <= i < j < all.len() ==> code_of(last.order, (#[trigger] all[i]).0)
                    < code_of(last.order, (#[trigger] all[j]).0)
        }),
{
    assert(engines.push(last).drop_last() =~= engines);
    unified_columns_are_those_of_the_tables(engines);
    if last.rows > 0 {
        lemma_listed(unified(engines), last, last.order.len());
    }
}

/// What a table adds to a list of columns.
proof fn lemma_listed(list: Seq<(Seq<char>, FieldType)>, m: EngineView, n: nat)
    requires
        aligned(m),
        n <= m.order.len(),
        forall|a: int, b: int|
            0 <= a < b < list.len() ==> (#[trigger] list[a]).0 != (#[trigger] list[b]).0,
    ensures
        ({
            let after = listed(list, m, n);
            &&& list.len() <= after.len()
            &&& forall|i: int| 0 <= i < list.len() ==> #[trigger] after[i] == list[i]
            &&& forall|a: int, b: int|
                0 <= a < b < after.len() ==> (#[trigger] after[a]).0 != (#[trigger] after[b]).0
            &&& forall|name: Seq<char>| #[trigger]
                lists(after, name) <==> lists(list, name) || m.order.take(n as int).contains(name)
            &&& forall|i: int|
                list.len() <= i < after.len() ==> m.has((#[trigger] after[i]).0) && m.column(
                    after[i].0,
                ).kind() == after[i].1 && !lists(list, after[i].0) && code_of(
                    m.order,
                    after[i].0,
                ) < n
            &&& forall|i: int, j: int|
                list.len() <= i < j < after.len() ==> code_of(m.order, (#[trigger] after[i]).0)
                    < code_of(m.order, (#[trigger] after[j]).0)
        }),
    decreases n,
{
    if n > 0 {
        let before = listed(list, m, (n - 1) as nat);
        let after = listed(list, m, n);
        let name = m.order[n - 1];
        lemma_listed(list, m, (n - 1) as nat);
        assert(m.order.contains(name));
        lemma_column(m, name);
        lemma_code_of(m.order, n - 1);
        let short = m.order.take(n - 1);
        let long = m.order.take(n as int);
        assert(long =~= short.push(name));
        assert forall|other: Seq<char>| #[trigger] lists(after, other) <==> lists(list, other)
            || long.contains(other) by {
            assert(lists(before, other) <==> lists(list, other) || short.contains(other));
            if short.contains(other) {
                let k = choose|k: int| 0 <= k < short.len() && short[k] == other;
                assert(long[k] == other);
            }
            if long.contains(other) && other != name {
                let k = choose|k: int| 0 <= k < long.len() && long[k] == other;
                assert(short[k] == other);
            }
            assert(long[n - 1] == name);
            if lists(before, other) {
                let k = choose|k: int| 0 <= k < before.len() && (#[trigger] before[k]).0 == other;
                assert(after[k].0 == other);
            }
            if lists(after, other) && !lists(before, other) {
                let k = choose|k: int| 0 <= k < after.len() && (#[trigger] after[k]).0 == other;
                if k < before.len() {
                    assert(before[k].0 == other);
                }
            }
            if !lists(before, name) {
                assert(after[before.len() as int].0 == name);
            }
        }
        if !lists(before, name) {
            assert forall|a: int, b: int| 0 <= a < b < after.len() implies (#[trigger] after[a]).0
                != (#[trigger] after[b]).0 by {
                if b == before.len() {
                    assert(before[a].0 != name);
                }
            }
            assert forall|i: int| list.len() <= i < after.len() implies m.has(
                (#[trigger] after[i]).0,
            ) && m.column(after[i].0).kind() == after[i].1 && !lists(list, after[i].0) && code_of(
                m.order,
                after[i].0,
            ) < n by {
                if i < before.len() {
                    assert(after[i] == before[i]);
                } else if lists(list, name) {
                    assert(lists(before, name));
                }
            }
            assert forall|i: int, j: int| list.len() <= i < j < after.len() implies code_of(
                m.order,
                (#[trigger] after[i]).0,
            ) < code_of(m.order, (#[trigger] after[j]).0) by {
                assert(after[i] == before[i]);
                if j < before.len() {
                    assert(after[j] == before[j]);
                }
            }
        }
    }
}

/// Once the numbers of a filtered column are told, a row stays if its number compares as the filter
/// says. A row with no number told for it has none.
pub proof fn rows_stay_by_the_numbers_told(m: EngineView, numbers: Seq<Option<Seq<char>>>, i: int)
    requires
        0 <= i < m.rows,
    ensures
        m.kept_rows(numbers).len() == m.rows,
        m.plan.filter matches Some(FilterView::Equal { value, .. }) ==> (m.kept_rows(numbers)[i]
            <==> i < numbers.len() && numbers[i] == Some(value)),
        m.plan.filter matches Some(FilterView::NotEqual { value, .. }) ==> (m.kept_rows(numbers)[i]
            <==> i >= numbers.len() || numbers[i] != Some(value)),
        m.plan.filter is None ==> m.kept_rows(numbers)[i],
        m.plan.filter matches Some(FilterView::Compare { .. }) ==> m.kept_rows(numbers)[i],
{
}

} // verus!
