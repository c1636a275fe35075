//! What a row filter does to a table: its rows are those of the table without the filter that the
//! filter keeps.

use vstd::prelude::*;

use crate::chunked::{
    column_texts, kept, lemma_finished_reads, lemma_put_reads, lemma_retained_texts, reading, typed,
};
use crate::column::{lemma_retained_from, lemma_retained_map, retained};
use crate::columnar::EngineView;
use crate::events::{readable, EventView};
use crate::growth::table_at;
use crate::laws::{aligned, even, lemma_column, lemma_cut, partial_row_is_cut_off};
use crate::parse::{parse_rows, parsed};
use crate::plan::{FieldType, FilterView, PlanView};
use crate::tandem::{
    documents_keep_same, keeps_same, parses_same, readable_throughout, rows_keep_same,
};

verus! {

/// The plan without its row filter.
pub open spec fn unfiltered(plan: PlanView) -> PlanView {
    PlanView { filter: None, ..plan }
}

/// The text that a filter compares where a cell of the column reads `text`: in a column of floating
/// point numbers that of the number, which `number` gives.
pub open spec fn told(
    plan: PlanView,
    name: Seq<char>,
    number: spec_fn(Seq<char>) -> Option<Seq<char>>,
    text: Option<Seq<char>>,
) -> Option<Seq<char>> {
    match text {
        Some(t) => if plan.type_of(name) == FieldType::Float64 {
            number(t)
        } else {
            Some(t)
        },
        None => None,
    }
}

/// The filter of the plan keeps row `i` of the table.
pub open spec fn row_passes(
    plan: PlanView,
    number: spec_fn(Seq<char>) -> Option<Seq<char>>,
    m: EngineView,
    i: int,
) -> bool {
    match plan.filter {
        Some(FilterView::Equal { field, value }) => {
            let name = plan.renamed(field);
            told(plan, name, number, reading(m, name, i)) == Some(value)
        },
        Some(FilterView::NotEqual { field, value }) => {
            let name = plan.renamed(field);
            told(plan, name, number, reading(m, name, i)) != Some(value)
        },
        _ => true,
    }
}

/// Which rows of the table the filter of the plan keeps.
pub open spec fn passing(
    plan: PlanView,
    number: spec_fn(Seq<char>) -> Option<Seq<char>>,
    m: EngineView,
) -> Seq<bool> {
    Seq::new(m.rows, |i: int| row_passes(plan, number, m, i))
}

/// The texts in the whole rows of a table under a name.
pub open spec fn texts_under(m: EngineView, name: Seq<char>) -> Seq<Option<Seq<char>>> {
    Seq::new(m.rows, |i: int| reading(m, name, i))
}

/// The table `some` has the columns of `all`, and its rows are those of `all` that are kept.
pub open spec fn has_kept_rows(all: EngineView, some: EngineView, keep: Seq<bool>) -> bool {
    &&& some.order == all.order
    &&& some.rows == retained(keep, keep).len()
    &&& forall|name: Seq<char>| #[trigger]
        texts_under(some, name) == retained(texts_under(all, name), keep)
}

/// The texts of the numbers in the column that the filter of the plan compares with a text.
pub open spec fn numbers_told(
    plan: PlanView,
    number: spec_fn(Seq<char>) -> Option<Seq<char>>,
    m: EngineView,
) -> Seq<Option<Seq<char>>> {
    Seq::new(
        m.rows,
        |i: int|
            match reading(m, compared_column(plan), i) {
                Some(t) => number(t),
                None => None,
            },
    )
}

/// A row in which the compared column reads `text` stays for now.
spec fn text_stays(plan: PlanView, text: Option<Seq<char>>) -> bool {
    match plan.filter {
        Some(FilterView::Equal { field, value }) => text == Some(value) || (text is Some
            && plan.type_of(plan.renamed(field)) == FieldType::Float64),
        Some(FilterView::NotEqual { field, value }) => text != Some(value) || (text is Some
            && plan.type_of(plan.renamed(field)) == FieldType::Float64),
        _ => true,
    }
}

/// The column that the filter of the plan compares with a text.
pub open spec fn compared_column(plan: PlanView) -> Seq<char> {
    match plan.filter {
        Some(FilterView::Equal { field, .. }) => plan.renamed(field),
        Some(FilterView::NotEqual { field, .. }) => plan.renamed(field),
        _ => Seq::empty(),
    }
}

/// Which rows of the table stay for now.
spec fn staying(plan: PlanView, m: EngineView) -> Seq<bool> {
    texts_under(m, compared_column(plan)).map_values(|t: Option<Seq<char>>| text_stays(plan, t))
}

/// The tables without and with the row filter, at the same place of a document.
spec fn filtered(plan: PlanView) -> spec_fn(EngineView, EngineView) -> bool {
    |all: EngineView, some: EngineView|
        {
            &&& all.plan == unfiltered(plan)
            &&& some.plan == plan
            &&& aligned(all)
            &&& aligned(some)
            &&& typed(all)
            &&& typed(some)
            &&& has_kept_rows(all, some, staying(plan, all))
            &&& forall|name: Seq<char>| #[trigger]
                reading(some, name, some.rows as int) == reading(all, name, all.rows as int)
        }
}

/// More flags than cells leave what is kept as it is.
proof fn lemma_retained_more<A>(cells: Seq<A>, keep: Seq<bool>, flag: bool)
    requires
        cells.len() <= keep.len(),
    ensures
        retained(cells, keep.push(flag)) == retained(cells, keep),
    decreases cells.len(),
{
    if cells.len() > 0 {
        lemma_retained_more(cells.drop_last(), keep, flag);
        assert(keep.push(flag)[cells.len() - 1] == keep[cells.len() - 1]);
    }
}

/// One more cell is kept or not.
proof fn lemma_retained_push<A>(cells: Seq<A>, keep: Seq<bool>, cell: A, flag: bool)
    requires
        cells.len() == keep.len(),
    ensures
        retained(cells.push(cell), keep.push(flag)) == (if flag {
            retained(cells, keep).push(cell)
        } else {
            retained(cells, keep)
        }),
{
    assert(cells.push(cell).drop_last() =~= cells);
    lemma_retained_more(cells, keep, flag);
}

/// As many cells are kept of one list as of another one of its length.
proof fn lemma_retained_len<A, B>(a: Seq<A>, b: Seq<B>, keep: Seq<bool>)
    requires
        a.len() == b.len(),
    ensures
        retained(a, keep).len() == retained(b, keep).len(),
    decreases a.len(),
{
    if a.len() > 0 {
        lemma_retained_len(a.drop_last(), b.drop_last(), keep);
    }
}

/// Keeping cells in two steps is keeping them in one, where the second step keeps fewer.
proof fn lemma_retained_twice<A>(cells: Seq<A>, keep: Seq<bool>, first: Seq<bool>)
    requires
        cells.len() == keep.len(),
        cells.len() == first.len(),
        forall|i: int| 0 <= i < keep.len() && #[trigger] keep[i] ==> first[i],
    ensures
        retained(retained(cells, first), retained(keep, first)) == retained(cells, keep),
    decreases cells.len(),
{
    if cells.len() > 0 {
        let c = cells.drop_last();
        let k = keep.drop_last();
        let f = first.drop_last();
        assert forall|i: int| 0 <= i < k.len() && #[trigger] k[i] implies f[i] by {
            assert(keep[i]);
        }
        lemma_retained_twice(c, k, f);
        assert(cells =~= c.push(cells.last()));
        assert(keep =~= k.push(keep.last()));
        assert(first =~= f.push(first.last()));
        lemma_retained_push(c, f, cells.last(), first.last());
        lemma_retained_push(k, f, keep.last(), first.last());
        lemma_retained_push(c, k, cells.last(), keep.last());
        lemma_retained_len(c, k, f);
        if first.last() {
            lemma_retained_push(retained(c, f), retained(k, f), cells.last(), keep.last());
        } else {
            assert(!keep[keep.len() - 1]);
        }
    }
}

/// A field that comes to both tables leaves their whole rows as they are.
proof fn lemma_put_filtered(
    plan: PlanView,
    all: EngineView,
    some: EngineView,
    raw: Seq<char>,
    value: Option<Seq<char>>,
)
    requires
        filtered(plan)(all, some),
    ensures
        filtered(plan)(all.put(raw, value), some.put(raw, value)),
{
    lemma_put_reads(all, raw, value);
    lemma_put_reads(some, raw, value);
    let more = all.put(raw, value);
    let less = some.put(raw, value);
    assert(all.plan.resolve(raw) == some.plan.resolve(raw));
    assert(more.order == less.order);
    assert forall|name: Seq<char>| #[trigger] texts_under(more, name) == texts_under(all, name) by {
        assert(texts_under(more, name) =~= texts_under(all, name));
    }
    assert forall|name: Seq<char>| #[trigger] texts_under(less, name) == texts_under(
        some,
        name,
    ) by {
        assert(texts_under(less, name) =~= texts_under(some, name));
    }
    assert(staying(plan, more) == staying(plan, all));
    assert forall|name: Seq<char>| #[trigger] texts_under(less, name) == retained(
        texts_under(more, name),
        staying(plan, more),
    ) by {
        assert(texts_under(some, name) == retained(texts_under(all, name), staying(plan, all)));
    }
    assert forall|name: Seq<char>| #[trigger] reading(less, name, less.rows as int) == reading(
        more,
        name,
        more.rows as int,
    ) by {
        assert(reading(some, name, some.rows as int) == reading(all, name, all.rows as int));
        assert(all.plan.type_of(name) == some.plan.type_of(name));
    }
}

/// A row that ends in both tables stays in both, or goes from the filtered one.
proof fn lemma_finished_filtered(plan: PlanView, all: EngineView, some: EngineView)
    requires
        filtered(plan)(all, some),
    ensures
        filtered(plan)(all.finished(), some.finished()),
{
    lemma_finished_reads(all);
    lemma_finished_reads(some);
    let more = all.finished();
    let less = some.finished();
    let name = compared_column(plan);
    let text = reading(all, name, all.rows as int);
    let flag = text_stays(plan, text);
    assert(reading(some, name, some.rows as int) == text);
    assert(kept(some) == flag);
    assert(kept(all));
    let keep = staying(plan, all);
    assert(keep.len() == all.rows);
    assert forall|other: Seq<char>| #[trigger] texts_under(more, other) == texts_under(
        all,
        other,
    ).push(reading(all, other, all.rows as int)) by {
        assert(texts_under(more, other) =~= texts_under(all, other).push(
            reading(all, other, all.rows as int),
        ));
    }
    assert(staying(plan, more) =~= keep.push(flag));
    lemma_retained_push(keep, keep, flag, flag);
    assert forall|other: Seq<char>| #[trigger] texts_under(less, other) == retained(
        texts_under(more, other),
        staying(plan, more),
    ) by {
        let cell = reading(all, other, all.rows as int);
        assert(reading(some, other, some.rows as int) == cell);
        assert(texts_under(some, other) == retained(texts_under(all, other), keep));
        lemma_retained_push(texts_under(all, other), keep, cell, flag);
        if flag {
            assert(texts_under(less, other) =~= texts_under(some, other).push(cell));
        } else {
            assert(texts_under(less, other) =~= texts_under(some, other));
        }
    }
    assert forall|other: Seq<char>| #[trigger] reading(less, other, less.rows as int) == reading(
        more,
        other,
        more.rows as int,
    ) by {
        if less.has(other) {
            lemma_column(less, other);
        }
        if more.has(other) {
            lemma_column(more, other);
        }
    }
}

/// The rows that stay for now go on to be kept or not.
proof fn lemma_passing_stay(
    plan: PlanView,
    number: spec_fn(Seq<char>) -> Option<Seq<char>>,
    all: EngineView,
    some: EngineView,
)
    requires
        has_kept_rows(all, some, staying(plan, all)),
        all.plan == unfiltered(plan),
    ensures
        passing(plan, number, all).len() == staying(plan, all).len(),
        forall|i: int|
            0 <= i < all.rows && #[trigger] passing(plan, number, all)[i] ==> staying(
                plan,
                all,
            )[i],
        passing(plan, number, some) == retained(passing(plan, number, all), staying(plan, all)),
{
    let name = compared_column(plan);
    let keep = staying(plan, all);
    let f = |t: Option<Seq<char>>|
        match plan.filter {
            Some(FilterView::Equal { value, .. }) => told(plan, name, number, t) == Some(value),
            Some(FilterView::NotEqual { value, .. }) => told(plan, name, number, t) != Some(value),
            _ => true,
        };
    let here = texts_under(all, name);
    assert(passing(plan, number, all) =~= here.map_values(f));
    assert(passing(plan, number, some) =~= texts_under(some, name).map_values(f));
    lemma_retained_map(here, keep, f);
}

/// Settling a filter keeps the rows that it passes.
proof fn lemma_settled_filtered(
    plan: PlanView,
    number: spec_fn(Seq<char>) -> Option<Seq<char>>,
    some: EngineView,
)
    requires
        some.plan == plan,
        even(some),
        typed(some),
        some.awaits_texts(),
    ensures
        has_kept_rows(
            some,
            some.settled(numbers_told(plan, number, some)),
            passing(plan, number, some),
        ),
{
    let keep = passing(plan, number, some);
    let numbers = numbers_told(plan, number, some);
    let less = some.settled(numbers);
    let compared = compared_column(plan);
    assert(some.column(compared).kind() == plan.type_of(compared));
    assert(some.kept_rows(numbers) =~= keep);
    assert forall|name: Seq<char>| #[trigger] texts_under(less, name) == retained(
        texts_under(some, name),
        keep,
    ) by {
        let here = texts_under(some, name);
        lemma_retained_len(here, keep, keep);
        if some.has(name) {
            lemma_column(some, name);
            let column = some.column(name);
            assert(here =~= column_texts(column));
            lemma_retained_texts(column, keep);
            assert(less.column(name) == column.retained(keep));
            assert(texts_under(less, name) =~= column_texts(column.retained(keep)));
        } else {
            lemma_retained_from(here, keep);
            assert forall|i: int| 0 <= i < less.rows implies retained(here, keep)[i] is None by {
                assert(here.contains(retained(here, keep)[i]));
            }
            assert(texts_under(less, name) =~= retained(here, keep));
        }
    }
}

/// The table after the current row is cut off and the filter is settled with the texts of the
/// numbers, which `number` gives.
pub open spec fn settled_with(
    plan: PlanView,
    number: spec_fn(Seq<char>) -> Option<Seq<char>>,
    m: EngineView,
) -> EngineView {
    m.normalized().settled(numbers_told(plan, number, m))
}

/// Of a table at the same place with the row filter and without it, the settled one has the rows of
/// the other that the filter keeps.
proof fn lemma_filtered_settles(
    plan: PlanView,
    number: spec_fn(Seq<char>) -> Option<Seq<char>>,
    all: EngineView,
    some: EngineView,
)
    requires
        filtered(plan)(all, some),
    ensures
        has_kept_rows(all, settled_with(plan, number, some), passing(plan, number, all)),
{
    let whole = some.normalized();
    partial_row_is_cut_off(some);
    assert forall|name: Seq<char>| #[trigger] whole.has(name) implies whole.column(name).kind()
        == whole.plan.type_of(name) by {
        assert(some.has(name));
        lemma_column(some, name);
        lemma_cut(some.column(name), some.rows);
    }
    assert forall|name: Seq<char>| #[trigger] texts_under(whole, name) == texts_under(
        some,
        name,
    ) by {
        assert forall|i: int| 0 <= i < some.rows implies reading(whole, name, i) == reading(
            some,
            name,
            i,
        ) by {
            if some.has(name) {
                assert(some.column(name).text_at(i) == whole.column(name).text_at(i));
            }
        }
        assert(texts_under(whole, name) =~= texts_under(some, name));
    }
    let keep = passing(plan, number, all);
    let first = staying(plan, all);
    assert forall|name: Seq<char>| #[trigger] texts_under(whole, name) == retained(
        texts_under(all, name),
        first,
    ) by {
        assert(texts_under(some, name) == retained(texts_under(all, name), first));
    }
    lemma_passing_stay(plan, number, all, whole);
    let compared = compared_column(plan);
    assert(numbers_told(plan, number, whole) =~= numbers_told(plan, number, some)) by {
        assert(texts_under(whole, compared) == texts_under(some, compared));
        assert forall|i: int| 0 <= i < some.rows implies reading(whole, compared, i) == reading(
            some,
            compared,
            i,
        ) by {
            assert(texts_under(whole, compared)[i] == texts_under(some, compared)[i]);
        }
    }
    if whole.awaits_texts() {
        lemma_settled_filtered(plan, number, whole);
        let less = settled_with(plan, number, some);
        lemma_retained_twice(keep, keep, first);
        assert forall|name: Seq<char>| #[trigger] texts_under(less, name) == retained(
            texts_under(all, name),
            keep,
        ) by {
            assert(texts_under(less, name) == retained(
                texts_under(whole, name),
                passing(plan, number, whole),
            ));
            assert(texts_under(whole, name) == retained(texts_under(all, name), first));
            lemma_retained_twice(texts_under(all, name), keep, first);
        }
    } else {
        if whole.has(compared) {
            assert(whole.column(compared).kind() == plan.type_of(compared));
        }
        assert(all.has(compared) == whole.has(compared));
        assert(keep =~= first);
    }
}

/// Rows come to the tables without and with the row filter alike.
proof fn lemma_filtered_keeps(plan: PlanView)
    ensures
        keeps_same(filtered(plan)),
        filtered(plan)(EngineView::empty(unfiltered(plan)), EngineView::empty(plan)),
{
    let same = filtered(plan);
    reveal(keeps_same);
    assert forall|a: EngineView, b: EngineView, raw: Seq<char>, value: Option<Seq<char>>|
        #![trigger same(a, b), a.put(raw, value)]
        same(a, b) implies same(a.put(raw, value), b.put(raw, value)) by {
        lemma_put_filtered(plan, a, b, raw, value);
    }
    assert forall|a: EngineView, b: EngineView|
        #![trigger same(a, b), a.finished()]
        same(a, b) implies same(a.finished(), b.finished()) by {
        lemma_finished_filtered(plan, a, b);
    }
    let none = EngineView::empty(plan);
    let bare = EngineView::empty(unfiltered(plan));
    assert forall|name: Seq<char>| #[trigger] texts_under(none, name) == retained(
        texts_under(bare, name),
        staying(plan, bare),
    ) by {
        assert(texts_under(none, name) =~= Seq::empty());
        assert(texts_under(bare, name) =~= Seq::empty());
    }
}

/// The rows of a document under a row filter are its rows without the filter that the filter keeps,
/// and the columns are the same. Where the filter compares a column of floating point numbers with
/// a text, this is so after the filter is settled with the texts of the numbers, whatever function
/// gives them: a row whose number is awaited goes then as it would have gone at its end.
pub proof fn filter_keeps_rows(
    events: Seq<EventView>,
    row_tag: Seq<u8>,
    plan: PlanView,
    number: spec_fn(Seq<char>) -> Option<Seq<char>>,
)
    requires
        readable(events),
    ensures
        parses_same(
            |all: EngineView, some: EngineView|
                has_kept_rows(all, settled_with(plan, number, some), passing(plan, number, all)),
            parse_rows(events, row_tag, EngineView::empty(unfiltered(plan))),
            parse_rows(events, row_tag, EngineView::empty(plan)),
        ),
{
    let none = EngineView::empty(plan);
    let bare = EngineView::empty(unfiltered(plan));
    lemma_filtered_keeps(plan);
    rows_keep_same(filtered(plan), bare, none, events, row_tag);
    lemma_filtered_settles(
        plan,
        number,
        table_at(parse_rows(events, row_tag, bare)),
        table_at(parse_rows(events, row_tag, none)),
    );
}

/// A row filter keeps rows in the same way where rows are read on after an error, and the error is
/// the same with the filter and without it. This holds of each document whose events can be read.
pub proof fn filter_keeps_rows_of_documents(
    bytes: Seq<u8>,
    row_tag: Seq<u8>,
    plan: PlanView,
    number: spec_fn(Seq<char>) -> Option<Seq<char>>,
)
    ensures
        readable_throughout(bytes) ==> {
            let all = parsed(bytes, row_tag, EngineView::empty(unfiltered(plan)));
            let some = parsed(bytes, row_tag, EngineView::empty(plan));
            some.1 == all.1 && has_kept_rows(
                all.0,
                settled_with(plan, number, some.0),
                passing(plan, number, all.0),
            )
        },
{
    let none = EngineView::empty(plan);
    let bare = EngineView::empty(unfiltered(plan));
    lemma_filtered_keeps(plan);
    documents_keep_same(filtered(plan), bare, none, bytes, row_tag);
    if readable_throughout(bytes) {
        lemma_filtered_settles(
            plan,
            number,
            parsed(bytes, row_tag, bare).0,
            parsed(bytes, row_tag, none).0,
        );
    }
}

} // verus!
