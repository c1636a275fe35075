//! The columnar engine: XML rows into columns.

use vstd::prelude::*;
use vstd::utf8::encode_utf8;

use crate::column::{
    code_of, lemma_code_of, opt_text, opt_texts, retained, ColumnBuilder, ColumnView,
};
use crate::names::same_text;
use crate::plan::{empty_plan, texts, BuildPlan, FieldType, FilterPredicate, FilterView, PlanView};

verus! {

/// The fewest cells with which a text column is turned into a dictionary.
pub const AUTO_DICT_ROWS: usize = 512;

/// What an engine holds: the columns by name in their order, the number of whole rows, and the
/// plan.
#[verifier::ext_equal]
pub struct EngineView {
    /// The column names in order.
    pub order: Seq<Seq<char>>,
    /// The columns; each belongs to the name in its place.
    pub columns: Seq<ColumnView>,
    /// The number of whole rows, with those whose number a filter awaits.
    pub rows: nat,
    /// The plan.
    pub plan: PlanView,
}

/// A column after `n` nulls arrive.
pub open spec fn with_nulls(column: ColumnView, n: nat) -> ColumnView
    decreases n,
{
    if n == 0 {
        column
    } else {
        with_nulls(column, (n - 1) as nat).pushed(None)
    }
}

/// A column filled up to `len` cells with nulls.
pub open spec fn filled(column: ColumnView, len: nat) -> ColumnView {
    if column.len() < len {
        with_nulls(column, (len - column.len()) as nat)
    } else {
        column
    }
}

/// A column cut off after `len` cells.
pub open spec fn cut(column: ColumnView, len: nat) -> ColumnView
    decreases column.len(),
{
    if column.len() > len {
        cut(column.popped(), len)
    } else {
        column
    }
}

/// The first place in `list` at which `name` stands, or its length.
pub open spec fn place_of(list: Seq<Seq<char>>, name: Seq<char>) -> int
    decreases list.len(),
{
    if list.len() == 0 {
        0
    } else if list[0] == name {
        0
    } else {
        1 + place_of(list.drop_first(), name)
    }
}

/// The first place in `order` whose name comes after place `p` in the schema, or the end.
pub open spec fn place_before(order: Seq<Seq<char>>, schema: Seq<Seq<char>>, p: int) -> int
    decreases order.len(),
{
    if order.len() == 0 {
        0
    } else if schema.contains(order[0]) && place_of(schema, order[0]) > p {
        0
    } else {
        1 + place_before(order.drop_first(), schema, p)
    }
}

/// Where a new column goes: before the first column that comes after it in the schema. A column
/// that is not in the schema goes to the end.
pub open spec fn insert_place(
    order: Seq<Seq<char>>,
    schema: Seq<Seq<char>>,
    name: Seq<char>,
) -> int {
    if schema.contains(name) {
        place_before(order, schema, place_of(schema, name))
    } else {
        order.len() as int
    }
}

impl EngineView {
    /// The engine before any row.
    pub open spec fn empty(plan: PlanView) -> EngineView {
        EngineView { order: Seq::empty(), columns: Seq::empty(), rows: 0, plan }
    }

    /// The engine has a column of this name.
    pub open spec fn has(self, name: Seq<char>) -> bool {
        self.order.contains(name)
    }

    /// The column of this name.
    pub open spec fn column(self, name: Seq<char>) -> ColumnView {
        self.columns[code_of(self.order, name)]
    }

    /// The engine with a new column of the given type, with a null for each row.
    pub open spec fn with_column(self, name: Seq<char>, field_type: FieldType) -> EngineView {
        let place = insert_place(self.order, self.plan.schema_order, name);
        EngineView {
            order: self.order.insert(place, name),
            columns: self.columns.insert(
                place,
                with_nulls(ColumnView::empty(field_type), self.rows),
            ),
            ..self
        }
    }

    /// The engine with a column of this name.
    pub open spec fn ensured(self, name: Seq<char>) -> EngineView {
        if self.has(name) {
            self
        } else {
            self.with_column(name, self.plan.type_of(name))
        }
    }

    /// The engine after a value arrives for a column that it has. A value that the current row has
    /// for the column already is replaced.
    pub open spec fn set(self, name: Seq<char>, value: Option<Seq<char>>) -> EngineView {
        let place = code_of(self.order, name);
        let column = self.columns[place];
        let open = if column.len() > self.rows {
            column.popped()
        } else {
            column
        };
        EngineView { columns: self.columns.update(place, open.pushed(value)), ..self }
    }

    /// The engine after a value arrives for a raw field name: the plan renames or drops the field,
    /// and a column is made for it where there is none.
    pub open spec fn put(self, raw: Seq<char>, value: Option<Seq<char>>) -> EngineView {
        match self.plan.resolve(raw) {
            Some(name) => self.ensured(name).set(name, value),
            None => self,
        }
    }

    /// The engine with each column filled up to the current row.
    pub open spec fn row_filled(self) -> EngineView {
        EngineView {
            columns: self.columns.map_values(|c: ColumnView| filled(c, self.rows + 1)),
            ..self
        }
    }

    /// The engine with the last cell of each column taken away.
    pub open spec fn row_undone(self) -> EngineView {
        EngineView { columns: self.columns.map_values(|c: ColumnView| c.popped()), ..self }
    }

    /// A filter keeps the current row, where `number` is the text of the number that it has in a
    /// column of floating point numbers. A comparison of two columns keeps every row.
    pub open spec fn passes(self, filter: FilterView, number: Option<Seq<char>>) -> bool {
        match filter {
            FilterView::Compare { .. } => true,
            FilterView::NotEqual { field, value } => self.compared(field, number) != Some(value),
            FilterView::Equal { field, value } => self.compared(field, number) == Some(value),
        }
    }

    /// What a filter compares in the current row: the text of the field, or the given one where the
    /// field is a floating point number.
    pub open spec fn compared(self, field: Seq<char>, number: Option<Seq<char>>) -> Option<
        Seq<char>,
    > {
        if self.has(self.plan.renamed(field)) {
            self.column(self.plan.renamed(field)).filter_text(self.rows as int, number)
        } else {
            None
        }
    }

    /// A filter awaits the text of a number: that of the current row in a column of floating point
    /// numbers.
    pub open spec fn awaits(self, filter: FilterView) -> bool {
        match filter {
            FilterView::Compare { .. } => false,
            FilterView::NotEqual { field, .. } => self.floating(field) && self.cell(field) is Some,
            FilterView::Equal { field, .. } => self.floating(field) && self.cell(field) is Some,
        }
    }

    /// The current row stays for now: the row filter keeps it, or awaits the text of a number.
    pub open spec fn keeps_row(self) -> bool {
        match self.plan.filter {
            None => true,
            Some(filter) => self.awaits(filter) || self.passes(filter, None),
        }
    }

    /// The field goes to a column of floating point numbers.
    pub open spec fn floating(self, field: Seq<char>) -> bool {
        self.has(self.plan.renamed(field)) && self.column(self.plan.renamed(field)) is Float
    }

    /// The text of a field in the current row.
    pub open spec fn cell(self, field: Seq<char>) -> Option<Seq<char>> {
        if self.has(self.plan.renamed(field)) {
            self.column(self.plan.renamed(field)).text_at(self.rows as int)
        } else {
            None
        }
    }

    /// The engine after the current row ends: fields that did not come are null, and the row counts
    /// only if the filter keeps it. A row whose number is awaited counts until it is settled.
    pub open spec fn finished(self) -> EngineView {
        let full = self.row_filled();
        if full.keeps_row() {
            EngineView { rows: full.rows + 1, ..full }
        } else {
            full.row_undone()
        }
    }

    /// The engine after the current row ends, where `number` is the text of the number that the row
    /// has in a column of floating point numbers: fields that did not come are null, and the row
    /// counts only if the filter keeps it.
    pub open spec fn finished_with(self, number: Option<Seq<char>>) -> EngineView {
        let full = self.row_filled();
        let keep = match self.plan.filter {
            None => true,
            Some(filter) => full.passes(filter, number),
        };
        if keep {
            EngineView { rows: full.rows + 1, ..full }
        } else {
            full.row_undone()
        }
    }

    /// The engine with each column cut off after the last whole row.
    pub open spec fn normalized(self) -> EngineView {
        EngineView {
            columns: self.columns.map_values(|c: ColumnView| cut(c, self.rows)),
            ..self
        }
    }

    /// The engine with text columns turned into dictionaries, where the plan asks for it.
    pub open spec fn auto_upgraded(self) -> EngineView {
        if self.plan.auto_dict {
            EngineView {
                columns: self.columns.map_values(|c: ColumnView| c.upgraded(AUTO_DICT_ROWS as nat)),
                ..self
            }
        } else {
            self
        }
    }

    /// The engine with a column for each of the first `n` columns of `other`.
    pub open spec fn with_columns_of(self, other: EngineView, n: nat) -> EngineView
        decreases n,
    {
        if n == 0 {
            self
        } else {
            let before = self.with_columns_of(other, (n - 1) as nat);
            let name = other.order[n - 1];
            if before.has(name) {
                before
            } else {
                before.with_column(name, other.plan.type_of(name))
            }
        }
    }

    /// Column `i` with the cells of `other` after its own: nulls where `other` has no such column,
    /// and nothing where the types differ.
    pub open spec fn merged(self, other: EngineView, i: int) -> Option<ColumnView> {
        if other.has(self.order[i]) {
            self.columns[i].extended(other.column(self.order[i]))
        } else {
            Some(with_nulls(self.columns[i], other.rows))
        }
    }

    /// The engine with the first `n` columns merged.
    pub open spec fn merged_to(self, other: EngineView, n: nat) -> EngineView {
        EngineView {
            columns: Seq::new(
                self.columns.len(),
                |i: int|
                    if i < n {
                        self.merged(other, i)->0
                    } else {
                        self.columns[i]
                    },
            ),
            ..self
        }
    }

    /// The first `n` columns can be merged.
    pub open spec fn can_merge(self, other: EngineView, n: nat) -> bool {
        forall|i: int| 0 <= i < n ==> (#[trigger] self.merged(other, i)) is Some
    }
}

/// The views of a list of columns.
pub open spec fn column_views(columns: Seq<ColumnBuilder>) -> Seq<ColumnView> {
    Seq::new(columns.len(), |i: int| columns[i]@)
}

/// Parses XML rows into columns.
pub struct ColumnarEngine {
    columns: Vec<ColumnBuilder>,
    column_order: Vec<String>,
    row_count: usize,
    estimated_rows: usize,
    plan: BuildPlan,
}

impl View for ColumnarEngine {
    type V = EngineView;

    closed spec fn view(&self) -> EngineView {
        EngineView {
            order: texts(self.column_order@),
            columns: column_views(self.columns@),
            rows: self.row_count as nat,
            plan: self.plan@,
        }
    }
}

impl ColumnarEngine {
    /// Each name has one column, and each column is well formed.
    pub closed spec fn wf(&self) -> bool {
        &&& self.columns@.len() == self.column_order@.len()
        &&& texts(self.column_order@).no_duplicates()
        &&& forall|i: int| 0 <= i < self.columns@.len() ==> (#[trigger] self.columns@[i]).wf()
    }

    /// How many rows the engine was made for; new columns get room by it.
    pub closed spec fn expected(&self) -> nat {
        self.estimated_rows as nat
    }

    /// An engine with the empty plan.
    pub fn new() -> (engine: Self)
        ensures
            engine.wf(),
            engine@ == EngineView::empty(empty_plan()),
            engine.expected() == 0,
    {
        ColumnarEngine::with_plan(0, BuildPlan::new())
    }

    /// An engine with the empty plan, for about `cap` rows.
    pub fn with_capacity(cap: usize) -> (engine: Self)
        ensures
            engine.wf(),
            engine@ == EngineView::empty(empty_plan()),
            engine.expected() == cap,
    {
        ColumnarEngine::with_plan(cap, BuildPlan::new())
    }

    /// An engine with the given plan, for about `cap` rows.
    pub fn with_plan(cap: usize, plan: BuildPlan) -> (engine: Self)
        ensures
            engine.wf(),
            engine@ == EngineView::empty(plan@),
            engine.expected() == cap,
    {
        let engine = ColumnarEngine {
            columns: Vec::new(),
            column_order: Vec::new(),
            row_count: 0,
            estimated_rows: cap,
            plan,
        };
        assert(engine@ =~= EngineView::empty(plan@));
        engine
    }

    /// The number of whole rows.
    pub fn num_rows(&self) -> (n: usize)
        ensures
            n == self@.rows,
    {
        self.row_count
    }

    /// The number of columns.
    pub fn num_columns(&self) -> (n: usize)
        ensures
            n == self@.order.len(),
    {
        self.column_order.len()
    }

    /// The names of the columns in order.
    pub fn column_names(&self) -> (names: &[String])
        ensures
            texts(names@) == self@.order,
    {
        self.column_order.as_slice()
    }

    /// The place of a column.
    fn find_column(&self, name: &str) -> (place: Option<usize>)
        requires
            self.wf(),
        ensures
            match place {
                Some(i) => self@.has(name@) && i == code_of(self@.order, name@) && i
                    < self.columns@.len(),
                None => !self@.has(name@),
            },
    {
        let mut i: usize = 0;
        while i < self.column_order.len()
            invariant
                self.wf(),
                i <= self.column_order@.len(),
                forall|k: int| 0 <= k < i ==> #[trigger] self@.order[k] != name@,
            decreases self.column_order@.len() - i,
        {
            if same_text(self.column_order[i].as_str(), name) {
                proof {
                    assert(self@.order[i as int] == name@);
                    lemma_code_of(self@.order, i as int);
                }
                return Some(i);
            }
            i += 1;
        }
        None
    }

    /// The column of this name.
    pub fn column(&self, name: &str) -> (column: Option<&ColumnBuilder>)
        requires
            self.wf(),
        ensures
            match column {
                Some(c) => self@.has(name@) && c@ == self@.column(name@) && c.wf(),
                None => !self@.has(name@),
            },
    {
        match self.find_column(name) {
            Some(i) => Some(&self.columns[i]),
            None => None,
        }
    }
}

/// The first place in `list` at which `name` stands.
fn position(list: &Vec<String>, name: &str) -> (place: Option<usize>)
    ensures
        match place {
            Some(i) => texts(list@).contains(name@) && i == place_of(texts(list@), name@) && i
                < list@.len(),
            None => !texts(list@).contains(name@),
        },
{
    let ghost all = texts(list@);
    let mut i: usize = 0;
    assert(all.skip(0) =~= all);
    while i < list.len()
        invariant
            i <= list@.len(),
            all == texts(list@),
            place_of(all, name@) == i + place_of(all.skip(i as int), name@),
            forall|k: int| 0 <= k < i ==> #[trigger] all[k] != name@,
        decreases list@.len() - i,
    {
        assert(all.skip(i as int)[0] == all[i as int]);
        assert(all.skip(i as int).drop_first() =~= all.skip(i + 1));
        if same_text(list[i].as_str(), name) {
            assert(all[i as int] == name@);
            return Some(i);
        }
        i += 1;
    }
    None
}

/// A new column of a name that is not there keeps the names apart.
pub proof fn lemma_insert_apart(order: Seq<Seq<char>>, place: int, name: Seq<char>)
    requires
        order.no_duplicates(),
        !order.contains(name),
        0 <= place <= order.len(),
    ensures
        order.insert(place, name).no_duplicates(),
        order.insert(place, name).contains(name),
{
    let after = order.insert(place, name);
    assert(after[place] == name);
    assert forall|a: int, b: int| 0 <= a < after.len() && 0 <= b < after.len() && a
        != b implies after[a] != after[b] by {
        let x = if a < place {
            a
        } else {
            a - 1
        };
        let y = if b < place {
            b
        } else {
            b - 1
        };
        if a != place {
            assert(after[a] == order[x]);
            assert(order.contains(order[x]));
        }
        if b != place {
            assert(after[b] == order[y]);
            assert(order.contains(order[y]));
        }
    }
}

/// The place for a new column is one in the order or its end.
pub proof fn lemma_place_before(order: Seq<Seq<char>>, schema: Seq<Seq<char>>, p: int)
    ensures
        0 <= place_before(order, schema, p) <= order.len(),
    decreases order.len(),
{
    if order.len() > 0 {
        lemma_place_before(order.drop_first(), schema, p);
    }
}

impl ColumnarEngine {
    /// Where a new column goes.
    fn schema_insert_index(&self, name: &str) -> (place: usize)
        requires
            self.wf(),
        ensures
            place == insert_place(self@.order, self@.plan.schema_order, name@),
            place <= self@.order.len(),
    {
        let len: usize = self.column_order.len();
        let p: usize = match position(&self.plan.schema_order, name) {
            Some(p) => p,
            None => {
                return len;
            },
        };
        let ghost order = self@.order;
        let ghost schema = self@.plan.schema_order;
        let mut i: usize = 0;
        assert(order.skip(0) =~= order);
        while i < len
            invariant
                self.wf(),
                len == self.column_order@.len(),
                order == self@.order,
                schema == self@.plan.schema_order,
                schema.contains(name@),
                p == place_of(schema, name@),
                i <= len,
                place_before(order, schema, p as int) == i + place_before(
                    order.skip(i as int),
                    schema,
                    p as int,
                ),
            decreases len - i,
        {
            assert(order.skip(i as int)[0] == order[i as int]);
            assert(order.skip(i as int).drop_first() =~= order.skip(i + 1));
            if let Some(q) = position(&self.plan.schema_order, self.column_order[i].as_str()) {
                if q > p {
                    return i;
                }
            }
            i += 1;
        }
        i
    }

    /// Adds a column of the given type, with a null for each row.
    fn add_column(&mut self, name: &str, field_type: FieldType, est: usize)
        requires
            old(self).wf(),
            !old(self)@.has(name@),
        ensures
            final(self).wf(),
            final(self)@ == old(self)@.with_column(name@, field_type),
            final(self)@.has(name@),
    {
        let mut column = ColumnBuilder::with_capacity(est, &field_type);
        let mut i: usize = 0;
        while i < self.row_count
            invariant
                i <= self.row_count,
                column.wf(),
                column@ == with_nulls(ColumnView::empty(field_type), i as nat),
            decreases self.row_count - i,
        {
            column.push_str(None);
            i += 1;
        }
        let place: usize = self.schema_insert_index(name);
        let ghost before = *self;
        self.columns.insert(place, column);
        self.column_order.insert(place, name.to_owned());
        proof {
            assert(texts(self.column_order@) =~= before@.order.insert(place as int, name@));
            assert(column_views(self.columns@) =~= before@.columns.insert(place as int, column@));
            lemma_insert_apart(before@.order, place as int, name@);
            assert(self@ =~= before@.with_column(name@, field_type));
            assert forall|k: int| 0 <= k < self.columns@.len() implies (
            #[trigger] self.columns@[k]).wf() by {
                if k < place {
                    assert(self.columns@[k] == before.columns@[k]);
                } else if k > place {
                    assert(self.columns@[k] == before.columns@[k - 1]);
                }
            }
        }
    }

    /// Makes sure that there is a column of this name.
    fn ensure_column(&mut self, name: &str)
        requires
            old(self).wf(),
        ensures
            final(self).wf(),
            final(self)@ == old(self)@.ensured(name@),
            final(self)@.has(name@),
    {
        if self.find_column(name).is_none() {
            let est: usize = if self.estimated_rows < 64 {
                64
            } else {
                self.estimated_rows
            };
            let field_type = self.plan.column_type(name);
            self.add_column(name, field_type, est);
        }
    }

    /// Stores a value for the current row in a column that is there.
    fn set_cell(&mut self, name: &str, value: Option<&str>)
        requires
            old(self).wf(),
            old(self)@.has(name@),
        ensures
            final(self).wf(),
            final(self)@ == old(self)@.set(
                name@,
                match value {
                    Some(v) => Some(v@),
                    None => None,
                },
            ),
    {
        let ghost before = *self;
        let rows: usize = self.row_count;
        if let Some(i) = self.find_column(name) {
            let column = &mut self.columns[i];
            if column.len() > rows {
                column.pop();
            }
            column.push_str(value);
            proof {
                let added: Option<Seq<char>> = match value {
                    Some(v) => Some(v@),
                    None => None,
                };
                assert(column_views(self.columns@) =~= before@.set(name@, added).columns);
                assert(self@ =~= before@.set(name@, added));
            }
        }
    }

    /// Stores a value for the current row under a raw field name.
    pub fn push_field_str(&mut self, name: &str, value: Option<&str>)
        requires
            old(self).wf(),
        ensures
            final(self).wf(),
            final(self)@ == old(self)@.put(
                name@,
                match value {
                    Some(v) => Some(v@),
                    None => None,
                },
            ),
    {
        let resolved: String = match self.plan.resolve_field(name) {
            Some(column) => column.to_owned(),
            None => {
                return;
            },
        };
        self.ensure_column(resolved.as_str());
        self.set_cell(resolved.as_str(), value);
    }

    /// Stores a value for the current row under a raw field name.
    pub fn push_field(&mut self, name: &str, value: Option<String>)
        requires
            old(self).wf(),
        ensures
            final(self).wf(),
            final(self)@ == old(self)@.put(name@, opt_text(value)),
    {
        match value {
            Some(v) => self.push_field_str(name, Some(v.as_str())),
            None => self.push_field_str(name, None),
        }
    }
}

impl FilterPredicate {
    /// Whether the filter keeps the current row of the engine; `number` is the text of the number
    /// that the row has in a column of floating point numbers, and counts for such a column alone.
    pub fn check(&self, engine: &ColumnarEngine, number: Option<&str>) -> (keep: bool)
        requires
            engine.wf(),
        ensures
            keep == engine@.passes(
                self@,
                match number {
                    Some(text) => Some(text@),
                    None => None,
                },
            ),
    {
        let (field, expected, equal) = match self {
            FilterPredicate::NotEqual { field, value } => (field, value, false),
            FilterPredicate::Equal { field, value } => (field, value, true),
            FilterPredicate::Compare { .. } => {
                return true;
            },
        };
        let resolved = engine.plan.renamed_field(field.as_str());
        let actual: Option<String> = match engine.column(resolved) {
            Some(column) => column.get_filter_value(engine.row_count, number),
            None => None,
        };
        match actual {
            Some(text) => same_text(text.as_str(), expected.as_str()) == equal,
            None => !equal,
        }
    }

    /// Whether the filter awaits the text of a number for the current row of the engine.
    pub fn awaits(&self, engine: &ColumnarEngine) -> (yes: bool)
        requires
            engine.wf(),
        ensures
            yes == engine@.awaits(self@),
    {
        let field = match self {
            FilterPredicate::NotEqual { field, .. } => field,
            FilterPredicate::Equal { field, .. } => field,
            FilterPredicate::Compare { .. } => {
                return false;
            },
        };
        match engine.column(engine.plan.renamed_field(field.as_str())) {
            Some(column) => {
                if let ColumnBuilder::Float64(cells) = column {
                    engine.row_count < cells.len() && cells[engine.row_count].is_some()
                } else {
                    false
                }
            },
            None => false,
        }
    }
}

impl ColumnarEngine {
    /// Fills each column up to the current row with nulls.
    fn fill_row(&mut self)
        requires
            old(self).wf(),
            old(self)@.rows < usize::MAX,
        ensures
            final(self).wf(),
            final(self)@ == old(self)@.row_filled(),
    {
        let target: usize = self.row_count + 1;
        let ghost before = *self;
        let mut i: usize = 0;
        while i < self.columns.len()
            invariant
                before.wf(),
                i <= self.columns@.len(),
                self.columns@.len() == before.columns@.len(),
                self.column_order == before.column_order,
                self.row_count == before.row_count,
                self.plan == before.plan,
                target == before.row_count + 1,
                forall|k: int| 0 <= k < self.columns@.len() ==> (#[trigger] self.columns@[k]).wf(),
                forall|k: int|
                    0 <= k < self.columns@.len() ==> (#[trigger] self.columns@[k])@ == (if k < i {
                        filled(before.columns@[k]@, target as nat)
                    } else {
                        before.columns@[k]@
                    }),
            decreases self.columns@.len() - i,
        {
            let column = &mut self.columns[i];
            let ghost start = column@;
            let mut n: usize = column.len();
            while n < target
                invariant
                    column.wf(),
                    n == start.len() || n <= target,
                    start.len() <= n,
                    column@ == with_nulls(start, (n - start.len()) as nat),
                decreases target - n,
            {
                column.push_str(None);
                n += 1;
            }
            i += 1;
        }
        proof {
            assert(column_views(self.columns@) =~= before@.row_filled().columns);
            assert(self@ =~= before@.row_filled());
        }
    }

    /// Takes the last cell of each column away.
    fn undo_row(&mut self)
        requires
            old(self).wf(),
        ensures
            final(self).wf(),
            final(self)@ == old(self)@.row_undone(),
    {
        let ghost before = *self;
        let mut i: usize = 0;
        while i < self.columns.len()
            invariant
                before.wf(),
                i <= self.columns@.len(),
                self.columns@.len() == before.columns@.len(),
                self.column_order == before.column_order,
                self.row_count == before.row_count,
                self.plan == before.plan,
                forall|k: int| 0 <= k < self.columns@.len() ==> (#[trigger] self.columns@[k]).wf(),
                forall|k: int|
                    0 <= k < self.columns@.len() ==> (#[trigger] self.columns@[k])@ == (if k < i {
                        before.columns@[k]@.popped()
                    } else {
                        before.columns@[k]@
                    }),
            decreases self.columns@.len() - i,
        {
            self.columns[i].pop();
            i += 1;
        }
        proof {
            assert(column_views(self.columns@) =~= before@.row_undone().columns);
            assert(self@ =~= before@.row_undone());
        }
    }

    /// Counts the filled row, or takes it away.
    fn end_row(&mut self, keep: bool)
        requires
            old(self).wf(),
            old(self)@.rows < usize::MAX,
        ensures
            final(self).wf(),
            final(self)@ == (if keep {
                (EngineView { rows: old(self)@.rows + 1, ..old(self)@ })
            } else {
                old(self)@.row_undone()
            }),
    {
        if keep {
            self.row_count += 1;
            assert(self@ =~= (EngineView { rows: old(self)@.rows + 1, ..old(self)@ }));
        } else {
            self.undo_row();
        }
    }

    /// Ends the current row: fills in nulls, and keeps the row only if the filter does; `number` is
    /// the text of the number that the row has in a column of floating point numbers.
    pub fn finish_row(&mut self, number: Option<&str>)
        requires
            old(self).wf(),
            old(self)@.rows < usize::MAX,
        ensures
            final(self).wf(),
            final(self)@ == old(self)@.finished_with(
                match number {
                    Some(text) => Some(text@),
                    None => None,
                },
            ),
    {
        self.fill_row();
        let keep = match &self.plan.filter {
            Some(filter) => filter.check(self, number),
            None => true,
        };
        self.end_row(keep);
    }

    /// Ends the current row before the text of its number is known: fills in nulls, and keeps the
    /// row only if the filter does or awaits that text.
    pub fn close_row(&mut self)
        requires
            old(self).wf(),
            old(self)@.rows < usize::MAX,
        ensures
            final(self).wf(),
            final(self)@ == old(self)@.finished(),
    {
        self.fill_row();
        let keep = match &self.plan.filter {
            Some(filter) => filter.awaits(self) || filter.check(self, None),
            None => true,
        };
        self.end_row(keep);
    }

    /// Cuts each column off after the last whole row.
    pub fn normalize(&mut self)
        requires
            old(self).wf(),
        ensures
            final(self).wf(),
            final(self)@ == old(self)@.normalized(),
    {
        let ghost before = *self;
        let rows: usize = self.row_count;
        let mut i: usize = 0;
        while i < self.columns.len()
            invariant
                before.wf(),
                i <= self.columns@.len(),
                self.columns@.len() == before.columns@.len(),
                self.column_order == before.column_order,
                self.row_count == before.row_count,
                self.plan == before.plan,
                rows == before.row_count,
                forall|k: int| 0 <= k < self.columns@.len() ==> (#[trigger] self.columns@[k]).wf(),
                forall|k: int|
                    0 <= k < self.columns@.len() ==> (#[trigger] self.columns@[k])@ == (if k < i {
                        cut(before.columns@[k]@, rows as nat)
                    } else {
                        before.columns@[k]@
                    }),
            decreases self.columns@.len() - i,
        {
            let column = &mut self.columns[i];
            let ghost start = column@;
            while column.len() > rows
                invariant
                    column.wf(),
                    cut(start, rows as nat) == cut(column@, rows as nat),
                decreases column@.len(),
            {
                column.pop();
            }
            i += 1;
        }
        proof {
            assert(column_views(self.columns@) =~= before@.normalized().columns);
            assert(self@ =~= before@.normalized());
        }
    }

    /// Turns text columns with few distinct texts into dictionaries, where the plan asks for it.
    pub fn auto_dict_upgrade(&mut self)
        requires
            old(self).wf(),
        ensures
            final(self).wf(),
            final(self)@ == old(self)@.auto_upgraded(),
    {
        if !self.plan.auto_dict {
            return;
        }
        let ghost before = *self;
        let mut i: usize = 0;
        while i < self.columns.len()
            invariant
                before.wf(),
                i <= self.columns@.len(),
                self.columns@.len() == before.columns@.len(),
                self.column_order == before.column_order,
                self.row_count == before.row_count,
                self.plan == before.plan,
                forall|k: int| 0 <= k < self.columns@.len() ==> (#[trigger] self.columns@[k]).wf(),
                forall|k: int|
                    0 <= k < self.columns@.len() ==> (#[trigger] self.columns@[k])@ == (if k < i {
                        before.columns@[k]@.upgraded(AUTO_DICT_ROWS as nat)
                    } else {
                        before.columns@[k]@
                    }),
            decreases self.columns@.len() - i,
        {
            self.columns[i].try_upgrade_to_dict(AUTO_DICT_ROWS);
            i += 1;
        }
        proof {
            assert(column_views(self.columns@) =~= before@.auto_upgraded().columns);
            assert(self@ =~= before@.auto_upgraded());
        }
    }

    /// Drops all rows and columns. The plan stays, and so does the number of rows that the engine
    /// was made for.
    pub fn reset(&mut self)
        ensures
            final(self).wf(),
            final(self)@ == EngineView::empty(old(self)@.plan),
            final(self).expected() == old(self).expected(),
    {
        self.columns.clear();
        self.column_order.clear();
        self.row_count = 0;
        assert(self@ =~= EngineView::empty(old(self)@.plan));
    }
}

/// The engine after the rows of `other` are appended, where the types of all shared columns agree.
pub open spec fn extended_engine(m: EngineView, other: EngineView) -> Option<EngineView> {
    let full = m.with_columns_of(other, other.order.len());
    if full.can_merge(other, full.columns.len()) {
        Some(
            EngineView {
                rows: m.rows + other.rows,
                ..full.merged_to(other, full.columns.len())
            },
        )
    } else {
        None
    }
}

/// The engine that is left where a shared column differs in type: the columns before it are merged.
pub open spec fn half_extended(m: EngineView, other: EngineView, left: EngineView) -> bool {
    let full = m.with_columns_of(other, other.order.len());
    exists|k: nat|
        k < full.columns.len() && full.can_merge(other, k) && (#[trigger] full.merged(
            other,
            k as int,
        )) is None && left == full.merged_to(other, k)
}

impl ColumnarEngine {
    /// Adds the columns of `other` that are not there.
    fn add_columns_of(&mut self, other: &ColumnarEngine)
        requires
            old(self).wf(),
            other.wf(),
        ensures
            final(self).wf(),
            final(self)@ == old(self)@.with_columns_of(other@, other@.order.len()),
    {
        let ghost before = self@;
        let mut i: usize = 0;
        while i < other.column_order.len()
            invariant
                self.wf(),
                other.wf(),
                i <= other.column_order@.len(),
                self@ == before.with_columns_of(other@, i as nat),
            decreases other.column_order@.len() - i,
        {
            let name = other.column_order[i].as_str();
            assert(other@.order[i as int] == name@);
            if self.find_column(name).is_none() {
                let est: usize = if other.estimated_rows < 64 {
                    64
                } else {
                    other.estimated_rows
                };
                let field_type = other.plan.column_type(name);
                self.add_column(name, field_type, est);
            }
            i += 1;
        }
    }

    /// Appends `n` nulls to a column.
    fn push_nulls(column: &mut ColumnBuilder, n: usize)
        requires
            old(column).wf(),
        ensures
            final(column).wf(),
            final(column)@ == with_nulls(old(column)@, n as nat),
    {
        let ghost start = column@;
        let mut i: usize = 0;
        while i < n
            invariant
                i <= n,
                column.wf(),
                column@ == with_nulls(start, i as nat),
            decreases n - i,
        {
            column.push_str(None);
            i += 1;
        }
    }

    /// Appends the rows of another engine. Columns that one of the two lacks are filled with nulls.
    ///
    /// Fails where a column has different types in the two.
    pub fn extend(&mut self, other: ColumnarEngine) -> (done: Result<(), String>)
        requires
            old(self).wf(),
            other.wf(),
            old(self)@.rows + other@.rows <= usize::MAX,
        ensures
            final(self).wf(),
            match extended_engine(old(self)@, other@) {
                Some(view) => done is Ok && final(self)@ == view,
                None => done matches Err(message) && message@
                    == "extend_owned: column type mismatch across chunks"@ && half_extended(
                    old(self)@,
                    other@,
                    final(self)@,
                ),
            },
    {
        let ghost them = other;
        let mut theirs = other;
        self.add_columns_of(&theirs);
        let ghost full = *self;
        let mut i: usize = 0;
        proof {
            assert(full@.merged_to(them@, 0) =~= full@);
        }
        while i < self.columns.len()
            invariant
                them == other,
                full.wf(),
                them.wf(),
                full@ == old(self)@.with_columns_of(them@, them@.order.len()),
                i <= self.columns@.len(),
                self.wf(),
                self.columns@.len() == full.columns@.len(),
                self.column_order == full.column_order,
                self.row_count == full.row_count,
                self.plan == full.plan,
                self@ == full@.merged_to(them@, i as nat),
                full@.can_merge(them@, i as nat),
                theirs.column_order == them.column_order,
                theirs.row_count == them.row_count,
                theirs.columns@.len() == them.columns@.len(),
                forall|j: int|
                    0 <= j < theirs.columns@.len() ==> (#[trigger] theirs.columns@[j]).wf(),
                forall|j: int|
                    0 <= j < theirs.columns@.len() && !full@.order.take(i as int).contains(
                        them@.order[j],
                    ) ==> #[trigger] theirs.columns@[j] == them.columns@[j],
            decreases self.columns@.len() - i,
        {
            let ghost before = *self;
            let ghost name = full@.order[i as int];
            proof {
                assert(self.column_order@[i as int]@ == name);
                assert(self@.columns[i as int] == full@.columns[i as int]);
                assert(!full@.order.take(i as int).contains(name)) by {
                    if full@.order.take(i as int).contains(name) {
                        let k = choose|k: int|
                            0 <= k < i && full@.order.take(i as int)[k] == name;
                        assert(full@.order[k] == name);
                    }
                }
                assert forall|x: Seq<char>| !full@.order.take(i + 1).contains(
                    x,
                ) implies !full@.order.take(i as int).contains(x) by {
                    if full@.order.take(i as int).contains(x) {
                        let k = choose|k: int| 0 <= k < i && full@.order.take(i as int)[k] == x;
                        assert(full@.order.take(i + 1)[k] == x);
                    }
                }
                assert(full@.order.take(i + 1)[i as int] == name);
            }
            match position(&theirs.column_order, self.column_order[i].as_str()) {
                Some(j) => {
                    let mut taken = ColumnBuilder::Boolean(Vec::new());
                    let ghost here = theirs.columns@[j as int];
                    proof {
                        lemma_place_is_code(them@.order, name);
                        assert(them@.order[j as int] == name);
                        assert(here == them.columns@[j as int]);
                        assert(here@ == them@.column(name));
                    }
                    let ghost rest = theirs.columns@;
                    std::mem::swap(&mut taken, &mut theirs.columns[j]);
                    proof {
                        assert forall|q: int|
                            0 <= q < theirs.columns@.len() && !full@.order.take(i + 1).contains(
                                them@.order[q],
                            ) implies #[trigger] theirs.columns@[q] == them.columns@[q] by {
                            assert(q != j);
                            assert(rest[q] == them.columns@[q]);
                        }
                        assert forall|q: int| 0 <= q < theirs.columns@.len() implies (
                        #[trigger] theirs.columns@[q]).wf() by {
                            if q != j {
                                assert(rest[q].wf());
                            }
                        }
                    }
                    let done = self.columns[i].extend_owned(taken);
                    if let Err(message) = done {
                        proof {
                            assert(full@.merged(them@, i as int) is None);
                            assert(column_views(self.columns@) =~= before@.columns);
                            assert(self@ =~= full@.merged_to(them@, i as nat));
                            assert(half_extended(old(self)@, them@, self@));
                            assert(!full@.can_merge(them@, full@.columns.len()));
                        }
                        return Err(message);
                    }
                },
                None => {
                    Self::push_nulls(&mut self.columns[i], theirs.row_count);
                },
            }
            proof {
                assert(full@.merged(them@, i as int) == Some(self.columns@[i as int]@));
                assert(column_views(self.columns@) =~= full@.merged_to(them@, (i + 1) as nat).columns)
                    by {
                    assert forall|k: int| 0 <= k < self.columns@.len() implies column_views(
                        self.columns@,
                    )[k] == full@.merged_to(them@, (i + 1) as nat).columns[k] by {
                        if k != i {
                            assert(self.columns@[k] == before.columns@[k]);
                            assert(before@.columns[k] == full@.merged_to(them@, i as nat).columns[k]);
                        }
                    }
                }
                assert(self@ =~= full@.merged_to(them@, (i + 1) as nat));
            }
            i += 1;
        }
        let ghost before = *self;
        proof {
            lemma_with_columns_keeps(old(self)@, them@, them@.order.len());
        }
        self.row_count = self.row_count + theirs.row_count;
        assert(self@ =~= (EngineView { rows: before@.rows + them@.rows, ..before@ }));
        Ok(())
    }
}

/// New columns leave the rows and the plan as they are.
pub proof fn lemma_with_columns_keeps(m: EngineView, other: EngineView, n: nat)
    ensures
        m.with_columns_of(other, n).rows == m.rows,
        m.with_columns_of(other, n).plan == m.plan,
    decreases n,
{
    if n > 0 {
        lemma_with_columns_keeps(m, other, (n - 1) as nat);
    }
}

/// The first place of a name is its code.
proof fn lemma_place_is_code(list: Seq<Seq<char>>, name: Seq<char>)
    requires
        list.contains(name),
        list.no_duplicates(),
    ensures
        0 <= place_of(list, name) < list.len(),
        list[place_of(list, name)] == name,
        place_of(list, name) == code_of(list, name),
{
    lemma_place_holds(list, name);
    lemma_code_of(list, place_of(list, name));
}

/// The first place of a name holds the name.
pub proof fn lemma_place_holds(list: Seq<Seq<char>>, name: Seq<char>)
    requires
        list.contains(name),
    ensures
        0 <= place_of(list, name) < list.len(),
        list[place_of(list, name)] == name,
    decreases list.len(),
{
    if list[0] != name {
        let k = choose|k: int| 0 <= k < list.len() && list[k] == name;
        assert(list.drop_first()[k - 1] == name);
        lemma_place_holds(list.drop_first(), name);
    }
}

/// `a` comes before `b` in the order of bytes, or is the same.
pub open spec fn bytes_le(a: Seq<u8>, b: Seq<u8>) -> bool
    decreases a.len(),
{
    if a.len() == 0 {
        true
    } else if b.len() == 0 {
        false
    } else if a[0] != b[0] {
        a[0] < b[0]
    } else {
        bytes_le(a.drop_first(), b.drop_first())
    }
}

/// The name `a` comes before `b`, or is the same.
pub open spec fn name_le(a: Seq<char>, b: Seq<char>) -> bool {
    bytes_le(encode_utf8(a), encode_utf8(b))
}

/// The first `n` names are sorted.
pub open spec fn sorted_names(names: Seq<Seq<char>>, n: int) -> bool {
    forall|a: int, b: int| 0 <= a <= b < n ==> name_le(#[trigger] names[a], #[trigger] names[b])
}

/// The columns of an engine with their names.
pub open spec fn named_columns(m: EngineView) -> Seq<(Seq<char>, ColumnView)> {
    Seq::new(m.order.len(), |i: int| (m.order[i], m.columns[i]))
}

proof fn lemma_bytes_le_total(a: Seq<u8>, b: Seq<u8>)
    ensures
        bytes_le(a, b) || bytes_le(b, a),
    decreases a.len(),
{
    if a.len() > 0 && b.len() > 0 && a[0] == b[0] {
        lemma_bytes_le_total(a.drop_first(), b.drop_first());
    }
}

proof fn lemma_bytes_le_trans(a: Seq<u8>, b: Seq<u8>, c: Seq<u8>)
    requires
        bytes_le(a, b),
        bytes_le(b, c),
    ensures
        bytes_le(a, c),
    decreases a.len(),
{
    if a.len() > 0 && b.len() > 0 && c.len() > 0 && a[0] == b[0] && b[0] == c[0] {
        lemma_bytes_le_trans(a.drop_first(), b.drop_first(), c.drop_first());
    }
}

/// Whether the name `a` comes before `b` or is the same.
fn is_name_le(a: &str, b: &str) -> (yes: bool)
    ensures
        yes == name_le(a@, b@),
{
    let x = a.as_bytes();
    let y = b.as_bytes();
    let mut i: usize = 0;
    assert(x@.skip(0) =~= x@);
    assert(y@.skip(0) =~= y@);
    loop
        invariant
            x@ == encode_utf8(a@),
            y@ == encode_utf8(b@),
            i <= x@.len(),
            i <= y@.len(),
            bytes_le(x@, y@) == bytes_le(x@.skip(i as int), y@.skip(i as int)),
        decreases x@.len() - i,
    {
        if i >= x.len() {
            return true;
        }
        if i >= y.len() {
            return false;
        }
        assert(x@.skip(i as int)[0] == x@[i as int]);
        assert(y@.skip(i as int)[0] == y@[i as int]);
        if x[i] != y[i] {
            return x[i] < y[i];
        }
        assert(x@.skip(i as int).drop_first() =~= x@.skip(i + 1));
        assert(y@.skip(i as int).drop_first() =~= y@.skip(i + 1));
        i += 1;
    }
}

impl ColumnarEngine {
    /// Where the name at `i` goes among the sorted names before it.
    fn sorted_place(&self, i: usize) -> (place: usize)
        requires
            self.wf(),
            i < self@.order.len(),
            sorted_names(self@.order, i as int),
        ensures
            place <= i,
            forall|k: int|
                0 <= k < place ==> name_le(#[trigger] self@.order[k], self@.order[i as int]),
            forall|k: int|
                place <= k < i ==> name_le(self@.order[i as int], #[trigger] self@.order[k]),
    {
        let mut p: usize = 0;
        while p < i && is_name_le(self.column_order[p].as_str(), self.column_order[i].as_str())
            invariant
                self.wf(),
                p <= i,
                i < self@.order.len(),
                forall|k: int|
                    0 <= k < p ==> name_le(#[trigger] self@.order[k], self@.order[i as int]),
            decreases i - p,
        {
            p += 1;
        }
        proof {
            let name = encode_utf8(self@.order[i as int]);
            if p < i {
                let stop = encode_utf8(self@.order[p as int]);
                assert(self.column_order@[p as int]@ == self@.order[p as int]);
                lemma_bytes_le_total(stop, name);
                assert forall|k: int| p <= k < i implies name_le(
                    self@.order[i as int],
                    #[trigger] self@.order[k],
                ) by {
                    assert(name_le(self@.order[p as int], self@.order[k]));
                    lemma_bytes_le_trans(name, stop, encode_utf8(self@.order[k]));
                }
            }
        }
        p
    }

    /// Sorts the columns by name.
    pub fn sort_columns(&mut self)
        requires
            old(self).wf(),
        ensures
            final(self).wf(),
            final(self)@.rows == old(self)@.rows,
            final(self)@.plan == old(self)@.plan,
            sorted_names(final(self)@.order, final(self)@.order.len() as int),
            named_columns(final(self)@).to_multiset() == named_columns(old(self)@).to_multiset(),
    {
        let mut i: usize = 0;
        while i < self.column_order.len()
            invariant
                self.wf(),
                i <= self.column_order@.len(),
                self.row_count == old(self).row_count,
                self.plan == old(self).plan,
                sorted_names(self@.order, i as int),
                named_columns(self@).to_multiset() == named_columns(old(self)@).to_multiset(),
            decreases self.column_order@.len() - i,
        {
            let place: usize = self.sorted_place(i);
            let ghost before = *self;
            let name = self.column_order.remove(i);
            let column = self.columns.remove(i);
            self.column_order.insert(place, name);
            self.columns.insert(place, column);
            proof {
                let old_order = before@.order;
                let mid = old_order.remove(i as int);
                let moved = old_order[i as int];
                assert(texts(self.column_order@) =~= mid.insert(place as int, moved));
                assert(self@.order == mid.insert(place as int, moved));
                lemma_remove_apart(old_order, i as int);
                lemma_insert_apart(mid, place as int, moved);
                let pairs = named_columns(before@);
                assert(named_columns(self@) =~= pairs.remove(i as int).insert(
                    place as int,
                    pairs[i as int],
                ));
                lemma_moved(pairs, i as int, place as int);
                assert forall|k: int| 0 <= k < self.columns@.len() implies (
                #[trigger] self.columns@[k]).wf() by {
                    let from = if k < place {
                        k
                    } else if k == place {
                        i as int
                    } else if k <= i {
                        k - 1
                    } else {
                        k
                    };
                    assert(self.columns@[k] == before.columns@[from]);
                }
                assert forall|a: int, b: int| 0 <= a <= b < i + 1 implies name_le(
                    #[trigger] self@.order[a],
                    #[trigger] self@.order[b],
                ) by {
                    let x = if a < place {
                        a
                    } else if a == place {
                        i as int
                    } else {
                        a - 1
                    };
                    let y = if b < place {
                        b
                    } else if b == place {
                        i as int
                    } else {
                        b - 1
                    };
                    assert(self@.order[a] == old_order[x]);
                    assert(self@.order[b] == old_order[y]);
                    if a == b {
                        lemma_bytes_le_total(
                            encode_utf8(self@.order[a]),
                            encode_utf8(self@.order[a]),
                        );
                    }
                }
            }
            i += 1;
        }
    }
}

/// Names stay apart when one is taken away, and that one is then not among them.
proof fn lemma_remove_apart(order: Seq<Seq<char>>, i: int)
    requires
        order.no_duplicates(),
        0 <= i < order.len(),
    ensures
        order.remove(i).no_duplicates(),
        !order.remove(i).contains(order[i]),
{
    let after = order.remove(i);
    assert forall|a: int, b: int| 0 <= a < after.len() && 0 <= b < after.len() && a
        != b implies after[a] != after[b] by {
        let x = if a < i {
            a
        } else {
            a + 1
        };
        let y = if b < i {
            b
        } else {
            b + 1
        };
        assert(after[a] == order[x] && after[b] == order[y]);
    }
    if after.contains(order[i]) {
        let a = choose|a: int| 0 <= a < after.len() && after[a] == order[i];
        let x = if a < i {
            a
        } else {
            a + 1
        };
        assert(after[a] == order[x]);
    }
}

/// Moving an element keeps the elements.
proof fn lemma_moved<A>(list: Seq<A>, i: int, place: int)
    requires
        0 <= i < list.len(),
        0 <= place < list.len(),
    ensures
        list.remove(i).insert(place, list[i]).to_multiset() == list.to_multiset(),
{
    broadcast use vstd::seq_lib::group_to_multiset_ensures;

    let mid = list.remove(i);
    assert(mid.insert(place, list[i]).to_multiset() =~= mid.to_multiset().insert(list[i]));
    assert(mid.to_multiset() =~= list.to_multiset().remove(list[i]));
    assert(list.to_multiset().count(list[i]) > 0);
}

impl EngineView {
    /// Which rows a comparison of one field with a text keeps, where `texts` holds the text of the
    /// field in each row.
    pub open spec fn kept_rows(self, texts: Seq<Option<Seq<char>>>) -> Seq<bool> {
        Seq::new(
            self.rows,
            |i: int|
                {
                    let text = if i < texts.len() {
                        texts[i]
                    } else {
                        None
                    };
                    match self.plan.filter {
                        Some(FilterView::Equal { value, .. }) => text == Some(value),
                        Some(FilterView::NotEqual { value, .. }) => text != Some(value),
                        _ => true,
                    }
                },
        )
    }

    /// The row filter compares a column of floating point numbers with a text.
    pub open spec fn awaits_texts(self) -> bool {
        match self.plan.filter {
            Some(FilterView::Equal { field, .. }) => self.floating(field),
            Some(FilterView::NotEqual { field, .. }) => self.floating(field),
            _ => false,
        }
    }

    /// The engine with the rows that the row filter keeps, where it compares a column of floating
    /// point numbers with a text, and `texts` holds the text of that number in each row.
    pub open spec fn settled(self, texts: Seq<Option<Seq<char>>>) -> EngineView {
        if self.awaits_texts() {
            let keep = self.kept_rows(texts);
            EngineView {
                columns: self.columns.map_values(|c: ColumnView| c.retained(keep)),
                rows: retained(keep, keep).len(),
                ..self
            }
        } else {
            self
        }
    }
}

impl ColumnarEngine {
    /// The column of floating point numbers that the row filter compares with a text.
    pub fn awaited_column(&self) -> (column: Option<&ColumnBuilder>)
        requires
            self.wf(),
        ensures
            column is Some <==> self@.awaits_texts(),
            column matches Some(c) ==> c.wf() && c is Float64 && match self@.plan.filter {
                Some(FilterView::Equal { field, .. }) => c@ == self@.column(
                    self@.plan.renamed(field),
                ),
                Some(FilterView::NotEqual { field, .. }) => c@ == self@.column(
                    self@.plan.renamed(field),
                ),
                _ => false,
            },
    {
        let field = match &self.plan.filter {
            Some(FilterPredicate::Equal { field, .. }) => field,
            Some(FilterPredicate::NotEqual { field, .. }) => field,
            _ => {
                return None;
            },
        };
        let name = self.plan.renamed_field(field.as_str());
        match self.column(name) {
            Some(column) => match column {
                ColumnBuilder::Float64(_) => Some(column),
                _ => None,
            },
            None => None,
        }
    }

    /// Remove the rows that the row filter does not keep, where it compares a column of floating
    /// point numbers with a text: `texts` holds the text of that number in each row.
    pub fn settle_filter(&mut self, texts: &[Option<String>])
        requires
            old(self).wf(),
        ensures
            final(self).wf(),
            final(self)@ == old(self)@.settled(opt_texts(texts@)),
    {
        if self.awaited_column().is_none() {
            return;
        }
        let ghost views = opt_texts(texts@);
        let mut keep: Vec<bool> = Vec::new();
        let mut count: usize = 0;
        let mut i: usize = 0;
        let ghost wanted = self@.kept_rows(views);
        assert(wanted.take(0) =~= Seq::empty());
        while i < self.row_count
            invariant
                self == old(self),
                self@.awaits_texts(),
                views == opt_texts(texts@),
                wanted == self@.kept_rows(views),
                i <= self.row_count,
                count <= i,
                keep@ == wanted.take(i as int),
                count == retained(wanted.take(i as int), wanted).len(),
            decreases self.row_count - i,
        {
            let text: Option<&str> = if i < texts.len() {
                match &texts[i] {
                    Some(t) => Some(t.as_str()),
                    None => None,
                }
            } else {
                None
            };
            let kept = match &self.plan.filter {
                Some(FilterPredicate::Equal { value, .. }) => match text {
                    Some(t) => same_text(t, value.as_str()),
                    None => false,
                },
                Some(FilterPredicate::NotEqual { value, .. }) => match text {
                    Some(t) => !same_text(t, value.as_str()),
                    None => true,
                },
                _ => true,
            };
            proof {
                if i < texts@.len() {
                    assert(views[i as int] == opt_text(texts@[i as int]));
                }
                assert(kept == wanted[i as int]);
                assert(wanted.take(i + 1).drop_last() =~= wanted.take(i as int));
                assert(wanted.take(i + 1) =~= wanted.take(i as int).push(kept));
            }
            keep.push(kept);
            if kept {
                count += 1;
            }
            i += 1;
        }
        assert(wanted.take(wanted.len() as int) =~= wanted);
        let mut k: usize = 0;
        while k < self.columns.len()
            invariant
                k <= self.columns@.len(),
                self.wf(),
                keep@ == wanted,
                self.column_order == old(self).column_order,
                self.row_count == old(self).row_count,
                self.plan == old(self).plan,
                self.columns@.len() == old(self).columns@.len(),
                forall|j: int|
                    0 <= j < k ==> (#[trigger] self.columns@[j])@ == old(self).columns@[j]@.retained(
                        wanted,
                    ),
                forall|j: int|
                    k <= j < self.columns@.len() ==> #[trigger] self.columns@[j] == old(self).columns@[j],
            decreases self.columns@.len() - k,
        {
            let column = &mut self.columns[k];
            column.retain(&keep);
            k += 1;
        }
        self.row_count = count;
        proof {
            assert(self@.columns =~= old(self)@.columns.map_values(
                |c: ColumnView| c.retained(wanted),
            ));
        }
    }
}

/// The list has a column of this name.
pub open spec fn lists(list: Seq<(Seq<char>, FieldType)>, name: Seq<char>) -> bool {
    exists|i: int| 0 <= i < list.len() && (#[trigger] list[i]).0 == name
}

/// The list with each of the first `n` columns of an engine whose name it does not have yet.
pub open spec fn listed(list: Seq<(Seq<char>, FieldType)>, m: EngineView, n: nat) -> Seq<
    (Seq<char>, FieldType),
>
    decreases n,
{
    if n == 0 {
        list
    } else {
        let before = listed(list, m, (n - 1) as nat);
        if lists(before, m.order[n - 1]) {
            before
        } else {
            before.push((m.order[n - 1], m.columns[n - 1].kind()))
        }
    }
}

/// The columns of a list of engines in the order in which they first come, each with the type that
/// it has there. An engine without rows does not count.
pub open spec fn unified(engines: Seq<EngineView>) -> Seq<(Seq<char>, FieldType)>
    decreases engines.len(),
{
    if engines.len() == 0 {
        Seq::empty()
    } else if engines.last().rows == 0 {
        unified(engines.drop_last())
    } else {
        listed(unified(engines.drop_last()), engines.last(), engines.last().order.len())
    }
}

/// The views of a list of engines.
pub open spec fn engine_views(engines: Seq<ColumnarEngine>) -> Seq<EngineView> {
    Seq::new(engines.len(), |i: int| engines[i]@)
}

/// The views of a list of columns with their types.
pub open spec fn listed_views(list: Seq<(String, FieldType)>) -> Seq<(Seq<char>, FieldType)> {
    Seq::new(list.len(), |i: int| (list[i].0@, list[i].1))
}

/// Whether the list has a column of this name.
fn is_listed(list: &[(String, FieldType)], name: &str) -> (yes: bool)
    ensures
        yes == lists(listed_views(list@), name@),
{
    let ghost views = listed_views(list@);
    let mut i: usize = 0;
    while i < list.len()
        invariant
            views == listed_views(list@),
            i <= list@.len(),
            forall|k: int| 0 <= k < i ==> (#[trigger] views[k]).0 != name@,
        decreases list@.len() - i,
    {
        if same_text(list[i].0.as_str(), name) {
            assert(views[i as int].0 == name@);
            return true;
        }
        i += 1;
    }
    false
}

/// The columns of a list of engines in the order in which they first come, each with the type that
/// it has there. An engine without rows does not count.
pub fn unified_columns(engines: &[ColumnarEngine]) -> (list: Vec<(String, FieldType)>)
    requires
        forall|i: int| 0 <= i < engines@.len() ==> (#[trigger] engines@[i]).wf(),
    ensures
        listed_views(list@) == unified(engine_views(engines@)),
{
    let ghost views = engine_views(engines@);
    let mut list: Vec<(String, FieldType)> = Vec::new();
    let mut e: usize = 0;
    assert(listed_views(list@) =~= unified(views.take(0)));
    while e < engines.len()
        invariant
            forall|i: int| 0 <= i < engines@.len() ==> (#[trigger] engines@[i]).wf(),
            views == engine_views(engines@),
            e <= engines@.len(),
            listed_views(list@) == unified(views.take(e as int)),
        decreases engines@.len() - e,
    {
        let engine = &engines[e];
        let ghost m = engine@;
        let ghost start = listed_views(list@);
        proof {
            assert(views.take(e + 1).drop_last() =~= views.take(e as int));
            assert(views.take(e + 1).last() == m);
        }
        if engine.row_count > 0 {
            let mut i: usize = 0;
            while i < engine.column_order.len()
                invariant
                    engine.wf(),
                    m == engine@,
                    i <= engine.column_order@.len(),
                    listed_views(list@) == listed(start, m, i as nat),
                decreases engine.column_order@.len() - i,
            {
                let name = engine.column_order[i].as_str();
                if !is_listed(&list, name) {
                    let ghost before = list@;
                    let kind = engine.columns[i].field_type();
                    list.push((name.to_string(), kind));
                    assert(listed_views(list@) =~= listed_views(before).push((name@, kind)));
                }
                i += 1;
            }
        }
        e += 1;
    }
    assert(views.take(views.len() as int) =~= views);
    list
}

} // verus!
