//! Where a row scanner delivers the fields of its rows.

use vstd::prelude::*;

use crate::names::NameSet;

verus! {

/// Some function, one for each number; nothing is said of what it gives.
pub closed spec fn some_function<A, B>(which: int, a: A) -> B {
    arbitrary::<spec_fn(int, A) -> B>()(which, a)
}

/// A receiver of rows.
///
/// A sink is described by a model and by what each event makes of the model. The scanner states
/// what it does over these alone. Of a sink that leaves the descriptions as they are here no more
/// is known than that it has some: what an event makes of the model depends on the model and on
/// what arrives, and on nothing else. Such a sink takes as its model a type of its own that holds
/// its state.
pub trait ColumnarSink: Sized {
    /// What the sink has received so far.
    type Model;

    /// The current model.
    open spec fn model(&self) -> Self::Model {
        some_function(0, *self)
    }

    /// The model after a row begins.
    open spec fn begun(m: Self::Model) -> Self::Model {
        some_function(1, m)
    }

    /// The model after a field arrives under its raw name.
    open spec fn with_field(m: Self::Model, name: Seq<char>, value: Seq<char>) -> Self::Model {
        some_function(2, (m, name, value))
    }

    /// The model after a row ends.
    open spec fn ended(m: Self::Model) -> Self::Model {
        some_function(3, m)
    }

    /// The current row is rejected: the rest of it need not be scanned.
    open spec fn rejects(m: Self::Model) -> bool {
        some_function(4, m)
    }

    /// The sink takes decoded values.
    open spec fn takes_values(m: Self::Model) -> bool {
        some_function(5, m)
    }

    /// The sink takes field names.
    open spec fn takes_names(m: Self::Model) -> bool {
        some_function(6, m)
    }

    /// The sink keeps a field of this raw name.
    open spec fn keeps(m: Self::Model, name: Seq<char>) -> bool {
        some_function(7, (m, name))
    }

    /// The column of a raw field name, unless the field is dropped.
    open spec fn resolved(m: Self::Model, name: Seq<char>) -> Option<Seq<char>> {
        some_function(8, (m, name))
    }

    /// Begins a row.
    fn begin_row(&mut self)
        ensures
            final(self).model() == Self::begun(old(self).model()),
    ;

    /// Resolves a raw field name and stores the value under it, unless the field is dropped.
    fn resolve_and_put(&mut self, name: &str, value: &str)
        ensures
            final(self).model() == Self::with_field(old(self).model(), name@, value@),
    ;

    /// Ends the row.
    fn end_row(&mut self)
        ensures
            final(self).model() == Self::ended(old(self).model()),
    ;

    /// Whether the current row is rejected.
    fn row_rejected(&self) -> (yes: bool)
        ensures
            yes == Self::rejects(self.model()),
    ;

    /// Whether the sink takes decoded values.
    fn needs_value(&self) -> (yes: bool)
        ensures
            yes == Self::takes_values(self.model()),
    ;

    /// Whether the sink takes field names.
    fn needs_resolve(&self) -> (yes: bool)
        ensures
            yes == Self::takes_names(self.model()),
    ;

    /// Whether the sink keeps a field of this raw name.
    fn wants(&self, name: &str) -> (yes: bool)
        ensures
            yes == Self::keeps(self.model(), name@),
    ;

    /// The column of a raw field name, unless the field is dropped.
    fn resolve<'a>(&'a self, name: &'a str) -> (column: Option<&'a str>)
        ensures
            match column {
                Some(c) => Self::resolved(self.model(), name@) == Some(c@),
                None => Self::resolved(self.model(), name@) is None,
            },
    ;
}

/// The fields of a row: names and texts.
pub open spec fn row_view(row: Seq<(String, String)>) -> Seq<(Seq<char>, Seq<char>)> {
    Seq::new(row.len(), |i: int| (row[i].0@, row[i].1@))
}

/// A sink that holds the fields of one row, in the order in which they come.
pub struct RowSink {
    /// The fields of the current row.
    pub row: Vec<(String, String)>,
}

impl RowSink {
    /// A sink without fields.
    pub fn new() -> (sink: Self)
        ensures
            sink.model() == Seq::<(Seq<char>, Seq<char>)>::empty(),
    {
        let sink = RowSink { row: Vec::new() };
        assert(sink.model() =~= Seq::empty());
        sink
    }
}

impl ColumnarSink for RowSink {
    type Model = Seq<(Seq<char>, Seq<char>)>;

    open spec fn model(&self) -> Self::Model {
        row_view(self.row@)
    }

    open spec fn begun(m: Self::Model) -> Self::Model {
        Seq::empty()
    }

    open spec fn with_field(m: Self::Model, name: Seq<char>, value: Seq<char>) -> Self::Model {
        m.push((name, value))
    }

    open spec fn ended(m: Self::Model) -> Self::Model {
        m
    }

    open spec fn rejects(m: Self::Model) -> bool {
        false
    }

    open spec fn takes_values(m: Self::Model) -> bool {
        true
    }

    open spec fn takes_names(m: Self::Model) -> bool {
        true
    }

    open spec fn keeps(m: Self::Model, name: Seq<char>) -> bool {
        true
    }

    open spec fn resolved(m: Self::Model, name: Seq<char>) -> Option<Seq<char>> {
        Some(name)
    }

    fn begin_row(&mut self) {
        self.row = Vec::new();
        assert(self.model() =~= Seq::empty());
    }

    fn resolve_and_put(&mut self, name: &str, value: &str) {
        let ghost before = self.row@;
        self.row.push((name.to_string(), value.to_string()));
        assert(self.model() =~= row_view(before).push((name@, value@)));
    }

    fn end_row(&mut self) {
    }

    fn row_rejected(&self) -> (yes: bool) {
        false
    }

    fn needs_value(&self) -> (yes: bool) {
        true
    }

    fn needs_resolve(&self) -> (yes: bool) {
        true
    }

    fn wants(&self, name: &str) -> (yes: bool) {
        true
    }

    fn resolve<'a>(&'a self, name: &'a str) -> (column: Option<&'a str>) {
        Some(name)
    }
}

/// The fields of each row of a list.
pub open spec fn rows_view(rows: Seq<Vec<(String, String)>>) -> Seq<Seq<(Seq<char>, Seq<char>)>> {
    Seq::new(rows.len(), |i: int| row_view(rows[i]@))
}

/// What a collector of rows holds.
#[verifier::ext_equal]
pub struct CollectorView {
    /// The whole rows.
    pub rows: Seq<Seq<(Seq<char>, Seq<char>)>>,
    /// The fields of the current row.
    pub row: Seq<(Seq<char>, Seq<char>)>,
    /// The names of the fields that are dropped.
    pub dropped: Set<Seq<char>>,
}

/// A sink that holds whole rows; fields of some names are dropped.
pub struct RowCollector {
    rows: Vec<Vec<(String, String)>>,
    row: Vec<(String, String)>,
    dropped: NameSet,
}

impl RowCollector {
    /// A collector without rows that drops the fields of the given names.
    pub fn new(dropped: NameSet) -> (collector: Self)
        ensures
            collector.model() == (CollectorView {
                rows: Seq::empty(),
                row: Seq::empty(),
                dropped: dropped@,
            }),
    {
        let collector = RowCollector { rows: Vec::new(), row: Vec::new(), dropped };
        assert(collector.model().rows =~= Seq::empty());
        assert(collector.model().row =~= Seq::empty());
        collector
    }

    /// The whole rows.
    pub fn rows(&self) -> (rows: &[Vec<(String, String)>])
        ensures
            rows_view(rows@) == self.model().rows,
    {
        self.rows.as_slice()
    }

    /// The names of the fields that are dropped.
    pub fn dropped_names(&self) -> (names: NameSet)
        ensures
            names@ == self.model().dropped,
    {
        self.dropped.clone()
    }

    /// Moves the rows of another collector after its own.
    pub fn take_rows(&mut self, other: RowCollector)
        ensures
            final(self).model() == (CollectorView {
                rows: old(self).model().rows + other.model().rows,
                ..old(self).model()
            }),
    {
        let ghost before = self.rows@;
        let ghost theirs = other.rows@;
        let mut rows = other.rows;
        self.rows.append(&mut rows);
        assert(self.rows@ == before + theirs);
        assert(self.model().rows =~= rows_view(before) + rows_view(theirs));
    }
}

impl ColumnarSink for RowCollector {
    type Model = CollectorView;

    closed spec fn model(&self) -> CollectorView {
        CollectorView {
            rows: rows_view(self.rows@),
            row: row_view(self.row@),
            dropped: self.dropped@,
        }
    }

    open spec fn begun(m: CollectorView) -> CollectorView {
        CollectorView { row: Seq::empty(), ..m }
    }

    open spec fn with_field(m: CollectorView, name: Seq<char>, value: Seq<char>) -> CollectorView {
        if m.dropped.contains(name) {
            m
        } else {
            CollectorView { row: m.row.push((name, value)), ..m }
        }
    }

    open spec fn ended(m: CollectorView) -> CollectorView {
        CollectorView { rows: m.rows.push(m.row), row: Seq::empty(), ..m }
    }

    open spec fn rejects(m: CollectorView) -> bool {
        false
    }

    open spec fn takes_values(m: CollectorView) -> bool {
        true
    }

    open spec fn takes_names(m: CollectorView) -> bool {
        true
    }

    open spec fn keeps(m: CollectorView, name: Seq<char>) -> bool {
        !m.dropped.contains(name)
    }

    open spec fn resolved(m: CollectorView, name: Seq<char>) -> Option<Seq<char>> {
        if m.dropped.contains(name) {
            None
        } else {
            Some(name)
        }
    }

    fn begin_row(&mut self) {
        self.row = Vec::new();
        assert(self.model().row =~= Seq::empty());
    }

    fn resolve_and_put(&mut self, name: &str, value: &str) {
        if self.dropped.contains(name) {
            return;
        }
        let ghost before = self.row@;
        self.row.push((name.to_string(), value.to_string()));
        assert(self.model().row =~= row_view(before).push((name@, value@)));
    }

    fn end_row(&mut self) {
        let mut row: Vec<(String, String)> = Vec::new();
        std::mem::swap(&mut row, &mut self.row);
        let ghost before = self.rows@;
        self.rows.push(row);
        assert(self.model().rows =~= rows_view(before).push(row_view(row@)));
        assert(self.model().row =~= Seq::empty());
    }

    fn row_rejected(&self) -> (yes: bool) {
        false
    }

    fn needs_value(&self) -> (yes: bool) {
        true
    }

    fn needs_resolve(&self) -> (yes: bool) {
        true
    }

    fn wants(&self, name: &str) -> (yes: bool) {
        !self.dropped.contains(name)
    }

    fn resolve<'a>(&'a self, name: &'a str) -> (column: Option<&'a str>) {
        if self.dropped.contains(name) {
            None
        } else {
            Some(name)
        }
    }
}

} // verus!
