//! Plans: which fields a table keeps, under which names and types, and which rows.

use vstd::prelude::*;

use crate::names::{entries_map, names_set, same_text, NameMap, NameSet};

verus! {

/// The storage type of a column.
#[derive(Clone, Copy, Debug, PartialEq, Eq, Structural)]
pub enum FieldType {
    String,
    Int64,
    Float64,
    Boolean,
    Dictionary,
}

/// The type that goes by a name.
pub open spec fn type_named(name: Seq<char>) -> Option<FieldType> {
    if name == "string"@ {
        Some(FieldType::String)
    } else if name == "int64"@ {
        Some(FieldType::Int64)
    } else if name == "float64"@ {
        Some(FieldType::Float64)
    } else if name == "bool"@ || name == "boolean"@ {
        Some(FieldType::Boolean)
    } else if name == "dictionary"@ {
        Some(FieldType::Dictionary)
    } else {
        None
    }
}

impl FieldType {
    /// The type that goes by the name `s`.
    pub fn from_str(s: &str) -> (field_type: Option<Self>)
        ensures
            field_type == type_named(s@),
    {
        if same_text(s, "string") {
            Some(FieldType::String)
        } else if same_text(s, "int64") {
            Some(FieldType::Int64)
        } else if same_text(s, "float64") {
            Some(FieldType::Float64)
        } else if same_text(s, "bool") || same_text(s, "boolean") {
            Some(FieldType::Boolean)
        } else if same_text(s, "dictionary") {
            Some(FieldType::Dictionary)
        } else {
            None
        }
    }
}

/// A comparison of two columns.
#[derive(Clone, Copy, Debug, PartialEq, Eq, Structural)]
pub enum CompareOp {
    Gt,
    Lt,
    Ge,
    Le,
    Eq,
    Ne,
}

/// The comparison that goes by a name.
pub open spec fn compare_op_named(name: Seq<char>) -> Option<CompareOp> {
    if name == ">"@ || name == "gt"@ {
        Some(CompareOp::Gt)
    } else if name == "<"@ || name == "lt"@ {
        Some(CompareOp::Lt)
    } else if name == ">="@ || name == "ge"@ {
        Some(CompareOp::Ge)
    } else if name == "<="@ || name == "le"@ {
        Some(CompareOp::Le)
    } else if name == "=="@ || name == "eq"@ {
        Some(CompareOp::Eq)
    } else if name == "!="@ || name == "ne"@ {
        Some(CompareOp::Ne)
    } else {
        None
    }
}

/// The name of the compute function for a comparison.
pub open spec fn compute_name(op: CompareOp) -> Seq<char> {
    match op {
        CompareOp::Gt => "greater"@,
        CompareOp::Lt => "less"@,
        CompareOp::Ge => "greater_equal"@,
        CompareOp::Le => "less_equal"@,
        CompareOp::Eq => "equal"@,
        CompareOp::Ne => "not_equal"@,
    }
}

impl CompareOp {
    /// The comparison that goes by the name `s`.
    pub fn from_str(s: &str) -> (op: Option<Self>)
        ensures
            op == compare_op_named(s@),
    {
        if same_text(s, ">") || same_text(s, "gt") {
            Some(CompareOp::Gt)
        } else if same_text(s, "<") || same_text(s, "lt") {
            Some(CompareOp::Lt)
        } else if same_text(s, ">=") || same_text(s, "ge") {
            Some(CompareOp::Ge)
        } else if same_text(s, "<=") || same_text(s, "le") {
            Some(CompareOp::Le)
        } else if same_text(s, "==") || same_text(s, "eq") {
            Some(CompareOp::Eq)
        } else if same_text(s, "!=") || same_text(s, "ne") {
            Some(CompareOp::Ne)
        } else {
            None
        }
    }

    /// The name of the compute function for the comparison.
    pub fn compute_fn(&self) -> (name: &'static str)
        ensures
            name@ == compute_name(*self),
    {
        match self {
            CompareOp::Gt => "greater",
            CompareOp::Lt => "less",
            CompareOp::Ge => "greater_equal",
            CompareOp::Le => "less_equal",
            CompareOp::Eq => "equal",
            CompareOp::Ne => "not_equal",
        }
    }
}

/// A row filter.
#[derive(Clone, Debug)]
pub enum FilterPredicate {
    /// Keeps the rows in which the field is not the value.
    NotEqual { field: String, value: String },
    /// Keeps the rows in which the field is the value.
    Equal { field: String, value: String },
    /// Keeps the rows in which two columns compare so; decided over the whole columns.
    Compare { field_a: String, op: CompareOp, field_b: String },
}

/// A row filter.
#[verifier::ext_equal]
pub enum FilterView {
    NotEqual { field: Seq<char>, value: Seq<char> },
    Equal { field: Seq<char>, value: Seq<char> },
    Compare { field_a: Seq<char>, op: CompareOp, field_b: Seq<char> },
}

impl View for FilterPredicate {
    type V = FilterView;

    open spec fn view(&self) -> FilterView {
        match *self {
            FilterPredicate::NotEqual { field, value } => FilterView::NotEqual {
                field: field@,
                value: value@,
            },
            FilterPredicate::Equal { field, value } => FilterView::Equal {
                field: field@,
                value: value@,
            },
            FilterPredicate::Compare { field_a, op, field_b } => FilterView::Compare {
                field_a: field_a@,
                op,
                field_b: field_b@,
            },
        }
    }
}

/// The texts of a list.
pub open spec fn texts(list: Seq<String>) -> Seq<Seq<char>> {
    Seq::new(list.len(), |i: int| list[i]@)
}

/// A map to strings as a map to texts.
pub open spec fn text_map(map: Map<Seq<char>, String>) -> Map<Seq<char>, Seq<char>> {
    map.map_values(|s: String| s@)
}

/// What a plan says.
#[verifier::ext_equal]
pub struct PlanView {
    pub field_map: Map<Seq<char>, Seq<char>>,
    pub drop_fields: Set<Seq<char>>,
    pub field_types: Map<Seq<char>, FieldType>,
    pub dictionary_columns: Set<Seq<char>>,
    pub filter: Option<FilterView>,
    pub schema_order: Seq<Seq<char>>,
    pub auto_dict: bool,
}

/// A plan: renames, drops, types, dictionary columns, the row filter and the column order. The
/// empty plan changes nothing.
#[derive(Clone, Debug)]
pub struct BuildPlan {
    /// Raw field names and the columns that they go to.
    pub field_map: NameMap<String>,
    /// Fields to drop, by their name after renaming.
    pub drop_fields: NameSet,
    /// Types of columns.
    pub field_types: NameMap<FieldType>,
    /// Columns to store as dictionaries.
    pub dictionary_columns: NameSet,
    /// The row filter.
    pub filter: Option<FilterPredicate>,
    /// The order of the columns. A column that is not listed comes after those that are.
    pub schema_order: Vec<String>,
    /// Text columns with few values are turned into dictionaries.
    pub auto_dict: bool,
}

impl View for BuildPlan {
    type V = PlanView;

    open spec fn view(&self) -> PlanView {
        PlanView {
            field_map: text_map(self.field_map@),
            drop_fields: self.drop_fields@,
            field_types: self.field_types@,
            dictionary_columns: self.dictionary_columns@,
            filter: match self.filter {
                Some(f) => Some(f@),
                None => None,
            },
            schema_order: texts(self.schema_order@),
            auto_dict: self.auto_dict,
        }
    }
}

/// The plan that changes nothing.
pub open spec fn empty_plan() -> PlanView {
    PlanView {
        field_map: Map::empty(),
        drop_fields: Set::empty(),
        field_types: Map::empty(),
        dictionary_columns: Set::empty(),
        filter: None,
        schema_order: Seq::empty(),
        auto_dict: false,
    }
}

impl PlanView {
    /// The name of a field after renaming.
    pub open spec fn renamed(self, raw: Seq<char>) -> Seq<char> {
        if self.field_map.contains_key(raw) {
            self.field_map[raw]
        } else {
            raw
        }
    }

    /// The column of a raw field, unless it is dropped: renaming comes first, and a drop goes by
    /// the new name.
    pub open spec fn resolve(self, raw: Seq<char>) -> Option<Seq<char>> {
        if self.drop_fields.contains(self.renamed(raw)) {
            None
        } else {
            Some(self.renamed(raw))
        }
    }

    /// The storage type of a column: its declared type, else a dictionary where it is listed as
    /// one, else text.
    pub open spec fn type_of(self, column: Seq<char>) -> FieldType {
        if self.field_types.contains_key(column) {
            self.field_types[column]
        } else if self.dictionary_columns.contains(column) {
            FieldType::Dictionary
        } else {
            FieldType::String
        }
    }
}

impl BuildPlan {
    /// The plan that changes nothing.
    pub fn new() -> (plan: Self)
        ensures
            plan@ == empty_plan(),
    {
        let plan = BuildPlan {
            field_map: NameMap::new(),
            drop_fields: NameSet::new(),
            field_types: NameMap::new(),
            dictionary_columns: NameSet::new(),
            filter: None,
            schema_order: Vec::new(),
            auto_dict: false,
        };
        assert(plan@ =~= empty_plan());
        plan
    }

    /// The storage type of a column.
    pub fn column_type(&self, name: &str) -> (field_type: FieldType)
        ensures
            field_type == self@.type_of(name@),
    {
        if let Some(field_type) = self.field_types.get(name) {
            return *field_type;
        }
        if self.dictionary_columns.contains(name) {
            return FieldType::Dictionary;
        }
        FieldType::String
    }

    /// The name of a field after renaming.
    pub fn renamed_field<'a>(&'a self, raw: &'a str) -> (name: &'a str)
        ensures
            name@ == self@.renamed(raw@),
    {
        match self.field_map.get(raw) {
            Some(name) => name.as_str(),
            None => raw,
        }
    }

    /// The column of a raw field, unless it is dropped. Renaming comes first, and a drop goes by
    /// the new name.
    pub fn resolve_field<'a>(&'a self, raw: &'a str) -> (column: Option<&'a str>)
        ensures
            match column {
                Some(c) => self@.resolve(raw@) == Some(c@),
                None => self@.resolve(raw@) is None,
            },
    {
        let resolved = self.renamed_field(raw);
        if self.drop_fields.contains(resolved) {
            None
        } else {
            Some(resolved)
        }
    }
}

/// Why a plan cannot be built.
#[derive(Clone, Debug)]
pub enum PlanError {
    /// No type goes by this name.
    UnknownFieldType { field: String, declared: String },
    /// The filter has no `op`.
    MissingOp,
    /// The filter has no `field`.
    MissingField,
    /// The filter has no `value`.
    MissingValue,
    /// No comparison of two columns goes by this name.
    UnsupportedCompareOp { op: String },
    /// A field and a value cannot be compared so.
    UnsupportedFilterOp { op: String },
}

/// Why a plan cannot be built.
#[verifier::ext_equal]
pub enum PlanErrorView {
    UnknownFieldType { field: Seq<char>, declared: Seq<char> },
    MissingOp,
    MissingField,
    MissingValue,
    UnsupportedCompareOp { op: Seq<char> },
    UnsupportedFilterOp { op: Seq<char> },
}

impl View for PlanError {
    type V = PlanErrorView;

    open spec fn view(&self) -> PlanErrorView {
        match *self {
            PlanError::UnknownFieldType { field, declared } => PlanErrorView::UnknownFieldType {
                field: field@,
                declared: declared@,
            },
            PlanError::MissingOp => PlanErrorView::MissingOp,
            PlanError::MissingField => PlanErrorView::MissingField,
            PlanError::MissingValue => PlanErrorView::MissingValue,
            PlanError::UnsupportedCompareOp { op } => PlanErrorView::UnsupportedCompareOp {
                op: op@,
            },
            PlanError::UnsupportedFilterOp { op } => PlanErrorView::UnsupportedFilterOp { op: op@ },
        }
    }
}

/// The types of the listed fields, or the first field whose type has no such name.
pub open spec fn typed_fields(list: Seq<(String, String)>) -> Result<
    Map<Seq<char>, FieldType>,
    PlanErrorView,
>
    decreases list.len(),
{
    if list.len() == 0 {
        Ok(Map::empty())
    } else {
        match typed_fields(list.drop_last()) {
            Ok(map) => match type_named(list.last().1@) {
                Some(field_type) => Ok(map.insert(list.last().0@, field_type)),
                None => Err(
                    PlanErrorView::UnknownFieldType {
                        field: list.last().0@,
                        declared: list.last().1@,
                    },
                ),
            },
            Err(e) => Err(e),
        }
    }
}

/// The filter that the given keys describe: two columns where both `field_a` and `field_b` are
/// there, else a field and a value.
pub open spec fn filter_of(keys: Map<Seq<char>, Seq<char>>) -> Result<FilterView, PlanErrorView> {
    if !keys.contains_key("op"@) {
        Err(PlanErrorView::MissingOp)
    } else if keys.contains_key("field_a"@) && keys.contains_key("field_b"@) {
        match compare_op_named(keys["op"@]) {
            Some(op) => Ok(
                FilterView::Compare { field_a: keys["field_a"@], op, field_b: keys["field_b"@] },
            ),
            None => Err(PlanErrorView::UnsupportedCompareOp { op: keys["op"@] }),
        }
    } else if !keys.contains_key("field"@) {
        Err(PlanErrorView::MissingField)
    } else if !keys.contains_key("value"@) {
        Err(PlanErrorView::MissingValue)
    } else if keys["op"@] == "!="@ || keys["op"@] == "ne"@ {
        Ok(FilterView::NotEqual { field: keys["field"@], value: keys["value"@] })
    } else if keys["op"@] == "=="@ || keys["op"@] == "eq"@ {
        Ok(FilterView::Equal { field: keys["field"@], value: keys["value"@] })
    } else {
        Err(PlanErrorView::UnsupportedFilterOp { op: keys["op"@] })
    }
}

/// The plan that the given settings describe. The types are looked at before the filter.
pub open spec fn plan_of(
    field_mapping: Option<Seq<(String, String)>>,
    drop_fields: Option<Seq<String>>,
    filter: Option<Seq<(String, String)>>,
    field_types: Option<Seq<(String, String)>>,
    dictionary_columns: Option<Seq<String>>,
    schema: Option<Seq<String>>,
    auto_dict: bool,
) -> Result<PlanView, PlanErrorView> {
    let types = match field_types {
        Some(list) => typed_fields(list),
        None => Ok(Map::empty()),
    };
    let rows = match filter {
        Some(list) => match filter_of(text_map(entries_map(list))) {
            Ok(f) => Ok(Some(f)),
            Err(e) => Err(e),
        },
        None => Ok(None),
    };
    match (types, rows) {
        (Err(e), _) => Err(e),
        (Ok(_), Err(e)) => Err(e),
        (Ok(map), Ok(f)) => Ok(
            PlanView {
                field_map: match field_mapping {
                    Some(list) => text_map(entries_map(list)),
                    None => Map::empty(),
                },
                drop_fields: match drop_fields {
                    Some(list) => names_set(list),
                    None => Set::empty(),
                },
                field_types: map,
                dictionary_columns: match dictionary_columns {
                    Some(list) => names_set(list),
                    None => Set::empty(),
                },
                filter: f,
                schema_order: match schema {
                    Some(list) => texts(list),
                    None => Seq::empty(),
                },
                auto_dict,
            },
        ),
    }
}

/// The contents of an optional list.
pub open spec fn list_of<T>(list: Option<Vec<T>>) -> Option<Seq<T>> {
    match list {
        Some(v) => Some(v@),
        None => None,
    }
}

/// Looks up the types of the listed fields.
fn read_field_types(list: &Vec<(String, String)>) -> (map: Result<NameMap<FieldType>, PlanError>)
    ensures
        match map {
            Ok(m) => typed_fields(list@) == Ok::<Map<Seq<char>, FieldType>, PlanErrorView>(m@),
            Err(e) => typed_fields(list@) == Err::<Map<Seq<char>, FieldType>, PlanErrorView>(e@),
        },
{
    let mut map: NameMap<FieldType> = NameMap::new();
    let mut i: usize = 0;
    assert(list@.take(0) =~= Seq::empty());
    while i < list.len()
        invariant
            i <= list@.len(),
            typed_fields(list@.take(i as int)) == Ok::<Map<Seq<char>, FieldType>, PlanErrorView>(
                map@,
            ),
        decreases list@.len() - i,
    {
        assert(list@.take(i + 1).drop_last() =~= list@.take(i as int));
        match FieldType::from_str(list[i].1.as_str()) {
            Some(field_type) => {
                map.insert(list[i].0.clone(), field_type);
            },
            None => {
                let error = PlanError::UnknownFieldType {
                    field: list[i].0.clone(),
                    declared: list[i].1.clone(),
                };
                proof {
                    lemma_typed_fields_error(list@, i + 1, error@);
                }
                return Err(error);
            },
        }
        i += 1;
    }
    assert(list@.take(list@.len() as int) =~= list@);
    Ok(map)
}

/// An error in the first `n` fields is the error of the whole list.
proof fn lemma_typed_fields_error(list: Seq<(String, String)>, n: int, error: PlanErrorView)
    requires
        0 <= n <= list.len(),
        typed_fields(list.take(n)) == Err::<Map<Seq<char>, FieldType>, PlanErrorView>(error),
    ensures
        typed_fields(list) == Err::<Map<Seq<char>, FieldType>, PlanErrorView>(error),
    decreases list.len(),
{
    if n == list.len() {
        assert(list.take(n) =~= list);
    } else {
        assert(list.drop_last().take(n) =~= list.take(n));
        lemma_typed_fields_error(list.drop_last(), n, error);
    }
}

/// Reads a filter from its keys.
fn read_filter(keys: &NameMap<String>) -> (filter: Result<FilterPredicate, PlanError>)
    ensures
        match filter {
            Ok(f) => filter_of(text_map(keys@)) == Ok::<FilterView, PlanErrorView>(f@),
            Err(e) => filter_of(text_map(keys@)) == Err::<FilterView, PlanErrorView>(e@),
        },
{
    let op = match keys.get("op") {
        Some(op) => op,
        None => {
            return Err(PlanError::MissingOp);
        },
    };
    let field_a = keys.get("field_a");
    let field_b = keys.get("field_b");
    if let (Some(a), Some(b)) = (field_a, field_b) {
        return match CompareOp::from_str(op.as_str()) {
            Some(compare) => Ok(
                FilterPredicate::Compare { field_a: a.clone(), op: compare, field_b: b.clone() },
            ),
            None => Err(PlanError::UnsupportedCompareOp { op: op.clone() }),
        };
    }
    let field = match keys.get("field") {
        Some(field) => field.clone(),
        None => {
            return Err(PlanError::MissingField);
        },
    };
    let value = match keys.get("value") {
        Some(value) => value.clone(),
        None => {
            return Err(PlanError::MissingValue);
        },
    };
    if same_text(op.as_str(), "!=") || same_text(op.as_str(), "ne") {
        Ok(FilterPredicate::NotEqual { field, value })
    } else if same_text(op.as_str(), "==") || same_text(op.as_str(), "eq") {
        Ok(FilterPredicate::Equal { field, value })
    } else {
        Err(PlanError::UnsupportedFilterOp { op: op.clone() })
    }
}

/// Builds the plan that the given settings describe.
pub fn build_plan_from_kwargs(
    field_mapping: Option<Vec<(String, String)>>,
    drop_fields: Option<Vec<String>>,
    filter: Option<Vec<(String, String)>>,
    field_types: Option<Vec<(String, String)>>,
    dictionary_columns: Option<Vec<String>>,
    schema: Option<Vec<String>>,
    auto_dict: bool,
) -> (plan: Result<BuildPlan, PlanError>)
    ensures
        match plan {
            Ok(p) => plan_of(
                list_of(field_mapping),
                list_of(drop_fields),
                list_of(filter),
                list_of(field_types),
                list_of(dictionary_columns),
                list_of(schema),
                auto_dict,
            ) == Ok::<PlanView, PlanErrorView>(p@),
            Err(e) => plan_of(
                list_of(field_mapping),
                list_of(drop_fields),
                list_of(filter),
                list_of(field_types),
                list_of(dictionary_columns),
                list_of(schema),
                auto_dict,
            ) == Err::<PlanView, PlanErrorView>(e@),
        },
{
    let mut plan = BuildPlan::new();
    if let Some(list) = field_mapping {
        plan.field_map = NameMap::from_entries(list);
    }
    if let Some(list) = drop_fields {
        plan.drop_fields = NameSet::from_names(list);
    }
    if let Some(list) = schema {
        plan.schema_order = list;
    }
    plan.auto_dict = auto_dict;
    if let Some(list) = field_types {
        match read_field_types(&list) {
            Ok(map) => {
                plan.field_types = map;
            },
            Err(e) => {
                return Err(e);
            },
        }
    }
    if let Some(list) = dictionary_columns {
        plan.dictionary_columns = NameSet::from_names(list);
    }
    if let Some(list) = filter {
        match read_filter(&NameMap::from_entries(list)) {
            Ok(f) => {
                plan.filter = Some(f);
            },
            Err(e) => {
                return Err(e);
            },
        }
    }
    proof {
        let wanted = plan_of(
            list_of(field_mapping),
            list_of(drop_fields),
            list_of(filter),
            list_of(field_types),
            list_of(dictionary_columns),
            list_of(schema),
            auto_dict,
        );
        assert(wanted is Ok);
        assert(plan@ =~= wanted->Ok_0);
    }
    Ok(plan)
}

} // verus!
