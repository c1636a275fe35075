//! What settings mean: the names of types and comparisons, what becomes of a field under a plan, and
//! which settings make which plan.

use vstd::prelude::*;

use crate::names::{entries_map, names_set};
use crate::plan::{
    compare_op_named, compute_name, empty_plan, filter_of, plan_of, text_map, type_named,
    typed_fields, CompareOp, FieldType, FilterView, PlanErrorView, PlanView,
};

verus! {

/// Every type goes by its names and by no other.
pub proof fn types_go_by_their_names(name: Seq<char>)
    ensures
        type_named(name) == Some(FieldType::String) <==> name == "string"@,
        type_named(name) == Some(FieldType::Int64) <==> name == "int64"@,
        type_named(name) == Some(FieldType::Float64) <==> name == "float64"@,
        type_named(name) == Some(FieldType::Boolean) <==> name == "bool"@ || name == "boolean"@,
        type_named(name) == Some(FieldType::Dictionary) <==> name == "dictionary"@,
{
    reveal_strlit("string");
    reveal_strlit("int64");
    reveal_strlit("float64");
    reveal_strlit("bool");
    reveal_strlit("boolean");
    reveal_strlit("dictionary");
    assert("string"@.len() == 6 && "int64"@.len() == 5 && "float64"@.len() == 7);
    assert("bool"@.len() == 4 && "boolean"@.len() == 7 && "dictionary"@.len() == 10);
    assert("float64"@[0] != "boolean"@[0]);
}

/// Every comparison goes by its sign and by its letters, and by no other name.
pub proof fn comparisons_go_by_their_names(name: Seq<char>)
    ensures
        compare_op_named(name) == Some(CompareOp::Gt) <==> name == ">"@ || name == "gt"@,
        compare_op_named(name) == Some(CompareOp::Lt) <==> name == "<"@ || name == "lt"@,
        compare_op_named(name) == Some(CompareOp::Ge) <==> name == ">="@ || name == "ge"@,
        compare_op_named(name) == Some(CompareOp::Le) <==> name == "<="@ || name == "le"@,
        compare_op_named(name) == Some(CompareOp::Eq) <==> name == "=="@ || name == "eq"@,
        compare_op_named(name) == Some(CompareOp::Ne) <==> name == "!="@ || name == "ne"@,
{
    lemma_signs();
}

/// The characters of the signs and names of comparisons.
proof fn lemma_signs()
    ensures
        ">"@.len() == 1 && ">"@[0] == '>',
        "<"@.len() == 1 && "<"@[0] == '<',
        ">="@.len() == 2 && ">="@[0] == '>' && ">="@[1] == '=',
        "<="@.len() == 2 && "<="@[0] == '<' && "<="@[1] == '=',
        "=="@.len() == 2 && "=="@[0] == '=' && "=="@[1] == '=',
        "!="@.len() == 2 && "!="@[0] == '!' && "!="@[1] == '=',
        "gt"@.len() == 2 && "gt"@[0] == 'g' && "gt"@[1] == 't',
        "lt"@.len() == 2 && "lt"@[0] == 'l' && "lt"@[1] == 't',
        "ge"@.len() == 2 && "ge"@[0] == 'g' && "ge"@[1] == 'e',
        "le"@.len() == 2 && "le"@[0] == 'l' && "le"@[1] == 'e',
        "eq"@.len() == 2 && "eq"@[0] == 'e' && "eq"@[1] == 'q',
        "ne"@.len() == 2 && "ne"@[0] == 'n' && "ne"@[1] == 'e',
{
    reveal_strlit(">");
    reveal_strlit("<");
    reveal_strlit(">=");
    reveal_strlit("<=");
    reveal_strlit("==");
    reveal_strlit("!=");
    reveal_strlit("gt");
    reveal_strlit("lt");
    reveal_strlit("ge");
    reveal_strlit("le");
    reveal_strlit("eq");
    reveal_strlit("ne");
}

/// A comparison and its opposite are computed by functions with these names.
pub proof fn comparisons_are_computed_by_name(op: CompareOp)
    ensures
        op is Gt ==> compute_name(op) == "greater"@,
        op is Lt ==> compute_name(op) == "less"@,
        op is Ge ==> compute_name(op) == "greater_equal"@,
        op is Le ==> compute_name(op) == "less_equal"@,
        op is Eq ==> compute_name(op) == "equal"@,
        op is Ne ==> compute_name(op) == "not_equal"@,
{
}

/// A field goes to the column that the plan renames it to, or to the column of its own name. It is
/// dropped if and only if that column is, whatever the field was called before.
pub proof fn fields_are_renamed_and_then_dropped(plan: PlanView, raw: Seq<char>, column: Seq<char>)
    ensures
        plan.field_map.contains_pair(raw, column) ==> plan.renamed(raw) == column,
        !plan.field_map.contains_key(raw) ==> plan.renamed(raw) == raw,
        plan.resolve(raw) == Some(column) <==> plan.renamed(raw) == column
            && !plan.drop_fields.contains(column),
        plan.resolve(raw) is None <==> plan.drop_fields.contains(plan.renamed(raw)),
{
}

/// The type of a column is the one that is declared for it; else it is a dictionary where it is
/// listed as one, and text otherwise. The name that it has in the plan counts.
pub proof fn declared_types_count(plan: PlanView, column: Seq<char>, field_type: FieldType)
    ensures
        plan.field_types.contains_pair(column, field_type) ==> plan.type_of(column) == field_type,
        !plan.field_types.contains_key(column) ==> plan.type_of(column) == (
        if plan.dictionary_columns.contains(column) {
            FieldType::Dictionary
        } else {
            FieldType::String
        }),
{
}

/// The plan that changes nothing renames, drops, types, filters and orders nothing.
pub proof fn empty_plan_changes_nothing(raw: Seq<char>)
    ensures
        empty_plan().resolve(raw) == Some(raw),
        empty_plan().type_of(raw) == FieldType::String,
        empty_plan().filter is None,
        empty_plan().schema_order.len() == 0,
        !empty_plan().auto_dict,
{
}

/// Of the entries of one name the last one counts, and a name without an entry has no value.
pub proof fn last_entry_counts<V>(entries: Seq<(String, V)>, name: Seq<char>, i: int)
    ensures
        0 <= i < entries.len() && entries[i].0@ == name && (forall|j: int|
            i < j < entries.len() ==> (#[trigger] entries[j]).0@ != name) ==> entries_map(
            entries,
        ).contains_pair(name, entries[i].1),
        entries_map(entries).contains_key(name) <==> exists|k: int|
            0 <= k < entries.len() && (#[trigger] entries[k]).0@ == name,
    decreases entries.len(),
{
    if entries.len() > 0 {
        let front = entries.drop_last();
        let last = entries.last();
        last_entry_counts(front, name, i);
        assert(entries[entries.len() - 1] == last);
        assert(forall|k: int| 0 <= k < front.len() ==> front[k] == entries[k]);
        if last.0@ != name {
            if exists|k: int| 0 <= k < entries.len() && (#[trigger] entries[k]).0@ == name {
                let k = choose|k: int| 0 <= k < entries.len() && (#[trigger] entries[k]).0@ == name;
                assert(front[k].0@ == name);
            }
            if exists|k: int| 0 <= k < front.len() && (#[trigger] front[k]).0@ == name {
                let k = choose|k: int| 0 <= k < front.len() && (#[trigger] front[k]).0@ == name;
                assert(entries[k].0@ == name);
            }
        }
    }
}

/// A name is in the set if and only if it is in the list.
pub proof fn listed_names_are_in_the_set(names: Seq<String>, name: Seq<char>)
    ensures
        names_set(names).contains(name) <==> exists|k: int|
            0 <= k < names.len() && (#[trigger] names[k])@ == name,
    decreases names.len(),
{
    if names.len() > 0 {
        let front = names.drop_last();
        listed_names_are_in_the_set(front, name);
        assert(names[names.len() - 1] == names.last());
        assert(forall|k: int| 0 <= k < front.len() ==> front[k] == names[k]);
        if names.last()@ != name {
            if exists|k: int| 0 <= k < names.len() && (#[trigger] names[k])@ == name {
                let k = choose|k: int| 0 <= k < names.len() && (#[trigger] names[k])@ == name;
                assert(front[k]@ == name);
            }
            if exists|k: int| 0 <= k < front.len() && (#[trigger] front[k])@ == name {
                let k = choose|k: int| 0 <= k < front.len() && (#[trigger] front[k])@ == name;
                assert(names[k]@ == name);
            }
        }
    }
}

/// Of the types that are declared for one field the last one counts. The first declaration that
/// names no type is refused, with the field and the name; all others before it are accepted.
pub proof fn declarations_are_read(list: Seq<(String, String)>, i: int)
    ensures
        (forall|k: int| 0 <= k < list.len() ==> type_named((#[trigger] list[k]).1@) is Some) ==> (
        typed_fields(list) matches Ok(map) && (0 <= i < list.len() && (forall|j: int|
            i < j < list.len() ==> (#[trigger] list[j]).0@ != list[i].0@) ==> map.contains_pair(
            list[i].0@,
            type_named(list[i].1@)->0,
        )) && forall|name: Seq<char>| #[trigger]
            map.contains_key(name) <==> exists|k: int|
                0 <= k < list.len() && (#[trigger] list[k]).0@ == name),
        0 <= i < list.len() && type_named(list[i].1@) is None && (forall|k: int|
            0 <= k < i ==> type_named((#[trigger] list[k]).1@) is Some) ==> typed_fields(list)
            == Err::<Map<Seq<char>, FieldType>, PlanErrorView>(
            PlanErrorView::UnknownFieldType { field: list[i].0@, declared: list[i].1@ },
        ),
    decreases list.len(),
{
    if list.len() > 0 {
        let front = list.drop_last();
        let last = list.last();
        declarations_are_read(front, i);
        assert(list[list.len() - 1] == last);
        assert(forall|k: int| 0 <= k < front.len() ==> front[k] == list[k]);
        if forall|k: int| 0 <= k < list.len() ==> type_named((#[trigger] list[k]).1@) is Some {
            assert forall|k: int| 0 <= k < front.len() implies type_named(
                (#[trigger] front[k]).1@,
            ) is Some by {
                assert(type_named(list[k].1@) is Some);
            }
            assert(type_named(list[list.len() - 1].1@) is Some);
            let before = typed_fields(front)->Ok_0;
            let map = typed_fields(list)->Ok_0;
            assert forall|name: Seq<char>| #[trigger] map.contains_key(name) <==> exists|k: int|
                0 <= k < list.len() && (#[trigger] list[k]).0@ == name by {
                assert(before.contains_key(name) <==> exists|k: int|
                    0 <= k < front.len() && (#[trigger] front[k]).0@ == name);
                if exists|k: int| 0 <= k < front.len() && (#[trigger] front[k]).0@ == name {
                    let k = choose|k: int| 0 <= k < front.len() && (#[trigger] front[k]).0@ == name;
                    assert(list[k].0@ == name);
                }
                if exists|k: int| 0 <= k < list.len() && (#[trigger] list[k]).0@ == name {
                    let k = choose|k: int| 0 <= k < list.len() && (#[trigger] list[k]).0@ == name;
                    if k < front.len() {
                        assert(front[k].0@ == name);
                    }
                }
            }
            if 0 <= i < list.len() && (forall|j: int|
                i < j < list.len() ==> (#[trigger] list[j]).0@ != list[i].0@) {
                if i < front.len() {
                    assert forall|j: int| i < j < front.len() implies (#[trigger] front[j]).0@
                        != front[i].0@ by {
                        assert(list[j].0@ != list[i].0@);
                    }
                    assert(list[list.len() - 1].0@ != list[i].0@);
                }
            }
        }
        if 0 <= i < list.len() && type_named(list[i].1@) is None && (forall|k: int|
            0 <= k < i ==> type_named((#[trigger] list[k]).1@) is Some) {
            if i < front.len() {
                assert forall|k: int| 0 <= k < i implies type_named(
                    (#[trigger] front[k]).1@,
                ) is Some by {
                    assert(type_named(list[k].1@) is Some);
                }
            } else {
                assert forall|k: int| 0 <= k < front.len() implies type_named(
                    (#[trigger] front[k]).1@,
                ) is Some by {
                    assert(type_named(list[k].1@) is Some);
                }
            }
        }
    }
}

/// A filter that names an operator, a field and a value keeps the rows with that value, or those
/// without it: `==` and `eq` the first, `!=` and `ne` the others. Any other operator is refused.
pub proof fn value_filters_are_read(
    keys: Map<Seq<char>, Seq<char>>,
    op: Seq<char>,
    field: Seq<char>,
    value: Seq<char>,
)
    requires
        keys.contains_pair("op"@, op),
        keys.contains_pair("field"@, field),
        keys.contains_pair("value"@, value),
        !keys.contains_key("field_a"@) || !keys.contains_key("field_b"@),
    ensures
        op == "=="@ || op == "eq"@ ==> filter_of(keys) == Ok::<FilterView, PlanErrorView>(
            FilterView::Equal { field, value },
        ),
        op == "!="@ || op == "ne"@ ==> filter_of(keys) == Ok::<FilterView, PlanErrorView>(
            FilterView::NotEqual { field, value },
        ),
        op != "=="@ && op != "eq"@ && op != "!="@ && op != "ne"@ ==> filter_of(keys) == Err::<
            FilterView,
            PlanErrorView,
        >(PlanErrorView::UnsupportedFilterOp { op }),
{
    lemma_signs();
}

/// A filter that names an operator and two columns compares the first column with the second,
/// whatever else is there.
pub proof fn column_filters_are_read(
    keys: Map<Seq<char>, Seq<char>>,
    op: Seq<char>,
    field_a: Seq<char>,
    field_b: Seq<char>,
)
    requires
        keys.contains_pair("op"@, op),
        keys.contains_pair("field_a"@, field_a),
        keys.contains_pair("field_b"@, field_b),
    ensures
        compare_op_named(op) matches Some(compare) ==> filter_of(keys) == Ok::<
            FilterView,
            PlanErrorView,
        >(FilterView::Compare { field_a, op: compare, field_b }),
        compare_op_named(op) is None ==> filter_of(keys) == Err::<FilterView, PlanErrorView>(
            PlanErrorView::UnsupportedCompareOp { op },
        ),
{
}

/// A filter without an operator is refused; so is one that names neither two columns nor a field,
/// and one that names a field without a value, each for its own reason.
pub proof fn incomplete_filters_are_refused(keys: Map<Seq<char>, Seq<char>>)
    ensures
        !keys.contains_key("op"@) ==> filter_of(keys) == Err::<FilterView, PlanErrorView>(
            PlanErrorView::MissingOp,
        ),
        keys.contains_key("op"@) && (!keys.contains_key("field_a"@) || !keys.contains_key(
            "field_b"@,
        )) && !keys.contains_key("field"@) ==> filter_of(keys) == Err::<FilterView, PlanErrorView>(
            PlanErrorView::MissingField,
        ),
        keys.contains_key("op"@) && (!keys.contains_key("field_a"@) || !keys.contains_key(
            "field_b"@,
        )) && keys.contains_key("field"@) && !keys.contains_key("value"@) ==> filter_of(keys)
            == Err::<FilterView, PlanErrorView>(PlanErrorView::MissingValue),
{
}

/// Each setting goes to its own place in the plan, and one that is not given leaves its place
/// empty.
pub proof fn settings_go_to_their_places(
    field_mapping: Option<Seq<(String, String)>>,
    drop_fields: Option<Seq<String>>,
    filter: Option<Seq<(String, String)>>,
    field_types: Option<Seq<(String, String)>>,
    dictionary_columns: Option<Seq<String>>,
    schema: Option<Seq<String>>,
    auto_dict: bool,
    name: Seq<char>,
)
    ensures
        ({
            let made = plan_of(
                field_mapping,
                drop_fields,
                filter,
                field_types,
                dictionary_columns,
                schema,
                auto_dict,
            );
            let types_ok = field_types is None || typed_fields(field_types->0) is Ok;
            let filter_ok = filter is None || filter_of(text_map(entries_map(filter->0))) is Ok;
            &&& made is Ok <==> types_ok && filter_ok
            &&& !types_ok ==> made == Err::<PlanView, PlanErrorView>(
                typed_fields(field_types->0)->Err_0,
            )
            &&& types_ok && !filter_ok ==> made == Err::<PlanView, PlanErrorView>(
                filter_of(text_map(entries_map(filter->0)))->Err_0,
            )
            &&& made matches Ok(plan) ==> {
                &&& field_mapping is None ==> !plan.field_map.contains_key(name)
                &&& field_mapping matches Some(list) ==> plan.field_map.contains_key(name)
                    == entries_map(list).contains_key(name) && (plan.field_map.contains_key(name)
                    ==> plan.field_map[name] == entries_map(list)[name]@)
                &&& plan.drop_fields.contains(name) <==> drop_fields is Some && names_set(
                    drop_fields->0,
                ).contains(name)
                &&& plan.dictionary_columns.contains(name) <==> dictionary_columns is Some
                    && names_set(dictionary_columns->0).contains(name)
                &&& field_types is None ==> !plan.field_types.contains_key(name)
                &&& field_types matches Some(list) ==> typed_fields(list) == Ok::<
                    Map<Seq<char>, FieldType>,
                    PlanErrorView,
                >(plan.field_types)
                &&& filter is None ==> plan.filter is None
                &&& filter matches Some(list) ==> plan.filter is Some && filter_of(
                    text_map(entries_map(list)),
                ) == Ok::<FilterView, PlanErrorView>(plan.filter->0)
                &&& schema is None ==> plan.schema_order.len() == 0
                &&& schema matches Some(list) ==> plan.schema_order.len() == list.len() && forall|
                    i: int,
                |
                    0 <= i < list.len() ==> #[trigger] plan.schema_order[i] == list[i]@
                &&& plan.auto_dict == auto_dict
            }
        }),
{
}

} // verus!
