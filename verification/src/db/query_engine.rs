//! Evaluation of a filter expression against one row, and the columns that
//! a filter refers to.

use vstd::prelude::*;
use crate::assoc::StringMap;
use crate::db::number::{number_less, number_lt};
use crate::db::row::Row;
use crate::db::{DBValue, DBValueType, FilterEntity, FilterModel, ValueModel};

verus! {

/// The least of three numbers.
pub open spec fn min3(a: nat, b: nat, c: nat) -> nat {
    if a <= b && a <= c {
        a
    } else if b <= c {
        b
    } else {
        c
    }
}

/// The Levenshtein distance of two character sequences: the least number of
/// insertions, deletions and substitutions of single characters that turns
/// one into the other.
pub open spec fn edit_distance(a: Seq<char>, b: Seq<char>) -> nat
    decreases a.len() + b.len(),
{
    if a.len() == 0 {
        b.len()
    } else if b.len() == 0 {
        a.len()
    } else {
        let substitution: nat = if a.last() == b.last() {
            0
        } else {
            1
        };
        min3(
            edit_distance(a.drop_last(), b) + 1,
            edit_distance(a, b.drop_last()) + 1,
            edit_distance(a.drop_last(), b.drop_last()) + substitution,
        )
    }
}

/// The distance of two sequences lies between the difference of their
/// lengths and the length of the longer one.
pub proof fn lemma_edit_distance_bounds(a: Seq<char>, b: Seq<char>)
    ensures
        a.len() - b.len() <= edit_distance(a, b),
        b.len() - a.len() <= edit_distance(a, b),
        edit_distance(a, b) <= a.len() || edit_distance(a, b) <= b.len(),
    decreases a.len() + b.len(),
{
    if a.len() > 0 && b.len() > 0 {
        lemma_edit_distance_bounds(a.drop_last(), b);
        lemma_edit_distance_bounds(a, b.drop_last());
        lemma_edit_distance_bounds(a.drop_last(), b.drop_last());
    }
}

/// The distance of two sequences is 0 exactly when they are the same
/// sequence.
pub proof fn lemma_edit_distance_zero(a: Seq<char>, b: Seq<char>)
    ensures
        edit_distance(a, b) == 0 <==> a == b,
    decreases a.len() + b.len(),
{
    if a.len() > 0 && b.len() > 0 {
        lemma_edit_distance_zero(a.drop_last(), b.drop_last());
        if a == b {
            assert(a.drop_last() == b.drop_last());
        }
        if edit_distance(a, b) == 0 {
            assert(a.last() == b.last());
            assert(a.drop_last() == b.drop_last());
            assert(a =~= a.drop_last().push(a.last()));
            assert(b =~= b.drop_last().push(b.last()));
        }
    } else if a.len() == 0 && b.len() == 0 {
        assert(a =~= b);
    }
}

/// The distance does not depend on the order of the two sequences.
pub proof fn lemma_edit_distance_symmetric(a: Seq<char>, b: Seq<char>)
    ensures
        edit_distance(a, b) == edit_distance(b, a),
    decreases a.len() + b.len(),
{
    if a.len() > 0 && b.len() > 0 {
        lemma_edit_distance_symmetric(a.drop_last(), b);
        lemma_edit_distance_symmetric(a, b.drop_last());
        lemma_edit_distance_symmetric(a.drop_last(), b.drop_last());
    }
}

/// `strsim::levenshtein`: the Levenshtein distance of the two strings,
/// counted in characters. The contract states the distance by its defining
/// recurrence; the outside function computes it row by row.
#[verifier::external_body]
fn levenshtein(a: &str, b: &str) -> (distance: usize)
    ensures
        distance == edit_distance(a@, b@),
{
    strsim::levenshtein(a, b)
}

/// The value that one side of a comparison stands for: a literal is itself,
/// a column is the row's cell of that name or `Null` when the row has no
/// such column, and anything else stands for no value.
pub open spec fn resolve(side: FilterModel, row: Map<Seq<char>, ValueModel>) -> Option<
    ValueModel,
> {
    match side {
        FilterModel::Value(v) => Some(v),
        FilterModel::Column(name) => Some(
            if row.contains_key(name) {
                row[name]
            } else {
                ValueModel::Null
            },
        ),
        _ => None,
    }
}

/// Whether a row satisfies a filter.
///
/// `Equals` holds when both sides stand for values that are equal as cell
/// values. `GreaterThan` and `LessThan` hold only between two numbers.
/// `FuzzyMatch` holds only between two strings whose edit distance is at
/// most the threshold. `Not`, `And`, `Or` and `Xor` combine the truth of
/// their operands. A bare value, column or null is not a predicate and is
/// never satisfied.
pub open spec fn satisfies(filter: FilterModel, row: Map<Seq<char>, ValueModel>) -> bool
    decreases filter,
{
    match filter {
        FilterModel::Equals(l, r) => match (resolve(*l, row), resolve(*r, row)) {
            (Some(a), Some(b)) => a.equals(b),
            _ => false,
        },
        FilterModel::GreaterThan(l, r) => match (resolve(*l, row), resolve(*r, row)) {
            (Some(ValueModel::Number(a)), Some(ValueModel::Number(b))) => number_lt(b, a),
            _ => false,
        },
        FilterModel::LessThan(l, r) => match (resolve(*l, row), resolve(*r, row)) {
            (Some(ValueModel::Number(a)), Some(ValueModel::Number(b))) => number_lt(a, b),
            _ => false,
        },
        FilterModel::FuzzyMatch(l, r, threshold) => match (resolve(*l, row), resolve(*r, row)) {
            (Some(ValueModel::String(a)), Some(ValueModel::String(b))) => edit_distance(a, b)
                <= threshold,
            _ => false,
        },
        FilterModel::Not(inner) => !satisfies(*inner, row),
        FilterModel::And(l, r) => satisfies(*l, row) && satisfies(*r, row),
        FilterModel::Or(l, r) => satisfies(*l, row) || satisfies(*r, row),
        FilterModel::Xor(l, r) => satisfies(*l, row) != satisfies(*r, row),
        FilterModel::Value(_) => false,
        FilterModel::Column(_) => false,
        FilterModel::Null => false,
    }
}

/// Decides whether the row satisfies the query.
pub fn execute_query(query: &FilterEntity, field: &Row) -> (result: bool)
    requires
        field.wf(),
    ensures
        result == satisfies(query@, field@),
{
    evaluate_filter(query, field)
}

/// Evaluates a filter against the cells of one row.
fn evaluate_filter(filter: &FilterEntity, fields: &Row) -> (result: bool)
    requires
        fields.wf(),
    ensures
        result == satisfies(filter@, fields@),
    decreases filter,
{
    match filter {
        FilterEntity::Equals(left, right) => {
            match (evaluate_to_value(left, fields), evaluate_to_value(right, fields)) {
                (Some(l), Some(r)) => values_equal(&l, &r),
                _ => false,
            }
        },
        FilterEntity::GreaterThan(left, right) => {
            match (evaluate_to_value(left, fields), evaluate_to_value(right, fields)) {
                (Some(DBValue::Number(l)), Some(DBValue::Number(r))) => number_less(r, l),
                _ => false,
            }
        },
        FilterEntity::LessThan(left, right) => {
            match (evaluate_to_value(left, fields), evaluate_to_value(right, fields)) {
                (Some(DBValue::Number(l)), Some(DBValue::Number(r))) => number_less(l, r),
                _ => false,
            }
        },
        FilterEntity::FuzzyMatch(left, right, threshold) => {
            match (evaluate_to_value(left, fields), evaluate_to_value(right, fields)) {
                (Some(DBValue::String(l)), Some(DBValue::String(r))) => {
                    let distance = levenshtein(l.as_str(), r.as_str());
                    distance <= *threshold as usize
                },
                _ => false,
            }
        },
        FilterEntity::Not(inner) => !evaluate_filter(inner, fields),
        FilterEntity::And(left, right) => {
            evaluate_filter(left, fields) && evaluate_filter(right, fields)
        },
        FilterEntity::Or(left, right) => {
            evaluate_filter(left, fields) || evaluate_filter(right, fields)
        },
        FilterEntity::Xor(left, right) => {
            evaluate_filter(left, fields) ^ evaluate_filter(right, fields)
        },
        FilterEntity::Value(_) => false,
        FilterEntity::Column(_) => false,
        FilterEntity::Null => false,
    }
}

/// The value that one side of a comparison stands for.
fn evaluate_to_value(filter: &FilterEntity, fields: &Row) -> (result: Option<DBValue>)
    requires
        fields.wf(),
    ensures
        match result {
            Some(v) => resolve(filter@, fields@) == Some(v@),
            None => resolve(filter@, fields@) is None,
        },
{
    match filter {
        FilterEntity::Value(val) => Some(val.clone()),
        FilterEntity::Column(name) => match fields.get(name.as_str()) {
            Some(v) => Some(v.clone()),
            None => Some(DBValue::Null),
        },
        _ => None,
    }
}

/// Equality of two cell values.
fn values_equal(left: &DBValue, right: &DBValue) -> (result: bool)
    ensures
        result == left@.equals(right@),
{
    left.equals(right)
}

/// A column that a filter refers to, with the type inferred for it.
#[derive(Debug)]
pub struct PreSelectedField {
    pub name: String,
    pub kind: DBValueType,
    pub range: Option<(u64, u64)>,
}

impl PreSelectedField {
    /// The field for a known column: its name and type, and no range.
    pub fn from_column(col: (String, DBValueType)) -> (field: Self)
        ensures
            field.name@ == col.0@,
            field.kind == col.1,
            field.range is None,
    {
        Self { name: col.0, kind: col.1, range: None }
    }
}

/// The columns collected so far, by name: every field is stored under its
/// own name and has no range.
pub open spec fn fields_wf(columns: StringMap<PreSelectedField>) -> bool {
    &&& columns.wf()
    &&& forall|i: int|
        0 <= i < columns.key_seq().len() ==> (#[trigger] columns.value_seq()[i]).name@
            == columns.key_seq()[i] && columns.value_seq()[i].range is None
}

/// The type inferred for each collected column.
pub open spec fn kinds(columns: StringMap<PreSelectedField>) -> Map<Seq<char>, DBValueType> {
    columns@.map_values(|f: PreSelectedField| f.kind)
}

/// Notes a column that is referred to: a column not seen before is taken
/// to be a string, one seen before keeps its type.
pub open spec fn touch(known: Map<Seq<char>, DBValueType>, name: Seq<char>) -> Map<
    Seq<char>,
    DBValueType,
> {
    if known.contains_key(name) {
        known
    } else {
        known.insert(name, DBValueType::String)
    }
}

/// A column compared for equality with a literal takes the literal's type.
pub open spec fn infer_comparison(
    left: FilterModel,
    right: FilterModel,
    known: Map<Seq<char>, DBValueType>,
) -> Map<Seq<char>, DBValueType> {
    match (left, right) {
        (FilterModel::Column(name), FilterModel::Value(val)) => known.insert(name, val.vtype()),
        (FilterModel::Value(val), FilterModel::Column(name)) => known.insert(name, val.vtype()),
        _ => known,
    }
}

/// A column used as an operand takes the type that the operator works on.
pub open spec fn infer_kind(
    operand: FilterModel,
    kind: DBValueType,
    known: Map<Seq<char>, DBValueType>,
) -> Map<Seq<char>, DBValueType> {
    match operand {
        FilterModel::Column(name) => known.insert(name, kind),
        _ => known,
    }
}

/// The columns of a filter with their inferred types, added to those
/// already known. The tree is walked operator first, then the left operand,
/// then the right, and the last inference made for a column stands.
pub open spec fn collect(filter: FilterModel, known: Map<Seq<char>, DBValueType>) -> Map<
    Seq<char>,
    DBValueType,
>
    decreases filter,
{
    match filter {
        FilterModel::Column(name) => touch(known, name),
        FilterModel::Equals(l, r) => collect(*r, collect(*l, infer_comparison(*l, *r, known))),
        FilterModel::GreaterThan(l, r) => collect(
            *r,
            collect(
                *l,
                infer_kind(*r, DBValueType::Number, infer_kind(*l, DBValueType::Number, known)),
            ),
        ),
        FilterModel::LessThan(l, r) => collect(
            *r,
            collect(
                *l,
                infer_kind(*r, DBValueType::Number, infer_kind(*l, DBValueType::Number, known)),
            ),
        ),
        FilterModel::FuzzyMatch(l, r, _) => collect(
            *r,
            collect(
                *l,
                infer_kind(*r, DBValueType::String, infer_kind(*l, DBValueType::String, known)),
            ),
        ),
        FilterModel::Not(inner) => collect(*inner, known),
        FilterModel::And(l, r) => collect(*r, collect(*l, known)),
        FilterModel::Or(l, r) => collect(*r, collect(*l, known)),
        FilterModel::Xor(l, r) => collect(*r, collect(*l, known)),
        FilterModel::Value(_) => known,
        FilterModel::Null => known,
    }
}

/// Sets the type of the column `name`, adding the column if it is new.
fn set_kind(columns: &mut StringMap<PreSelectedField>, name: &String, kind: DBValueType)
    requires
        fields_wf(*old(columns)),
    ensures
        fields_wf(*final(columns)),
        kinds(*final(columns)) == kinds(*old(columns)).insert(name@, kind),
{
    let field = PreSelectedField { name: name.clone(), kind, range: None };
    proof {
        if columns@.contains_key(name@) {
            columns.lemma_key_position(name@);
        }
    }
    let _ = columns.insert(name.clone(), field);
    proof {
        assert(kinds(*columns) =~= kinds(*old(columns)).insert(name@, kind));
    }
}

/// Infers the type of a column from an equality comparison with a literal.
pub fn infer_from_comparison(
    left: &FilterEntity,
    right: &FilterEntity,
    columns: &mut StringMap<PreSelectedField>,
)
    requires
        fields_wf(*old(columns)),
    ensures
        fields_wf(*final(columns)),
        kinds(*final(columns)) == infer_comparison(left@, right@, kinds(*old(columns))),
{
    match (left, right) {
        (FilterEntity::Column(name), FilterEntity::Value(val)) => {
            set_kind(columns, name, val.vtype());
        },
        (FilterEntity::Value(val), FilterEntity::Column(name)) => {
            set_kind(columns, name, val.vtype());
        },
        _ => {},
    }
}

/// Infers that a column used in a numeric comparison is a number.
pub fn infer_numeric_type(filter: &FilterEntity, columns: &mut StringMap<PreSelectedField>)
    requires
        fields_wf(*old(columns)),
    ensures
        fields_wf(*final(columns)),
        kinds(*final(columns)) == infer_kind(filter@, DBValueType::Number, kinds(*old(columns))),
{
    if let FilterEntity::Column(name) = filter {
        set_kind(columns, name, DBValueType::Number);
    }
}

/// Infers that a column used in a fuzzy match is a string.
pub fn infer_string_type(filter: &FilterEntity, columns: &mut StringMap<PreSelectedField>)
    requires
        fields_wf(*old(columns)),
    ensures
        fields_wf(*final(columns)),
        kinds(*final(columns)) == infer_kind(filter@, DBValueType::String, kinds(*old(columns))),
{
    if let FilterEntity::Column(name) = filter {
        set_kind(columns, name, DBValueType::String);
    }
}

/// Collects every column of a filter into `columns`.
fn collect_columns(filter: &FilterEntity, columns: &mut StringMap<PreSelectedField>)
    requires
        fields_wf(*old(columns)),
    ensures
        fields_wf(*final(columns)),
        kinds(*final(columns)) == collect(filter@, kinds(*old(columns))),
    decreases filter,
{
    match filter {
        FilterEntity::Column(name) => {
            if !columns.contains_key(name.as_str()) {
                set_kind(columns, name, DBValueType::String);
            }
        },
        FilterEntity::Equals(left, right) => {
            infer_from_comparison(left, right, columns);
            collect_columns(left, columns);
            collect_columns(right, columns);
        },
        FilterEntity::GreaterThan(left, right) => {
            infer_numeric_type(left, columns);
            infer_numeric_type(right, columns);
            collect_columns(left, columns);
            collect_columns(right, columns);
        },
        FilterEntity::LessThan(left, right) => {
            infer_numeric_type(left, columns);
            infer_numeric_type(right, columns);
            collect_columns(left, columns);
            collect_columns(right, columns);
        },
        FilterEntity::FuzzyMatch(left, right, _) => {
            infer_string_type(left, columns);
            infer_string_type(right, columns);
            collect_columns(left, columns);
            collect_columns(right, columns);
        },
        FilterEntity::Not(inner) => {
            collect_columns(inner, columns);
        },
        FilterEntity::And(left, right) => {
            collect_columns(left, columns);
            collect_columns(right, columns);
        },
        FilterEntity::Or(left, right) => {
            collect_columns(left, columns);
            collect_columns(right, columns);
        },
        FilterEntity::Xor(left, right) => {
            collect_columns(left, columns);
            collect_columns(right, columns);
        },
        FilterEntity::Value(_) => {},
        FilterEntity::Null => {},
    }
}

/// The fields of a list as a map from name to inferred type.
pub open spec fn field_kinds(fields: Seq<PreSelectedField>) -> Map<Seq<char>, DBValueType> {
    Map::new(
        |name: Seq<char>| exists|i: int| 0 <= i < fields.len() && fields[i].name@ == name,
        |name: Seq<char>|
            fields[choose|i: int| 0 <= i < fields.len() && fields[i].name@ == name].kind,
    )
}

/// The columns that a filter refers to, each once, with the type inferred
/// for it; `None` when the filter refers to no column.
pub fn pre_select(query: &FilterEntity) -> (result: Option<Vec<PreSelectedField>>)
    ensures
        result is None <==> collect(query@, Map::empty()) == Map::<
            Seq<char>,
            DBValueType,
        >::empty(),
        match result {
            Some(fields) => {
                &&& field_kinds(fields@) == collect(query@, Map::empty())
                &&& forall|i: int, j: int|
                    0 <= i < j < fields.len() ==> fields[i].name@ != fields[j].name@
                &&& forall|i: int| 0 <= i < fields.len() ==> fields[i].range is None
            },
            None => true,
        },
{
    let mut columns: StringMap<PreSelectedField> = StringMap::new();
    assert(kinds(columns) =~= Map::<Seq<char>, DBValueType>::empty());
    collect_columns(query, &mut columns);
    let ghost collected = columns;
    proof {
        columns.lemma_view_finite();
        assert(kinds(columns).dom() =~= columns@.dom());
    }
    if columns.is_empty() {
        proof {
            assert(kinds(columns) =~= Map::<Seq<char>, DBValueType>::empty());
        }
        None
    } else {
        proof {
            columns.lemma_entry(0);
            assert(kinds(columns).contains_key(columns.key_seq()[0]));
        }
        let fields = columns.into_values();
        proof {
            assert forall|i: int, j: int| 0 <= i < j < fields.len() implies fields[i].name@
                != fields[j].name@ by {
                assert(fields[i].name@ == collected.key_seq()[i]);
                assert(fields[j].name@ == collected.key_seq()[j]);
            }
            assert forall|name: Seq<char>| #[trigger]
                field_kinds(fields@).contains_key(name) implies kinds(collected).contains_key(name)
                && kinds(collected)[name] == field_kinds(fields@)[name] by {
                let i = choose|i: int| 0 <= i < fields.len() && fields[i].name@ == name;
                assert(fields[i].name@ == collected.key_seq()[i]);
                collected.lemma_entry(i);
            }
            assert forall|name: Seq<char>| #[trigger]
                kinds(collected).contains_key(name) implies field_kinds(fields@).contains_key(
                name,
            ) by {
                collected.lemma_key_position(name);
                let i = collected.key_seq().index_of(name);
                assert(fields[i].name@ == name);
            }
            assert(field_kinds(fields@) =~= kinds(collected));
        }
        Some(fields)
    }
}

} // verus!
