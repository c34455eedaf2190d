//! The value model and the filter expression tree of the row store.

use vstd::prelude::*;
use crate::db::number::{number_eq, number_equal};
use crate::text::str_eq;

pub mod codec;
pub mod index;
pub mod laws;
pub mod log;
pub mod number;
pub mod order;
pub mod query_engine;
pub mod row;
pub mod row_schemaless;

verus! {

/// The type tag of a cell value.
#[derive(Debug, Clone, Copy, PartialEq, Eq, Structural, Hash)]
pub enum DBValueType {
    String,
    Number,
    Timestamp,
    Null,
}

/// A cell value. A `Number` holds the bit pattern of an IEEE-754 binary64
/// value; a `Timestamp` holds seconds.
#[derive(Debug)]
pub enum DBValue {
    String(String),
    Number(u64),
    Timestamp(i64),
    Null,
}

/// What a cell value is, with text as a sequence of characters.
pub ghost enum ValueModel {
    String(Seq<char>),
    Number(u64),
    Timestamp(i64),
    Null,
}

impl View for DBValue {
    type V = ValueModel;

    open spec fn view(&self) -> ValueModel {
        match self {
            DBValue::String(s) => ValueModel::String(s@),
            DBValue::Number(n) => ValueModel::Number(*n),
            DBValue::Timestamp(t) => ValueModel::Timestamp(*t),
            DBValue::Null => ValueModel::Null,
        }
    }
}

impl ValueModel {
    /// The type tag of the value.
    pub open spec fn vtype(self) -> DBValueType {
        match self {
            ValueModel::String(_) => DBValueType::String,
            ValueModel::Number(_) => DBValueType::Number,
            ValueModel::Timestamp(_) => DBValueType::Timestamp,
            ValueModel::Null => DBValueType::Null,
        }
    }

    /// Equality of cell values: the tags agree and the payloads are equal,
    /// numbers by numeric equality. Values of different types are never
    /// equal; `Null` equals `Null` only.
    pub open spec fn equals(self, other: ValueModel) -> bool {
        match (self, other) {
            (ValueModel::String(l), ValueModel::String(r)) => l == r,
            (ValueModel::Number(l), ValueModel::Number(r)) => number_eq(l, r),
            (ValueModel::Timestamp(l), ValueModel::Timestamp(r)) => l == r,
            (ValueModel::Null, ValueModel::Null) => true,
            _ => false,
        }
    }
}

impl DBValue {
    /// The type tag of the value.
    pub fn vtype(&self) -> (t: DBValueType)
        ensures
            t == self@.vtype(),
    {
        match self {
            DBValue::String(_) => DBValueType::String,
            DBValue::Number(_) => DBValueType::Number,
            DBValue::Timestamp(_) => DBValueType::Timestamp,
            DBValue::Null => DBValueType::Null,
        }
    }

    /// True when the two values are equal as cell values.
    pub fn equals(&self, other: &DBValue) -> (r: bool)
        ensures
            r == self@.equals(other@),
    {
        match (self, other) {
            (DBValue::String(l), DBValue::String(r)) => str_eq(l.as_str(), r.as_str()),
            (DBValue::Number(l), DBValue::Number(r)) => number_equal(*l, *r),
            (DBValue::Timestamp(l), DBValue::Timestamp(r)) => *l == *r,
            (DBValue::Null, DBValue::Null) => true,
            _ => false,
        }
    }
}

impl Clone for DBValue {
    fn clone(&self) -> (r: Self)
        ensures
            r@ == self@,
    {
        match self {
            DBValue::String(s) => DBValue::String(s.clone()),
            DBValue::Number(n) => DBValue::Number(*n),
            DBValue::Timestamp(t) => DBValue::Timestamp(*t),
            DBValue::Null => DBValue::Null,
        }
    }
}

impl PartialEq for DBValue {
    fn eq(&self, other: &DBValue) -> (r: bool) {
        self.equals(other)
    }
}

impl vstd::std_specs::cmp::PartialEqSpecImpl for DBValue {
    open spec fn obeys_eq_spec() -> bool {
        true
    }

    open spec fn eq_spec(&self, other: &DBValue) -> bool {
        self@.equals(other@)
    }
}

/// A filter expression: a boolean combination of comparisons between
/// literal values and columns of a row.
#[derive(Debug)]
pub enum FilterEntity {
    Equals(Box<FilterEntity>, Box<FilterEntity>),
    GreaterThan(Box<FilterEntity>, Box<FilterEntity>),
    LessThan(Box<FilterEntity>, Box<FilterEntity>),
    /// Edit distance between two strings at most the threshold.
    FuzzyMatch(Box<FilterEntity>, Box<FilterEntity>, u8),
    Not(Box<FilterEntity>),
    And(Box<FilterEntity>, Box<FilterEntity>),
    Or(Box<FilterEntity>, Box<FilterEntity>),
    Xor(Box<FilterEntity>, Box<FilterEntity>),
    Value(DBValue),
    Column(String),
    Null,
}

/// What a filter expression is, with text as sequences of characters.
pub ghost enum FilterModel {
    Equals(Box<FilterModel>, Box<FilterModel>),
    GreaterThan(Box<FilterModel>, Box<FilterModel>),
    LessThan(Box<FilterModel>, Box<FilterModel>),
    FuzzyMatch(Box<FilterModel>, Box<FilterModel>, u8),
    Not(Box<FilterModel>),
    And(Box<FilterModel>, Box<FilterModel>),
    Or(Box<FilterModel>, Box<FilterModel>),
    Xor(Box<FilterModel>, Box<FilterModel>),
    Value(ValueModel),
    Column(Seq<char>),
    Null,
}

impl View for FilterEntity {
    type V = FilterModel;

    open spec fn view(&self) -> FilterModel
        decreases self,
    {
        match self {
            FilterEntity::Equals(l, r) => FilterModel::Equals(
                Box::new((**l).view()),
                Box::new((**r).view()),
            ),
            FilterEntity::GreaterThan(l, r) => FilterModel::GreaterThan(
                Box::new((**l).view()),
                Box::new((**r).view()),
            ),
            FilterEntity::LessThan(l, r) => FilterModel::LessThan(
                Box::new((**l).view()),
                Box::new((**r).view()),
            ),
            FilterEntity::FuzzyMatch(l, r, t) => FilterModel::FuzzyMatch(
                Box::new((**l).view()),
                Box::new((**r).view()),
                *t,
            ),
            FilterEntity::Not(x) => FilterModel::Not(Box::new((**x).view())),
            FilterEntity::And(l, r) => FilterModel::And(
                Box::new((**l).view()),
                Box::new((**r).view()),
            ),
            FilterEntity::Or(l, r) => FilterModel::Or(
                Box::new((**l).view()),
                Box::new((**r).view()),
            ),
            FilterEntity::Xor(l, r) => FilterModel::Xor(
                Box::new((**l).view()),
                Box::new((**r).view()),
            ),
            FilterEntity::Value(v) => FilterModel::Value(v@),
            FilterEntity::Column(name) => FilterModel::Column(name@),
            FilterEntity::Null => FilterModel::Null,
        }
    }
}

impl Clone for FilterEntity {
    fn clone(&self) -> (r: Self)
        ensures
            r@ == self@,
        decreases self,
    {
        match self {
            FilterEntity::Equals(l, r) => FilterEntity::Equals(
                Box::new((&**l).clone()),
                Box::new((&**r).clone()),
            ),
            FilterEntity::GreaterThan(l, r) => FilterEntity::GreaterThan(
                Box::new((&**l).clone()),
                Box::new((&**r).clone()),
            ),
            FilterEntity::LessThan(l, r) => FilterEntity::LessThan(
                Box::new((&**l).clone()),
                Box::new((&**r).clone()),
            ),
            FilterEntity::FuzzyMatch(l, r, t) => FilterEntity::FuzzyMatch(
                Box::new((&**l).clone()),
                Box::new((&**r).clone()),
                *t,
            ),
            FilterEntity::Not(x) => FilterEntity::Not(Box::new((&**x).clone())),
            FilterEntity::And(l, r) => FilterEntity::And(
                Box::new((&**l).clone()),
                Box::new((&**r).clone()),
            ),
            FilterEntity::Or(l, r) => FilterEntity::Or(
                Box::new((&**l).clone()),
                Box::new((&**r).clone()),
            ),
            FilterEntity::Xor(l, r) => FilterEntity::Xor(
                Box::new((&**l).clone()),
                Box::new((&**r).clone()),
            ),
            FilterEntity::Value(v) => FilterEntity::Value(v.clone()),
            FilterEntity::Column(name) => FilterEntity::Column(name.clone()),
            FilterEntity::Null => FilterEntity::Null,
        }
    }
}

} // verus!
