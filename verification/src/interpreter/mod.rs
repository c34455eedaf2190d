//! The interpreter of the scripting language.
//!
//! A program runs against an environment of named objects. Variables and
//! functions are properties of the object `global`. Every step of the
//! evaluation takes one unit of fuel, so that every run ends; what a
//! program prints, and how long it asks to sleep, is collected as effects
//! for the caller to perform.

use vstd::prelude::*;
use crate::std_lib::print::print;
use crate::std_lib::sleep::sleep;
use crate::std_lib::str_utils::split_string;
use crate::interpreter::semantics::{
    after_step, block_from, bound, call_native, call_user, call_value, child_of, done, eval,
    eval_args, eval_args_from, eval_binary, eval_function_call, eval_nested, eval_object_call,
    exec_block, exec_stmt, rejoined, run_body, run_program, while_loop, Outcome,
};
use crate::parser::{
    copy_names, copy_stmts, exprs_model, lemma_exprs_model_index, lemma_stmts_model_index,
    names_model, stmts_model, BinaryOp, Expr, ExprModel, Program, Stmt, StmtModel,
};
use crate::text::{
    count_string, join2, join3, push_signed_decimal, push_str_chars, signed_decimal, str_eq,
    string_of,
};

pub mod semantics;

verus! {

/// A function of the standard library.
#[derive(Debug, Clone, Copy, PartialEq, Eq, Structural)]
pub enum NativeFn {
    Print,
    Sleep,
    SplitString,
}

/// Something for the caller to do on behalf of the program.
#[derive(Debug, PartialEq, Eq)]
pub enum Effect {
    /// Print the line.
    Print(String),
    /// Sleep for the number of milliseconds.
    Sleep(u64),
}

/// A named object with properties. A property is found under the first
/// entry of its name.
#[derive(Debug, PartialEq)]
pub struct Object {
    name: String,
    properties: Vec<(String, Value)>,
}

/// A value of the language.
#[derive(Debug, PartialEq)]
pub enum Value {
    Number(i32),
    String(String),
    Void,
    Array(Vec<Value>),
    /// A function of the program: its name, its parameters and its body.
    Function(String, Vec<String>, Vec<Stmt>),
    /// A function of the standard library, under the name it was
    /// registered with.
    NativeFunction(String, NativeFn),
    Object(Object),
}

/// What a statement asks of the statements around it.
#[derive(Debug, PartialEq)]
pub enum ControlFlow {
    /// Go on with the next statement.
    Normal,
    /// Leave the function with the value.
    Return(Value),
}

/// A named object, with text as sequences of characters.
pub ghost struct ObjectModel {
    pub name: Seq<char>,
    /// The properties in stored order.
    pub properties: Seq<(Seq<char>, ValueModel)>,
}

/// A value, with text as sequences of characters.
pub ghost enum ValueModel {
    Number(i32),
    String(Seq<char>),
    Void,
    Array(Seq<ValueModel>),
    Function(Seq<char>, Seq<Seq<char>>, Seq<StmtModel>),
    NativeFunction(Seq<char>, NativeFn),
    Object(ObjectModel),
}

/// What a statement asks of the statements around it, with text as
/// sequences of characters.
pub ghost enum ControlModel {
    Normal,
    Return(ValueModel),
}

/// Something for the caller to do, with text as sequences of characters.
pub ghost enum EffectModel {
    Print(Seq<char>),
    Sleep(u64),
}

/// The values of a list, as models.
pub open spec fn values_model(values: Seq<Value>) -> Seq<ValueModel>
    decreases values,
{
    if values.len() == 0 {
        Seq::empty()
    } else {
        values_model(values.drop_last()).push(values.last().view())
    }
}

/// The properties of a list, as models.
pub open spec fn properties_model(entries: Seq<(String, Value)>) -> Seq<(Seq<char>, ValueModel)>
    decreases entries,
{
    if entries.len() == 0 {
        Seq::empty()
    } else {
        properties_model(entries.drop_last()).push((entries.last().0@, entries.last().1.view()))
    }
}

impl View for Value {
    type V = ValueModel;

    open spec fn view(&self) -> ValueModel
        decreases self,
    {
        match self {
            Value::Number(n) => ValueModel::Number(*n),
            Value::String(text) => ValueModel::String(text@),
            Value::Void => ValueModel::Void,
            Value::Array(items) => ValueModel::Array(values_model(items@)),
            Value::Function(name, params, body) => ValueModel::Function(
                name@,
                names_model(params@),
                stmts_model(body@),
            ),
            Value::NativeFunction(name, f) => ValueModel::NativeFunction(name@, *f),
            Value::Object(object) => ValueModel::Object(object.view()),
        }
    }
}

impl View for Object {
    type V = ObjectModel;

    closed spec fn view(&self) -> ObjectModel
        decreases self,
    {
        ObjectModel { name: self.name@, properties: properties_model(self.properties@) }
    }
}

impl View for ControlFlow {
    type V = ControlModel;

    open spec fn view(&self) -> ControlModel {
        match self {
            ControlFlow::Normal => ControlModel::Normal,
            ControlFlow::Return(value) => ControlModel::Return(value@),
        }
    }
}

impl View for Effect {
    type V = EffectModel;

    open spec fn view(&self) -> EffectModel {
        match self {
            Effect::Print(line) => EffectModel::Print(line@),
            Effect::Sleep(ms) => EffectModel::Sleep(*ms),
        }
    }
}

/// The models of a list are the models of its elements, in order.
pub proof fn lemma_values_model(values: Seq<Value>)
    ensures
        values_model(values).len() == values.len(),
        forall|i: int| 0 <= i < values.len() ==> (#[trigger] values_model(values)[i]) == values[i]@,
    decreases values.len(),
{
    if values.len() > 0 {
        let head = values.drop_last();
        lemma_values_model(head);
        assert(values_model(values) == values_model(head).push(values.last()@));
        assert forall|i: int| 0 <= i < values.len() implies (#[trigger] values_model(values)[i])
            == values[i]@ by {
            if i < head.len() {
                assert(values_model(head)[i] == head[i]@);
                assert(head[i] == values[i]);
            }
        }
    }
}

/// The models of a list are the models of its entries, in order.
pub proof fn lemma_properties_model(entries: Seq<(String, Value)>)
    ensures
        properties_model(entries).len() == entries.len(),
        forall|i: int|
            0 <= i < entries.len() ==> (#[trigger] properties_model(entries)[i]) == (
                entries[i].0@,
                entries[i].1@,
            ),
    decreases entries.len(),
{
    if entries.len() > 0 {
        let head = entries.drop_last();
        lemma_properties_model(head);
        assert(properties_model(entries) == properties_model(head).push(
            (entries.last().0@, entries.last().1@),
        ));
        assert forall|i: int| 0 <= i < entries.len() implies (#[trigger] properties_model(
            entries,
        )[i]) == (entries[i].0@, entries[i].1@) by {
            if i < head.len() {
                assert(properties_model(head)[i] == (head[i].0@, head[i].1@));
                assert(head[i] == entries[i]);
            }
        }
    }
}

/// The objects of a list, as models.
pub open spec fn objects_model(entries: Seq<(String, Object)>) -> Seq<(Seq<char>, ObjectModel)> {
    entries.map_values(|e: (String, Object)| (e.0@, e.1@))
}

/// The effects of a list, as models.
pub open spec fn effects_model(effects: Seq<Effect>) -> Seq<EffectModel> {
    effects.map_values(|e: Effect| e@)
}

/// The position of the first entry with the given key.
pub open spec fn position_of<V>(entries: Seq<(Seq<char>, V)>, key: Seq<char>) -> Option<int>
    decreases entries.len(),
{
    if entries.len() == 0 {
        None
    } else {
        match position_of(entries.drop_last(), key) {
            Some(i) => Some(i),
            None => if entries.last().0 == key {
                Some(entries.len() - 1)
            } else {
                None
            },
        }
    }
}

/// The value of the first entry with the given key.
pub open spec fn looked_up<V>(entries: Seq<(Seq<char>, V)>, key: Seq<char>) -> Option<V> {
    match position_of(entries, key) {
        Some(i) => Some(entries[i].1),
        None => None,
    }
}

/// The entries with `value` under `key`: in place of the first entry with
/// that key, or as a new last entry.
pub open spec fn with_entry<V>(entries: Seq<(Seq<char>, V)>, key: Seq<char>, value: V) -> Seq<
    (Seq<char>, V),
> {
    match position_of(entries, key) {
        Some(i) => entries.update(i, (key, value)),
        None => entries.push((key, value)),
    }
}

/// The position found is the least position with the key; there is none
/// exactly when no entry has the key.
pub proof fn lemma_position_of<V>(entries: Seq<(Seq<char>, V)>, key: Seq<char>)
    ensures
        match position_of(entries, key) {
            Some(i) => 0 <= i < entries.len() && entries[i].0 == key && forall|j: int|
                0 <= j < i ==> (#[trigger] entries[j]).0 != key,
            None => forall|j: int| 0 <= j < entries.len() ==> (#[trigger] entries[j]).0 != key,
        },
    decreases entries.len(),
{
    if entries.len() > 0 {
        lemma_position_of(entries.drop_last(), key);
        match position_of(entries.drop_last(), key) {
            Some(i) => {
                assert forall|j: int| 0 <= j < i implies (#[trigger] entries[j]).0 != key by {
                    assert(entries.drop_last()[j] == entries[j]);
                }
                assert(entries.drop_last()[i] == entries[i]);
            },
            None => {
                assert forall|j: int| 0 <= j < entries.len() - 1 implies (#[trigger] entries[j]).0
                    != key by {
                    assert(entries.drop_last()[j] == entries[j]);
                }
            },
        }
    }
}

/// A position with the key before which no entry has the key is the
/// position found.
pub proof fn lemma_position_is<V>(entries: Seq<(Seq<char>, V)>, key: Seq<char>, i: int)
    requires
        0 <= i < entries.len(),
        entries[i].0 == key,
        forall|j: int| 0 <= j < i ==> (#[trigger] entries[j]).0 != key,
    ensures
        position_of(entries, key) == Some(i),
{
    lemma_position_of(entries, key);
}

/// Where no entry has the key, no position is found.
pub proof fn lemma_position_none<V>(entries: Seq<(Seq<char>, V)>, key: Seq<char>)
    requires
        forall|j: int| 0 <= j < entries.len() ==> (#[trigger] entries[j]).0 != key,
    ensures
        position_of(entries, key) is None,
{
    lemma_position_of(entries, key);
}

/// The entries of a list with their keys as sequences of characters.
pub open spec fn keyed<V>(entries: Seq<(String, V)>) -> Seq<(Seq<char>, V)> {
    entries.map_values(|e: (String, V)| (e.0@, e.1))
}

/// Finds the first entry with the given key.
pub fn find_key<V>(entries: &Vec<(String, V)>, key: &str) -> (r: Option<usize>)
    ensures
        match r {
            Some(i) => position_of(keyed(entries@), key@) == Some(i as int) && i < entries.len(),
            None => position_of(keyed(entries@), key@) is None,
        },
{
    let mut i: usize = 0;
    while i < entries.len()
        invariant
            i <= entries.len(),
            forall|j: int| 0 <= j < i ==> (#[trigger] keyed(entries@)[j]).0 != key@,
        decreases entries.len() - i,
    {
        if str_eq(entries[i].0.as_str(), key) {
            proof {
                lemma_position_is(keyed(entries@), key@, i as int);
            }
            return Some(i);
        }
        i += 1;
    }
    proof {
        lemma_position_none(keyed(entries@), key@);
    }
    None
}

/// Puts `value` under `key`: in place of the first entry with that key, or
/// as a new last entry.
pub fn put<V>(entries: &mut Vec<(String, V)>, key: String, value: V)
    ensures
        keyed(final(entries)@) == with_entry(keyed(old(entries)@), key@, value),
        final(entries)@ == (match position_of(keyed(old(entries)@), key@) {
            Some(i) => old(entries)@.update(i, (key, value)),
            None => old(entries)@.push((key, value)),
        }),
{
    match find_key(entries, key.as_str()) {
        Some(i) => {
            entries.set(i, (key, value));
            assert(keyed(entries@) =~= with_entry(keyed(old(entries)@), key@, value));
        },
        None => {
            entries.push((key, value));
            assert(keyed(entries@) =~= with_entry(keyed(old(entries)@), key@, value));
        },
    }
}

/// The position of a key among properties is its position among their
/// models.
pub proof fn lemma_property_position(entries: Seq<(String, Value)>, key: Seq<char>)
    ensures
        position_of(properties_model(entries), key) == position_of(keyed(entries), key),
{
    lemma_properties_model(entries);
    lemma_position_of(properties_model(entries), key);
    lemma_position_of(keyed(entries), key);
    match position_of(keyed(entries), key) {
        Some(i) => {
            assert forall|j: int| 0 <= j < i implies (#[trigger] properties_model(entries)[j]).0
                != key by {
                assert(keyed(entries)[j].0 == entries[j].0@);
            }
            assert(keyed(entries)[i].0 == entries[i].0@);
            lemma_position_is(properties_model(entries), key, i);
        },
        None => {
            assert forall|j: int| 0 <= j < entries.len() implies (#[trigger] properties_model(
                entries,
            )[j]).0 != key by {
                assert(keyed(entries)[j].0 == entries[j].0@);
            }
            lemma_position_none(properties_model(entries), key);
        },
    }
}

/// The position of a key among objects is its position among their
/// models.
pub proof fn lemma_object_position(entries: Seq<(String, Object)>, key: Seq<char>)
    ensures
        position_of(objects_model(entries), key) == position_of(keyed(entries), key),
{
    lemma_position_of(objects_model(entries), key);
    lemma_position_of(keyed(entries), key);
    match position_of(keyed(entries), key) {
        Some(i) => {
            assert forall|j: int| 0 <= j < i implies (#[trigger] objects_model(entries)[j]).0
                != key by {
                assert(keyed(entries)[j].0 == entries[j].0@);
            }
            assert(keyed(entries)[i].0 == entries[i].0@);
            lemma_position_is(objects_model(entries), key, i);
        },
        None => {
            assert forall|j: int| 0 <= j < entries.len() implies (#[trigger] objects_model(
                entries,
            )[j]).0 != key by {
                assert(keyed(entries)[j].0 == entries[j].0@);
            }
            lemma_position_none(objects_model(entries), key);
        },
    }
}

/// Putting a property changes the models of the properties as it changes
/// the properties.
pub proof fn lemma_properties_with_entry(
    before: Seq<(String, Value)>,
    after: Seq<(String, Value)>,
    key: String,
    value: Value,
)
    requires
        after == (match position_of(keyed(before), key@) {
            Some(i) => before.update(i, (key, value)),
            None => before.push((key, value)),
        }),
    ensures
        properties_model(after) == with_entry(properties_model(before), key@, value@),
{
    lemma_property_position(before, key@);
    lemma_position_of(keyed(before), key@);
    lemma_properties_model(before);
    lemma_properties_model(after);
    assert(properties_model(after) =~= with_entry(properties_model(before), key@, value@));
}

impl Object {
    /// An object of the given name without properties.
    pub fn new(name: &str) -> (object: Self)
        ensures
            object@ == (ObjectModel { name: name@, properties: Seq::empty() }),
    {
        Object { name: name.to_owned(), properties: Vec::new() }
    }

    /// An object of the given name with the given properties.
    pub fn with_properties(name: &str, properties: Vec<(String, Value)>) -> (object: Self)
        ensures
            object@ == (ObjectModel { name: name@, properties: properties_model(properties@) }),
    {
        Object { name: name.to_owned(), properties }
    }

    /// Sets a property: the first entry of that name gets the value, or
    /// the property is added at the end.
    pub fn set_property(&mut self, key: String, value: Value)
        ensures
            final(self)@ == (ObjectModel {
                properties: with_entry(old(self)@.properties, key@, value@),
                ..old(self)@
            }),
    {
        put(&mut self.properties, key, value);
        proof {
            lemma_properties_with_entry(old(self).properties@, self.properties@, key, value);
        }
    }

    /// The value of a property, if the object has it.
    pub fn get_property(&self, name: &str) -> (r: Option<&Value>)
        ensures
            match r {
                Some(value) => looked_up(self@.properties, name@) == Some(value@),
                None => looked_up(self@.properties, name@) is None,
            },
    {
        proof {
            lemma_property_position(self.properties@, name@);
            lemma_properties_model(self.properties@);
        }
        match find_key(&self.properties, name) {
            Some(i) => Some(&self.properties[i].1),
            None => None,
        }
    }

    /// Registers a function of the standard library as a property under
    /// its name.
    pub fn register_native_fn(&mut self, name: &str, func: NativeFn)
        ensures
            final(self)@ == (ObjectModel {
                properties: with_entry(
                    old(self)@.properties,
                    name@,
                    ValueModel::NativeFunction(name@, func),
                ),
                ..old(self)@
            }),
    {
        self.set_property(name.to_owned(), Value::NativeFunction(name.to_owned(), func));
    }

    /// The number of properties.
    pub fn property_count(&self) -> (n: usize)
        ensures
            n == self@.properties.len(),
    {
        proof {
            lemma_properties_model(self.properties@);
        }
        self.properties.len()
    }

    /// The text of the object: `{name: key:value, ...}` with the properties
    /// in stored order.
    pub fn to_text(&self) -> (text: String)
        ensures
            text@ == value_text(ValueModel::Object(self@)),
    {
        let copy = Value::Object(self.clone());
        copy.to_text()
    }

    /// The name of the object.
    pub fn name(&self) -> (name: &String)
        ensures
            name@ == self@.name,
    {
        &self.name
    }
}

/// A copy of a list of values.
fn copy_values(values: &Vec<Value>) -> (r: Vec<Value>)
    ensures
        values_model(r@) == values_model(values@),
    decreases values,
{
    let mut out: Vec<Value> = Vec::new();
    let mut i: usize = 0;
    assert(values@.take(0) =~= Seq::<Value>::empty());
    while i < values.len()
        invariant
            i <= values.len(),
            values_model(out@) == values_model(values@.take(i as int)),
        decreases values.len() - i,
    {
        proof {
            assert(decreases_to!(values => values@));
            assert(decreases_to!(values@ => values@[i as int]));
            assert(values@.take(i + 1).drop_last() =~= values@.take(i as int));
            assert(values@.take(i + 1).last() == values@[i as int]);
        }
        let ghost before = out@;
        let copy = copy_value(&values[i]);
        out.push(copy);
        proof {
            assert(out@.drop_last() =~= before);
        }
        i += 1;
    }
    assert(values@.take(i as int) =~= values@);
    out
}

/// A copy of a list of properties.
fn copy_properties(entries: &Vec<(String, Value)>) -> (r: Vec<(String, Value)>)
    ensures
        properties_model(r@) == properties_model(entries@),
    decreases entries,
{
    let mut out: Vec<(String, Value)> = Vec::new();
    let mut i: usize = 0;
    assert(entries@.take(0) =~= Seq::<(String, Value)>::empty());
    while i < entries.len()
        invariant
            i <= entries.len(),
            properties_model(out@) == properties_model(entries@.take(i as int)),
        decreases entries.len() - i,
    {
        proof {
            assert(decreases_to!(entries => entries@));
            assert(decreases_to!(entries@ => entries@[i as int]));
            assert(decreases_to!(entries@[i as int] => entries@[i as int].1));
            assert(entries@.take(i + 1).drop_last() =~= entries@.take(i as int));
            assert(entries@.take(i + 1).last() == entries@[i as int]);
        }
        let ghost before = out@;
        let copy = (entries[i].0.clone(), copy_value(&entries[i].1));
        out.push(copy);
        proof {
            assert(out@.drop_last() =~= before);
        }
        i += 1;
    }
    assert(entries@.take(i as int) =~= entries@);
    out
}

/// A copy of a value.
fn copy_value(value: &Value) -> (r: Value)
    ensures
        r@ == value@,
    decreases value,
{
    match value {
        Value::Number(n) => Value::Number(*n),
        Value::String(text) => Value::String(text.clone()),
        Value::Void => Value::Void,
        Value::Array(items) => Value::Array(copy_values(items)),
        Value::Function(name, params, body) => Value::Function(
            name.clone(),
            copy_names(params),
            copy_stmts(body),
        ),
        Value::NativeFunction(name, f) => Value::NativeFunction(name.clone(), *f),
        Value::Object(object) => Value::Object(
            Object { name: object.name.clone(), properties: copy_properties(&object.properties) },
        ),
    }
}

impl Clone for Value {
    fn clone(&self) -> (r: Self)
        ensures
            r@ == self@,
    {
        copy_value(self)
    }
}

impl Clone for Object {
    fn clone(&self) -> (r: Self)
        ensures
            r@ == self@,
    {
        Object { name: self.name.clone(), properties: copy_properties(&self.properties) }
    }
}

impl Clone for ControlFlow {
    fn clone(&self) -> (r: Self)
        ensures
            r@ == self@,
    {
        match self {
            ControlFlow::Normal => ControlFlow::Normal,
            ControlFlow::Return(value) => ControlFlow::Return(value.clone()),
        }
    }
}

/// The truth of a value: a number other than 0, a string or array that is
/// not empty, a function, and an object with a property are true; 0, the
/// empty string, the empty array, an object without property and void are
/// false.
pub open spec fn truth_of(value: ValueModel) -> bool {
    match value {
        ValueModel::Number(n) => n != 0,
        ValueModel::String(text) => text.len() > 0,
        ValueModel::Void => false,
        ValueModel::Array(items) => items.len() > 0,
        ValueModel::Function(_, _, _) => true,
        ValueModel::NativeFunction(_, _) => true,
        ValueModel::Object(object) => object.properties.len() > 0,
    }
}

impl Value {
    /// The truth of the value.
    pub fn to_bool(&self) -> (b: bool)
        ensures
            b == truth_of(self@),
    {
        match self {
            Value::Number(n) => *n != 0,
            Value::String(text) => !text.as_str().is_empty(),
            Value::Void => false,
            Value::Array(items) => {
                proof {
                    lemma_values_model(items@);
                }
                items.len() > 0
            },
            Value::Function(_, _, _) => true,
            Value::NativeFunction(_, _) => true,
            Value::Object(object) => object.property_count() > 0,
        }
    }
}

/// The text of a value, as it is printed and joined to strings: a number
/// in decimal, a string as it is, void as `()`, an array as its elements
/// between square brackets, a function as `<function name>`, a function of
/// the standard library as `<native function name>`, and an object as
/// `{name: key:value, ...}` with its properties in stored order.
pub open spec fn value_text(value: ValueModel) -> Seq<char>
    decreases value,
{
    match value {
        ValueModel::Number(n) => signed_decimal(n as int),
        ValueModel::String(text) => text,
        ValueModel::Void => "()"@,
        ValueModel::Array(items) => "["@ + list_text(items) + "]"@,
        ValueModel::Function(name, _, _) => "<function "@ + name + ">"@,
        ValueModel::NativeFunction(name, _) => "<native function "@ + name + ">"@,
        ValueModel::Object(object) => "{"@ + object.name + ": "@ + properties_text(
            object.properties,
        ) + "}"@,
    }
}

/// The texts of the values, separated by a comma and a blank.
pub open spec fn list_text(items: Seq<ValueModel>) -> Seq<char>
    decreases items,
{
    if items.len() == 0 {
        Seq::empty()
    } else if items.len() == 1 {
        value_text(items[0])
    } else {
        list_text(items.drop_last()) + ", "@ + value_text(items.last())
    }
}

/// The properties as `key:value`, separated by a comma and a blank.
pub open spec fn properties_text(entries: Seq<(Seq<char>, ValueModel)>) -> Seq<char>
    decreases entries,
{
    if entries.len() == 0 {
        Seq::empty()
    } else if entries.len() == 1 {
        entries[0].0 + ":"@ + value_text(entries[0].1)
    } else {
        properties_text(entries.drop_last()) + ", "@ + entries.last().0 + ":"@ + value_text(
            entries.last().1,
        )
    }
}

/// Appends the text of a value to `out`.
fn push_value_text(out: &mut Vec<char>, value: &Value)
    ensures
        final(out)@ == old(out)@ + value_text(value@),
    decreases value,
{
    match value {
        Value::Number(n) => {
            push_signed_decimal(out, *n as i64);
        },
        Value::String(text) => {
            push_str_chars(out, text.as_str());
        },
        Value::Void => {
            push_str_chars(out, "()");
        },
        Value::Array(items) => {
            push_str_chars(out, "[");
            let ghost start = out@;
            let mut i: usize = 0;
            assert(items@.take(0) =~= Seq::<Value>::empty());
            assert(start + list_text(values_model(items@.take(0))) =~= start);
            while i < items.len()
                invariant
                    i <= items.len(),
                    value is Array,
                    value->Array_0 == *items,
                    out@ == start + list_text(values_model(items@.take(i as int))),
                decreases items.len() - i,
            {
                proof {
                    assert(decreases_to!(value => value->Array_0));
                    assert(decreases_to!(items => items@));
                    assert(decreases_to!(items@ => items@[i as int]));
                }
                if i > 0 {
                    push_str_chars(out, ", ");
                }
                push_value_text(out, &items[i]);
                proof {
                    let head = values_model(items@.take(i as int));
                    let next = values_model(items@.take(i + 1));
                    assert(items@.take(i + 1).drop_last() =~= items@.take(i as int));
                    assert(items@.take(i + 1).last() == items@[i as int]);
                    assert(next == head.push(items@[i as int]@));
                    assert(next.drop_last() =~= head);
                    lemma_values_model(items@.take(i as int));
                    if i == 0 {
                        assert(next[0] == items@[0]@);
                        assert(out@ =~= start + list_text(next));
                    } else {
                        assert(out@ =~= start + list_text(next));
                    }
                }
                i += 1;
            }
            assert(items@.take(i as int) =~= items@);
            push_str_chars(out, "]");
            assert(out@ =~= old(out)@ + value_text(value@));
        },
        Value::Function(name, _, _) => {
            push_str_chars(out, "<function ");
            push_str_chars(out, name.as_str());
            push_str_chars(out, ">");
            assert(out@ =~= old(out)@ + value_text(value@));
        },
        Value::NativeFunction(name, _) => {
            push_str_chars(out, "<native function ");
            push_str_chars(out, name.as_str());
            push_str_chars(out, ">");
            assert(out@ =~= old(out)@ + value_text(value@));
        },
        Value::Object(object) => {
            push_str_chars(out, "{");
            push_str_chars(out, object.name.as_str());
            push_str_chars(out, ": ");
            let ghost start = out@;
            let entries = &object.properties;
            let mut i: usize = 0;
            assert(entries@.take(0) =~= Seq::<(String, Value)>::empty());
            assert(start + properties_text(properties_model(entries@.take(0))) =~= start);
            while i < entries.len()
                invariant
                    i <= entries.len(),
                    value is Object,
                    value->Object_0.properties == *entries,
                    out@ == start + properties_text(properties_model(entries@.take(i as int))),
                decreases entries.len() - i,
            {
                proof {
                    assert(decreases_to!(value => value->Object_0));
                    assert(decreases_to!(value->Object_0 => value->Object_0.properties));
                    assert(decreases_to!(entries => entries@));
                    assert(decreases_to!(entries@ => entries@[i as int]));
                    assert(decreases_to!(entries@[i as int] => entries@[i as int].1));
                }
                if i > 0 {
                    push_str_chars(out, ", ");
                }
                push_str_chars(out, entries[i].0.as_str());
                push_str_chars(out, ":");
                push_value_text(out, &entries[i].1);
                proof {
                    let head = properties_model(entries@.take(i as int));
                    let next = properties_model(entries@.take(i + 1));
                    assert(entries@.take(i + 1).drop_last() =~= entries@.take(i as int));
                    assert(entries@.take(i + 1).last() == entries@[i as int]);
                    assert(next == head.push((entries@[i as int].0@, entries@[i as int].1@)));
                    assert(next.drop_last() =~= head);
                    lemma_properties_model(entries@.take(i as int));
                    if i == 0 {
                        assert(next[0] == (entries@[0].0@, entries@[0].1@));
                        assert(out@ =~= start + properties_text(next));
                    } else {
                        assert(out@ =~= start + properties_text(next));
                    }
                }
                i += 1;
            }
            assert(entries@.take(i as int) =~= entries@);
            push_str_chars(out, "}");
            assert(out@ =~= old(out)@ + value_text(value@));
        },
    }
}

impl Value {
    /// The text of the value, as it is printed and joined to strings.
    pub fn to_text(&self) -> (text: String)
        ensures
            text@ == value_text(self@),
    {
        let mut out: Vec<char> = Vec::new();
        push_value_text(&mut out, self);
        assert(out@ =~= value_text(self@));
        string_of(&out)
    }
}

/// The objects that a program runs against. Variables and functions of
/// the program are properties of the object `global`.
#[derive(Debug)]
pub struct Environment {
    pub variables: Vec<(String, Value)>,
    pub objects: Vec<(String, Object)>,
}

/// An environment, with text as sequences of characters.
pub ghost struct EnvironmentModel {
    pub variables: Seq<(Seq<char>, ValueModel)>,
    pub objects: Seq<(Seq<char>, ObjectModel)>,
}

impl View for Environment {
    type V = EnvironmentModel;

    open spec fn view(&self) -> EnvironmentModel {
        EnvironmentModel {
            variables: properties_model(self.variables@),
            objects: objects_model(self.objects@),
        }
    }
}

/// The value of a variable or function of the program: the property of
/// that name of the object `global`.
pub open spec fn global_lookup(objects: Seq<(Seq<char>, ObjectModel)>, name: Seq<char>) -> Option<
    ValueModel,
> {
    match looked_up(objects, "global"@) {
        Some(global) => looked_up(global.properties, name),
        None => None,
    }
}

/// The objects after a variable was set: the object `global` has the
/// property set. Without such an object nothing changes.
pub open spec fn set_global(
    objects: Seq<(Seq<char>, ObjectModel)>,
    name: Seq<char>,
    value: ValueModel,
) -> Seq<(Seq<char>, ObjectModel)> {
    match position_of(objects, "global"@) {
        Some(i) => objects.update(
            i,
            (
                objects[i].0,
                ObjectModel {
                    properties: with_entry(objects[i].1.properties, name, value),
                    ..objects[i].1
                },
            ),
        ),
        None => objects,
    }
}

/// The object of a function of the standard library under its name.
pub open spec fn native(name: Seq<char>, f: NativeFn) -> (Seq<char>, ValueModel) {
    (name, ValueModel::NativeFunction(name, f))
}

/// The objects of a new program: `global` with the function `print`, and
/// `std` with the functions `print`, `sleep` and `split_str`.
pub open spec fn standard_objects() -> Seq<(Seq<char>, ObjectModel)> {
    seq![
        (
            "global"@,
            ObjectModel { name: "global"@, properties: seq![native("print"@, NativeFn::Print)] },
        ),
        (
            "std"@,
            ObjectModel {
                name: "std"@,
                properties: seq![
                    native("print"@, NativeFn::Print),
                    native("sleep"@, NativeFn::Sleep),
                    native("split_str"@, NativeFn::SplitString),
                ],
            },
        ),
    ]
}

impl Environment {
    /// The environment of a new program.
    pub fn new() -> (env: Self)
        ensures
            env@ == (EnvironmentModel { variables: Seq::empty(), objects: standard_objects() }),
    {
        let mut env = Environment { variables: Vec::new(), objects: Vec::new() };
        env.objects.push(("global".to_owned(), Object::new("global")));
        let ghost opened = env@.objects;
        env.register_std_lib();
        proof {
            reveal_strlit("global");
            reveal_strlit("std");
            reveal_strlit("print");
            reveal_strlit("sleep");
            reveal_strlit("split_str");
            assert("global"@.len() == 6 && "std"@.len() == 3);
            assert("print"@.len() == 5 && "sleep"@.len() == 5 && "split_str"@.len() == 9);
            assert("print"@[0] == 'p' && "sleep"@[0] == 's');
            let global = ObjectModel { name: "global"@, properties: Seq::empty() };
            let start = seq![("global"@, global)];
            lemma_position_is(start, "global"@, 0);
            let none = Seq::<(Seq<char>, ValueModel)>::empty();
            assert(position_of(none, "print"@) is None);
            let one = seq![native("print"@, NativeFn::Print)];
            assert(with_entry(none, "print"@, native("print"@, NativeFn::Print).1) =~= one);
            let printing = ObjectModel { name: "global"@, properties: one };
            let started = seq![("global"@, printing)];
            assert(set_global(start, "print"@, native("print"@, NativeFn::Print).1) =~= started);
            assert(started[0].0 != "std"@);
            lemma_position_none(started, "std"@);
            assert(one[0].0 != "sleep"@);
            lemma_position_none(one, "sleep"@);
            let two = one.push(native("sleep"@, NativeFn::Sleep));
            assert(two[0].0 != "split_str"@ && two[1].0 != "split_str"@);
            lemma_position_none(two, "split_str"@);
            assert(opened =~= start);
            assert(with_entry(one, "sleep"@, native("sleep"@, NativeFn::Sleep).1) =~= two);
            let three = two.push(native("split_str"@, NativeFn::SplitString));
            assert(with_entry(two, "split_str"@, native("split_str"@, NativeFn::SplitString).1)
                =~= three);
            let library = ObjectModel { name: "std"@, properties: three };
            assert(with_entry(started, "std"@, library) =~= started.push(("std"@, library)));
            assert(three =~= standard_objects()[1].1.properties);
            assert(env@.objects =~= standard_objects());
            assert(env@.variables =~= Seq::empty());
        }
        env
    }

    /// Registers the standard library: `print` in the object `global`, if
    /// there is one, and the object `std` with its functions.
    fn register_std_lib(&mut self)
        ensures
            final(self)@.variables == old(self)@.variables,
            final(self)@.objects == with_entry(
                set_global(
                    old(self)@.objects,
                    "print"@,
                    ValueModel::NativeFunction("print"@, NativeFn::Print),
                ),
                "std"@,
                ObjectModel {
                    name: "std"@,
                    properties: with_entry(
                        with_entry(
                            with_entry(
                                Seq::empty(),
                                "print"@,
                                ValueModel::NativeFunction("print"@, NativeFn::Print),
                            ),
                            "sleep"@,
                            ValueModel::NativeFunction("sleep"@, NativeFn::Sleep),
                        ),
                        "split_str"@,
                        ValueModel::NativeFunction("split_str"@, NativeFn::SplitString),
                    ),
                },
            ),
    {
        self.set_variable("print".to_owned(), Value::NativeFunction("print".to_owned(), NativeFn::Print));
        let mut std_object = Object::new("std");
        std_object.register_native_fn("print", NativeFn::Print);
        std_object.register_native_fn("sleep", NativeFn::Sleep);
        std_object.register_native_fn("split_str", NativeFn::SplitString);
        let ghost before = self.objects@;
        put(&mut self.objects, "std".to_owned(), std_object);
        proof {
            lemma_object_position(before, "std"@);
            lemma_position_of(keyed(before), "std"@);
            assert(objects_model(self.objects@) =~= with_entry(
                objects_model(before),
                "std"@,
                std_object@,
            ));
        }
    }

    /// The environment of a function call: no variables, and a copy of
    /// every object.
    pub fn create_child(&self) -> (env: Environment)
        ensures
            env@ == (EnvironmentModel { variables: Seq::empty(), objects: self@.objects }),
    {
        let mut objects: Vec<(String, Object)> = Vec::new();
        let mut i: usize = 0;
        while i < self.objects.len()
            invariant
                i <= self.objects.len(),
                objects.len() == i,
                objects_model(objects@) == objects_model(self.objects@).take(i as int),
            decreases self.objects.len() - i,
        {
            let name = self.objects[i].0.clone();
            let object = self.objects[i].1.clone();
            let ghost before = objects@;
            objects.push((name, object));
            i += 1;
            proof {
                let want = objects_model(self.objects@).take(i as int);
                assert forall|j: int| 0 <= j < i implies objects_model(objects@)[j]
                    == want[j] by {
                    if j < i - 1 {
                        assert(objects@[j] == before[j]);
                        assert(objects_model(before)[j] == objects_model(self.objects@).take(
                            i - 1,
                        )[j]);
                    }
                }
                assert(objects_model(objects@) =~= want);
            }
        }
        assert(objects_model(self.objects@).take(i as int) =~= objects_model(self.objects@));
        let env = Environment { variables: Vec::new(), objects };
        assert(env@.variables =~= Seq::empty());
        env
    }

    /// The object of the given name, if there is one.
    pub fn get_object(&self, name: &str) -> (r: Option<&Object>)
        ensures
            match r {
                Some(object) => looked_up(self@.objects, name@) == Some(object@),
                None => looked_up(self@.objects, name@) is None,
            },
    {
        proof {
            lemma_object_position(self.objects@, name@);
        }
        match find_key(&self.objects, name) {
            Some(i) => Some(&self.objects[i].1),
            None => None,
        }
    }

    /// The object of the given name, if there is one, to be changed in
    /// place.
    pub fn get_object_mut(&mut self, name: &str) -> (r: Option<&mut Object>)
        ensures
            match r {
                Some(object) => {
                    &&& position_of(old(self)@.objects, name@) is Some
                    &&& object@ == old(self)@.objects[position_of(old(self)@.objects, name@)->0].1
                    &&& final(self)@ == (EnvironmentModel {
                        objects: old(self)@.objects.update(
                            position_of(old(self)@.objects, name@)->0,
                            (name@, final(object)@),
                        ),
                        ..old(self)@
                    })
                },
                None => position_of(old(self)@.objects, name@) is None && final(self)@ == old(
                    self,
                )@,
            },
    {
        proof {
            lemma_object_position(self.objects@, name@);
            lemma_position_of(keyed(self.objects@), name@);
        }
        match find_key(&self.objects, name) {
            Some(i) => {
                let object = &mut self.objects[i].1;
                proof {
                    assert(objects_model(
                        old(self).objects@.update(
                            i as int,
                            (old(self).objects@[i as int].0, *final(object)),
                        ),
                    ) =~= old(self)@.objects.update(i as int, (name@, final(object)@)));
                }
                Some(object)
            },
            None => None,
        }
    }

    /// The value of a variable: the property of that name of the object
    /// `global`.
    pub fn get_variable(&self, name: &str) -> (r: Option<&Value>)
        ensures
            match r {
                Some(value) => global_lookup(self@.objects, name@) == Some(value@),
                None => global_lookup(self@.objects, name@) is None,
            },
    {
        match self.get_object("global") {
            Some(global) => global.get_property(name),
            None => None,
        }
    }

    /// Sets a variable: a property of the object `global`. Without such an
    /// object nothing happens.
    pub fn set_variable(&mut self, name: String, value: Value)
        ensures
            final(self)@ == (EnvironmentModel {
                objects: set_global(old(self)@.objects, name@, value@),
                ..old(self)@
            }),
    {
        proof {
            lemma_object_position(self.objects@, "global"@);
            lemma_position_of(keyed(self.objects@), "global"@);
        }
        match find_key(&self.objects, "global") {
            Some(i) => {
                let (key, mut global) = self.objects.swap_remove(i);
                global.set_property(name, value);
                self.objects.push((key, global));
                let moved = self.objects.swap_remove(i);
                self.objects.push(moved);
                proof {
                    assert(self.objects@ =~= old(self).objects@.update(i as int, (key, global)));
                    assert(objects_model(self.objects@) =~= set_global(
                        old(self)@.objects,
                        name@,
                        value@,
                    ));
                }
            },
            None => {},
        }
    }

    /// The function of the given name: the property of that name of the
    /// object `global`.
    pub fn get_global_function(&self, name: &str) -> (r: Option<&Value>)
        ensures
            match r {
                Some(value) => global_lookup(self@.objects, name@) == Some(value@),
                None => global_lookup(self@.objects, name@) is None,
            },
    {
        self.get_variable(name)
    }

    /// Defines a function of the program as a property of the object
    /// `global`.
    pub fn set_global_function(&mut self, name: String, params: Vec<String>, body: Vec<Stmt>)
        ensures
            final(self)@ == (EnvironmentModel {
                objects: set_global(
                    old(self)@.objects,
                    name@,
                    ValueModel::Function(name@, names_model(params@), stmts_model(body@)),
                ),
                ..old(self)@
            }),
    {
        let function = Value::Function(name.clone(), params, body);
        self.set_variable(name, function);
    }
}

/// The name of a binary operator.
pub open spec fn operator_name(op: BinaryOp) -> Seq<char> {
    match op {
        BinaryOp::Add => "Add"@,
        BinaryOp::Subtract => "Subtract"@,
        BinaryOp::Multiply => "Multiply"@,
        BinaryOp::Divide => "Divide"@,
        BinaryOp::Equal => "Equal"@,
        BinaryOp::NotEqual => "NotEqual"@,
        BinaryOp::LessThan => "LessThan"@,
        BinaryOp::LessThanOrEqual => "LessThanOrEqual"@,
        BinaryOp::GreaterThan => "GreaterThan"@,
        BinaryOp::GreaterThanOrEqual => "GreaterThanOrEqual"@,
    }
}

/// The name of a binary operator.
fn name_of_operator(op: &BinaryOp) -> (name: &'static str)
    ensures
        name@ == operator_name(*op),
{
    match op {
        BinaryOp::Add => "Add",
        BinaryOp::Subtract => "Subtract",
        BinaryOp::Multiply => "Multiply",
        BinaryOp::Divide => "Divide",
        BinaryOp::Equal => "Equal",
        BinaryOp::NotEqual => "NotEqual",
        BinaryOp::LessThan => "LessThan",
        BinaryOp::LessThanOrEqual => "LessThanOrEqual",
        BinaryOp::GreaterThan => "GreaterThan",
        BinaryOp::GreaterThanOrEqual => "GreaterThanOrEqual",
    }
}

/// The number 1 for true and 0 for false.
pub open spec fn truth_number(b: bool) -> i32 {
    if b {
        1
    } else {
        0
    }
}

/// The number 1 for true and 0 for false.
fn truth(b: bool) -> (n: i32)
    ensures
        n == truth_number(b),
{
    if b {
        1
    } else {
        0
    }
}

/// The quotient of two integers, rounded toward 0.
pub open spec fn truncated_quotient(l: int, r: int) -> int {
    let a = if l >= 0 {
        l
    } else {
        -l
    };
    let b = if r > 0 {
        r
    } else {
        -r
    };
    if r == 0 {
        0
    } else if (l >= 0) == (r > 0) {
        a / b
    } else {
        -(a / b)
    }
}

/// True for a number that fits thirty-two bits.
pub open spec fn fits(n: int) -> bool {
    -0x8000_0000 <= n <= 0x7fff_ffff
}

/// The result of a binary operator on two numbers. The result of an
/// arithmetic operator must fit thirty-two bits, and a divisor must not be
/// 0. Division truncates toward 0. A comparison gives 1 or 0.
pub open spec fn number_operation(op: BinaryOp, l: i32, r: i32) -> Result<i32, Seq<char>> {
    match op {
        BinaryOp::Add => if fits(l + r) {
            Ok((l + r) as i32)
        } else {
            Err("Integer overflow"@)
        },
        BinaryOp::Subtract => if fits(l - r) {
            Ok((l - r) as i32)
        } else {
            Err("Integer overflow"@)
        },
        BinaryOp::Multiply => if fits(l * r) {
            Ok((l * r) as i32)
        } else {
            Err("Integer overflow"@)
        },
        BinaryOp::Divide => if r == 0 {
            Err("Division by zero"@)
        } else if !fits(truncated_quotient(l as int, r as int)) {
            Err("Integer overflow"@)
        } else {
            Ok(truncated_quotient(l as int, r as int) as i32)
        },
        BinaryOp::Equal => Ok(truth_number(l == r)),
        BinaryOp::NotEqual => Ok(truth_number(l != r)),
        BinaryOp::LessThan => Ok(truth_number(l < r)),
        BinaryOp::LessThanOrEqual => Ok(truth_number(l <= r)),
        BinaryOp::GreaterThan => Ok(truth_number(l > r)),
        BinaryOp::GreaterThanOrEqual => Ok(truth_number(l >= r)),
    }
}

/// The quotient of two numbers, rounded toward 0, where the divisor is not
/// 0 and the quotient fits thirty-two bits.
fn divide(l: i32, r: i32) -> (q: i32)
    requires
        r != 0,
        !(l == i32::MIN && r == -1),
    ensures
        q == truncated_quotient(l as int, r as int),
        fits(truncated_quotient(l as int, r as int)),
{
    let a: i64 = if l >= 0 {
        l as i64
    } else {
        -(l as i64)
    };
    let b: i64 = if r > 0 {
        r as i64
    } else {
        -(r as i64)
    };
    let q: i64 = a / b;
    assert(0 <= q <= a) by (nonlinear_arith)
        requires
            q == a / b,
            a >= 0,
            b >= 1,
    ;
    assert(b >= 2 ==> 2 * q <= a) by (nonlinear_arith)
        requires
            q == a / b,
            a >= 0,
            b >= 1,
    ;
    if (l >= 0) == (r > 0) {
        q as i32
    } else {
        (-q) as i32
    }
}

/// The result of a binary operator on two numbers.
pub fn operate_on_numbers(op: &BinaryOp, l: i32, r: i32) -> (result: Result<i32, String>)
    ensures
        match result {
            Ok(n) => number_operation(*op, l, r) == Ok::<i32, Seq<char>>(n),
            Err(message) => number_operation(*op, l, r) == Err::<i32, Seq<char>>(message@),
        },
{
    match op {
        BinaryOp::Add => match l.checked_add(r) {
            Some(n) => {
                assert(number_operation(BinaryOp::Add, l, r) == Ok::<i32, Seq<char>>(n));
                Ok(n)
            },
            None => Err("Integer overflow".to_owned()),
        },
        BinaryOp::Subtract => match l.checked_sub(r) {
            Some(n) => {
                assert(number_operation(BinaryOp::Subtract, l, r) == Ok::<i32, Seq<char>>(n));
                Ok(n)
            },
            None => Err("Integer overflow".to_owned()),
        },
        BinaryOp::Multiply => match l.checked_mul(r) {
            Some(n) => {
                assert(number_operation(BinaryOp::Multiply, l, r) == Ok::<i32, Seq<char>>(n));
                Ok(n)
            },
            None => Err("Integer overflow".to_owned()),
        },
        BinaryOp::Divide => {
            if r == 0 {
                Err("Division by zero".to_owned())
            } else if l == i32::MIN && r == -1 {
                assert(truncated_quotient(l as int, r as int) == 0x8000_0000);
                Err("Integer overflow".to_owned())
            } else {
                let n = divide(l, r);
                assert(number_operation(BinaryOp::Divide, l, r) == Ok::<i32, Seq<char>>(n));
                Ok(n)
            }
        },
        BinaryOp::Equal => Ok(truth(l == r)),
        BinaryOp::NotEqual => Ok(truth(l != r)),
        BinaryOp::LessThan => Ok(truth(l < r)),
        BinaryOp::LessThanOrEqual => Ok(truth(l <= r)),
        BinaryOp::GreaterThan => Ok(truth(l > r)),
        BinaryOp::GreaterThanOrEqual => Ok(truth(l >= r)),
    }
}

/// The result of a binary operator on two values. Two numbers are
/// calculated with. `+` joins a string with the text of the other value,
/// and strings can be compared for equality. Every other combination is
/// an error.
pub open spec fn binary_operation(op: BinaryOp, l: ValueModel, r: ValueModel) -> Result<
    ValueModel,
    Seq<char>,
> {
    match (l, r) {
        (ValueModel::Number(a), ValueModel::Number(b)) => match number_operation(op, a, b) {
            Ok(n) => Ok(ValueModel::Number(n)),
            Err(message) => Err(message),
        },
        (ValueModel::String(a), ValueModel::String(b)) => match op {
            BinaryOp::Add => Ok(ValueModel::String(a + b)),
            BinaryOp::Equal => Ok(ValueModel::Number(truth_number(a == b))),
            BinaryOp::NotEqual => Ok(ValueModel::Number(truth_number(a != b))),
            _ => Err("Unsupported operation "@ + operator_name(op) + " for strings"@),
        },
        (ValueModel::String(a), other) => match op {
            BinaryOp::Add => Ok(ValueModel::String(a + value_text(other))),
            _ => Err(
                "Unsupported operation "@ + operator_name(op) + " for string and "@ + value_text(
                    other,
                ),
            ),
        },
        (other, ValueModel::String(b)) => match op {
            BinaryOp::Add => Ok(ValueModel::String(value_text(other) + b)),
            _ => Err(
                "Unsupported operation "@ + operator_name(op) + " for "@ + value_text(other)
                    + " and string"@,
            ),
        },
        _ => Err("Type mismatch in binary operation"@),
    }
}

/// True when the outcome of a calculation is the one wanted.
pub open spec fn value_result(r: Result<Value, String>, want: Result<ValueModel, Seq<char>>) -> bool {
    match r {
        Ok(value) => want == Ok::<ValueModel, Seq<char>>(value@),
        Err(message) => want == Err::<ValueModel, Seq<char>>(message@),
    }
}

/// The result of a binary operator on two values.
pub fn operate(op: &BinaryOp, left: &Value, right: &Value) -> (result: Result<Value, String>)
    ensures
        value_result(result, binary_operation(*op, left@, right@)),
{
    match (left, right) {
        (Value::Number(l), Value::Number(r)) => match operate_on_numbers(op, *l, *r) {
            Ok(n) => Ok(Value::Number(n)),
            Err(message) => Err(message),
        },
        (Value::String(l), Value::String(r)) => match op {
            BinaryOp::Add => Ok(Value::String(join2(l.as_str(), r.as_str()))),
            BinaryOp::Equal => Ok(Value::Number(truth(str_eq(l.as_str(), r.as_str())))),
            BinaryOp::NotEqual => Ok(Value::Number(truth(!str_eq(l.as_str(), r.as_str())))),
            _ => Err(join3("Unsupported operation ", name_of_operator(op), " for strings")),
        },
        (Value::String(l), r) => match op {
            BinaryOp::Add => Ok(Value::String(join2(l.as_str(), r.to_text().as_str()))),
            _ => {
                let head = join3(
                    "Unsupported operation ",
                    name_of_operator(op),
                    " for string and ",
                );
                Err(join2(head.as_str(), r.to_text().as_str()))
            },
        },
        (l, Value::String(r)) => match op {
            BinaryOp::Add => Ok(Value::String(join2(l.to_text().as_str(), r.as_str()))),
            _ => {
                let head = join3("Unsupported operation ", name_of_operator(op), " for ");
                Err(join3(head.as_str(), l.to_text().as_str(), " and string"))
            },
        },
        _ => Err("Type mismatch in binary operation".to_owned()),
    }
}

/// A program in the course of its run.
#[derive(Debug)]
pub struct Interpreter {
    pub env: Environment,
    /// The number of steps that the run may still take.
    pub fuel: u64,
    /// What the program asked for and the caller has not yet taken.
    pub effects: Vec<Effect>,
}

/// A program in the course of its run, with text as sequences of
/// characters.
pub ghost struct StateModel {
    pub env: EnvironmentModel,
    pub fuel: u64,
    pub effects: Seq<EffectModel>,
}

impl View for Interpreter {
    type V = StateModel;

    open spec fn view(&self) -> StateModel {
        StateModel { env: self.env@, fuel: self.fuel, effects: effects_model(self.effects@) }
    }
}

/// True when the outcome of an evaluation is the one wanted.
pub open spec fn value_outcome(
    r: Result<Value, String>,
    state: StateModel,
    want: Outcome<ValueModel>,
) -> bool {
    want.state == state && value_result(r, want.result)
}

/// True when the outcome of a statement is the one wanted.
pub open spec fn control_outcome(
    r: Result<ControlFlow, String>,
    state: StateModel,
    want: Outcome<ControlModel>,
) -> bool {
    want.state == state && match r {
        Ok(control) => want.result == Ok::<ControlModel, Seq<char>>(control@),
        Err(message) => want.result == Err::<ControlModel, Seq<char>>(message@),
    }
}

/// True when the outcome of the evaluation of arguments is the one wanted.
pub open spec fn values_outcome(
    r: Result<Vec<Value>, String>,
    state: StateModel,
    want: Outcome<Seq<ValueModel>>,
) -> bool {
    want.state == state && match r {
        Ok(values) => want.result == Ok::<Seq<ValueModel>, Seq<char>>(values_model(values@)),
        Err(message) => want.result == Err::<Seq<ValueModel>, Seq<char>>(message@),
    }
}

/// True when the outcome of a run is the one wanted.
pub open spec fn run_outcome(r: Result<(), String>, state: StateModel, want: Outcome<()>) -> bool {
    want.state == state && match r {
        Ok(_) => want.result is Ok,
        Err(message) => want.result == Err::<(), Seq<char>>(message@),
    }
}

impl Interpreter {
    /// An interpreter for a new program, with the standard library and all
    /// the fuel there is.
    pub fn new() -> (interpreter: Self)
        ensures
            interpreter@ == (StateModel {
                env: EnvironmentModel { variables: Seq::empty(), objects: standard_objects() },
                fuel: u64::MAX,
                effects: Seq::empty(),
            }),
    {
        let interpreter = Interpreter {
            env: Environment::new(),
            fuel: u64::MAX,
            effects: Vec::new(),
        };
        assert(interpreter@.effects =~= Seq::empty());
        interpreter
    }

    /// The interpreter of a function call: a child environment, the fuel
    /// that is left, and no effects yet.
    pub fn create_child(&self) -> (child: Interpreter)
        ensures
            child@ == child_of(self@),
    {
        let child = Interpreter {
            env: self.env.create_child(),
            fuel: self.fuel,
            effects: Vec::new(),
        };
        assert(child@.effects =~= Seq::empty());
        child
    }

    /// Hands out the effects collected so far and forgets them.
    pub fn take_effects(&mut self) -> (effects: Vec<Effect>)
        ensures
            effects_model(effects@) == old(self)@.effects,
            final(self)@ == (StateModel { effects: Seq::empty(), ..old(self)@ }),
    {
        let mut effects: Vec<Effect> = Vec::new();
        core::mem::swap(&mut effects, &mut self.effects);
        assert(self@.effects =~= Seq::empty());
        effects
    }

    /// Takes one unit of fuel; false when none is left.
    fn take_step(&mut self) -> (ok: bool)
        ensures
            ok == (old(self).fuel > 0),
            ok ==> final(self)@ == after_step(old(self)@),
            !ok ==> final(self)@ == old(self)@,
            final(self).fuel <= old(self).fuel,
            ok ==> final(self).fuel < old(self).fuel,
    {
        if self.fuel == 0 {
            false
        } else {
            self.fuel = self.fuel - 1;
            true
        }
    }

    /// Takes over what a function call left: its fuel, and its effects
    /// after the effects collected so far.
    fn rejoin(&mut self, child: Interpreter)
        ensures
            final(self)@ == rejoined(old(self)@, child@),
            final(self).fuel == child.fuel,
    {
        let mut child = child;
        self.fuel = child.fuel;
        let ghost added = child.effects@;
        self.effects.append(&mut child.effects);
        assert(effects_model(self.effects@) =~= effects_model(old(self).effects@) + effects_model(
            added,
        ));
    }

    /// Runs a program: its statements in order, up to the first error. A
    /// `return` outside a function is passed over.
    pub fn interpret(&mut self, program: &Program) -> (r: Result<(), String>)
        ensures
            run_outcome(r, final(self)@, run_program(old(self)@, program@, 0)),
            final(self).fuel <= old(self).fuel,
    {
        let ghost want = run_program(self@, program@, 0);
        let mut i: usize = 0;
        proof {
            lemma_stmts_model_index(program.statements@);
        }
        while i < program.statements.len()
            invariant
                i <= program.statements.len(),
                self.fuel <= old(self).fuel,
                want == run_program(old(self)@, program@, 0),
                run_program(self@, program@, i as int) == want,
                program@.len() == program.statements.len(),
                forall|j: int|
                    0 <= j < program.statements.len() ==> (#[trigger] program@[j])
                        == program.statements[j]@,
            decreases program.statements.len() - i,
        {
            match self.execute_statement(&program.statements[i]) {
                Ok(_) => {},
                Err(message) => {
                    return Err(message);
                },
            }
            i += 1;
        }
        Ok(())
    }

    /// Runs one statement.
    pub fn execute_statement(&mut self, stmt: &Stmt) -> (r: Result<ControlFlow, String>)
        ensures
            control_outcome(r, final(self)@, exec_stmt(old(self)@, stmt@)),
            final(self).fuel <= old(self).fuel,
            r is Ok ==> final(self).fuel < old(self).fuel,
        decreases old(self).fuel, 0nat,
    {
        if !self.take_step() {
            return Err("Step limit reached".to_owned());
        }
        let ghost s1 = self@;
        match stmt {
            Stmt::Let { name, value } => {
                assert(stmt@ == StmtModel::Let { name: name@, value: value@ });
                let val = match self.evaluate_expression(value) {
                    Ok(val) => val,
                    Err(message) => {
                        return Err(message);
                    },
                };
                self.env.set_variable(name.clone(), val);
                Ok(ControlFlow::Normal)
            },
            Stmt::Assign { name, value } => {
                assert(stmt@ == StmtModel::Assign { name: name@, value: value@ });
                if self.env.get_variable(name.as_str()).is_none() {
                    return Err(join2("Cannot assign to undefined variable: ", name.as_str()));
                }
                let val = match self.evaluate_expression(value) {
                    Ok(val) => val,
                    Err(message) => {
                        return Err(message);
                    },
                };
                self.env.set_variable(name.clone(), val);
                Ok(ControlFlow::Normal)
            },
            Stmt::Function { name, params, body } => {
                assert(stmt@ == StmtModel::Function {
                    name: name@,
                    params: names_model(params@),
                    body: stmts_model(body@),
                });
                self.env.set_global_function(name.clone(), copy_names(params), copy_stmts(body));
                Ok(ControlFlow::Normal)
            },
            Stmt::Return(expr) => {
                assert(stmt@ == StmtModel::Return(expr@));
                match self.evaluate_expression(expr) {
                    Ok(val) => Ok(ControlFlow::Return(val)),
                    Err(message) => Err(message),
                }
            },
            Stmt::If { condition, then_branch, else_branch } => {
                assert(stmt@ == StmtModel::If {
                    condition: condition@,
                    then_branch: stmts_model(then_branch@),
                    else_branch: match else_branch {
                        Some(body) => Some(stmts_model(body@)),
                        None => None,
                    },
                });
                let condition_value = match self.evaluate_expression(condition) {
                    Ok(val) => val,
                    Err(message) => {
                        return Err(message);
                    },
                };
                if condition_value.to_bool() {
                    self.execute_block(then_branch)
                } else if let Some(else_body) = else_branch {
                    self.execute_block(else_body)
                } else {
                    Ok(ControlFlow::Normal)
                }
            },
            Stmt::While { condition, body } => {
                assert(stmt@ == StmtModel::While {
                    condition: condition@,
                    body: stmts_model(body@),
                });
                let ghost want = while_loop(s1, condition@, stmts_model(body@));
                loop
                    invariant_except_break
                        while_loop(self@, condition@, stmts_model(body@)) == want,
                    invariant
                        self.fuel < old(self).fuel,
                        want == exec_stmt(old(self)@, stmt@),
                    ensures
                        self.fuel < old(self).fuel,
                        want == exec_stmt(old(self)@, stmt@),
                        want == done(ControlModel::Normal, self@),
                    decreases self.fuel,
                {
                    let condition_value = match self.evaluate_expression(condition) {
                        Ok(val) => val,
                        Err(message) => {
                            return Err(message);
                        },
                    };
                    if !condition_value.to_bool() {
                        break ;
                    }
                    match self.execute_block(body) {
                        Ok(ControlFlow::Return(value)) => {
                            return Ok(ControlFlow::Return(value));
                        },
                        Ok(ControlFlow::Normal) => {},
                        Err(message) => {
                            return Err(message);
                        },
                    }
                }
                Ok(ControlFlow::Normal)
            },
            Stmt::Expression(expr) => {
                assert(stmt@ == StmtModel::Expression(expr@));
                match self.evaluate_expression(expr) {
                    Ok(_) => Ok(ControlFlow::Normal),
                    Err(message) => Err(message),
                }
            },
        }
    }

    /// Runs the statements of a block up to the first `return` or error.
    fn execute_block(&mut self, statements: &Vec<Stmt>) -> (r: Result<ControlFlow, String>)
        ensures
            control_outcome(r, final(self)@, exec_block(old(self)@, stmts_model(statements@))),
            final(self).fuel <= old(self).fuel,
            r is Ok ==> final(self).fuel < old(self).fuel,
        decreases old(self).fuel, 0nat,
    {
        if !self.take_step() {
            return Err("Step limit reached".to_owned());
        }
        let ghost all = stmts_model(statements@);
        let ghost want = block_from(self@, all, 0);
        let mut i: usize = 0;
        proof {
            lemma_stmts_model_index(statements@);
        }
        while i < statements.len()
            invariant
                i <= statements.len(),
                self.fuel < old(self).fuel,
                all == stmts_model(statements@),
                all.len() == statements.len(),
                forall|j: int| 0 <= j < statements.len() ==> (#[trigger] all[j]) == statements[j]@,
                want == exec_block(old(self)@, all),
                block_from(self@, all, i as int) == want,
            decreases statements.len() - i,
        {
            match self.execute_statement(&statements[i]) {
                Ok(ControlFlow::Return(value)) => {
                    return Ok(ControlFlow::Return(value));
                },
                Ok(ControlFlow::Normal) => {},
                Err(message) => {
                    return Err(message);
                },
            }
            i += 1;
        }
        Ok(ControlFlow::Normal)
    }

    /// The value of an expression.
    fn evaluate_expression(&mut self, expr: &Expr) -> (r: Result<Value, String>)
        ensures
            value_outcome(r, final(self)@, eval(old(self)@, expr@)),
            final(self).fuel <= old(self).fuel,
            r is Ok ==> final(self).fuel < old(self).fuel,
        decreases old(self).fuel, 0nat,
    {
        if !self.take_step() {
            return Err("Step limit reached".to_owned());
        }
        match expr {
            Expr::Number(n) => Ok(Value::Number(*n)),
            Expr::String(text) => Ok(Value::String(text.clone())),
            Expr::Identifier(name) => {
                if let Some(value) = self.env.get_variable(name.as_str()) {
                    return Ok(value.clone());
                }
                if let Some(func) = self.env.get_global_function(name.as_str()) {
                    return Ok(func.clone());
                }
                if let Some(object) = self.env.get_object(name.as_str()) {
                    return Ok(Value::Object(object.clone()));
                }
                Err(join2("Undefined identifier: ", name.as_str()))
            },
            Expr::Binary { left, op, right } => {
                assert(expr@ == ExprModel::Binary {
                    left: Box::new((**left)@),
                    op: *op,
                    right: Box::new((**right)@),
                });
                self.evaluate_binary_op(left, op, right)
            },
            Expr::FunctionCall { name, args } => {
                assert(expr@ == ExprModel::FunctionCall { name: name@, args: exprs_model(args@) });
                self.evaluate_function_call(name.as_str(), args)
            },
            Expr::ObjectCall(object_name, member_expr) => {
                assert(expr@ == ExprModel::ObjectCall(object_name@, Box::new((**member_expr)@)));
                self.evaluate_object_call(object_name.as_str(), member_expr)
            },
            Expr::MemberAccess { object, member } => {
                assert(expr@ == ExprModel::MemberAccess {
                    object: Box::new((**object)@),
                    member: member@,
                });
                Err("Invalid member access".to_owned())
            },
        }
    }

    /// The value of a binary operation: both operands are evaluated, the
    /// left one first.
    fn evaluate_binary_op(&mut self, left: &Expr, op: &BinaryOp, right: &Expr) -> (r: Result<
        Value,
        String,
    >)
        ensures
            value_outcome(r, final(self)@, eval_binary(old(self)@, left@, *op, right@)),
            final(self).fuel <= old(self).fuel,
            r is Ok ==> final(self).fuel < old(self).fuel,
        decreases old(self).fuel, 0nat,
    {
        if !self.take_step() {
            return Err("Step limit reached".to_owned());
        }
        let left_val = match self.evaluate_expression(left) {
            Ok(val) => val,
            Err(message) => {
                return Err(message);
            },
        };
        let right_val = match self.evaluate_expression(right) {
            Ok(val) => val,
            Err(message) => {
                return Err(message);
            },
        };
        operate(op, &left_val, &right_val)
    }

    /// The values of the arguments of a call, in order.
    fn evaluate_arguments(&mut self, args: &Vec<Expr>) -> (r: Result<Vec<Value>, String>)
        ensures
            values_outcome(r, final(self)@, eval_args(old(self)@, exprs_model(args@))),
            final(self).fuel <= old(self).fuel,
            r is Ok ==> final(self).fuel < old(self).fuel,
        decreases old(self).fuel, 0nat,
    {
        if !self.take_step() {
            return Err("Step limit reached".to_owned());
        }
        let ghost all = exprs_model(args@);
        let ghost want = eval_args_from(self@, all, 0, Seq::empty());
        let mut arg_values: Vec<Value> = Vec::new();
        let mut i: usize = 0;
        proof {
            lemma_exprs_model_index(args@);
        }
        while i < args.len()
            invariant
                i <= args.len(),
                self.fuel < old(self).fuel,
                all == exprs_model(args@),
                all.len() == args.len(),
                forall|j: int| 0 <= j < args.len() ==> (#[trigger] all[j]) == args[j]@,
                want == eval_args(old(self)@, all),
                eval_args_from(self@, all, i as int, values_model(arg_values@)) == want,
            decreases args.len() - i,
        {
            match self.evaluate_expression(&args[i]) {
                Ok(value) => {
                    let ghost before = arg_values@;
                    arg_values.push(value);
                    proof {
                        assert(arg_values@.drop_last() =~= before);
                        assert(values_model(arg_values@) == values_model(before).push(value@));
                    }
                },
                Err(message) => {
                    return Err(message);
                },
            }
            i += 1;
        }
        Ok(arg_values)
    }

    /// Calls a function value with the values of its arguments.
    fn call_value(&mut self, function: Value, arg_values: Vec<Value>, not_callable: String) -> (r:
        Result<Value, String>)
        ensures
            value_outcome(
                r,
                final(self)@,
                call_value(old(self)@, function@, values_model(arg_values@), not_callable@),
            ),
            final(self).fuel <= old(self).fuel,
            r is Ok ==> final(self).fuel < old(self).fuel,
        decreases old(self).fuel, 0nat,
    {
        if !self.take_step() {
            return Err("Step limit reached".to_owned());
        }
        match function {
            Value::Function(_, params, body) => self.call_user_function(&params, &body, arg_values),
            Value::NativeFunction(_, native_fn) => self.call_native(native_fn, arg_values),
            _ => Err(not_callable),
        }
    }

    /// Calls a function of the standard library.
    fn call_native(&mut self, native_fn: NativeFn, arg_values: Vec<Value>) -> (r: Result<
        Value,
        String,
    >)
        ensures
            value_outcome(
                r,
                final(self)@,
                call_native(old(self)@, native_fn, values_model(arg_values@)),
            ),
            final(self).fuel == old(self).fuel,
    {
        match native_fn {
            NativeFn::Print => print(self, arg_values),
            NativeFn::Sleep => sleep(self, arg_values),
            NativeFn::SplitString => split_string(self, arg_values),
        }
    }

    /// The value of a call of a function of the program or of the standard
    /// library by its name.
    fn evaluate_function_call(&mut self, name: &str, args: &Vec<Expr>) -> (r: Result<Value, String>)
        ensures
            value_outcome(
                r,
                final(self)@,
                eval_function_call(old(self)@, name@, exprs_model(args@)),
            ),
            final(self).fuel <= old(self).fuel,
            r is Ok ==> final(self).fuel < old(self).fuel,
        decreases old(self).fuel, 0nat,
    {
        if !self.take_step() {
            return Err("Step limit reached".to_owned());
        }
        let arg_values = match self.evaluate_arguments(args) {
            Ok(values) => values,
            Err(message) => {
                return Err(message);
            },
        };
        let func = match self.env.get_global_function(name) {
            Some(func) => func.clone(),
            None => {
                return Err(join2("Undefined function: ", name));
            },
        };
        self.call_value(func, arg_values, join2(name, " is not a function"))
    }

    /// The value of a member of a named object: a property, a method call,
    /// or a member of a nested object.
    fn evaluate_object_call(&mut self, object_name: &str, member_expr: &Expr) -> (r: Result<
        Value,
        String,
    >)
        ensures
            value_outcome(
                r,
                final(self)@,
                eval_object_call(old(self)@, object_name@, member_expr@),
            ),
            final(self).fuel <= old(self).fuel,
            r is Ok ==> final(self).fuel < old(self).fuel,
        decreases old(self).fuel, 0nat,
    {
        if !self.take_step() {
            return Err("Step limit reached".to_owned());
        }
        let object = match self.env.get_object(object_name) {
            Some(object) => object.clone(),
            None => {
                return Err(join2("Undefined object: ", object_name));
            },
        };
        match member_expr {
            Expr::Identifier(prop_name) => match object.get_property(prop_name.as_str()) {
                Some(value) => Ok(value.clone()),
                None => {
                    let head = join3("Property '", prop_name.as_str(), "' not found on object '");
                    Err(join3(head.as_str(), object_name, "'"))
                },
            },
            Expr::FunctionCall { name, args } => {
                assert(member_expr@ == ExprModel::FunctionCall {
                    name: name@,
                    args: exprs_model(args@),
                });
                let method = match object.get_property(name.as_str()) {
                    Some(method) => method.clone(),
                    None => {
                        let head = join3("Method '", name.as_str(), "' not found on object '");
                        return Err(join3(head.as_str(), object_name, "'"));
                    },
                };
                let arg_values = match self.evaluate_arguments(args) {
                    Ok(values) => values,
                    Err(message) => {
                        return Err(message);
                    },
                };
                let head = join3("'", name.as_str(), "' is not a method on object '");
                self.call_value(method, arg_values, join3(head.as_str(), object_name, "'"))
            },
            Expr::ObjectCall(nested_obj, nested_member) => {
                assert(member_expr@ == ExprModel::ObjectCall(
                    nested_obj@,
                    Box::new((**nested_member)@),
                ));
                let nested_value = match object.get_property(nested_obj.as_str()) {
                    Some(value) => value.clone(),
                    None => {
                        let head = join3(
                            "Property '",
                            nested_obj.as_str(),
                            "' not found on object '",
                        );
                        return Err(join3(head.as_str(), object_name, "'"));
                    },
                };
                match nested_value {
                    Value::Object(nested_object) => self.evaluate_nested_object_call(
                        &nested_object,
                        nested_member,
                    ),
                    _ => {
                        let head = join3("'", nested_obj.as_str(), "' is not an object on '");
                        Err(join3(head.as_str(), object_name, "'"))
                    },
                }
            },
            Expr::Number(_) => Err(join3("Invalid member access on object '", object_name, "'")),
            Expr::String(_) => Err(join3("Invalid member access on object '", object_name, "'")),
            Expr::Binary { left, op, right } => {
                assert(member_expr@ == ExprModel::Binary {
                    left: Box::new((**left)@),
                    op: *op,
                    right: Box::new((**right)@),
                });
                Err(join3("Invalid member access on object '", object_name, "'"))
            },
            Expr::MemberAccess { object: inner, member } => {
                assert(member_expr@ == ExprModel::MemberAccess {
                    object: Box::new((**inner)@),
                    member: member@,
                });
                Err(join3("Invalid member access on object '", object_name, "'"))
            },
        }
    }

    /// The value of a member of an object that is a property of another
    /// object.
    fn evaluate_nested_object_call(&mut self, object: &Object, member_expr: &Expr) -> (r: Result<
        Value,
        String,
    >)
        ensures
            value_outcome(r, final(self)@, eval_nested(old(self)@, object@, member_expr@)),
            final(self).fuel <= old(self).fuel,
            r is Ok ==> final(self).fuel < old(self).fuel,
        decreases old(self).fuel, 0nat,
    {
        if !self.take_step() {
            return Err("Step limit reached".to_owned());
        }
        match member_expr {
            Expr::Identifier(prop_name) => match object.get_property(prop_name.as_str()) {
                Some(value) => Ok(value.clone()),
                None => Err(join3("Property '", prop_name.as_str(), "' not found on object")),
            },
            Expr::FunctionCall { name, args } => {
                assert(member_expr@ == ExprModel::FunctionCall {
                    name: name@,
                    args: exprs_model(args@),
                });
                let method = match object.get_property(name.as_str()) {
                    Some(method) => method.clone(),
                    None => {
                        return Err(join3("Method '", name.as_str(), "' not found on object"));
                    },
                };
                let arg_values = match self.evaluate_arguments(args) {
                    Ok(values) => values,
                    Err(message) => {
                        return Err(message);
                    },
                };
                self.call_value(method, arg_values, join3("'", name.as_str(), "' is not a method"))
            },
            Expr::Number(_) => Err("Invalid nested member access".to_owned()),
            Expr::String(_) => Err("Invalid nested member access".to_owned()),
            Expr::Binary { left, op, right } => {
                assert(member_expr@ == ExprModel::Binary {
                    left: Box::new((**left)@),
                    op: *op,
                    right: Box::new((**right)@),
                });
                Err("Invalid nested member access".to_owned())
            },
            Expr::ObjectCall(nested, member) => {
                assert(member_expr@ == ExprModel::ObjectCall(nested@, Box::new((**member)@)));
                Err("Invalid nested member access".to_owned())
            },
            Expr::MemberAccess { object: inner, member } => {
                assert(member_expr@ == ExprModel::MemberAccess {
                    object: Box::new((**inner)@),
                    member: member@,
                });
                Err("Invalid nested member access".to_owned())
            },
        }
    }

    /// Calls a function of the program: the body runs in a child
    /// interpreter whose variables are the parameters. The value of the
    /// first `return` is the value of the call; without one it is void.
    fn call_user_function(&mut self, params: &Vec<String>, body: &Vec<Stmt>, arg_values: Vec<
        Value,
    >) -> (r: Result<Value, String>)
        ensures
            value_outcome(
                r,
                final(self)@,
                call_user(
                    old(self)@,
                    names_model(params@),
                    stmts_model(body@),
                    values_model(arg_values@),
                ),
            ),
            final(self).fuel <= old(self).fuel,
            r is Ok ==> final(self).fuel < old(self).fuel,
        decreases old(self).fuel, 0nat,
    {
        if !self.take_step() {
            return Err("Step limit reached".to_owned());
        }
        proof {
            lemma_values_model(arg_values@);
            lemma_stmts_model_index(body@);
        }
        if params.len() != arg_values.len() {
            let head = join3(
                "Function expects ",
                count_string(params.len()).as_str(),
                " arguments, got ",
            );
            return Err(join2(head.as_str(), count_string(arg_values.len()).as_str()));
        }
        let mut func_interpreter = self.create_child();
        func_interpreter.bind_parameters(params, &arg_values);
        let result = func_interpreter.run_function_body(body);
        self.rejoin(func_interpreter);
        result
    }

    /// Sets the parameters of a function to the arguments of a call.
    fn bind_parameters(&mut self, params: &Vec<String>, arg_values: &Vec<Value>)
        requires
            params.len() == arg_values.len(),
        ensures
            final(self)@ == bound(
                old(self)@,
                names_model(params@),
                values_model(arg_values@),
                0,
            ),
            final(self).fuel == old(self).fuel,
    {
        let ghost names = names_model(params@);
        let ghost values = values_model(arg_values@);
        proof {
            lemma_values_model(arg_values@);
        }
        let mut k: usize = 0;
        while k < params.len()
            invariant
                k <= params.len(),
                params.len() == arg_values.len(),
                names == names_model(params@),
                values == values_model(arg_values@),
                values.len() == arg_values.len(),
                forall|j: int|
                    0 <= j < arg_values.len() ==> (#[trigger] values[j]) == arg_values[j]@,
                self.fuel == old(self).fuel,
                bound(self@, names, values, k as int) == bound(old(self)@, names, values, 0),
            decreases params.len() - k,
        {
            self.env.set_variable(params[k].clone(), arg_values[k].clone());
            k += 1;
        }
    }

    /// Runs the body of a function up to the first `return` or error.
    fn run_function_body(&mut self, body: &Vec<Stmt>) -> (r: Result<Value, String>)
        ensures
            value_outcome(r, final(self)@, run_body(old(self)@, stmts_model(body@), 0)),
            final(self).fuel <= old(self).fuel,
        decreases old(self).fuel, 1nat,
    {
        let ghost statements = stmts_model(body@);
        let ghost want = run_body(self@, statements, 0);
        proof {
            lemma_stmts_model_index(body@);
        }
        let mut i: usize = 0;
        while i < body.len()
            invariant
                i <= body.len(),
                self.fuel <= old(self).fuel,
                statements == stmts_model(body@),
                statements.len() == body.len(),
                forall|j: int| 0 <= j < body.len() ==> (#[trigger] statements[j]) == body[j]@,
                want == run_body(old(self)@, statements, 0),
                run_body(self@, statements, i as int) == want,
            decreases body.len() - i,
        {
            match self.execute_statement(&body[i]) {
                Ok(ControlFlow::Return(value)) => {
                    return Ok(value);
                },
                Ok(ControlFlow::Normal) => {},
                Err(message) => {
                    return Err(message);
                },
            }
            i += 1;
        }
        Ok(Value::Void)
    }
}

} // verus!
