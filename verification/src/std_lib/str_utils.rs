//! `split_str`: splits a string at a delimiter.

use vstd::prelude::*;
use crate::interpreter::{
    lemma_values_model, value_result, value_text, values_model, Interpreter, Value, ValueModel,
};

verus! {

/// The parts of a text between the occurrences of a delimiter, as
/// `str::split` of the standard library gives them.
pub uninterp spec fn split_parts(text: Seq<char>, delimiter: Seq<char>) -> Seq<Seq<char>>;

/// `str::split` with a string as the pattern: the parts of the text
/// between the occurrences of the delimiter, in order.
#[verifier::external_body]
fn split(text: &str, delimiter: &str) -> (parts: Vec<String>)
    ensures
        parts@.map_values(|part: String| part@) == split_parts(text@, delimiter@),
{
    text.split(delimiter).map(|part| part.to_owned()).collect()
}

/// The array of the given strings.
pub open spec fn array_of(parts: Seq<Seq<char>>) -> ValueModel {
    ValueModel::Array(parts.map_values(|part: Seq<char>| ValueModel::String(part)))
}

/// The array of the given strings.
pub fn parts_to_array(parts: Vec<String>) -> (value: Value)
    ensures
        value@ == array_of(parts@.map_values(|part: String| part@)),
{
    let ghost want = parts@.map_values(|part: String| part@).map_values(
        |part: Seq<char>| ValueModel::String(part),
    );
    let mut items: Vec<Value> = Vec::new();
    let mut i: usize = 0;
    assert(values_model(items@) =~= want.take(0));
    while i < parts.len()
        invariant
            i <= parts.len(),
            want == parts@.map_values(|part: String| part@).map_values(
                |part: Seq<char>| ValueModel::String(part),
            ),
            values_model(items@) == want.take(i as int),
        decreases parts.len() - i,
    {
        let ghost before = items@;
        items.push(Value::String(parts[i].clone()));
        proof {
            assert(items@.drop_last() =~= before);
            assert(values_model(items@) == values_model(before).push(items@.last()@));
            assert(want[i as int] == ValueModel::String(parts@[i as int]@));
            assert(want.take(i + 1) =~= want.take(i as int).push(want[i as int]));
        }
        i += 1;
    }
    assert(want.take(i as int) =~= want);
    Value::Array(items)
}

/// What the function `split_str` returns: the array of the parts of the
/// text of the first argument between the occurrences of the second
/// argument, which must be a string.
pub open spec fn split_value(args: Seq<ValueModel>) -> Result<ValueModel, Seq<char>> {
    if args.len() == 0 {
        Err("Missing string argument"@)
    } else if args.len() == 1 {
        Err("Missing delimiter argument"@)
    } else {
        match args[1] {
            ValueModel::String(delimiter) => Ok(
                array_of(split_parts(value_text(args[0]), delimiter)),
            ),
            _ => Err("Delimiter must be a string"@),
        }
    }
}

/// Splits the text of the first argument at the second argument, which
/// must be a string: the value of the call is the array of the parts.
pub fn split_string(_interpreter: &mut Interpreter, args: Vec<Value>) -> (r: Result<Value, String>)
    ensures
        *final(_interpreter) == *old(_interpreter),
        value_result(r, split_value(values_model(args@))),
{
    proof {
        lemma_values_model(args@);
    }
    if args.len() == 0 {
        return Err("Missing string argument".to_owned());
    }
    if args.len() == 1 {
        return Err("Missing delimiter argument".to_owned());
    }
    match &args[1] {
        Value::String(delimiter) => {
            let string = args[0].to_text();
            let parts = split(string.as_str(), delimiter.as_str());
            Ok(parts_to_array(parts))
        },
        _ => Err("Delimiter must be a string".to_owned()),
    }
}

} // verus!
