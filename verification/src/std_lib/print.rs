//! `print`: writes a value as a line.

use vstd::prelude::*;
use crate::interpreter::{
    effects_model, lemma_values_model, Effect, EffectModel, Interpreter, StateModel, Value,
    ValueModel,
};
use crate::text::{push_signed_decimal, push_str_chars, signed_decimal, string_of};

verus! {

/// The text that `print` writes for one element of an array: a string as
/// it is, a number in decimal, an array as `[...]`; nothing else can be
/// printed.
pub open spec fn element_text(value: ValueModel) -> Option<Seq<char>> {
    match value {
        ValueModel::String(text) => Some(text),
        ValueModel::Number(n) => Some(signed_decimal(n as int)),
        ValueModel::Array(_) => Some("[...]"@),
        _ => None,
    }
}

/// The text that `print` writes for the elements of an array: their texts
/// separated by a comma and a blank, if every element can be printed.
pub open spec fn elements_text(items: Seq<ValueModel>) -> Option<Seq<char>>
    decreases items.len(),
{
    if items.len() == 0 {
        Some(Seq::empty())
    } else {
        match (elements_text(items.drop_last()), element_text(items.last())) {
            (Some(head), Some(last)) => Some(
                if items.len() == 1 {
                    last
                } else {
                    head + ", "@ + last
                },
            ),
            _ => None,
        }
    }
}

/// The line that `print` writes for its arguments: the text of the first
/// one, which must be a string, a number or an array of printable
/// elements. The other arguments are not looked at.
pub open spec fn line_of(args: Seq<ValueModel>) -> Option<Seq<char>> {
    if args.len() == 0 {
        None
    } else {
        match args[0] {
            ValueModel::String(text) => Some(text),
            ValueModel::Number(n) => Some(signed_decimal(n as int)),
            ValueModel::Array(items) => elements_text(items),
            _ => None,
        }
    }
}

/// An array with an element that cannot be printed cannot be printed.
proof fn lemma_unprintable(items: Seq<ValueModel>, i: int)
    requires
        0 <= i < items.len(),
        element_text(items[i]) is None,
    ensures
        elements_text(items) is None,
    decreases items.len(),
{
    if i < items.len() - 1 {
        assert(items.drop_last()[i] == items[i]);
        lemma_unprintable(items.drop_last(), i);
    }
}

/// The line that `print` writes for its arguments, or the reason why it
/// writes none.
pub fn print_message(args: &Vec<Value>) -> (r: Result<String, String>)
    ensures
        match r {
            Ok(line) => line_of(crate::interpreter::values_model(args@)) == Some(line@),
            Err(message) => line_of(crate::interpreter::values_model(args@)) is None && message@
                == "print argument must be a string or number"@,
        },
{
    proof {
        lemma_values_model(args@);
    }
    if args.len() == 0 {
        return Err("print argument must be a string or number".to_owned());
    }
    match &args[0] {
        Value::String(text) => Ok(text.clone()),
        Value::Number(n) => Ok(crate::text::decimal_string(*n as i64)),
        Value::Array(items) => {
            let ghost all = crate::interpreter::values_model(items@);
            let mut out: Vec<char> = Vec::new();
            let mut i: usize = 0;
            proof {
                lemma_values_model(items@);
                assert(all.take(0) =~= Seq::<ValueModel>::empty());
            }
            while i < items.len()
                invariant
                    i <= items.len(),
                    all == crate::interpreter::values_model(items@),
                    all.len() == items.len(),
                    forall|j: int| 0 <= j < items.len() ==> (#[trigger] all[j]) == items[j]@,
                    line_of(crate::interpreter::values_model(args@)) == elements_text(all),
                    elements_text(all.take(i as int)) == Some(out@),
                decreases items.len() - i,
            {
                proof {
                    assert(all.take(i + 1).drop_last() =~= all.take(i as int));
                    assert(all.take(i + 1).last() == all[i as int]);
                }
                let ghost before = out@;
                if i > 0 {
                    push_str_chars(&mut out, ", ");
                }
                match &items[i] {
                    Value::String(text) => {
                        push_str_chars(&mut out, text.as_str());
                    },
                    Value::Number(n) => {
                        push_signed_decimal(&mut out, *n as i64);
                    },
                    Value::Array(_) => {
                        push_str_chars(&mut out, "[...]");
                    },
                    _ => {
                        proof {
                            lemma_unprintable(all, i as int);
                        }
                        return Err("print argument must be a string or number".to_owned());
                    },
                }
                proof {
                    if i == 0 {
                        assert(before =~= Seq::<char>::empty());
                        assert(out@ =~= element_text(all[0])->0);
                    }
                }
                i += 1;
            }
            assert(all.take(i as int) =~= all);
            Ok(string_of(&out))
        },
        _ => Err("print argument must be a string or number".to_owned()),
    }
}

/// What the function `print` does to the effects and what it returns: a
/// printable first argument adds its line to the effects, and the value of
/// the call is void.
pub open spec fn printed(effects: Seq<EffectModel>, args: Seq<ValueModel>) -> (
    Result<ValueModel, Seq<char>>,
    Seq<EffectModel>,
) {
    match line_of(args) {
        Some(line) => (Ok(ValueModel::Void), effects.push(EffectModel::Print(line))),
        None => (Err("print argument must be a string or number"@), effects),
    }
}

/// Prints the first argument as a line: the line is added to the effects
/// of the interpreter, and the value of the call is void.
pub fn print(interpreter: &mut Interpreter, args: Vec<Value>) -> (r: Result<Value, String>)
    ensures
        crate::interpreter::value_result(
            r,
            printed(old(interpreter)@.effects, crate::interpreter::values_model(args@)).0,
        ),
        final(interpreter)@ == (StateModel {
            effects: printed(old(interpreter)@.effects, crate::interpreter::values_model(args@)).1,
            ..old(interpreter)@
        }),
{
    match print_message(&args) {
        Ok(line) => {
            interpreter.effects.push(Effect::Print(line));
            assert(effects_model(interpreter.effects@) =~= effects_model(
                old(interpreter).effects@,
            ).push(EffectModel::Print(line@)));
            Ok(Value::Void)
        },
        Err(message) => Err(message),
    }
}

} // verus!
