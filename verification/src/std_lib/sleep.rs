//! `sleep`: pauses the program.

use vstd::prelude::*;
use crate::interpreter::{
    effects_model, lemma_values_model, values_model, value_result, Effect, EffectModel,
    Interpreter, StateModel, Value, ValueModel,
};
use crate::text::{count_string, decimal, join2};

verus! {

/// The number of milliseconds that `sleep` is asked for, or the reason why
/// the arguments ask for none: there must be exactly one argument, a
/// number that is not negative.
pub open spec fn duration_of(args: Seq<ValueModel>) -> Result<u64, Seq<char>> {
    if args.len() != 1 {
        Err("sleep expects 1 argument (milliseconds), got "@ + decimal(args.len()))
    } else {
        match args[0] {
            ValueModel::Number(n) => if n < 0 {
                Err("sleep duration must be non-negative"@)
            } else {
                Ok(n as u64)
            },
            _ => Err("sleep argument must be a number (milliseconds)"@),
        }
    }
}

/// The number of milliseconds that the arguments ask for.
pub fn sleep_duration(args: &Vec<Value>) -> (r: Result<u64, String>)
    ensures
        match r {
            Ok(ms) => duration_of(values_model(args@)) == Ok::<u64, Seq<char>>(ms),
            Err(message) => duration_of(values_model(args@)) == Err::<u64, Seq<char>>(message@),
        },
{
    proof {
        lemma_values_model(args@);
    }
    if args.len() != 1 {
        return Err(
            join2(
                "sleep expects 1 argument (milliseconds), got ",
                count_string(args.len()).as_str(),
            ),
        );
    }
    match &args[0] {
        Value::Number(n) => {
            if *n < 0 {
                Err("sleep duration must be non-negative".to_owned())
            } else {
                Ok(*n as u64)
            }
        },
        _ => Err("sleep argument must be a number (milliseconds)".to_owned()),
    }
}

/// What the function `sleep` does to the effects and what it returns: a
/// duration is added to the effects, and the value of the call is void.
pub open spec fn slept(effects: Seq<EffectModel>, args: Seq<ValueModel>) -> (
    Result<ValueModel, Seq<char>>,
    Seq<EffectModel>,
) {
    match duration_of(args) {
        Ok(ms) => (Ok(ValueModel::Void), effects.push(EffectModel::Sleep(ms))),
        Err(message) => (Err(message), effects),
    }
}

/// Asks for a pause: the duration is added to the effects of the
/// interpreter, and the value of the call is void.
pub fn sleep(interpreter: &mut Interpreter, args: Vec<Value>) -> (r: Result<Value, String>)
    ensures
        value_result(r, slept(old(interpreter)@.effects, values_model(args@)).0),
        final(interpreter)@ == (StateModel {
            effects: slept(old(interpreter)@.effects, values_model(args@)).1,
            ..old(interpreter)@
        }),
{
    match sleep_duration(&args) {
        Ok(ms) => {
            interpreter.effects.push(Effect::Sleep(ms));
            assert(effects_model(interpreter.effects@) =~= effects_model(
                old(interpreter).effects@,
            ).push(EffectModel::Sleep(ms)));
            Ok(Value::Void)
        },
        Err(message) => Err(message),
    }
}

} // verus!
