//! What a program means.
//!
//! The meaning of an expression or statement is given for a state: the
//! objects, the fuel and the effects collected so far. It is a value or an
//! error message, and the state afterwards. Every function below that
//! starts with a step takes one unit of fuel and fails where none is left,
//! so the meaning is defined for every program and every state.

use vstd::prelude::*;
use crate::interpreter::{
    binary_operation, global_lookup, looked_up, set_global, truth_of, ControlModel,
    EnvironmentModel, NativeFn, ObjectModel, StateModel, ValueModel,
};
use crate::parser::{BinaryOp, ExprModel, StmtModel};
use crate::std_lib::print::printed;
use crate::std_lib::sleep::slept;
use crate::std_lib::str_utils::split_value;
use crate::text::decimal;

verus! {

/// A result and the state after it.
pub ghost struct Outcome<T> {
    pub result: Result<T, Seq<char>>,
    pub state: StateModel,
}

/// A failure with the given message.
pub open spec fn failed<T>(message: Seq<char>, state: StateModel) -> Outcome<T> {
    Outcome { result: Err(message), state }
}

/// A success with the given value.
pub open spec fn done<T>(value: T, state: StateModel) -> Outcome<T> {
    Outcome { result: Ok(value), state }
}

/// The message of a run that has no fuel left.
pub open spec fn out_of_fuel() -> Seq<char> {
    "Step limit reached"@
}

/// The state with one unit of fuel less.
pub open spec fn after_step(s: StateModel) -> StateModel {
    StateModel { fuel: (s.fuel - 1) as u64, ..s }
}

/// The state with a variable set.
pub open spec fn with_variable(s: StateModel, name: Seq<char>, value: ValueModel) -> StateModel {
    StateModel {
        env: EnvironmentModel { objects: set_global(s.env.objects, name, value), ..s.env },
        ..s
    }
}

/// The state in which a function body starts: no variables, the objects of
/// the caller, the fuel of the caller, and no effects yet.
pub open spec fn child_of(s: StateModel) -> StateModel {
    StateModel {
        env: EnvironmentModel { variables: Seq::empty(), objects: s.env.objects },
        fuel: s.fuel,
        effects: Seq::empty(),
    }
}

/// The state of the caller after a function body ended in the state
/// `child`: the fuel is what the body left, and the effects of the body
/// follow those of the caller.
pub open spec fn rejoined(s: StateModel, child: StateModel) -> StateModel {
    StateModel { fuel: child.fuel, effects: s.effects + child.effects, ..s }
}

/// The state with the parameters from position `k` on set to the
/// arguments.
pub open spec fn bound(
    s: StateModel,
    params: Seq<Seq<char>>,
    args: Seq<ValueModel>,
    k: int,
) -> StateModel
    decreases params.len() - k,
{
    if k < 0 || k >= params.len() || k >= args.len() {
        s
    } else {
        bound(with_variable(s, params[k], args[k]), params, args, k + 1)
    }
}

/// A call of a function of the standard library.
pub open spec fn call_native(s: StateModel, f: NativeFn, args: Seq<ValueModel>) -> Outcome<
    ValueModel,
> {
    match f {
        NativeFn::Print => Outcome {
            result: printed(s.effects, args).0,
            state: StateModel { effects: printed(s.effects, args).1, ..s },
        },
        NativeFn::Sleep => Outcome {
            result: slept(s.effects, args).0,
            state: StateModel { effects: slept(s.effects, args).1, ..s },
        },
        NativeFn::SplitString => Outcome { result: split_value(args), state: s },
    }
}

/// The value of an expression: a literal is itself; an identifier is the
/// variable or function of that name, or else the object of that name; an
/// operation, a call and a member of an object are as described below.
pub open spec fn eval(s: StateModel, e: ExprModel) -> Outcome<ValueModel>
    decreases s.fuel, 0nat, 0nat,
{
    if s.fuel == 0 {
        failed(out_of_fuel(), s)
    } else {
        let s1 = after_step(s);
        match e {
            ExprModel::Number(n) => done(ValueModel::Number(n), s1),
            ExprModel::String(text) => done(ValueModel::String(text), s1),
            ExprModel::Identifier(name) => match global_lookup(s1.env.objects, name) {
                Some(value) => done(value, s1),
                None => match looked_up(s1.env.objects, name) {
                    Some(object) => done(ValueModel::Object(object), s1),
                    None => failed("Undefined identifier: "@ + name, s1),
                },
            },
            ExprModel::Binary { left, op, right } => eval_binary(s1, *left, op, *right),
            ExprModel::FunctionCall { name, args } => eval_function_call(s1, name, args),
            ExprModel::ObjectCall(name, member) => eval_object_call(s1, name, *member),
            ExprModel::MemberAccess { object, member } => failed("Invalid member access"@, s1),
        }
    }
}

/// The value of a binary operation: the left operand is evaluated, then
/// the right one, then the operator is applied.
pub open spec fn eval_binary(s: StateModel, left: ExprModel, op: BinaryOp, right: ExprModel) -> Outcome<
    ValueModel,
>
    decreases s.fuel, 0nat, 0nat,
{
    if s.fuel == 0 {
        failed(out_of_fuel(), s)
    } else {
        let s1 = after_step(s);
        let first = eval(s1, left);
        match first.result {
            Err(message) => failed(message, first.state),
            Ok(a) => if first.state.fuel > s1.fuel {
                failed(out_of_fuel(), first.state)
            } else {
                let second = eval(first.state, right);
                match second.result {
                    Err(message) => failed(message, second.state),
                    Ok(b) => match binary_operation(op, a, b) {
                        Ok(value) => done(value, second.state),
                        Err(message) => failed(message, second.state),
                    },
                }
            },
        }
    }
}

/// The values of the arguments of a call, in order.
pub open spec fn eval_args(s: StateModel, args: Seq<ExprModel>) -> Outcome<Seq<ValueModel>>
    decreases s.fuel, 0nat, 0nat,
{
    if s.fuel == 0 {
        failed(out_of_fuel(), s)
    } else {
        eval_args_from(after_step(s), args, 0, Seq::empty())
    }
}

/// The values of the arguments from position `i` on, after `values`.
pub open spec fn eval_args_from(
    s: StateModel,
    args: Seq<ExprModel>,
    i: int,
    values: Seq<ValueModel>,
) -> Outcome<Seq<ValueModel>>
    decreases s.fuel, 1nat, args.len() - i,
{
    if i < 0 || i >= args.len() {
        done(values, s)
    } else {
        let out = eval(s, args[i]);
        match out.result {
            Err(message) => failed(message, out.state),
            Ok(value) => if out.state.fuel > s.fuel {
                failed(out_of_fuel(), out.state)
            } else {
                eval_args_from(out.state, args, i + 1, values.push(value))
            },
        }
    }
}

/// A call of a value with the values of the arguments: a function of the
/// program, a function of the standard library, or else an error with the
/// given message.
pub open spec fn call_value(
    s: StateModel,
    function: ValueModel,
    args: Seq<ValueModel>,
    not_callable: Seq<char>,
) -> Outcome<ValueModel>
    decreases s.fuel, 0nat, 0nat,
{
    if s.fuel == 0 {
        failed(out_of_fuel(), s)
    } else {
        let s1 = after_step(s);
        match function {
            ValueModel::Function(_, params, body) => call_user(s1, params, body, args),
            ValueModel::NativeFunction(_, f) => call_native(s1, f, args),
            _ => failed(not_callable, s1),
        }
    }
}

/// A call of a function of the program: the body runs in a state of its
/// own whose variables are the parameters. The value of the first
/// `return` is the value of the call; without one it is void. What the
/// body does to its objects is not seen by the caller.
pub open spec fn call_user(
    s: StateModel,
    params: Seq<Seq<char>>,
    body: Seq<StmtModel>,
    args: Seq<ValueModel>,
) -> Outcome<ValueModel>
    decreases s.fuel, 0nat, 0nat,
{
    if s.fuel == 0 {
        failed(out_of_fuel(), s)
    } else {
        let s1 = after_step(s);
        if params.len() != args.len() {
            failed(
                "Function expects "@ + decimal(params.len()) + " arguments, got "@ + decimal(
                    args.len(),
                ),
                s1,
            )
        } else {
            let child = bound(child_of(s1), params, args, 0);
            if child.fuel != s1.fuel {
                failed(out_of_fuel(), s1)
            } else {
                let out = run_body(child, body, 0);
                Outcome { result: out.result, state: rejoined(s1, out.state) }
            }
        }
    }
}

/// The statements of a function body from position `i` on.
pub open spec fn run_body(s: StateModel, body: Seq<StmtModel>, i: int) -> Outcome<ValueModel>
    decreases s.fuel, 1nat, body.len() - i,
{
    if i < 0 || i >= body.len() {
        done(ValueModel::Void, s)
    } else {
        let out = exec_stmt(s, body[i]);
        match out.result {
            Err(message) => failed(message, out.state),
            Ok(ControlModel::Return(value)) => done(value, out.state),
            Ok(ControlModel::Normal) => if out.state.fuel > s.fuel {
                failed(out_of_fuel(), out.state)
            } else {
                run_body(out.state, body, i + 1)
            },
        }
    }
}

/// The value of a call of a function by its name: the arguments are
/// evaluated, then the function of that name is called.
pub open spec fn eval_function_call(s: StateModel, name: Seq<char>, args: Seq<ExprModel>) -> Outcome<
    ValueModel,
>
    decreases s.fuel, 0nat, 0nat,
{
    if s.fuel == 0 {
        failed(out_of_fuel(), s)
    } else {
        let s1 = after_step(s);
        let out = eval_args(s1, args);
        match out.result {
            Err(message) => failed(message, out.state),
            Ok(values) => if out.state.fuel > s1.fuel {
                failed(out_of_fuel(), out.state)
            } else {
                match global_lookup(out.state.env.objects, name) {
                    Some(function) => call_value(
                        out.state,
                        function,
                        values,
                        name + " is not a function"@,
                    ),
                    None => failed("Undefined function: "@ + name, out.state),
                }
            },
        }
    }
}

/// The message for a property that an object does not have.
pub open spec fn no_property(property: Seq<char>, object: Seq<char>) -> Seq<char> {
    "Property '"@ + property + "' not found on object '"@ + object + "'"@
}

/// The value of a member of a named object: a property, a call of a
/// method, or a member of an object that is a property.
pub open spec fn eval_object_call(s: StateModel, object_name: Seq<char>, member: ExprModel) -> Outcome<
    ValueModel,
>
    decreases s.fuel, 0nat, 0nat,
{
    if s.fuel == 0 {
        failed(out_of_fuel(), s)
    } else {
        let s1 = after_step(s);
        match looked_up(s1.env.objects, object_name) {
            None => failed("Undefined object: "@ + object_name, s1),
            Some(object) => match member {
                ExprModel::Identifier(property) => match looked_up(object.properties, property) {
                    Some(value) => done(value, s1),
                    None => failed(no_property(property, object_name), s1),
                },
                ExprModel::FunctionCall { name, args } => match looked_up(
                    object.properties,
                    name,
                ) {
                    None => failed(
                        "Method '"@ + name + "' not found on object '"@ + object_name + "'"@,
                        s1,
                    ),
                    Some(method) => {
                        let out = eval_args(s1, args);
                        match out.result {
                            Err(message) => failed(message, out.state),
                            Ok(values) => if out.state.fuel > s1.fuel {
                                failed(out_of_fuel(), out.state)
                            } else {
                                call_value(
                                    out.state,
                                    method,
                                    values,
                                    "'"@ + name + "' is not a method on object '"@ + object_name
                                        + "'"@,
                                )
                            },
                        }
                    },
                },
                ExprModel::ObjectCall(nested, nested_member) => match looked_up(
                    object.properties,
                    nested,
                ) {
                    None => failed(no_property(nested, object_name), s1),
                    Some(ValueModel::Object(nested_object)) => eval_nested(
                        s1,
                        nested_object,
                        *nested_member,
                    ),
                    Some(_) => failed(
                        "'"@ + nested + "' is not an object on '"@ + object_name + "'"@,
                        s1,
                    ),
                },
                _ => failed("Invalid member access on object '"@ + object_name + "'"@, s1),
            },
        }
    }
}

/// The value of a member of an object that is a property of another
/// object: a property, or a call of a method.
pub open spec fn eval_nested(s: StateModel, object: ObjectModel, member: ExprModel) -> Outcome<
    ValueModel,
>
    decreases s.fuel, 0nat, 0nat,
{
    if s.fuel == 0 {
        failed(out_of_fuel(), s)
    } else {
        let s1 = after_step(s);
        match member {
            ExprModel::Identifier(property) => match looked_up(object.properties, property) {
                Some(value) => done(value, s1),
                None => failed("Property '"@ + property + "' not found on object"@, s1),
            },
            ExprModel::FunctionCall { name, args } => match looked_up(object.properties, name) {
                None => failed("Method '"@ + name + "' not found on object"@, s1),
                Some(method) => {
                    let out = eval_args(s1, args);
                    match out.result {
                        Err(message) => failed(message, out.state),
                        Ok(values) => if out.state.fuel > s1.fuel {
                            failed(out_of_fuel(), out.state)
                        } else {
                            call_value(
                                out.state,
                                method,
                                values,
                                "'"@ + name + "' is not a method"@,
                            )
                        },
                    }
                },
            },
            _ => failed("Invalid nested member access"@, s1),
        }
    }
}

/// What a statement does. `let` and an assignment set a variable, an
/// assignment only one that exists. A function definition sets a variable
/// to the function. `return` hands its value to the call. `if` runs a
/// branch, `while` runs its body as long as the condition is true, and an
/// expression is evaluated for what it does.
pub open spec fn exec_stmt(s: StateModel, stmt: StmtModel) -> Outcome<ControlModel>
    decreases s.fuel, 0nat, 0nat,
{
    if s.fuel == 0 {
        failed(out_of_fuel(), s)
    } else {
        let s1 = after_step(s);
        match stmt {
            StmtModel::Let { name, value } => {
                let out = eval(s1, value);
                match out.result {
                    Ok(v) => done(ControlModel::Normal, with_variable(out.state, name, v)),
                    Err(message) => failed(message, out.state),
                }
            },
            StmtModel::Assign { name, value } => {
                if global_lookup(s1.env.objects, name) is None {
                    failed("Cannot assign to undefined variable: "@ + name, s1)
                } else {
                    let out = eval(s1, value);
                    match out.result {
                        Ok(v) => done(ControlModel::Normal, with_variable(out.state, name, v)),
                        Err(message) => failed(message, out.state),
                    }
                }
            },
            StmtModel::Function { name, params, body } => done(
                ControlModel::Normal,
                with_variable(s1, name, ValueModel::Function(name, params, body)),
            ),
            StmtModel::Return(value) => {
                let out = eval(s1, value);
                match out.result {
                    Ok(v) => done(ControlModel::Return(v), out.state),
                    Err(message) => failed(message, out.state),
                }
            },
            StmtModel::If { condition, then_branch, else_branch } => {
                let out = eval(s1, condition);
                match out.result {
                    Err(message) => failed(message, out.state),
                    Ok(v) => if out.state.fuel > s1.fuel {
                        failed(out_of_fuel(), out.state)
                    } else if truth_of(v) {
                        exec_block(out.state, then_branch)
                    } else {
                        match else_branch {
                            Some(body) => exec_block(out.state, body),
                            None => done(ControlModel::Normal, out.state),
                        }
                    },
                }
            },
            StmtModel::While { condition, body } => while_loop(s1, condition, body),
            StmtModel::Expression(value) => {
                let out = eval(s1, value);
                match out.result {
                    Ok(v) => done(ControlModel::Normal, out.state),
                    Err(message) => failed(message, out.state),
                }
            },
        }
    }
}

/// What a block does: its statements in order, up to the first `return`
/// or error.
pub open spec fn exec_block(s: StateModel, stmts: Seq<StmtModel>) -> Outcome<ControlModel>
    decreases s.fuel, 0nat, 0nat,
{
    if s.fuel == 0 {
        failed(out_of_fuel(), s)
    } else {
        block_from(after_step(s), stmts, 0)
    }
}

/// The statements of a block from position `i` on.
pub open spec fn block_from(s: StateModel, stmts: Seq<StmtModel>, i: int) -> Outcome<ControlModel>
    decreases s.fuel, 1nat, stmts.len() - i,
{
    if i < 0 || i >= stmts.len() {
        done(ControlModel::Normal, s)
    } else {
        let out = exec_stmt(s, stmts[i]);
        match out.result {
            Err(message) => failed(message, out.state),
            Ok(ControlModel::Return(value)) => done(ControlModel::Return(value), out.state),
            Ok(ControlModel::Normal) => if out.state.fuel > s.fuel {
                failed(out_of_fuel(), out.state)
            } else {
                block_from(out.state, stmts, i + 1)
            },
        }
    }
}

/// What a `while` does: as long as the condition is true the body runs;
/// a `return` in the body ends the loop.
pub open spec fn while_loop(s: StateModel, condition: ExprModel, body: Seq<StmtModel>) -> Outcome<
    ControlModel,
>
    decreases s.fuel, 1nat, 0nat,
{
    let out = eval(s, condition);
    match out.result {
        Err(message) => failed(message, out.state),
        Ok(v) => if !truth_of(v) {
            done(ControlModel::Normal, out.state)
        } else if out.state.fuel >= s.fuel {
            failed(out_of_fuel(), out.state)
        } else {
            let ran = exec_block(out.state, body);
            match ran.result {
                Err(message) => failed(message, ran.state),
                Ok(ControlModel::Return(value)) => done(ControlModel::Return(value), ran.state),
                Ok(ControlModel::Normal) => if ran.state.fuel >= s.fuel {
                    failed(out_of_fuel(), ran.state)
                } else {
                    while_loop(ran.state, condition, body)
                },
            }
        },
    }
}

/// What a program does: its statements from position `i` on, up to the
/// first error. A `return` outside a function is passed over.
pub open spec fn run_program(s: StateModel, stmts: Seq<StmtModel>, i: int) -> Outcome<()>
    decreases stmts.len() - i,
{
    if i < 0 || i >= stmts.len() {
        done((), s)
    } else {
        let out = exec_stmt(s, stmts[i]);
        match out.result {
            Err(message) => failed(message, out.state),
            Ok(_) => run_program(out.state, stmts, i + 1),
        }
    }
}

} // verus!
