use mouse_lang::interpreter::{ControlFlow, Effect, Interpreter, NativeFn, Object, Value};
use mouse_lang::lexer::tokenize;
use mouse_lang::parser::{parse, BinaryOp, Expr, Stmt};

fn run_code(code: &str) -> Result<Interpreter, String> {
    let tokens = tokenize(code.to_string());
    let program = parse(&tokens).map_err(|e| format!("Parse error: {:?}", e))?;
    let mut interpreter = Interpreter::new();
    interpreter.interpret(&program)?;
    Ok(interpreter)
}

fn run_and_get_var(code: &str, var_name: &str) -> Result<Value, String> {
    let interpreter = run_code(code)?;
    interpreter
        .env
        .get_variable(var_name)
        .cloned()
        .ok_or_else(|| format!("Variable {} not found", var_name))
}

#[test]
fn test_let_number() {
    let code = "let x = 42;";
    let result = run_and_get_var(code, "x").unwrap();
    assert_eq!(result, Value::Number(42));
}

#[test]
fn test_let_string() {
    let code = r#"let greeting = "Hello, World!";"#;
    let result = run_and_get_var(code, "greeting").unwrap();
    assert_eq!(result, Value::String("Hello, World!".to_string()));
}

#[test]
fn test_let_negative_number() {
    let code = "let x = 0 - 10;";
    let result = run_and_get_var(code, "x").unwrap();
    assert_eq!(result, Value::Number(-10));
}

#[test]
fn test_variable_assignment() {
    let code = "let x = 5; x = 10;";
    let result = run_and_get_var(code, "x").unwrap();
    assert_eq!(result, Value::Number(10));
}

#[test]
fn test_assignment_to_undefined_variable_fails() {
    let code = "x = 10;";
    let result = run_code(code);
    assert!(result.is_err());
}

#[test]
fn test_addition() {
    let code = "let result = 5 + 3;";
    let result = run_and_get_var(code, "result").unwrap();
    assert_eq!(result, Value::Number(8));
}

#[test]
fn test_subtraction() {
    let code = "let result = 10 - 3;";
    let result = run_and_get_var(code, "result").unwrap();
    assert_eq!(result, Value::Number(7));
}

#[test]
fn test_multiplication() {
    let code = "let result = 6 * 7;";
    let result = run_and_get_var(code, "result").unwrap();
    assert_eq!(result, Value::Number(42));
}

#[test]
fn test_division() {
    let code = "let result = 20 / 4;";
    let result = run_and_get_var(code, "result").unwrap();
    assert_eq!(result, Value::Number(5));
}

#[test]
fn test_division_by_zero_fails() {
    let code = "let result = 10 / 0;";
    let result = run_code(code);
    assert!(result.is_err());
}

#[test]
fn test_operator_precedence_multiply_before_add() {
    let code = "let result = 2 + 3 * 4;";
    let result = run_and_get_var(code, "result").unwrap();
    assert_eq!(result, Value::Number(14)); // 2 + (3 * 4) = 14
}

#[test]
fn test_operator_precedence_divide_before_subtract() {
    let code = "let result = 20 - 10 / 2;";
    let result = run_and_get_var(code, "result").unwrap();
    assert_eq!(result, Value::Number(15)); // 20 - (10 / 2) = 15
}

#[test]
fn test_complex_arithmetic() {
    let code = "let result = 2 * 3 + 4 * 5;";
    let result = run_and_get_var(code, "result").unwrap();
    assert_eq!(result, Value::Number(26)); // (2 * 3) + (4 * 5) = 6 + 20 = 26
}

#[test]
fn division_by_zero_reports_its_message() {
    match run_code("let result = 10 / 0;") {
        Err(message) => assert_eq!(message, "Division by zero"),
        Ok(_) => panic!("division by zero went through"),
    }
}

#[test]
fn arithmetic_that_does_not_fit_is_an_error() {
    match run_code("let big = 2147483647 + 1;") {
        Err(message) => assert_eq!(message, "Integer overflow"),
        Ok(_) => panic!("overflow went through"),
    }
    let result = run_and_get_var("let n = 0 - 7; let q = n / 2;", "q").unwrap();
    assert_eq!(result, Value::Number(-3));
}

#[test]
fn comparisons_give_one_or_zero() {
    assert_eq!(run_and_get_var("let r = 1 < 2;", "r").unwrap(), Value::Number(1));
    assert_eq!(run_and_get_var("let r = 2 <= 1;", "r").unwrap(), Value::Number(0));
    assert_eq!(run_and_get_var("let r = 3 == 3;", "r").unwrap(), Value::Number(1));
    assert_eq!(run_and_get_var("let r = 3 != 3;", "r").unwrap(), Value::Number(0));
    assert_eq!(run_and_get_var("let r = 3 > 2;", "r").unwrap(), Value::Number(1));
    assert_eq!(run_and_get_var("let r = 3 >= 4;", "r").unwrap(), Value::Number(0));
}

#[test]
fn strings_join_with_the_text_of_other_values() {
    assert_eq!(
        run_and_get_var(r#"let s = "a" + "b";"#, "s").unwrap(),
        Value::String("ab".to_string())
    );
    assert_eq!(
        run_and_get_var(r#"let s = "n=" + 5;"#, "s").unwrap(),
        Value::String("n=5".to_string())
    );
    assert_eq!(
        run_and_get_var(r#"let s = 5 + "!";"#, "s").unwrap(),
        Value::String("5!".to_string())
    );
    match run_code(r#"let s = "a" - "b";"#) {
        Err(message) => assert_eq!(message, "Unsupported operation Subtract for strings"),
        Ok(_) => panic!("strings were subtracted"),
    }
    match run_code(r#"let s = "a" * 2;"#) {
        Err(message) => assert_eq!(message, "Unsupported operation Multiply for string and 2"),
        Ok(_) => panic!("a string was multiplied"),
    }
}

#[test]
fn functions_are_called_with_their_arguments() {
    let code = "fn add(a, b) { return a + b; } let r = add(2, 3);";
    assert_eq!(run_and_get_var(code, "r").unwrap(), Value::Number(5));
    match run_code("fn one(a) { return a; } let r = one(1, 2);") {
        Err(message) => assert_eq!(message, "Function expects 1 arguments, got 2"),
        Ok(_) => panic!("a call with too many arguments went through"),
    }
    match run_code("let r = nothing(1);") {
        Err(message) => assert_eq!(message, "Undefined function: nothing"),
        Ok(_) => panic!("an undefined function was called"),
    }
}

#[test]
fn a_function_without_return_gives_void() {
    let code = "fn quiet(a) { let b = a; } let r = quiet(1);";
    assert_eq!(run_and_get_var(code, "r").unwrap(), Value::Void);
}

#[test]
fn if_runs_its_branch_when_the_condition_is_true() {
    let code = "fn pick(a) { if a > 1 { return 10; } return 20; } let x = pick(2); let y = pick(1);";
    let interpreter = run_code(code).unwrap();
    assert_eq!(interpreter.env.get_variable("x"), Some(&Value::Number(10)));
    assert_eq!(interpreter.env.get_variable("y"), Some(&Value::Number(20)));
}

#[test]
fn print_collects_a_line() {
    let mut interpreter = run_code(r#"print("hello"); print(42);"#).unwrap();
    let effects = interpreter.take_effects();
    assert_eq!(
        effects,
        vec![Effect::Print("hello".to_string()), Effect::Print("42".to_string())]
    );
    assert!(interpreter.take_effects().is_empty());
}

#[test]
fn an_undefined_identifier_is_an_error() {
    match run_code("let x = y;") {
        Err(message) => assert_eq!(message, "Undefined identifier: y"),
        Ok(_) => panic!("an undefined identifier was read"),
    }
}

#[test]
fn a_run_stops_when_the_fuel_is_used_up() {
    let tokens = tokenize("fn f(a) { return f(a); } let r = f(1);".to_string());
    let program = parse(&tokens).unwrap();
    let mut interpreter = Interpreter::new();
    interpreter.fuel = 1000;
    match interpreter.interpret(&program) {
        Err(message) => assert_eq!(message, "Step limit reached"),
        Ok(()) => panic!("an endless recursion ended"),
    }
    assert_eq!(interpreter.fuel, 0);
}

fn number(n: i32) -> Expr {
    Expr::Number(n)
}

fn variable(name: &str) -> Expr {
    Expr::Identifier(name.to_string())
}

fn binary(
    left: Expr,
    op: BinaryOp,
    right: Expr,
) -> Expr {
    Expr::Binary {
        left: Box::new(left),
        op,
        right: Box::new(right),
    }
}

#[test]
fn while_runs_its_body_as_long_as_the_condition_is_true() {
    let mut interpreter = run_code("let i = 0; let sum = 0;").unwrap();
    let fuel_before = interpreter.fuel;
    let counting = Stmt::While {
        condition: binary(variable("i"), BinaryOp::LessThan, number(4)),
        body: vec![
            Stmt::Assign {
                name: "sum".to_string(),
                value: binary(variable("sum"), BinaryOp::Add, variable("i")),
            },
            Stmt::Assign {
                name: "i".to_string(),
                value: binary(variable("i"), BinaryOp::Add, number(1)),
            },
        ],
    };
    assert_eq!(interpreter.execute_statement(&counting), Ok(ControlFlow::Normal));
    assert_eq!(interpreter.env.get_variable("sum"), Some(&Value::Number(6)));
    assert_eq!(interpreter.env.get_variable("i"), Some(&Value::Number(4)));
    assert!(interpreter.fuel < fuel_before);
    let leaving = Stmt::While {
        condition: number(1),
        body: vec![Stmt::Return(variable("sum"))],
    };
    assert_eq!(
        interpreter.execute_statement(&leaving),
        Ok(ControlFlow::Return(Value::Number(6)))
    );
    let endless = Stmt::While {
        condition: number(1),
        body: vec![],
    };
    interpreter.fuel = 500;
    assert_eq!(
        interpreter.execute_statement(&endless),
        Err("Step limit reached".to_string())
    );
}

#[test]
fn each_step_takes_one_unit_of_fuel() {
    let mut interpreter = Interpreter::new();
    interpreter.fuel = 10;
    let statement = Stmt::Let {
        name: "x".to_string(),
        value: binary(number(1), BinaryOp::Add, number(2)),
    };
    assert!(interpreter.execute_statement(&statement).is_ok());
    assert_eq!(interpreter.fuel, 5);
    interpreter.fuel = 4;
    assert_eq!(
        interpreter.execute_statement(&statement),
        Err("Step limit reached".to_string())
    );
    assert_eq!(interpreter.fuel, 0);
}

#[test]
fn members_of_objects_are_read_and_called() {
    let mut interpreter = Interpreter::new();
    let call = |object: &str, member: Expr| {
        Stmt::Return(Expr::ObjectCall(object.to_string(), Box::new(member)))
    };
    let print_hello = call(
        "std",
        Expr::FunctionCall {
            name: "print".to_string(),
            args: vec![Expr::String("hello".to_string())],
        },
    );
    assert_eq!(
        interpreter.execute_statement(&print_hello),
        Ok(ControlFlow::Return(Value::Void))
    );
    assert_eq!(
        interpreter.take_effects(),
        vec![Effect::Print("hello".to_string())]
    );
    let sleep_a_little = call(
        "std",
        Expr::FunctionCall {
            name: "sleep".to_string(),
            args: vec![number(3)],
        },
    );
    assert_eq!(
        interpreter.execute_statement(&sleep_a_little),
        Ok(ControlFlow::Return(Value::Void))
    );
    assert_eq!(interpreter.take_effects(), vec![Effect::Sleep(3)]);
    assert_eq!(
        interpreter.execute_statement(&call("std", variable("sleep"))),
        Ok(ControlFlow::Return(Value::NativeFunction(
            "sleep".to_string(),
            NativeFn::Sleep
        )))
    );
    assert_eq!(
        interpreter.execute_statement(&call("std", variable("nothing"))),
        Err("Property 'nothing' not found on object 'std'".to_string())
    );
    assert_eq!(
        interpreter.execute_statement(&call("none", variable("x"))),
        Err("Undefined object: none".to_string())
    );
    assert_eq!(
        interpreter.execute_statement(&call(
            "std",
            Expr::FunctionCall {
                name: "nothing".to_string(),
                args: vec![]
            }
        )),
        Err("Method 'nothing' not found on object 'std'".to_string())
    );
    assert_eq!(
        interpreter.execute_statement(&call("std", number(1))),
        Err("Invalid member access on object 'std'".to_string())
    );
    let mut inner = Object::new("inner");
    inner.set_property("depth".to_string(), Value::Number(2));
    inner.register_native_fn("split", NativeFn::SplitString);
    let outer = interpreter.env.get_object_mut("std").unwrap();
    outer.set_property("inner".to_string(), Value::Object(inner));
    outer.set_property("plain".to_string(), Value::Number(1));
    let nested = |member: Expr| call("std", Expr::ObjectCall("inner".to_string(), Box::new(member)));
    assert_eq!(
        interpreter.execute_statement(&nested(variable("depth"))),
        Ok(ControlFlow::Return(Value::Number(2)))
    );
    assert_eq!(
        interpreter.execute_statement(&nested(Expr::FunctionCall {
            name: "split".to_string(),
            args: vec![Expr::String("a-b".to_string()), Expr::String("-".to_string())]
        })),
        Ok(ControlFlow::Return(Value::Array(vec![
            Value::String("a".to_string()),
            Value::String("b".to_string())
        ])))
    );
    assert_eq!(
        interpreter.execute_statement(&nested(variable("height"))),
        Err("Property 'height' not found on object".to_string())
    );
    assert_eq!(
        interpreter.execute_statement(&nested(Expr::FunctionCall {
            name: "depth".to_string(),
            args: vec![]
        })),
        Err("'depth' is not a method".to_string())
    );
    assert_eq!(
        interpreter.execute_statement(&nested(number(1))),
        Err("Invalid nested member access".to_string())
    );
    assert_eq!(
        interpreter.execute_statement(&call(
            "std",
            Expr::ObjectCall("plain".to_string(), Box::new(variable("x")))
        )),
        Err("'plain' is not an object on 'std'".to_string())
    );
    assert_eq!(
        interpreter.execute_statement(&call(
            "std",
            Expr::FunctionCall {
                name: "plain".to_string(),
                args: vec![]
            }
        )),
        Err("'plain' is not a method on object 'std'".to_string())
    );
    assert_eq!(
        interpreter.execute_statement(&Stmt::Return(Expr::MemberAccess {
            object: Box::new(variable("std")),
            member: "print".to_string()
        })),
        Err("Invalid member access".to_string())
    );
    assert_eq!(
        interpreter.execute_statement(&Stmt::Return(variable("std"))).map(|flow| match flow {
            ControlFlow::Return(Value::Object(object)) => object.name().clone(),
            _ => String::new(),
        }),
        Ok("std".to_string())
    );
}

#[test]
fn a_function_does_not_change_the_variables_of_its_caller() {
    let code = "let x = 1; fn change(a) { x = a; return x; } let y = change(5);";
    let interpreter = run_code(code).unwrap();
    assert_eq!(interpreter.env.get_variable("x"), Some(&Value::Number(1)));
    assert_eq!(interpreter.env.get_variable("y"), Some(&Value::Number(5)));
}

#[test]
fn effects_of_a_function_follow_those_of_its_caller() {
    let code = r#"fn shout(a) { print(a); print(a + "!"); return 0; } print("first"); let r = shout("second"); print("third");"#;
    let mut interpreter = run_code(code).unwrap();
    assert_eq!(
        interpreter.take_effects(),
        vec![
            Effect::Print("first".to_string()),
            Effect::Print("second".to_string()),
            Effect::Print("second!".to_string()),
            Effect::Print("third".to_string()),
        ]
    );
}

#[test]
fn a_value_that_is_no_function_cannot_be_called() {
    match run_code("let f = 1; let r = f(2);") {
        Err(message) => assert_eq!(message, "f is not a function"),
        Ok(_) => panic!("a number was called"),
    }
}
