use mouse_lang::interpreter::{Effect, Interpreter, NativeFn, Object, Value};
use mouse_lang::std_lib::print::{print, print_message};
use mouse_lang::std_lib::sleep::{sleep, sleep_duration};
use mouse_lang::std_lib::str_utils::split_string;

#[test]
fn test_split_string() {
    let mut interpreter = Interpreter::new();
    let result = split_string(
        &mut interpreter,
        vec![
            Value::String("hello world".to_string()),
            Value::String(" ".to_string()),
        ],
    );
    assert_eq!(
        result,
        Ok(Value::Array(vec![
            Value::String("hello".to_string()),
            Value::String("world".to_string())
        ]))
    );
}

#[test]
fn test_split_string_empty() {
    let mut interpreter = Interpreter::new();
    let result = split_string(
        &mut interpreter,
        vec![
            Value::String("hi".to_string()),
            Value::String("".to_string()),
        ],
    );
    assert_eq!(
        result,
        Ok(Value::Array(vec![
            Value::String("".to_string()),
            Value::String("h".to_string()),
            Value::String("i".to_string()),
            Value::String("".to_string())
        ]))
    );
}

#[test]
fn split_string_reports_missing_arguments() {
    let mut interpreter = Interpreter::new();
    assert_eq!(
        split_string(&mut interpreter, vec![]),
        Err("Missing string argument".to_string())
    );
    assert_eq!(
        split_string(&mut interpreter, vec![Value::String("a".to_string())]),
        Err("Missing delimiter argument".to_string())
    );
    assert_eq!(
        split_string(
            &mut interpreter,
            vec![Value::String("a".to_string()), Value::Number(1)]
        ),
        Err("Delimiter must be a string".to_string())
    );
}

#[test]
fn split_string_splits_the_text_of_a_number() {
    let mut interpreter = Interpreter::new();
    assert_eq!(
        split_string(
            &mut interpreter,
            vec![Value::Number(10203), Value::String("0".to_string())]
        ),
        Ok(Value::Array(vec![
            Value::String("1".to_string()),
            Value::String("2".to_string()),
            Value::String("3".to_string())
        ]))
    );
}

#[test]
fn print_message_of_each_kind_of_value() {
    assert_eq!(
        print_message(&vec![Value::String("x".to_string())]),
        Ok("x".to_string())
    );
    assert_eq!(print_message(&vec![Value::Number(-12)]), Ok("-12".to_string()));
    assert_eq!(
        print_message(&vec![Value::Array(vec![
            Value::String("a".to_string()),
            Value::Number(2),
            Value::Array(vec![Value::Number(3)])
        ])]),
        Ok("a, 2, [...]".to_string())
    );
    assert_eq!(print_message(&vec![Value::Array(vec![])]), Ok("".to_string()));
    assert_eq!(
        print_message(&vec![Value::Array(vec![Value::Void])]),
        Err("print argument must be a string or number".to_string())
    );
    assert_eq!(
        print_message(&vec![Value::Void]),
        Err("print argument must be a string or number".to_string())
    );
    assert_eq!(
        print_message(&vec![]),
        Err("print argument must be a string or number".to_string())
    );
}

#[test]
fn print_adds_one_effect() {
    let mut interpreter = Interpreter::new();
    assert_eq!(
        print(&mut interpreter, vec![Value::Number(7)]),
        Ok(Value::Void)
    );
    assert_eq!(interpreter.effects, vec![Effect::Print("7".to_string())]);
}

#[test]
fn sleep_checks_its_argument() {
    assert_eq!(sleep_duration(&vec![Value::Number(250)]), Ok(250));
    assert_eq!(sleep_duration(&vec![Value::Number(0)]), Ok(0));
    assert_eq!(
        sleep_duration(&vec![Value::Number(-1)]),
        Err("sleep duration must be non-negative".to_string())
    );
    assert_eq!(
        sleep_duration(&vec![Value::Void]),
        Err("sleep argument must be a number (milliseconds)".to_string())
    );
    assert_eq!(
        sleep_duration(&vec![]),
        Err("sleep expects 1 argument (milliseconds), got 0".to_string())
    );
    assert_eq!(
        sleep_duration(&vec![Value::Number(1), Value::Number(2)]),
        Err("sleep expects 1 argument (milliseconds), got 2".to_string())
    );
    let mut interpreter = Interpreter::new();
    assert_eq!(
        sleep(&mut interpreter, vec![Value::Number(5)]),
        Ok(Value::Void)
    );
    assert_eq!(interpreter.effects, vec![Effect::Sleep(5)]);
}

#[test]
fn value_text_of_each_kind_of_value() {
    assert_eq!(Value::Number(-5).to_text(), "-5");
    assert_eq!(Value::String("s".to_string()).to_text(), "s");
    assert_eq!(Value::Void.to_text(), "()");
    assert_eq!(
        Value::Array(vec![Value::Number(1), Value::String("b".to_string())]).to_text(),
        "[1, b]"
    );
    assert_eq!(Value::Array(vec![]).to_text(), "[]");
    assert_eq!(
        Value::Function("f".to_string(), vec![], vec![]).to_text(),
        "<function f>"
    );
    assert_eq!(
        Value::NativeFunction("print".to_string(), NativeFn::Print).to_text(),
        "<native function print>"
    );
    let mut object = Object::new("box");
    object.set_property("a".to_string(), Value::Number(1));
    object.set_property("b".to_string(), Value::Void);
    assert_eq!(object.to_text(), "{box: a:1, b:()}");
    assert_eq!(Object::new("none").to_text(), "{none: }");
    assert_eq!(Value::Object(object).to_text(), "{box: a:1, b:()}");
}

#[test]
fn to_bool_of_each_kind_of_value() {
    assert!(Value::Number(2).to_bool());
    assert!(!Value::Number(0).to_bool());
    assert!(Value::String("x".to_string()).to_bool());
    assert!(!Value::String("".to_string()).to_bool());
    assert!(!Value::Void.to_bool());
    assert!(Value::Array(vec![Value::Void]).to_bool());
    assert!(!Value::Array(vec![]).to_bool());
    assert!(Value::Function("f".to_string(), vec![], vec![]).to_bool());
    assert!(Value::NativeFunction("p".to_string(), NativeFn::Print).to_bool());
    assert!(!Value::Object(Object::new("o")).to_bool());
    let mut object = Object::new("o");
    object.set_property("k".to_string(), Value::Void);
    assert!(Value::Object(object).to_bool());
}

#[test]
fn objects_keep_the_last_value_of_a_property() {
    let mut object = Object::with_properties("o", vec![("a".to_string(), Value::Number(1))]);
    assert_eq!(object.get_property("a"), Some(&Value::Number(1)));
    object.set_property("a".to_string(), Value::Number(2));
    object.set_property("b".to_string(), Value::Number(3));
    assert_eq!(object.get_property("a"), Some(&Value::Number(2)));
    assert_eq!(object.get_property("b"), Some(&Value::Number(3)));
    assert_eq!(object.get_property("c"), None);
    assert_eq!(object.property_count(), 2);
    object.register_native_fn("sleep", NativeFn::Sleep);
    assert_eq!(
        object.get_property("sleep"),
        Some(&Value::NativeFunction("sleep".to_string(), NativeFn::Sleep))
    );
    assert_eq!(object.name(), "o");
}

#[test]
fn the_environment_starts_with_the_standard_library() {
    let mut interpreter = Interpreter::new();
    assert!(interpreter.env.get_object("std").is_some());
    assert!(interpreter.env.get_object("global").is_some());
    assert!(interpreter.env.get_object("other").is_none());
    assert_eq!(
        interpreter.env.get_global_function("print"),
        Some(&Value::NativeFunction("print".to_string(), NativeFn::Print))
    );
    assert_eq!(
        interpreter.env.get_object("std").unwrap().get_property("split_str"),
        Some(&Value::NativeFunction("split_str".to_string(), NativeFn::SplitString))
    );
    interpreter.env.set_variable("x".to_string(), Value::Number(1));
    assert_eq!(interpreter.env.get_variable("x"), Some(&Value::Number(1)));
    let child = interpreter.create_child();
    assert_eq!(child.env.get_variable("x"), Some(&Value::Number(1)));
    assert_eq!(child.fuel, interpreter.fuel);
    interpreter
        .env
        .get_object_mut("std")
        .unwrap()
        .set_property("pi".to_string(), Value::Number(3));
    assert_eq!(
        interpreter.env.get_object("std").unwrap().get_property("pi"),
        Some(&Value::Number(3))
    );
    assert!(interpreter.env.get_object_mut("none").is_none());
    interpreter
        .env
        .set_global_function("f".to_string(), vec!["a".to_string()], vec![]);
    assert_eq!(
        interpreter.env.get_global_function("f"),
        Some(&Value::Function("f".to_string(), vec!["a".to_string()], vec![]))
    );
}
