use rimu::block_parser::parse_block;
use rimu::equality::values_equal;
use rimu::errors::EvalError;
use rimu::evaluator::{evaluate_block, try_evaluate_block};
use rimu::number::Number;
use rimu::source::SourceId;
use rimu::span::{Span, Spanned};
use rimu::value::{EnvironmentError, Environment, SpannedValue, Value};

fn v(value: Value) -> SpannedValue {
    Spanned::new(value, Span::new(SourceId::empty(), 0, 0))
}

fn number(i: i64) -> Value {
    Value::Number(Number::from_i64(i))
}

fn env_of(entries: Vec<(&str, Value)>) -> Environment {
    let mut env = Environment::new();
    for (k, value) in entries {
        env.insert(k.into(), v(value));
    }
    env
}

fn test_code(code: &str, env: Environment) -> Result<SpannedValue, EvalError> {
    let (block, errors) = parse_block(code, SourceId::empty());
    assert_eq!(errors.len(), 0, "{:?}", errors);
    evaluate_block(&block.unwrap(), &env)
}

fn assert_value(actual: Result<SpannedValue, EvalError>, expected: Value) {
    match actual {
        Ok(value) => assert!(values_equal(&value.inner, &expected), "got {:?}, expected {:?}", value.inner, expected),
        Err(e) => panic!("expected a value, got the error {:?}", e),
    }
}

#[test]
fn block_op_if() {
    let code = "
zero:
  if ten > five
  then five
  else ten
";
    let actual = test_code(code, env_of(vec![("five", number(5)), ("ten", number(10))]));
    assert_value(actual, Value::Object(vec![("zero".into(), v(number(5)))]));
}

#[test]
fn block_op_let() {
    let code = "
zero:
  let
    one: ten
    two: 2
  in
    three: one + two
";
    let actual = test_code(code, env_of(vec![("ten", number(10))]));
    let expected = Value::Object(vec![("zero".into(), v(Value::Object(vec![("three".into(), v(number(12)))])))]);
    assert_value(actual, expected);
}

#[test]
fn block_nulls_are_left_out() {
    let code = "
a: null
b:
  - 1
  - null
  - 2
";
    let actual = test_code(code, Environment::new());
    let expected = Value::Object(vec![("b".into(), v(Value::List(vec![v(number(1)), v(number(2))])))]);
    assert_value(actual, expected);
}

#[test]
fn block_if_without_else_is_null() {
    let actual = test_code("x:\n  if false\n  then 1\ny: 2\n", Environment::new());
    assert_value(actual, Value::Object(vec![("y".into(), v(number(2)))]));
}

#[test]
fn block_function_call_spreads_a_list() {
    let code = "
add:
  (a, b) =>
    a + b
";
    let defs = test_code(code, Environment::new()).unwrap();
    let add = match defs.inner {
        Value::Object(mut entries) => entries.remove(0).1.inner,
        other => panic!("expected an object, got {:?}", other),
    };
    let actual = test_code("add\n  - 1\n  - 2\n", env_of(vec![("add", add)]));
    assert_value(actual, number(3));
}

#[test]
fn block_let_refuses_a_key_that_is_not_an_identifier() {
    let actual = test_code("let\n  \"not ok\": 1\nin\n  2\n", Environment::new());
    match actual {
        Err(EvalError::Environment { source: EnvironmentError::InvalidKey { key }, .. }) => assert_eq!(key, "not ok"),
        other => panic!("expected an environment error, got {:?}", other),
    }
}

#[test]
fn block_call_of_non_function_is_an_error() {
    let actual = test_code("x 1\n", env_of(vec![("x", number(1))]));
    assert!(matches!(actual, Err(EvalError::CallNonFunction { .. })));
}

#[test]
fn block_try_evaluate_gives_the_same_result() {
    let (block, _) = parse_block("a: 1 + 2\n", SourceId::empty());
    let r = try_evaluate_block(&block.unwrap(), &Environment::new());
    match r {
        Some(Ok(value)) => assert!(values_equal(&value.inner, &Value::Object(vec![("a".into(), v(number(3)))]))),
        other => panic!("unexpected {:?}", other),
    }
}
