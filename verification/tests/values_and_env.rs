use rimu::ast::{Expression, Precedence};
use rimu::equality::values_equal;
use rimu::errors::{EvalError, Expected};
use rimu::evaluator::{evaluate, try_evaluate, MAX_CALL_DEPTH};
use rimu::identifier::is_identifier;
use rimu::number::Number;
use rimu::parser::parse_expression;
use rimu::source::SourceId;
use rimu::span::{Span, Spanned};
use rimu::value::{value_get_in, Environment, EnvironmentError, Function, FunctionBody, SpannedValue, Value};

fn span(start: usize, end: usize) -> Span {
    Span::new(SourceId::empty(), start, end)
}

fn v(value: Value) -> SpannedValue {
    Spanned::new(value, span(0, 0))
}

fn number(i: i64) -> Value {
    Value::Number(Number::from_i64(i))
}

fn run(code: &str, env: &Environment) -> Option<Result<SpannedValue, EvalError>> {
    let (expr, errors) = parse_expression(code, SourceId::empty());
    assert_eq!(errors.len(), 0, "{:?}", errors);
    try_evaluate(&expr.unwrap(), env)
}

fn value_of(code: &str, env: &Environment) -> Value {
    match run(code, env) {
        Some(Ok(v)) => v.inner,
        other => panic!("{} gave {:?}", code, other),
    }
}

#[test]
fn env_insert_then_get() {
    let mut env = Environment::new();
    env.insert("a".into(), v(number(1)));
    env.insert("b".into(), v(number(2)));
    env.insert("a".into(), v(number(3)));
    assert!(values_equal(&env.get("a").unwrap().inner, &number(3)));
    assert!(values_equal(&env.get("b").unwrap().inner, &number(2)));
    assert!(env.get("c").is_none());
    let entries = env.iter();
    assert_eq!(entries.len(), 2);
    assert_eq!(entries[0].0, "a");
}

#[test]
fn env_child_sees_and_shadows_parent() {
    let mut parent = Environment::new();
    parent.insert("a".into(), v(number(1)));
    parent.insert("b".into(), v(number(2)));
    let mut child = Environment::child(parent);
    child.insert("a".into(), v(number(10)));
    assert!(values_equal(&child.get("a").unwrap().inner, &number(10)));
    assert!(values_equal(&child.get("b").unwrap().inner, &number(2)));
    let entries = child.iter();
    assert_eq!(entries.len(), 3);
}

#[test]
fn env_from_object_checks_keys() {
    let ok = Environment::from_object(&vec![("a_1".into(), v(number(1)))], None).unwrap();
    assert!(values_equal(&ok.get("a_1").unwrap().inner, &number(1)));
    match Environment::from_object(&vec![("1a".into(), v(number(1)))], None) {
        Err(EnvironmentError::InvalidKey { key }) => assert_eq!(key, "1a"),
        other => panic!("unexpected {:?}", other),
    }
    assert!(matches!(
        Environment::from_value(&number(1), None),
        Err(EnvironmentError::InvalidEnvironmentValue { .. })
    ));
}

#[test]
fn identifier_pattern() {
    assert_eq!(is_identifier("_hello_1"), Some(true));
    assert_eq!(is_identifier("hello world"), Some(false));
    assert_eq!(is_identifier("9lives"), Some(false));
    assert_eq!(is_identifier(""), Some(false));
}

#[test]
fn env_get_in_nested_objects() {
    let inner = Value::Object(vec![("b".into(), v(Value::Object(vec![("c".into(), v(number(7)))])))]);
    let mut env = Environment::new();
    env.insert("a".into(), v(inner));
    let found = env.get_in(&vec!["a".into(), "b".into(), "c".into()]).unwrap();
    assert!(values_equal(&found.inner, &number(7)));
    assert!(env.get_in(&vec!["a".into(), "x".into()]).is_none());
    assert!(env.get_in(&vec![]).is_none());
    let top = env.get("a").unwrap();
    assert!(value_get_in(top, &vec!["b".into(), "c".into()]).is_some());
}

#[test]
fn truthiness_of_values() {
    let env = Environment::new();
    assert!(values_equal(&value_of("!null", &env), &Value::Boolean(true)));
    assert!(values_equal(&value_of("!0", &env), &Value::Boolean(false)));
    assert!(values_equal(&value_of("!\"\"", &env), &Value::Boolean(false)));
    assert!(values_equal(&value_of("!false", &env), &Value::Boolean(true)));
    assert!(values_equal(&value_of("[] || 1", &env), &Value::Boolean(true)));
}

#[test]
fn short_circuit_skips_the_right_operand() {
    let env = Environment::new();
    assert!(values_equal(&value_of("false && missing", &env), &Value::Boolean(false)));
    assert!(values_equal(&value_of("true || missing", &env), &Value::Boolean(true)));
    assert!(matches!(run("true && missing", &env), Some(Err(EvalError::MissingVariable { .. }))));
}

#[test]
fn number_formulas() {
    let env = Environment::new();
    assert!(values_equal(&value_of("7 % 3", &env), &number(1)));
    assert!(values_equal(&value_of("1.5 * 2", &env), &number(3)));
    assert!(values_equal(&value_of("10 / 4", &env), &Value::Number(Number::from_parts(25, 1).unwrap())));
    assert!(values_equal(&value_of("1 - 3", &env), &number(-2)));
    assert!(values_equal(&value_of("2 >= 2", &env), &Value::Boolean(true)));
    assert!(values_equal(&value_of("1.0 == 1", &env), &Value::Boolean(true)));
    assert!(values_equal(&value_of("true ^ false", &env), &Value::Boolean(true)));
    assert_eq!(Number::from_parts(25, 1).unwrap().to_text(), "2.5");
    assert_eq!(Number::parse("-0.50").map(|n| (n.mantissa(), n.scale())), Some((-50, 2)));
}

#[test]
fn division_by_zero_has_no_value() {
    let env = Environment::new();
    assert!(run("1 / 0", &env).is_none());
    assert!(run("1 % 0", &env).is_none());
}

#[test]
fn strings_and_lists() {
    let env = Environment::new();
    assert!(values_equal(&value_of("\"ab\" + \"cd\"", &env), &Value::String("abcd".into())));
    assert!(values_equal(&value_of("\"hello\"[1]", &env), &Value::String("e".into())));
    assert!(values_equal(&value_of("\"hello\"[1:3]", &env), &Value::String("el".into())));
    assert!(values_equal(&value_of("\"hello\"[:2]", &env), &Value::String("he".into())));
    // Strings are indexed and sliced by the bytes of their UTF-8 encoding.
    assert!(values_equal(&value_of("\"h\u{e9}llo\"[1]", &env), &Value::String("\u{e9}".into())));
    assert!(values_equal(&value_of("\"h\u{e9}llo\"[3]", &env), &Value::String("l".into())));
    assert!(values_equal(&value_of("\"h\u{e9}llo\"[-1]", &env), &Value::String("o".into())));
    assert!(values_equal(&value_of("\"h\u{e9}llo\"[0:3]", &env), &Value::String("h\u{e9}".into())));
    assert!(values_equal(&value_of("\"h\u{e9}llo\"[3:]", &env), &Value::String("llo".into())));
    assert!(run("\"h\u{e9}llo\"[2]", &env).is_none());
    assert!(run("\"h\u{e9}llo\"[0:2]", &env).is_none());
    assert!(values_equal(&value_of("[1, 2] + [3]", &env), &Value::List(vec![v(number(1)), v(number(2)), v(number(3))])));
    assert!(values_equal(&value_of("[1, 2, 3][1:]", &env), &Value::List(vec![v(number(2)), v(number(3))])));
    assert!(values_equal(&value_of("{a: 1, b: 2} == {b: 2, a: 1}", &env), &Value::Boolean(true)));
    assert!(values_equal(&value_of("{a: 1}[\"a\"]", &env), &number(1)));
}

#[test]
fn evaluation_errors() {
    let env = Environment::new();
    match run("[1, 2][2]", &env) {
        Some(Err(EvalError::IndexOutOfBounds { index, length, .. })) => {
            assert_eq!(index, 2);
            assert_eq!(length, 2);
        },
        other => panic!("unexpected {:?}", other),
    }
    assert!(matches!(run("[1, 2][-2]", &env), Some(Err(EvalError::IndexOutOfBounds { .. }))));
    assert!(matches!(run("[1, 2, 3][2:1]", &env), Some(Err(EvalError::RangeStartGreaterThanOrEqualToEnd { start: 2, end: 1, .. }))));
    assert!(matches!(run("[1][0.5]", &env), Some(Err(EvalError::TypeError { expected: Expected::Integer, .. }))));
    assert!(matches!(run("[1][\"x\"]", &env), Some(Err(EvalError::TypeError { expected: Expected::Number, .. }))));
    assert!(matches!(run("{a: 1}.b", &env), Some(Err(EvalError::KeyNotFound { .. }))));
    assert!(matches!(run("1 + \"a\"", &env), Some(Err(EvalError::TypeError { expected: Expected::Number, .. }))));
    assert!(matches!(run("null + 1", &env), Some(Err(EvalError::TypeError { expected: Expected::NumberStringList, .. }))));
    assert!(matches!(run("1.a", &env), Some(Err(EvalError::TypeError { expected: Expected::Object, .. }))));
    assert!(matches!(run("1[0]", &env), Some(Err(EvalError::TypeError { expected: Expected::ListStringObject, .. }))));
    assert!(matches!(run("1(2)", &env), Some(Err(EvalError::CallNonFunction { .. }))));
    assert!(matches!(run("x", &env), Some(Err(EvalError::MissingVariable { .. }))));
    assert!(matches!(run("-true", &env), Some(Err(EvalError::TypeError { expected: Expected::Number, .. }))));
    assert!(matches!(run("1 < true", &env), Some(Err(EvalError::TypeError { .. }))));
    assert!(matches!(run("true ^ 1", &env), Some(Err(EvalError::TypeError { expected: Expected::Boolean, .. }))));
    assert!(matches!(run("{a: 1}[1]", &env), Some(Err(EvalError::TypeError { expected: Expected::String, .. }))));
    assert!(matches!(run("1[0:1]", &env), Some(Err(EvalError::TypeError { expected: Expected::List, .. }))));
    assert_eq!(Expected::ListStringObject.as_str(), "list | string | object");
}

#[test]
fn error_expression_and_missing_argument() {
    let env = Environment::new();
    let r = evaluate(&Spanned::new(Expression::Error, span(0, 1)), &env);
    assert!(matches!(r, Err(EvalError::ErrorExpression { .. })));
    let (body, _) = parse_expression("a + b", SourceId::empty());
    let f = Value::Function(Function { args: vec!["a".into(), "b".into()], body: FunctionBody::Expression(body.unwrap()), env: Environment::new() });
    let mut env = Environment::new();
    env.insert("f".into(), v(f));
    match run("f(1)", &env) {
        Some(Err(EvalError::MissingArgument { index, .. })) => assert_eq!(index, 1),
        other => panic!("unexpected {:?}", other),
    }
}

#[test]
fn calls_nest_without_a_depth_limit() {
    // `apply(g, x)` calls `g(x)`: forty nested applications of the identity.
    let (body, _) = parse_expression("g(x)", SourceId::empty());
    let apply = Value::Function(Function {
        args: vec!["g".into(), "x".into()],
        body: FunctionBody::Expression(body.unwrap()),
        env: Environment::new(),
    });
    let mut env = Environment::new();
    env.insert("apply".into(), v(apply));
    env.insert("id".into(), v(value_of("(y) => y", &Environment::new())));
    let mut code = String::from("7");
    for _ in 0..40 {
        code = format!("apply(id, {})", code);
    }
    assert!(MAX_CALL_DEPTH == usize::MAX);
    assert!(values_equal(&value_of(&code, &env), &number(7)));
}

#[test]
fn precedence_next_cycles() {
    assert_eq!(Precedence::Lowest.next(), Precedence::Or);
    assert_eq!(Precedence::Call.next(), Precedence::Primary);
    assert_eq!(Precedence::Primary.next(), Precedence::Lowest);
}

#[test]
fn source_ids() {
    assert_eq!(SourceId::empty().as_str(), "");
    assert_eq!(SourceId::default().as_str(), "");
    assert_eq!(SourceId::repl().as_str(), "repl");
    assert_eq!(SourceId::from_path("a/b.rimu").as_str(), "ab.rimu");
    assert_eq!(SourceId::from_string("x").to_path(), std::path::PathBuf::from("x"));
}

#[test]
fn span_union_covers_both() {
    let u = span(3, 5).union(span(1, 4));
    assert_eq!((u.start(), u.end()), (1, 5));
    assert_eq!(span(2, 6).len(), 4);
    assert!(span(2, 2).is_empty());
}

#[test]
fn functions_close_over_their_environment() {
    let mut env = Environment::new();
    env.insert("n".into(), v(number(10)));
    assert!(values_equal(&value_of("((x) => x + n)(2)", &env), &number(12)));
    assert!(values_equal(&value_of("((a, b,) => a * b)(3, 4)", &env), &number(12)));
    assert!(values_equal(&value_of("(() => n)()", &env), &number(10)));
    assert!(values_equal(&value_of("(n)", &env), &number(10)));
}

#[test]
fn equal_functions() {
    let env = Environment::new();
    assert!(values_equal(&value_of("[(x) => x] == [(x) => x]", &env), &Value::Boolean(false)));
    let mut env = Environment::new();
    env.insert("f".into(), v(value_of("(x) => x", &Environment::new())));
    assert!(values_equal(&value_of("f == f", &env), &Value::Boolean(true)));
}

#[test]
fn every_value_equals_itself() {
    let mut env = Environment::new();
    env.insert("o".into(), v(value_of("{ a: [1, 2.50, \"s\"], b: { c: null, d: true } }", &Environment::new())));
    env.insert("f".into(), v(value_of("(x) => x", &env)));
    for code in ["o == o", "o.a == o.a", "o.b == o.b", "f == f", "null == null", "[] == []", "{} == {}"] {
        assert!(values_equal(&value_of(code, &env), &Value::Boolean(true)), "{}", code);
    }
    let o = env.get("o").unwrap();
    assert!(values_equal(&o.inner, &o.inner));
}

#[test]
fn equality_is_symmetric_and_transitive() {
    let env = Environment::new();
    let a = value_of("{ a: 1, b: [2.0] }", &env);
    let b = value_of("{ b: [2], a: 1.00 }", &env);
    let c = value_of("{ a: 1.0, b: [2.00] }", &env);
    assert!(values_equal(&a, &b));
    assert!(values_equal(&b, &a));
    assert!(values_equal(&b, &c));
    assert!(values_equal(&a, &c));
    let d = value_of("{ a: 1, b: [3] }", &env);
    assert!(!values_equal(&a, &d));
    assert!(!values_equal(&d, &a));
}

#[test]
fn object_literal_keeps_each_key_once() {
    let env = Environment::new();
    match value_of("{ a: 1, b: 2, a: 3 }", &env) {
        Value::Object(entries) => {
            assert_eq!(entries.len(), 2);
            assert_eq!(entries[0].0, "a");
            assert!(values_equal(&entries[0].1.inner, &number(3)));
            assert_eq!(entries[1].0, "b");
        },
        other => panic!("{:?}", other),
    }
}

#[test]
fn source_id_paths_hold_the_identifier_text() {
    let id = SourceId::from_string("dir/file.rimu");
    assert_eq!(id.to_path().to_str(), Some("dir/file.rimu"));
    assert_eq!(id.into_path().to_str(), Some("dir/file.rimu"));
    assert_eq!(SourceId::empty().into_path().to_str(), Some(""));
}

#[test]
fn negating_zero_gives_negative_zero() {
    let env = Environment::new();
    let z = value_of("-0", &env);
    assert_eq!(z.to_text(), "-0");
    assert!(values_equal(&z, &number(0)));
    assert_eq!(value_of("--0", &env).to_text(), "0");
    assert_eq!(value_of("-1.50", &env).to_text(), "-1.50");
}

#[test]
fn value_get_in_along_joined_paths() {
    let inner = Spanned::new(
        Value::Object(vec![("b".to_string(), Spanned::new(Value::Boolean(true), Span::new(SourceId::empty(), 0, 0)))]),
        Span::new(SourceId::empty(), 0, 0),
    );
    let outer = Spanned::new(Value::Object(vec![("a".to_string(), inner)]), Span::new(SourceId::empty(), 0, 0));
    let empty: Vec<String> = vec![];
    assert_eq!(rimu::value::value_get_in(&outer, &empty).map(|v| v.span.clone()), Some(outer.span.clone()));
    let first = rimu::value::value_get_in(&outer, &vec!["a".to_string()]).unwrap();
    let joined = rimu::value::value_get_in(&outer, &vec!["a".to_string(), "b".to_string()]).unwrap();
    let stepwise = rimu::value::value_get_in(first, &vec!["b".to_string()]).unwrap();
    assert!(matches!(joined.inner, Value::Boolean(true)));
    assert!(matches!(stepwise.inner, Value::Boolean(true)));
    let leaf = Spanned::new(Value::Null, Span::new(SourceId::empty(), 0, 0));
    assert!(rimu::value::value_get_in(&leaf, &vec!["a".to_string()]).is_none());
}
