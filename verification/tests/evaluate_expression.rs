use rimu::ast::{BinaryOperator, Expression, SpannedExpression};
use rimu::equality::values_equal;
use rimu::errors::{EvalError, StructuralOp};
use rimu::evaluator::evaluate;
use rimu::number::Number;
use rimu::parser::parse_expression;
use rimu::source::SourceId;
use rimu::span::{Span, Spanned};
use rimu::value::{Environment, Function, FunctionBody, SpannedValue, Value};

fn span(start: usize, end: usize) -> Span {
    Span::new(SourceId::empty(), start, end)
}

fn v(value: Value) -> SpannedValue {
    Spanned::new(value, span(0, 0))
}

fn string(s: &str) -> Value {
    Value::String(s.into())
}

fn number(i: i64) -> Value {
    Value::Number(Number::from_i64(i))
}

fn env_of(entries: Vec<(&str, Value)>) -> Environment {
    let mut env = Environment::new();
    for (k, value) in entries {
        env.insert(k.into(), v(value));
    }
    env
}

fn test_expression(expr: SpannedExpression, env: Environment) -> Result<SpannedValue, EvalError> {
    evaluate(&expr, &env)
}

fn test_code(code: &str, env: Environment) -> Result<SpannedValue, EvalError> {
    let (expr, errors) = parse_expression(code, SourceId::empty());
    assert_eq!(errors.len(), 0);
    test_expression(expr.unwrap(), env)
}

fn assert_value(actual: Result<SpannedValue, EvalError>, expected: Value) {
    match actual {
        Ok(value) => assert!(values_equal(&value.inner, &expected), "got {:?}, expected {:?}", value.inner, expected),
        Err(e) => panic!("expected a value, got the error {:?}", e),
    }
}

fn tagged(tag: &str, inner: Value, meta_pairs: Vec<(&str, Value)>) -> Value {
    let meta = meta_pairs.into_iter().map(|(k, value)| (k.to_string(), v(value))).collect();
    Value::Tagged { tag: tag.into(), inner: Box::new(v(inner)), meta }
}

fn host_path_env(abs: &str, origin_dir: &str) -> Vec<(&'static str, Value)> {
    vec![("p", tagged("host_path", string(abs), vec![("origin_dir", string(origin_dir))]))]
}

fn user_fn(arg_names: &[&str], body_code: &str) -> Value {
    let (body, errors) = parse_expression(body_code, SourceId::empty());
    assert_eq!(errors.len(), 0);
    Value::Function(Function {
        args: arg_names.iter().map(|s| s.to_string()).collect(),
        body: FunctionBody::Expression(body.unwrap()),
        env: Environment::new(),
    })
}

#[test]
fn expression_simple_null() {
    assert_value(test_expression(Spanned::new(Expression::Null, span(0, 1)), Environment::new()), Value::Null);
}

#[test]
fn expression_simple_bool() {
    assert_value(test_expression(Spanned::new(Expression::Boolean(false), span(0, 1)), Environment::new()), Value::Boolean(false));
}

#[test]
fn expression_simple_number() {
    let n = Number::from_i64(9001);
    assert_value(test_expression(Spanned::new(Expression::Number(n), span(0, 1)), Environment::new()), Value::Number(n));
}

#[test]
fn expression_simple_list() {
    let expr = Spanned::new(
        Expression::List(vec![
            Spanned::new(Expression::String("hello".into()), span(1, 2)),
            Spanned::new(Expression::Boolean(true), span(3, 4)),
            Spanned::new(Expression::String("world".into()), span(5, 6)),
        ]),
        span(0, 8),
    );
    let expected = Value::List(vec![v(string("hello")), v(Value::Boolean(true)), v(string("world"))]);
    assert_value(test_expression(expr, Environment::new()), expected);
}

#[test]
fn expression_simple_object() {
    let expr = Spanned::new(
        Expression::Object(vec![
            (Spanned::new("a".into(), span(1, 2)), Spanned::new(Expression::String("hello".into()), span(3, 4))),
            (Spanned::new("b".into(), span(5, 6)), Spanned::new(Expression::String("world".into()), span(7, 8))),
        ]),
        span(0, 10),
    );
    let expected = Value::Object(vec![("a".into(), v(string("hello"))), ("b".into(), v(string("world")))]);
    assert_value(test_expression(expr, Environment::new()), expected);
}

#[test]
fn expression_simple_function_call() {
    let add = Value::Function(Function {
        args: vec!["a".into(), "b".into()],
        body: FunctionBody::Expression(Spanned::new(
            Expression::Binary {
                left: Box::new(Spanned::new(Expression::Identifier("a".into()), span(0, 1))),
                operator: BinaryOperator::Add,
                right: Box::new(Spanned::new(Expression::Identifier("b".into()), span(2, 3))),
            },
            span(0, 3),
        )),
        env: Environment::new(),
    });
    let env = env_of(vec![("add", add), ("one", number(1)), ("two", number(2))]);
    let expr = Spanned::new(
        Expression::Call {
            function: Box::new(Spanned::new(Expression::Identifier("add".into()), span(0, 1))),
            args: vec![
                Spanned::new(Expression::Identifier("one".into()), span(2, 3)),
                Spanned::new(Expression::Identifier("two".into()), span(4, 5)),
            ],
        },
        span(0, 7),
    );
    assert_value(test_expression(expr, env), number(3));
}

#[test]
fn expression_arithmetic() {
    let env = env_of(vec![("x", number(10)), ("y", number(20)), ("z", number(40)), ("w", number(80))]);
    assert_value(test_code("x + y * (z / w)", env), number(20));
}

fn letters(n: usize) -> Value {
    let all = ["a", "b", "c", "d", "e"];
    Value::List(all[..n].iter().map(|s| v(string(s))).collect())
}

#[test]
fn get_list_index() {
    assert_value(test_code("list[2]", env_of(vec![("list", letters(4))])), string("c"));
}

#[test]
fn get_list_index_negative() {
    assert_value(test_code("list[-2]", env_of(vec![("list", letters(4))])), string("c"));
}

#[test]
fn expression_get_key() {
    let object = Value::Object(vec![
        ("a".into(), v(string("apple"))),
        ("b".into(), v(string("bear"))),
        ("c".into(), v(string("cranberry"))),
        ("d".into(), v(string("dog"))),
    ]);
    assert_value(test_code("object.a", env_of(vec![("object", object)])), string("apple"));
}

#[test]
fn get_slice_start_end() {
    let env = env_of(vec![("list", letters(5)), ("start", number(1)), ("end", number(3))]);
    assert_value(test_code("list[start:end]", env), Value::List(vec![v(string("b")), v(string("c"))]));
}

#[test]
fn add_preserves_tag() {
    let actual = test_code(r#"p + "/hello""#, env_of(host_path_env("/abs/foo.txt", "/src")));
    let expected = tagged("host_path", string("/abs/foo.txt/hello"), vec![("origin_dir", string("/src"))]);
    assert_value(actual, expected);
}

#[test]
fn mismatched_tags_error() {
    let mut entries = host_path_env("/abs/a", "/src");
    entries.push(("q", tagged("target_path", string("/abs/b"), vec![("origin_dir", string("/src"))])));
    let actual = test_code("p + q", env_of(entries));
    assert!(matches!(actual, Err(EvalError::BothTagged { .. })));
}

#[test]
fn same_tag_merges_meta() {
    let a = tagged("secret", string("user:"), vec![("source", string("env"))]);
    let b = tagged("secret", string("hunter2"), vec![("name", string("password"))]);
    let actual = test_code("a + b", env_of(vec![("a", a), ("b", b)]));
    let expected = tagged("secret", string("user:hunter2"), vec![("source", string("env")), ("name", string("password"))]);
    assert_value(actual, expected);
}

#[test]
fn same_tag_meta_right_wins_on_collision() {
    let a = tagged("secret", string("a"), vec![("source", string("left"))]);
    let b = tagged("secret", string("b"), vec![("source", string("right"))]);
    let actual = test_code("a + b", env_of(vec![("a", a), ("b", b)]));
    assert_value(actual, tagged("secret", string("ab"), vec![("source", string("right"))]));
}

#[test]
fn ordering_on_tagged_errors() {
    let actual = test_code(r#"p < "z""#, env_of(host_path_env("/abs/a", "/src")));
    assert!(matches!(actual, Err(EvalError::TaggedOrderingComparison { .. })));
}

#[test]
fn ordering_on_tagged_right_errors() {
    let actual = test_code(r#""z" < p"#, env_of(host_path_env("/abs/a", "/src")));
    assert!(matches!(actual, Err(EvalError::TaggedOrderingComparison { .. })));
}

#[test]
fn unary_negate_preserves_tag() {
    let actual = test_code("-n", env_of(vec![("n", tagged("host_path", number(5), vec![]))]));
    assert_value(actual, tagged("host_path", number(-5), vec![]));
}

#[test]
fn unary_not_preserves_tag() {
    let actual = test_code("!p", env_of(host_path_env("/abs/a", "/src")));
    assert_value(actual, tagged("host_path", Value::Boolean(false), vec![("origin_dir", string("/src"))]));
}

#[test]
fn and_short_circuit_on_left_false_keeps_left_tag() {
    let left = tagged("host_path", Value::Boolean(false), vec![("origin_dir", string("/src"))]);
    let actual = test_code("left && true", env_of(vec![("left", left)]));
    assert_value(actual, tagged("host_path", Value::Boolean(false), vec![("origin_dir", string("/src"))]));
}

#[test]
fn and_evaluated_right_carries_right_tag() {
    let right = tagged("host_path", Value::Boolean(true), vec![("origin_dir", string("/src"))]);
    let actual = test_code("true && right", env_of(vec![("right", right)]));
    assert_value(actual, tagged("host_path", Value::Boolean(true), vec![("origin_dir", string("/src"))]));
}

#[test]
fn and_merges_matching_tag_metas() {
    let left = tagged("secret", Value::Boolean(true), vec![("source", string("env"))]);
    let right = tagged("secret", Value::Boolean(true), vec![("name", string("password"))]);
    let actual = test_code("a && b", env_of(vec![("a", left), ("b", right)]));
    let expected = tagged("secret", Value::Boolean(true), vec![("source", string("env")), ("name", string("password"))]);
    assert_value(actual, expected);
}

#[test]
fn and_mismatched_tags_error_when_right_evaluated() {
    let left = tagged("host_path", Value::Boolean(true), vec![]);
    let right = tagged("secret", Value::Boolean(true), vec![]);
    let actual = test_code("a && b", env_of(vec![("a", left), ("b", right)]));
    assert!(matches!(actual, Err(EvalError::BothTagged { .. })));
}

#[test]
fn or_short_circuit_on_left_true_keeps_left_tag() {
    let left = tagged("host_path", Value::Boolean(true), vec![("origin_dir", string("/src"))]);
    let actual = test_code("left || false", env_of(vec![("left", left)]));
    assert_value(actual, tagged("host_path", Value::Boolean(true), vec![("origin_dir", string("/src"))]));
}

#[test]
fn slice_on_tagged_errors() {
    let actual = test_code("p[0:2]", env_of(host_path_env("/abs/a", "/src")));
    assert!(matches!(actual, Err(EvalError::TaggedStructuralOp { op: StructuralOp::Slice, .. })));
}

#[test]
fn equality_respects_meta() {
    let build = |origin: &str| tagged("host_path", string("/same/path"), vec![("origin_dir", string(origin))]);
    let actual = test_code("a == b", env_of(vec![("a", build("/root-a")), ("b", build("/root-b"))]));
    assert_value(actual, Value::Boolean(false));
    let actual = test_code("a == c", env_of(vec![("a", build("/root-a")), ("b", build("/root-b")), ("c", build("/root-a"))]));
    assert_value(actual, Value::Boolean(true));
}

#[test]
fn index_on_tagged_errors() {
    let actual = test_code("p[0]", env_of(host_path_env("/abs/a", "/src")));
    assert!(matches!(actual, Err(EvalError::TaggedStructuralOp { op: StructuralOp::Index, .. })));
}

#[test]
fn key_on_tagged_errors() {
    let actual = test_code("p.x", env_of(host_path_env("/abs/a", "/src")));
    assert!(matches!(actual, Err(EvalError::TaggedStructuralOp { op: StructuralOp::KeyAccess, .. })));
}

#[test]
fn user_fn_propagates_single_tagged_arg() {
    let mut entries = host_path_env("/abs/a", "/src");
    entries.push(("append_bang", user_fn(&["x"], r#"x + "!""#)));
    let actual = test_code("append_bang(p)", env_of(entries));
    assert_value(actual, tagged("host_path", string("/abs/a!"), vec![("origin_dir", string("/src"))]));
}

#[test]
fn user_fn_merges_matching_tag_metas() {
    let a = tagged("secret", string("user:"), vec![("source", string("env"))]);
    let b = tagged("secret", string("hunter2"), vec![("name", string("password"))]);
    let actual = test_code("concat(a, b)", env_of(vec![("a", a), ("b", b), ("concat", user_fn(&["x", "y"], "x + y"))]));
    let expected = tagged("secret", string("user:hunter2"), vec![("source", string("env")), ("name", string("password"))]);
    assert_value(actual, expected);
}

#[test]
fn user_fn_errors_on_mismatched_tags() {
    let a = tagged("host_path", string("/a"), vec![]);
    let b = tagged("target_path", string("/b"), vec![]);
    let actual = test_code("concat(a, b)", env_of(vec![("a", a), ("b", b), ("concat", user_fn(&["x", "y"], "x + y"))]));
    assert!(matches!(actual, Err(EvalError::BothTagged { .. })));
}

#[test]
fn results_carry_the_expression_span_and_source() {
    let source = SourceId::from_string("main");
    let (expr, errors) = parse_expression("x + 1", source.copy());
    assert!(errors.is_empty());
    let expr = expr.unwrap();
    let env = env_of(vec![("x", number(2))]);
    let value = evaluate(&expr, &env).unwrap();
    assert_eq!(value.span, Span::new(source.copy(), 0, 5));
    let (ident, _) = parse_expression("x", source.copy());
    let value = evaluate(&ident.unwrap(), &env).unwrap();
    assert_eq!(value.span, Span::new(source, 0, 1));
}

#[test]
fn spans_inside_results_keep_the_source() {
    let source = SourceId::from_string("main");
    let (expr, errors) = parse_expression("[x, 1 + 2]", source.copy());
    assert!(errors.is_empty());
    let mut env = Environment::new();
    env.insert("x".into(), Spanned::new(number(5), Span::new(source.copy(), 0, 1)));
    let value = evaluate(&expr.unwrap(), &env).unwrap();
    assert_eq!(value.span.source(), source.copy());
    match &value.inner {
        Value::List(items) => {
            assert_eq!(items.len(), 2);
            for item in items {
                assert_eq!(item.span.source(), source.copy());
            }
            assert_eq!(items[0].span, Span::new(source.copy(), 1, 2));
            assert_eq!(items[1].span, Span::new(source.copy(), 4, 9));
        }
        other => panic!("unexpected value {:?}", other),
    }
    let (bad, _) = parse_expression("y", source.copy());
    match evaluate(&bad.unwrap(), &env) {
        Err(EvalError::MissingVariable { span, .. }) => assert_eq!(span, Span::new(source, 0, 1)),
        other => panic!("unexpected result {:?}", other),
    }
}
