use rimu::ast::{BinaryOperator, UnaryOperator};
use rimu::evaluator::try_evaluate;
use rimu::number::Number;
use rimu::parser::parse_expression;
use rimu::printing::object_to_text;
use rimu::source::SourceId;
use rimu::span::{Span, Spanned};
use rimu::token::Token;
use rimu::value::{Environment, Function, FunctionBody, SpannedValue, Value};

fn span(start: usize, end: usize) -> Span {
    Span::new(SourceId::empty(), start, end)
}

fn v(value: Value) -> SpannedValue {
    Spanned::new(value, span(0, 0))
}

fn expression_text(code: &str) -> String {
    let (expr, errors) = parse_expression(code, SourceId::empty());
    assert!(errors.is_empty(), "{:?}", errors);
    expr.unwrap().inner.to_text()
}

fn value_of(code: &str) -> Value {
    let (expr, errors) = parse_expression(code, SourceId::empty());
    assert!(errors.is_empty());
    try_evaluate(&expr.unwrap(), &Environment::new()).unwrap().unwrap().inner
}

#[test]
fn token_texts() {
    assert_eq!(Token::Null.to_text(), "null");
    assert_eq!(Token::Boolean(true).to_text(), "true");
    assert_eq!(Token::Boolean(false).to_text(), "false");
    assert_eq!(Token::String("hi".into()).to_text(), "hi");
    assert_eq!(Token::Identifier("x".into()).to_text(), "x");
    assert_eq!(Token::Number(Number::from_parts(1025, 2).unwrap()).to_text(), "10.25");
    assert_eq!(Token::Indent.to_text(), "  ");
    assert_eq!(Token::Dedent.to_text(), "");
    assert_eq!(Token::EndOfLine.to_text(), "\n");
    assert_eq!(Token::LeftBrace.to_text(), "{");
    assert_eq!(Token::RightBrace.to_text(), "}");
    assert_eq!(Token::FatArrow.to_text(), "=>");
    assert_eq!(Token::GreaterEqual.to_text(), ">=");
    assert_eq!(Token::NotEqual.to_text(), "!=");
    assert_eq!(Token::And.to_text(), "&&");
    assert_eq!(Token::Or.to_text(), "||");
    assert_eq!(Token::Rem.to_text(), "%");
}

#[test]
fn invalid_token_shows_quoted_character() {
    assert_eq!(Token::Invalid('a').to_text(), "'a'");
    assert_eq!(Token::Invalid('\n').to_text(), "'\\n'");
}

#[test]
fn operator_texts() {
    assert_eq!(UnaryOperator::Negate.to_text(), "-");
    assert_eq!(UnaryOperator::Not.to_text(), "!");
    assert_eq!(BinaryOperator::Add.to_text(), "+");
    assert_eq!(BinaryOperator::Divide.to_text(), "/");
    assert_eq!(BinaryOperator::LessEqual.to_text(), "<=");
    assert_eq!(BinaryOperator::Equal.to_text(), "==");
    assert_eq!(BinaryOperator::Xor.to_text(), "^");
}

#[test]
fn expression_texts_of_literals() {
    assert_eq!(expression_text("null"), "null");
    assert_eq!(expression_text("true"), "true");
    assert_eq!(expression_text("\"hello\""), "\"hello\"");
    assert_eq!(expression_text("3.50"), "3.50");
    assert_eq!(expression_text("[1, 2, 3]"), "[1, 2, 3]");
    assert_eq!(expression_text("[]"), "[]");
    assert_eq!(expression_text("{ a: 1, b: \"x\" }"), "{\"a\": 1, \"b\": \"x\"}");
}

#[test]
fn expression_texts_of_operations() {
    assert_eq!(expression_text("1 + 2 * 3"), "1 + 2 * 3");
    assert_eq!(expression_text("-x"), "-x");
    assert_eq!(expression_text("!a && b"), "!a && b");
    assert_eq!(expression_text("f(1, y)"), "f(1, y)");
    assert_eq!(expression_text("a[0]"), "a[0]");
    assert_eq!(expression_text("a.b"), "a.b");
    assert_eq!(expression_text("a[1:2]"), "a[1:2]");
    assert_eq!(expression_text("a[:2]"), "a[:2]");
    assert_eq!(expression_text("a[1:]"), "a[1:]");
    assert_eq!(expression_text("(x, y) => x + y"), "(x, y) => x + y");
}

#[test]
fn value_texts() {
    assert_eq!(Value::Null.to_text(), "null");
    assert_eq!(Value::Boolean(false).to_text(), "false");
    assert_eq!(Value::String("plain".into()).to_text(), "plain");
    assert_eq!(Value::Number(Number::from_i64(-7)).to_text(), "-7");
    assert_eq!(value_of("[1, \"a\", null]").to_text(), "[1, a, null]");
    assert_eq!(value_of("{ a: [true], b: {} }").to_text(), "{\"a\": [true], \"b\": {}}");
    assert_eq!(value_of("(x, y) => x").to_text(), "(x, y) => ...");
}

#[test]
fn tagged_value_shows_inner_value() {
    let tagged = Value::Tagged { tag: "t".into(), inner: Box::new(v(Value::Number(Number::from_i64(5)))), meta: vec![] };
    assert_eq!(tagged.to_text(), "5");
}

#[test]
fn object_text_of_entries() {
    let entries = vec![("k".to_string(), v(Value::Boolean(true))), ("l".to_string(), v(Value::Null))];
    assert_eq!(object_to_text(&entries), "{\"k\": true, \"l\": null}");
    assert_eq!(object_to_text(&vec![]), "{}");
}

#[test]
fn function_value_text_lists_arguments() {
    let (expr, _) = parse_expression("1", SourceId::empty());
    let f = Function { args: vec!["a".into()], body: FunctionBody::Expression(expr.unwrap()), env: Environment::new() };
    assert_eq!(Value::Function(f).to_text(), "(a) => ...");
}

#[test]
fn displayed_tokens_lex_back() {
    let tokens = vec![
        Token::Null,
        Token::Boolean(false),
        Token::If,
        Token::In,
        Token::FatArrow,
        Token::GreaterEqual,
        Token::Greater,
        Token::NotEqual,
        Token::Dash,
        Token::Rem,
        Token::Identifier("abc_1".into()),
        Token::Identifier("$x".into()),
    ];
    for t in tokens {
        let text = t.to_text();
        let n = text.chars().count();
        let (lexed, errors) = rimu::lexer::tokenize_line(&text, SourceId::empty());
        assert!(errors.is_empty());
        assert_eq!(lexed, Some(vec![Spanned::new(t, span(0, n))]));
    }
}
