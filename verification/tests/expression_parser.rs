use rimu::ast::{BinaryOperator, Expression, SpannedExpression, UnaryOperator};
use rimu::number::Number;
use rimu::parser::{compile_expression, parse_expression, CompilerError};
use rimu::source::SourceId;
use rimu::span::{Span, Spanned};
use rimu::token::{SpannedToken, Token};

fn span(start: usize, end: usize) -> Span {
    Span::new(SourceId::empty(), start, end)
}

fn num(i: i64) -> Number {
    Number::from_i64(i)
}

fn test(tokens: Vec<Token>) -> Result<SpannedExpression, CompilerError> {
    let len = tokens.len();
    let spanned: Vec<SpannedToken> = tokens.into_iter().enumerate().map(|(i, t)| Spanned::new(t, span(i, i + 1))).collect();
    compile_expression(&spanned, &span(len, len))
}

fn ident(name: &str, start: usize, end: usize) -> SpannedExpression {
    Spanned::new(Expression::Identifier(name.into()), span(start, end))
}

fn number(i: i64, start: usize, end: usize) -> SpannedExpression {
    Spanned::new(Expression::Number(num(i)), span(start, end))
}

#[test]
fn compiler_empty_input() {
    assert!(test(vec![]).is_err());
}

#[test]
fn compiler_simple_null() {
    assert_eq!(test(vec![Token::Null]), Ok(Spanned::new(Expression::Null, span(0, 1))));
}

#[test]
fn compiler_simple_bool() {
    assert_eq!(test(vec![Token::Boolean(false)]), Ok(Spanned::new(Expression::Boolean(false), span(0, 1))));
}

#[test]
fn compiler_simple_number() {
    assert_eq!(test(vec![Token::Number(num(9001))]), Ok(number(9001, 0, 1)));
}

#[test]
fn compiler_simple_list() {
    let actual = test(vec![
        Token::LeftBrack,
        Token::String("hello".into()),
        Token::Comma,
        Token::Boolean(true),
        Token::Comma,
        Token::String("world".into()),
        Token::Comma,
        Token::RightBrack,
    ]);
    let expected = Ok(Spanned::new(
        Expression::List(vec![
            Spanned::new(Expression::String("hello".into()), span(1, 2)),
            Spanned::new(Expression::Boolean(true), span(3, 4)),
            Spanned::new(Expression::String("world".into()), span(5, 6)),
        ]),
        span(0, 8),
    ));
    assert_eq!(actual, expected);
}

#[test]
fn compiler_simple_object() {
    let actual = test(vec![
        Token::LeftBrace,
        Token::Identifier("a".into()),
        Token::Colon,
        Token::String("hello".into()),
        Token::Comma,
        Token::Identifier("b".into()),
        Token::Colon,
        Token::String("world".into()),
        Token::Comma,
        Token::RightBrace,
    ]);
    let expected = Ok(Spanned::new(
        Expression::Object(vec![
            (Spanned::new("a".into(), span(1, 2)), Spanned::new(Expression::String("hello".into()), span(3, 4))),
            (Spanned::new("b".into(), span(5, 6)), Spanned::new(Expression::String("world".into()), span(7, 8))),
        ]),
        span(0, 10),
    ));
    assert_eq!(actual, expected);
}

#[test]
fn expression_group() {
    let actual = test(vec![Token::LeftParen, Token::Boolean(true), Token::RightParen]);
    assert_eq!(actual, Ok(Spanned::new(Expression::Boolean(true), span(0, 3))));
}

#[test]
fn compiler_simple_function_call() {
    let actual = test(vec![
        Token::Identifier("add".into()),
        Token::LeftParen,
        Token::Identifier("a".into()),
        Token::Comma,
        Token::Identifier("b".into()),
        Token::Comma,
        Token::RightParen,
    ]);
    let expected = Ok(Spanned::new(
        Expression::Call { function: Box::new(ident("add", 0, 1)), args: vec![ident("a", 2, 3), ident("b", 4, 5)] },
        span(0, 7),
    ));
    assert_eq!(actual, expected);
}

#[test]
fn negate_number() {
    let actual = test(vec![Token::Dash, Token::Number(num(1))]);
    let expected = Ok(Spanned::new(
        Expression::Unary { operator: UnaryOperator::Negate, right: Box::new(number(1, 1, 2)) },
        span(0, 2),
    ));
    assert_eq!(actual, expected);
}

#[test]
fn add_numbers() {
    let actual = test(vec![Token::Number(num(1)), Token::Plus, Token::Number(num(1))]);
    let expected = Ok(Spanned::new(
        Expression::Binary { left: Box::new(number(1, 0, 1)), operator: BinaryOperator::Add, right: Box::new(number(1, 2, 3)) },
        span(0, 3),
    ));
    assert_eq!(actual, expected);
}

#[test]
fn precedence_multiply_addition() {
    let actual = test(vec![Token::Number(num(1)), Token::Plus, Token::Number(num(2)), Token::Star, Token::Number(num(3))]);
    let expected = Ok(Spanned::new(
        Expression::Binary {
            left: Box::new(number(1, 0, 1)),
            operator: BinaryOperator::Add,
            right: Box::new(Spanned::new(
                Expression::Binary { left: Box::new(number(2, 2, 3)), operator: BinaryOperator::Multiply, right: Box::new(number(3, 4, 5)) },
                span(2, 5),
            )),
        },
        span(0, 5),
    ));
    assert_eq!(actual, expected);
}

#[test]
fn get_index() {
    let actual = test(vec![Token::Identifier("a".into()), Token::LeftBrack, Token::Number(num(1)), Token::RightBrack]);
    let expected = Ok(Spanned::new(
        Expression::GetIndex { container: Box::new(ident("a", 0, 1)), index: Box::new(number(1, 2, 3)) },
        span(0, 4),
    ));
    assert_eq!(actual, expected);
}

#[test]
fn compiler_get_key() {
    let actual = test(vec![Token::Identifier("a".into()), Token::Dot, Token::Identifier("b".into())]);
    let expected = Ok(Spanned::new(
        Expression::GetKey { container: Box::new(ident("a", 0, 1)), key: Spanned::new("b".into(), span(2, 3)) },
        span(0, 3),
    ));
    assert_eq!(actual, expected);
}

#[test]
fn get_slice() {
    let actual = test(vec![
        Token::Identifier("a".into()),
        Token::LeftBrack,
        Token::Number(num(1)),
        Token::Colon,
        Token::Number(num(2)),
        Token::RightBrack,
    ]);
    let expected = Ok(Spanned::new(
        Expression::GetSlice {
            container: Box::new(ident("a", 0, 1)),
            start: Some(Box::new(number(1, 2, 3))),
            end: Some(Box::new(number(2, 4, 5))),
        },
        span(0, 6),
    ));
    assert_eq!(actual, expected);
}

fn arithmetic_expected() -> Option<SpannedExpression> {
    Some(Spanned::new(
        Expression::Binary {
            left: Box::new(ident("x", 0, 1)),
            right: Box::new(Spanned::new(
                Expression::Binary {
                    left: Box::new(ident("y", 4, 5)),
                    right: Box::new(Spanned::new(
                        Expression::Binary { left: Box::new(ident("z", 9, 10)), right: Box::new(ident("w", 13, 14)), operator: BinaryOperator::Divide },
                        span(8, 15),
                    )),
                    operator: BinaryOperator::Multiply,
                },
                span(4, 15),
            )),
            operator: BinaryOperator::Add,
        },
        span(0, 15),
    ))
}

#[test]
fn expr_arithmetic() {
    let (actual, errors) = parse_expression("x + y * (z / w)", SourceId::empty());
    assert_eq!(actual, arithmetic_expected());
    assert_eq!(errors.len(), 0);
}

#[test]
fn lib_arithmetic() {
    let (actual, errors) = parse_expression("x + y * (z / w)", SourceId::empty());
    assert_eq!(actual, arithmetic_expected());
    assert_eq!(errors.len(), 0);
}

#[test]
fn lib_empty_input() {
    let (actual, errors) = parse_expression("", SourceId::empty());
    assert_eq!(actual, None);
    assert!(errors.len() > 0);
}

#[test]
fn parse_error_points_at_the_token() {
    let (actual, errors) = parse_expression("1 + + 2", SourceId::empty());
    assert_eq!(actual, None);
    assert_eq!(errors.len(), 1);
    match &errors[0] {
        rimu::parser::Error::Compiler(e) => {
            assert_eq!(e.span, span(4, 5));
            assert_eq!(e.found, Some(Token::Plus));
        },
        _ => panic!("expected a compiler error"),
    }
}

#[test]
fn parse_postfix_chain() {
    let (actual, errors) = parse_expression("a.b[0](c)", SourceId::empty());
    assert_eq!(errors.len(), 0);
    let expected = Some(Spanned::new(
        Expression::Call {
            function: Box::new(Spanned::new(
                Expression::GetIndex {
                    container: Box::new(Spanned::new(
                        Expression::GetKey { container: Box::new(ident("a", 0, 1)), key: Spanned::new("b".into(), span(2, 3)) },
                        span(0, 3),
                    )),
                    index: Box::new(number(0, 4, 5)),
                },
                span(0, 6),
            )),
            args: vec![ident("c", 7, 8)],
        },
        span(0, 9),
    ));
    assert_eq!(actual, expected);
}

#[test]
fn parse_function_expression() {
    let (actual, errors) = parse_expression("(a, b) => a + b", SourceId::empty());
    assert_eq!(errors.len(), 0);
    let expected = Some(Spanned::new(
        Expression::Function {
            args: vec![Spanned::new("a".into(), span(1, 2)), Spanned::new("b".into(), span(4, 5))],
            body: Box::new(Spanned::new(
                Expression::Binary { left: Box::new(ident("a", 10, 11)), right: Box::new(ident("b", 14, 15)), operator: BinaryOperator::Add },
                span(10, 15),
            )),
        },
        span(0, 15),
    ));
    assert_eq!(actual, expected);
}

#[test]
fn parsed_spans_carry_the_source() {
    let (expr, errors) = parse_expression("a + [b]", SourceId::from_string("file.rimu"));
    assert!(errors.is_empty());
    let expr = expr.unwrap();
    assert_eq!(expr.span.source().as_str(), "file.rimu");
    match expr.inner {
        Expression::Binary { left, right, .. } => {
            assert_eq!(left.span.source().as_str(), "file.rimu");
            assert_eq!(right.span.source().as_str(), "file.rimu");
        },
        other => panic!("{:?}", other),
    }
    let (_, errors) = parse_expression("a +", SourceId::from_string("g"));
    match &errors[0] {
        rimu::parser::Error::Compiler(c) => assert_eq!(c.span.source().as_str(), "g"),
        other => panic!("{:?}", other),
    }
}

#[test]
fn errors_at_the_end_carry_the_given_end_span() {
    let tokens: Vec<SpannedToken> = vec![Spanned::new(Token::Plus, span(0, 1))];
    let eoi = Span::new(SourceId::from_string("f"), 4, 9);
    let r = compile_expression(&vec![Spanned::new(Token::Number(num(1)), span(0, 1)), Spanned::new(Token::Plus, span(1, 2))], &eoi);
    match r {
        Err(e) => {
            assert_eq!(e.found, None);
            assert_eq!(e.span, eoi);
        },
        other => panic!("{:?}", other),
    }
    assert!(compile_expression(&tokens, &eoi).is_err());
}
