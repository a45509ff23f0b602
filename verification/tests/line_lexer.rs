use rimu::lexer::{tokenize_line, LineLexerError};
use rimu::number::Number;
use rimu::source::SourceId;
use rimu::span::{Span, Spanned};
use rimu::token::{SpannedToken, Token};
use rust_decimal::prelude::FromPrimitive;
use rust_decimal::Decimal;
use std::f64::consts::PI;

fn span(start: usize, end: usize) -> Span {
    Span::new(SourceId::empty(), start, end)
}

fn num(d: Decimal) -> Number {
    Number::from_parts(d.mantissa(), d.scale()).unwrap()
}

fn test(code: &str) -> Result<Vec<SpannedToken>, Vec<LineLexerError>> {
    let (tokens, errors) = tokenize_line(code, SourceId::empty());
    if errors.is_empty() {
        Ok(tokens.unwrap())
    } else {
        Err(errors)
    }
}

#[test]
fn line_empty_input() {
    assert_eq!(test(""), Ok(vec![]));
}

#[test]
fn line_simple_null() {
    assert_eq!(test("null"), Ok(vec![Spanned::new(Token::Null, span(0, 4))]));
}

#[test]
fn line_simple_bool() {
    assert_eq!(test("true"), Ok(vec![Spanned::new(Token::Boolean(true), span(0, 4))]));
}

#[test]
fn line_simple_integer() {
    let expected = Ok(vec![Spanned::new(Token::Number(num(Decimal::from_u64(9001).unwrap())), span(0, 4))]);
    assert_eq!(test("9001"), expected);
}

#[test]
fn line_simple_float() {
    let expected = Ok(vec![Spanned::new(Token::Number(num(Decimal::from_f64(PI).unwrap())), span(0, 17))]);
    assert_eq!(test("3.141592653589793"), expected);
}

#[test]
fn line_simple_string() {
    let expected = Ok(vec![Spanned::new(Token::String(String::from("Hello World")), span(0, 13))]);
    assert_eq!(test("\"Hello World\""), expected);
}

#[test]
fn line_multiple_tokens() {
    let one = num(Decimal::from_u8(1).unwrap());
    let expected = Ok(vec![
        Spanned::new(Token::Number(one), span(0, 1)),
        Spanned::new(Token::Plus, span(2, 3)),
        Spanned::new(Token::Number(one), span(4, 5)),
    ]);
    assert_eq!(test("1 + 1"), expected);
}

#[test]
fn line_var_name_underscore() {
    let expected = Ok(vec![
        Spanned::new(Token::LeftParen, span(0, 1)),
        Spanned::new(Token::Identifier(String::from("_SOME_VAR1")), span(1, 11)),
        Spanned::new(Token::Star, span(12, 13)),
        Spanned::new(Token::Identifier(String::from("ANOTHER_ONE")), span(14, 25)),
        Spanned::new(Token::RightParen, span(25, 26)),
    ]);
    assert_eq!(test("(_SOME_VAR1 * ANOTHER_ONE)"), expected);
}

#[test]
fn identifier_not_keyword_prefix() {
    let expected = Ok(vec![Spanned::new(Token::Identifier(String::from("install")), span(0, 7))]);
    assert_eq!(test("install"), expected);
}

#[test]
fn keyword_in() {
    assert_eq!(test("in"), Ok(vec![Spanned::new(Token::In, span(0, 2))]));
}

#[test]
fn line_unterminated_less() {
    assert_eq!(test("<"), Ok(vec![Spanned::new(Token::Less, span(0, 1))]));
}

fn test_number(input: &str, expected: f64) {
    let expected = Ok(vec![Spanned::new(Token::Number(num(Decimal::from_f64(expected).unwrap())), span(0, input.len()))]);
    assert_eq!(test(input), expected);
}

#[test]
fn line_number_parts() {
    test_number("10", 10.0);
    test_number("10.0", 10.0);
    test_number("20.4", 20.4);
}

#[test]
fn line_err_unknown_token_1() {
    assert!(test("^&").is_err());
}

#[test]
fn line_err_unterminated_string() {
    assert!(test("\"hello\" + \"world").is_err());
}

#[test]
fn comment_only() {
    assert_eq!(test("# just a comment"), Ok(vec![]));
}

#[test]
fn comment_after_tokens() {
    let one = num(Decimal::from_u8(1).unwrap());
    let expected = Ok(vec![
        Spanned::new(Token::Number(one), span(0, 1)),
        Spanned::new(Token::Plus, span(2, 3)),
        Spanned::new(Token::Number(one), span(4, 5)),
    ]);
    assert_eq!(test("1 + 1 # add one and one"), expected);
}

#[test]
fn comment_before_tokens() {
    assert_eq!(test("# leading comment"), Ok(vec![]));
}

#[test]
fn dollar_starts_an_identifier() {
    let expected = Ok(vec![Spanned::new(Token::Identifier(String::from("$hello")), span(0, 6))]);
    assert_eq!(test("$hello"), expected);
}

#[test]
fn lexer_empty_input() {
    assert_eq!(test(""), Ok(vec![]));
}

#[test]
fn lexer_simple_null() {
    assert_eq!(test("null"), Ok(vec![Spanned::new(Token::Null, span(0, 4))]));
}

#[test]
fn lexer_simple_bool() {
    assert_eq!(test("true"), Ok(vec![Spanned::new(Token::Boolean(true), span(0, 4))]));
}

#[test]
fn lexer_simple_integer() {
    let expected = Ok(vec![Spanned::new(Token::Number(num(Decimal::from_u64(9001).unwrap())), span(0, 4))]);
    assert_eq!(test("9001"), expected);
}

#[test]
fn lexer_simple_float() {
    let expected = Ok(vec![Spanned::new(Token::Number(num(Decimal::from_f64(PI).unwrap())), span(0, 17))]);
    assert_eq!(test("3.141592653589793"), expected);
}

#[test]
fn lexer_simple_string() {
    let expected = Ok(vec![Spanned::new(Token::String(String::from("Hello World")), span(0, 13))]);
    assert_eq!(test("\"Hello World\""), expected);
}

#[test]
fn lexer_multiple_tokens() {
    let one = num(Decimal::from_u8(1).unwrap());
    let expected = Ok(vec![
        Spanned::new(Token::Number(one), span(0, 1)),
        Spanned::new(Token::Plus, span(2, 3)),
        Spanned::new(Token::Number(one), span(4, 5)),
    ]);
    assert_eq!(test("1 + 1"), expected);
}

#[test]
fn lexer_var_name_underscore() {
    let expected = Ok(vec![
        Spanned::new(Token::LeftParen, span(0, 1)),
        Spanned::new(Token::Identifier(String::from("_SOME_VAR1")), span(1, 11)),
        Spanned::new(Token::Star, span(12, 13)),
        Spanned::new(Token::Identifier(String::from("ANOTHER_ONE")), span(14, 25)),
        Spanned::new(Token::RightParen, span(25, 26)),
    ]);
    assert_eq!(test("(_SOME_VAR1 * ANOTHER_ONE)"), expected);
}

#[test]
fn lexer_unterminated_less() {
    assert_eq!(test("<"), Ok(vec![Spanned::new(Token::Less, span(0, 1))]));
}

#[test]
fn lexer_number_parts() {
    test_number("10", 10.0);
    test_number("10.0", 10.0);
    test_number("20.4", 20.4);
}

#[test]
fn lexer_err_unterminated_string() {
    assert!(test("\"hello\" + \"world").is_err());
}

#[test]
fn lexer_keywords_and_operators() {
    let expected = Ok(vec![
        Spanned::new(Token::If, span(0, 2)),
        Spanned::new(Token::Identifier(String::from("a")), span(3, 4)),
        Spanned::new(Token::GreaterEqual, span(5, 7)),
        Spanned::new(Token::Identifier(String::from("b")), span(8, 9)),
        Spanned::new(Token::And, span(10, 12)),
        Spanned::new(Token::Not, span(13, 14)),
        Spanned::new(Token::Identifier(String::from("c")), span(14, 15)),
        Spanned::new(Token::FatArrow, span(16, 18)),
    ]);
    assert_eq!(test("if a >= b && !c =>"), expected);
}

#[test]
fn lexer_string_escapes() {
    let expected = Ok(vec![Spanned::new(Token::String(String::from("a\"b\n")), span(0, 8))]);
    assert_eq!(test("\"a\\\"b\\n\""), expected);
}

fn block(code: &str) -> (Option<Vec<SpannedToken>>, Vec<rimu::lexer::LexerError>) {
    rimu::lexer::tokenize_block(code, SourceId::empty())
}

#[test]
fn block_spans_count_bytes() {
    let (tokens, errors) = block("x: \"\u{e9}\"\ny: 1");
    assert!(errors.is_empty());
    let expected = vec![
        Spanned::new(Token::Identifier("x".into()), span(0, 1)),
        Spanned::new(Token::Colon, span(1, 2)),
        Spanned::new(Token::String("\u{e9}".into()), span(3, 6)),
        Spanned::new(Token::EndOfLine, span(7, 8)),
        Spanned::new(Token::Identifier("y".into()), span(8, 9)),
        Spanned::new(Token::Colon, span(9, 10)),
        Spanned::new(Token::Number(Number::from_i64(1)), span(11, 12)),
        Spanned::new(Token::EndOfLine, span(12, 12)),
    ];
    assert_eq!(tokens, Some(expected));
}

#[test]
fn block_error_at_line_end_counts_bytes() {
    let (tokens, errors) = block("x: \"\u{e9}");
    assert!(tokens.is_some());
    assert_eq!(errors.len(), 2);
    match &errors[0] {
        rimu::lexer::LexerError::Line(e) => {
            assert_eq!(e.kind, rimu::lexer::LexErrorKind::UnterminatedString);
            assert_eq!(e.span, span(6, 6));
        }
        other => panic!("unexpected error {:?}", other),
    }
    match &errors[1] {
        rimu::lexer::LexerError::Line(e) => {
            assert_eq!(e.kind, rimu::lexer::LexErrorKind::UnexpectedCharacter('\u{e9}'));
            assert_eq!(e.span, span(4, 5));
        }
        other => panic!("unexpected error {:?}", other),
    }
}
