use rimu::ast::Expression;
use rimu::errors::{EvalError, Expected, StructuralOp};
use rimu::evaluator::try_evaluate;
use rimu::lexer::{LexErrorKind, LexerError, LineLexerError};
use rimu::lines::LinesLexerError;
use rimu::number::Number;
use rimu::parser::{parse_expression, CompilerError, Error};
use rimu::printing::{isize_to_text, usize_to_text};
use rimu::report::ErrorReport;
use rimu::source::SourceId;
use rimu::span::{Span, Spanned};
use rimu::token::Token;
use rimu::value::{Environment, EnvironmentError, Value};

fn span(start: usize, end: usize) -> Span {
    Span::new(SourceId::empty(), start, end)
}

fn labels(r: &ErrorReport) -> Vec<(usize, usize, String)> {
    r.labels.iter().map(|(s, l)| (s.start(), s.end(), l.clone())).collect()
}

#[test]
fn integer_texts() {
    assert_eq!(usize_to_text(0), "0");
    assert_eq!(usize_to_text(7), "7");
    assert_eq!(usize_to_text(1024), "1024");
    assert_eq!(usize_to_text(usize::MAX), usize::MAX.to_string());
    assert_eq!(isize_to_text(-15), "-15");
    assert_eq!(isize_to_text(0), "0");
    assert_eq!(isize_to_text(isize::MIN), isize::MIN.to_string());
}

#[test]
fn report_of_inconsistent_indentation() {
    let e = Error::Lexer(LexerError::Lines(LinesLexerError::InconsistentLeadingWhitespace {
        span: span(4, 7),
        found: 3,
        expected: vec![0, 2, 4],
    }));
    let r = ErrorReport::from_parse_error(&e);
    assert_eq!(r.message, "Lexer: Inconsistent leading whitespace");
    assert_eq!((r.span.start(), r.span.end()), (4, 7));
    assert_eq!(labels(&r), vec![(4, 7, "Found 3 spaces, expected one of 0,2,4 spaces.".to_string())]);
    assert!(r.notes.is_empty());
}

#[test]
fn report_of_unexpected_character() {
    let e = Error::Lexer(LexerError::Line(LineLexerError { kind: LexErrorKind::UnexpectedCharacter('#'), span: span(2, 3) }));
    let r = ErrorReport::from_parse_error(&e);
    assert_eq!(r.message, "Lexer: Unexpected character");
    assert_eq!(labels(&r), vec![(2, 3, "found '#'".to_string())]);
    let e = Error::Lexer(LexerError::Line(LineLexerError { kind: LexErrorKind::InvalidEscape('q'), span: span(0, 2) }));
    assert_eq!(labels(&ErrorReport::from_parse_error(&e)), vec![(0, 2, "invalid escape \\q".to_string())]);
}

#[test]
fn report_of_unexpected_token() {
    let e = Error::Compiler(CompilerError { span: span(1, 2), found: Some(Token::Comma) });
    let r = ErrorReport::from_parse_error(&e);
    assert_eq!(r.message, "Compiler: Unexpected token");
    assert_eq!(labels(&r), vec![(1, 2, "found ','".to_string())]);
    let e = Error::Compiler(CompilerError { span: span(5, 5), found: None });
    assert_eq!(labels(&ErrorReport::from_parse_error(&e)), vec![(5, 5, "found end of input".to_string())]);
}

#[test]
fn report_of_parse_errors_from_code() {
    let (_, errors) = parse_expression("1 +", SourceId::empty());
    assert_eq!(errors.len(), 1);
    let r = ErrorReport::from_parse_error(&errors[0]);
    assert_eq!(r.message, "Compiler: Unexpected token");
    assert_eq!(labels(&r), vec![(3, 3, "found end of input".to_string())]);
}

#[test]
fn report_of_missing_variable() {
    let (expr, _) = parse_expression("x + 1", SourceId::empty());
    let error = try_evaluate(&expr.unwrap(), &Environment::new()).unwrap().unwrap_err();
    let r = ErrorReport::from_eval_error(&error);
    assert_eq!(r.message, "Eval: Missing variable");
    assert_eq!(labels(&r), vec![(0, 1, "Not in environment: x".to_string())]);
}

#[test]
fn report_of_type_error() {
    let e = EvalError::TypeError { span: span(0, 4), expected: Expected::Number, got: Value::String("abc".into()) };
    let r = ErrorReport::from_eval_error(&e);
    assert_eq!(r.message, "Eval: Unexpected type");
    assert_eq!(labels(&r), vec![(0, 4, "Expected: number, got: abc".to_string())]);
}

#[test]
fn report_of_index_out_of_bounds() {
    let e = EvalError::IndexOutOfBounds { container_span: span(0, 3), index_span: span(4, 6), index: -9, length: 3 };
    let r = ErrorReport::from_eval_error(&e);
    assert_eq!(r.message, "Eval: Index out of bounds");
    assert_eq!((r.span.start(), r.span.end()), (0, 3));
    assert_eq!(labels(&r), vec![(0, 3, "Length: 3".to_string()), (4, 6, "Index: -9".to_string())]);
}

#[test]
fn report_of_key_not_found() {
    let object = vec![("a".to_string(), Spanned::new(Value::Number(Number::from_i64(1)), span(0, 0)))];
    let e = EvalError::KeyNotFound { key_span: span(8, 9), key: "b".into(), object_span: span(0, 7), object };
    let r = ErrorReport::from_eval_error(&e);
    assert_eq!(r.message, "Eval: Key not found");
    assert_eq!(labels(&r), vec![(0, 7, "Object: {\"a\": 1}".to_string()), (8, 9, "Key: b".to_string())]);
}

#[test]
fn report_of_other_eval_errors() {
    let r = ErrorReport::from_eval_error(&EvalError::RangeStartGreaterThanOrEqualToEnd { span: span(0, 1), start: 4, end: 2 });
    assert_eq!(labels(&r), vec![(0, 1, "4 >= 2".to_string())]);
    let r = ErrorReport::from_eval_error(&EvalError::ErrorExpression { span: span(0, 1) });
    assert_eq!((r.message.as_str(), labels(&r)), ("Eval: Expression error", vec![(0, 1, "Error".to_string())]));
    let r = ErrorReport::from_eval_error(&EvalError::MissingArgument { span: span(0, 1), index: 2 });
    assert_eq!(labels(&r), vec![(0, 1, "No argument at index 2".to_string())]);
    let r = ErrorReport::from_eval_error(&EvalError::CallNonFunction { span: span(0, 1), expr: Expression::Null });
    assert_eq!(labels(&r), vec![(0, 1, "Not a function: null".to_string())]);
    let r = ErrorReport::from_eval_error(&EvalError::TaggedStructuralOp { span: span(0, 1), tag: "t".into(), op: StructuralOp::KeyAccess });
    assert_eq!(labels(&r), vec![(0, 1, "Cannot key access a value tagged t".to_string())]);
    let r = ErrorReport::from_eval_error(&EvalError::TaggedOrderingComparison { span: span(0, 1), tag: "u".into() });
    assert_eq!(labels(&r), vec![(0, 1, "Tag: u".to_string())]);
    let r = ErrorReport::from_eval_error(&EvalError::BothTagged {
        left_span: span(0, 1),
        right_span: span(4, 5),
        left_tag: "a".into(),
        right_tag: "b".into(),
    });
    assert_eq!(r.message, "Eval: Operands with different tags");
    assert_eq!(labels(&r), vec![(0, 1, "Tag: a".to_string()), (4, 5, "Tag: b".to_string())]);
}

#[test]
fn report_of_environment_errors() {
    let e = EvalError::Environment { span: span(0, 1), source: EnvironmentError::InvalidKey { key: "1x".into() } };
    let r = ErrorReport::from_eval_error(&e);
    assert_eq!(r.message, "Eval: Environment error");
    assert_eq!(labels(&r), vec![(0, 1, "top level keys of context must follow /[a-zA-Z_][a-zA-Z0-9_]*: `1x`".to_string())]);
    let e = EnvironmentError::InvalidEnvironmentValue { value: Value::Boolean(true) };
    assert_eq!(e.to_text(), "context value is not an object: true");
}
