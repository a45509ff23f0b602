use rimu::ast::{BinaryOperator, Block, Expression, SpannedBlock};
use rimu::block_parser::{compile_block, parse_block};
use rimu::number::Number;
use rimu::parser::CompilerError;
use rimu::source::SourceId;
use rimu::span::{Span, Spanned};
use rimu::token::{SpannedToken, Token};

fn span(start: usize, end: usize) -> Span {
    Span::new(SourceId::empty(), start, end)
}

fn test(tokens: Vec<Token>) -> Result<SpannedBlock, CompilerError> {
    let len = tokens.len();
    let spanned: Vec<SpannedToken> = tokens.into_iter().enumerate().map(|(i, t)| Spanned::new(t, span(i, i + 1))).collect();
    compile_block(&spanned, &span(len, len))
}

fn id(name: &str) -> Token {
    Token::Identifier(name.into())
}

fn key(name: &str, start: usize, end: usize) -> Spanned<String> {
    Spanned::new(name.into(), span(start, end))
}

fn ident_block(name: &str, start: usize, end: usize) -> SpannedBlock {
    Spanned::new(Block::Expression(Expression::Identifier(name.into())), span(start, end))
}

#[test]
fn block_object_simple() {
    let actual = test(vec![
        id("a"),
        Token::Colon,
        id("b"),
        Token::EndOfLine,
        id("c"),
        Token::Colon,
        id("d"),
        Token::EndOfLine,
        id("e"),
        Token::Colon,
        id("f"),
        Token::EndOfLine,
    ]);
    let expected = Ok(Spanned::new(
        Block::Object(vec![
            (key("a", 0, 1), ident_block("b", 2, 3)),
            (key("c", 4, 5), ident_block("d", 6, 7)),
            (key("e", 8, 9), ident_block("f", 10, 11)),
        ]),
        span(0, 12),
    ));
    assert_eq!(actual, expected);
}

#[test]
fn block_object_hanging_value() {
    let actual = test(vec![
        id("a"),
        Token::Colon,
        Token::EndOfLine,
        Token::Indent,
        id("b"),
        Token::Colon,
        Token::EndOfLine,
        Token::Indent,
        id("c"),
        Token::EndOfLine,
        Token::Dedent,
        Token::Dedent,
        id("d"),
        Token::Colon,
        id("e"),
        Token::EndOfLine,
    ]);
    let expected = Ok(Spanned::new(
        Block::Object(vec![
            (key("a", 0, 1), Spanned::new(Block::Object(vec![(key("b", 4, 5), ident_block("c", 8, 9))]), span(4, 11))),
            (key("d", 12, 13), ident_block("e", 14, 15)),
        ]),
        span(0, 16),
    ));
    assert_eq!(actual, expected);
}

#[test]
fn lib_block_misc() {
    let (actual, errors) = parse_block(
        "
a:
  b:
    - c + d
    - e: f
  g: h
",
        SourceId::empty(),
    );
    let expected = Some(Spanned::new(
        Block::Object(vec![(
            key("a", 1, 2),
            Spanned::new(
                Block::Object(vec![
                    (
                        key("b", 6, 7),
                        Spanned::new(
                            Block::List(vec![
                                Spanned::new(
                                    Block::Expression(Expression::Binary {
                                        left: Box::new(Spanned::new(Expression::Identifier("c".into()), span(15, 16))),
                                        right: Box::new(Spanned::new(Expression::Identifier("d".into()), span(19, 20))),
                                        operator: BinaryOperator::Add,
                                    }),
                                    span(15, 20),
                                ),
                                Spanned::new(Block::Object(vec![(key("e", 27, 28), ident_block("f", 30, 31))]), span(27, 32)),
                            ]),
                            span(13, 34),
                        ),
                    ),
                    (key("g", 34, 35), ident_block("h", 37, 38)),
                ]),
                span(6, 39),
            ),
        )]),
        span(1, 39),
    ));
    assert_eq!(actual, expected);
    assert_eq!(errors.len(), 0);
}

#[test]
fn block_list_of_objects() {
    let (actual, errors) = parse_block("- a: 1\n  b: 2\n- c: 3\n", SourceId::empty());
    assert_eq!(errors.len(), 0);
    let block = actual.unwrap();
    match block.inner {
        Block::List(items) => {
            assert_eq!(items.len(), 2);
            match &items[0].inner {
                Block::Object(entries) => assert_eq!(entries.len(), 2),
                _ => panic!("expected an object"),
            }
        },
        _ => panic!("expected a list"),
    }
}

#[test]
fn block_if_then_else() {
    let (actual, errors) = parse_block("if ready\nthen go\nelse stay\n", SourceId::empty());
    assert_eq!(errors.len(), 0);
    let expected = Some(Spanned::new(
        Block::If {
            condition: Box::new(ident_block("ready", 3, 8)),
            consequent: Some(Box::new(ident_block("go", 14, 16))),
            alternative: Some(Box::new(ident_block("stay", 22, 26))),
        },
        span(0, 27),
    ));
    assert_eq!(actual, expected);
}

#[test]
fn block_function_and_call() {
    let (actual, errors) = parse_block("(x, y) =>\n  x + y\n", SourceId::empty());
    assert_eq!(errors.len(), 0);
    match actual.unwrap().inner {
        Block::Function { args, body } => {
            assert_eq!(args, vec![key("x", 1, 2), key("y", 4, 5)]);
            assert!(matches!(body.inner, Block::Expression(Expression::Binary { .. })));
        },
        _ => panic!("expected a function"),
    }
    let (actual, errors) = parse_block("f\n  - 1\n  - 2\n", SourceId::empty());
    assert_eq!(errors.len(), 0);
    match actual.unwrap().inner {
        Block::Call { function, args } => {
            assert_eq!(function.inner, Expression::Identifier("f".into()));
            assert!(matches!(args.inner, Block::List(_)));
        },
        _ => panic!("expected a call"),
    }
}

#[test]
fn block_inconsistent_indentation_is_one_error() {
    let (actual, errors) = parse_block("a:\n    b: c\n  d: e\n", SourceId::empty());
    assert_eq!(actual, None);
    assert_eq!(errors.len(), 1);
    assert!(matches!(errors[0], rimu::parser::Error::Lexer(rimu::lexer::LexerError::Lines(_))));
}

#[test]
fn block_unreadable_line_is_an_error() {
    let (actual, errors) = parse_block("a: )\n", SourceId::empty());
    assert_eq!(actual, None);
    assert_eq!(errors.len(), 1);
    assert!(matches!(errors[0], rimu::parser::Error::Compiler(_)));
}

#[test]
fn block_list_simple() {
    //
    // - a
    // - b
    // - c
    //
    let actual = test(vec![
        Token::Dash,
        id("a"),
        Token::EndOfLine,
        Token::Dash,
        id("b"),
        Token::EndOfLine,
        Token::Dash,
        id("c"),
        Token::EndOfLine,
    ]);
    let expected = Ok(Spanned::new(
        Block::List(vec![ident_block("a", 1, 2), ident_block("b", 4, 5), ident_block("c", 7, 8)]),
        span(0, 9),
    ));
    assert_eq!(actual, expected);
}

#[test]
fn block_misc() {
    //
    // a:
    //   b:
    //     - c
    //     - d
    //     - e: f
    //   g: h
    //
    let actual = test(vec![
        id("a"),
        Token::Colon,
        Token::EndOfLine,
        Token::Indent,
        id("b"),
        Token::Colon,
        Token::EndOfLine,
        Token::Indent,
        Token::Dash,
        id("c"),
        Token::EndOfLine,
        Token::Dash,
        id("d"),
        Token::EndOfLine,
        Token::Dash,
        id("e"),
        Token::Colon,
        id("f"),
        Token::EndOfLine,
        Token::Dedent,
        id("g"),
        Token::Colon,
        id("h"),
        Token::EndOfLine,
        Token::Dedent,
    ]);
    let expected = Ok(Spanned::new(
        Block::Object(vec![(
            key("a", 0, 1),
            Spanned::new(
                Block::Object(vec![
                    (
                        key("b", 4, 5),
                        Spanned::new(
                            Block::List(vec![
                                ident_block("c", 9, 10),
                                ident_block("d", 12, 13),
                                Spanned::new(Block::Object(vec![(key("e", 15, 16), ident_block("f", 17, 18))]), span(15, 19)),
                            ]),
                            span(8, 19),
                        ),
                    ),
                    (key("g", 20, 21), ident_block("h", 22, 23)),
                ]),
                span(4, 24),
            ),
        )]),
        span(0, 25),
    ));
    assert_eq!(actual, expected);
}

#[test]
fn block_list_item_object_with_entries_below_the_marker() {
    //
    // - a: 1
    //   c: d
    // - e
    //
    let actual = test(vec![
        Token::Dash,
        id("a"),
        Token::Colon,
        Token::Number(Number::from_i64(1)),
        Token::EndOfLine,
        Token::Indent,
        id("c"),
        Token::Colon,
        id("d"),
        Token::EndOfLine,
        Token::Dedent,
        Token::Dash,
        id("e"),
        Token::EndOfLine,
    ]);
    let expected = Ok(Spanned::new(
        Block::List(vec![
            Spanned::new(
                Block::Object(vec![
                    (key("a", 1, 2), Spanned::new(Block::Expression(Expression::Number(Number::from_i64(1))), span(3, 4))),
                    (key("c", 6, 7), ident_block("d", 8, 9)),
                ]),
                span(0, 11),
            ),
            ident_block("e", 12, 13),
        ]),
        span(0, 14),
    ));
    assert_eq!(actual, expected);
}

#[test]
fn block_list_from_code() {
    let (block, errors) = parse_block("- a\n- b\n", SourceId::empty());
    assert!(errors.is_empty(), "{:?}", errors);
    match block.unwrap().inner {
        Block::List(items) => {
            assert_eq!(items.len(), 2);
            assert_eq!(items[0].inner, Block::Expression(Expression::Identifier("a".into())));
            assert_eq!(items[1].inner, Block::Expression(Expression::Identifier("b".into())));
        },
        other => panic!("{:?}", other),
    }
}

#[test]
fn block_spans_carry_the_source() {
    let (block, errors) = parse_block("a:\n  - 1\n", SourceId::from_string("doc"));
    assert!(errors.is_empty(), "{:?}", errors);
    let block = block.unwrap();
    assert_eq!(block.span.source().as_str(), "doc");
    match block.inner {
        Block::Object(entries) => {
            assert_eq!(entries[0].0.span.source().as_str(), "doc");
            assert_eq!(entries[0].1.span.source().as_str(), "doc");
        },
        other => panic!("{:?}", other),
    }
}
