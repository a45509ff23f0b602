use rimu::lines::{tokenize_lines, LinesLexerError, LinesToken};
use rimu::source::SourceId;
use rimu::span::{Span, Spanned};

fn span(start: usize, end: usize) -> Span {
    Span::new(SourceId::empty(), start, end)
}

fn test(code: &str) -> Result<Vec<Spanned<LinesToken>>, LinesLexerError> {
    tokenize_lines(code, SourceId::empty())
}

fn line(s: &str, start: usize, end: usize) -> Spanned<LinesToken> {
    Spanned::new(LinesToken::Line(s.into()), span(start, end))
}

fn tok(t: LinesToken, start: usize, end: usize) -> Spanned<LinesToken> {
    Spanned::new(t, span(start, end))
}

#[test]
fn lines_empty_input() {
    assert_eq!(test(""), Ok(vec![]));
}

#[test]
fn lines_empty_basic_indents() {
    let actual = test(
        "
a:
  b:
    c: d
  e: f
g: h
",
    );
    let expected = Ok(vec![
        line("a:", 1, 3),
        tok(LinesToken::EndOfLine, 3, 4),
        tok(LinesToken::Indent, 4, 6),
        line("b:", 6, 8),
        tok(LinesToken::EndOfLine, 8, 9),
        tok(LinesToken::Indent, 11, 13),
        line("c: d", 13, 17),
        tok(LinesToken::EndOfLine, 17, 18),
        tok(LinesToken::Dedent, 20, 20),
        line("e: f", 20, 24),
        tok(LinesToken::EndOfLine, 24, 25),
        tok(LinesToken::Dedent, 25, 25),
        line("g: h", 25, 29),
        tok(LinesToken::EndOfLine, 29, 30),
    ]);
    assert_eq!(actual, expected);
}

#[test]
fn lines_object_hanging_value() {
    let actual = test(
        "
a:
  b:
    c
d: e
        ",
    );
    let expected = Ok(vec![
        line("a:", 1, 3),
        tok(LinesToken::EndOfLine, 3, 4),
        tok(LinesToken::Indent, 4, 6),
        line("b:", 6, 8),
        tok(LinesToken::EndOfLine, 8, 9),
        tok(LinesToken::Indent, 11, 13),
        line("c", 13, 14),
        tok(LinesToken::EndOfLine, 14, 15),
        tok(LinesToken::Dedent, 15, 15),
        tok(LinesToken::Dedent, 15, 15),
        line("d: e", 15, 19),
        tok(LinesToken::EndOfLine, 19, 20),
    ]);
    assert_eq!(actual, expected);
}

#[test]
fn list_indents() {
    let actual = test(
        "
a:
  - b: c
    d: e
  - f: g
    h: i
j: k
        ",
    );
    let expected = Ok(vec![
        line("a:", 1, 3),
        tok(LinesToken::EndOfLine, 3, 4),
        tok(LinesToken::Indent, 4, 6),
        tok(LinesToken::Dash, 6, 7),
        tok(LinesToken::Indent, 6, 8),
        line("b: c", 8, 12),
        tok(LinesToken::EndOfLine, 12, 13),
        line("d: e", 17, 21),
        tok(LinesToken::EndOfLine, 21, 22),
        tok(LinesToken::Dedent, 24, 24),
        tok(LinesToken::Dash, 24, 25),
        tok(LinesToken::Indent, 24, 26),
        line("f: g", 26, 30),
        tok(LinesToken::EndOfLine, 30, 31),
        line("h: i", 35, 39),
        tok(LinesToken::EndOfLine, 39, 40),
        tok(LinesToken::Dedent, 40, 40),
        tok(LinesToken::Dedent, 40, 40),
        line("j: k", 40, 44),
        tok(LinesToken::EndOfLine, 44, 45),
    ]);
    assert_eq!(actual, expected);
}

#[test]
fn lines_inconsistent_indentation() {
    let actual = test("a:\n    b: c\n  d: e\n");
    let expected = Err(LinesLexerError::InconsistentLeadingWhitespace { span: span(12, 14), found: 2, expected: vec![0, 4] });
    assert_eq!(actual, expected);
}

#[test]
fn lines_dedents_close_at_end() {
    let actual = test("a:\n  b");
    let expected = Ok(vec![
        line("a:", 0, 2),
        tok(LinesToken::EndOfLine, 2, 3),
        tok(LinesToken::Indent, 3, 5),
        line("b", 5, 6),
        tok(LinesToken::EndOfLine, 6, 6),
        tok(LinesToken::Dedent, 6, 6),
    ]);
    assert_eq!(actual, expected);
}

#[test]
fn lines_dash_without_space_is_text() {
    let actual = test("-x\n");
    let expected = Ok(vec![line("-x", 0, 2), tok(LinesToken::EndOfLine, 2, 3)]);
    assert_eq!(actual, expected);
}

#[test]
fn lines_spans_count_bytes() {
    let actual = test("\u{e9}: 1\n  b: 2");
    let expected = Ok(vec![
        line("\u{e9}: 1", 0, 5),
        tok(LinesToken::EndOfLine, 5, 6),
        tok(LinesToken::Indent, 6, 8),
        line("b: 2", 8, 12),
        tok(LinesToken::EndOfLine, 12, 12),
        tok(LinesToken::Dedent, 12, 12),
    ]);
    assert_eq!(actual, expected);
}

#[test]
fn lines_inconsistent_span_counts_bytes() {
    let actual = test("\u{e9}:\n    a: 1\n  b: 2");
    let expected = Err(LinesLexerError::InconsistentLeadingWhitespace {
        span: span(13, 15),
        found: 2,
        expected: vec![0, 4],
    });
    assert_eq!(actual, expected);
}
