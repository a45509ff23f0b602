//! Error reports: what a diagnostic says of an error of parsing or of
//! evaluation, where it points, and with which labels.

use vstd::prelude::*;

use crate::ast::expr_view;
use crate::errors::{expected_text, op_text, EvalError};
use crate::lexer::{LexErrorKind, LexerError};
use crate::lines::LinesLexerError;
use crate::parser::Error;
use crate::printing::{
    char_debug, char_debug_text, expr_text, int_text, isize_to_text, join_texts, lemma_join_push, nat_text,
    object_to_text, token_text, usize_to_text, val_text,
};
use crate::span::Span;
use crate::value::{val_view, ventries_view, EnvironmentError, ValueView};

verus! {

/// A diagnostic: the span it points at, a message, labelled spans and notes.
#[derive(Debug)]
pub struct ErrorReport {
    pub span: Span,
    pub message: String,
    pub labels: Vec<(Span, String)>,
    pub notes: Vec<String>,
}

/// A report as the specifications see it.
pub struct ReportView {
    pub span: Span,
    pub message: Seq<char>,
    pub labels: Seq<(Span, Seq<char>)>,
    pub notes: Seq<Seq<char>>,
}

/// The view of a report.
pub open spec fn report_view(r: ErrorReport) -> ReportView {
    ReportView {
        span: r.span,
        message: r.message@,
        labels: r.labels@.map_values(|l: (Span, String)| (l.0, l.1@)),
        notes: r.notes@.map_values(|n: String| n@),
    }
}

/// A report with one label, on the span it points at.
pub open spec fn single_report(span: Span, message: Seq<char>, label: Seq<char>) -> ReportView {
    ReportView { span, message, labels: seq![(span, label)], notes: Seq::empty() }
}

/// A report with two labels; it points at the span of the first.
pub open spec fn double_report(message: Seq<char>, first: (Span, Seq<char>), second: (Span, Seq<char>)) -> ReportView {
    ReportView { span: first.0, message, labels: seq![first, second], notes: Seq::empty() }
}

/// Why the token lexer stopped.
pub open spec fn lex_reason_text(k: LexErrorKind) -> Seq<char> {
    match k {
        LexErrorKind::UnexpectedCharacter(c) => "found "@ + char_debug_text(c),
        LexErrorKind::UnterminatedString => "unterminated string"@,
        LexErrorKind::InvalidEscape(c) => "invalid escape \\"@.push(c),
        LexErrorKind::InvalidNumber => "invalid number"@,
    }
}

/// The indentation widths of an inconsistent line, each as decimal text.
pub open spec fn widths_texts(w: Seq<usize>) -> Seq<Seq<char>> {
    w.map_values(|n: usize| nat_text(n as nat))
}

/// The report of an error of lexing or parsing.
pub open spec fn parse_error_report(e: Error) -> ReportView {
    match e {
        Error::Lexer(LexerError::Lines(LinesLexerError::InconsistentLeadingWhitespace { span, found, expected })) => single_report(
            span,
            "Lexer: Inconsistent leading whitespace"@,
            "Found "@ + nat_text(found as nat) + " spaces, expected one of "@ + join_texts(widths_texts(expected@), ","@)
                + " spaces."@,
        ),
        Error::Lexer(LexerError::Line(l)) => single_report(l.span, "Lexer: Unexpected character"@, lex_reason_text(l.kind)),
        Error::Compiler(c) => single_report(
            c.span,
            "Compiler: Unexpected token"@,
            match c.found {
                Some(t) => "found '"@ + token_text(t@) + "'"@,
                None => "found end of input"@,
            },
        ),
    }
}

/// What an environment error says.
pub open spec fn env_error_text(e: EnvironmentError) -> Seq<char> {
    match e {
        EnvironmentError::InvalidKey { key } => "top level keys of context must follow /[a-zA-Z_][a-zA-Z0-9_]*: `"@ + key@ + "`"@,
        EnvironmentError::InvalidEnvironmentValue { value } => "context value is not an object: "@ + val_text(val_view(value)),
    }
}

/// The report of an error of evaluation.
pub open spec fn eval_error_report(e: EvalError) -> ReportView {
    match e {
        EvalError::Environment { span, source } => single_report(span, "Eval: Environment error"@, env_error_text(source)),
        EvalError::MissingVariable { span, var } => single_report(
            span,
            "Eval: Missing variable"@,
            "Not in environment: "@ + var@,
        ),
        EvalError::CallNonFunction { span, expr } => single_report(
            span,
            "Eval: Tried to call non-function"@,
            "Not a function: "@ + expr_text(expr_view(expr)),
        ),
        EvalError::TypeError { span, expected, got } => single_report(
            span,
            "Eval: Unexpected type"@,
            "Expected: "@ + expected_text(expected) + ", got: "@ + val_text(val_view(got)),
        ),
        EvalError::IndexOutOfBounds { container_span, index_span, index, length } => double_report(
            "Eval: Index out of bounds"@,
            (container_span, "Length: "@ + nat_text(length as nat)),
            (index_span, "Index: "@ + int_text(index as int)),
        ),
        EvalError::KeyNotFound { key_span, key, object_span, object } => double_report(
            "Eval: Key not found"@,
            (object_span, "Object: "@ + val_text(ValueView::Object(ventries_view(object@)))),
            (key_span, "Key: "@ + key@),
        ),
        EvalError::RangeStartGreaterThanOrEqualToEnd { span, start, end } => single_report(
            span,
            "Eval: Range start >= end"@,
            nat_text(start as nat) + " >= "@ + nat_text(end as nat),
        ),
        EvalError::ErrorExpression { span } => single_report(span, "Eval: Expression error"@, "Error"@),
        EvalError::MissingArgument { span, index } => single_report(
            span,
            "Eval: Missing argument"@,
            "No argument at index "@ + nat_text(index as nat),
        ),
        EvalError::BothTagged { left_span, right_span, left_tag, right_tag } => double_report(
            "Eval: Operands with different tags"@,
            (left_span, "Tag: "@ + left_tag@),
            (right_span, "Tag: "@ + right_tag@),
        ),
        EvalError::TaggedOrderingComparison { span, tag } => single_report(
            span,
            "Eval: Ordering comparison of a tagged value"@,
            "Tag: "@ + tag@,
        ),
        EvalError::TaggedStructuralOp { span, tag, op } => single_report(
            span,
            "Eval: Structural operation on a tagged value"@,
            "Cannot "@ + op_text(op) + " a value tagged "@ + tag@,
        ),
    }
}

/// A literal followed by a text.
fn prefixed(prefix: &str, text: &str) -> (s: String)
    ensures
        s@ == prefix@ + text@,
{
    let mut s = String::from_str(prefix);
    s.append(text);
    s
}

fn single(span: &Span, message: &str, label: String) -> (r: ErrorReport)
    ensures
        report_view(r) == single_report(*span, message@, label@),
{
    let ghost label_view = label@;
    let mut labels: Vec<(Span, String)> = Vec::new();
    labels.push((span.copy(), label));
    let r = ErrorReport { span: span.copy(), message: String::from_str(message), labels, notes: Vec::new() };
    assert(report_view(r).labels =~= seq![(*span, label_view)]);
    assert(report_view(r).notes =~= Seq::<Seq<char>>::empty());
    r
}

fn double(message: &str, first_span: &Span, first: String, second_span: &Span, second: String) -> (r: ErrorReport)
    ensures
        report_view(r) == double_report(message@, (*first_span, first@), (*second_span, second@)),
{
    let ghost first_view = first@;
    let ghost second_view = second@;
    let mut labels: Vec<(Span, String)> = Vec::new();
    labels.push((first_span.copy(), first));
    labels.push((second_span.copy(), second));
    let r = ErrorReport { span: first_span.copy(), message: String::from_str(message), labels, notes: Vec::new() };
    assert(report_view(r).labels =~= seq![(*first_span, first_view), (*second_span, second_view)]);
    assert(report_view(r).notes =~= Seq::<Seq<char>>::empty());
    r
}

/// Widths joined by `,`.
fn widths_to_text(widths: &Vec<usize>) -> (s: String)
    ensures
        s@ == join_texts(widths_texts(widths@), ","@),
{
    let mut out = String::new();
    let mut i: usize = 0;
    while i < widths.len()
        invariant
            i <= widths@.len(),
            out@ == join_texts(widths_texts(widths@.take(i as int)), ","@),
        decreases widths.len() - i,
    {
        let t = usize_to_text(widths[i]);
        proof {
            let before = widths@.take(i as int);
            assert(widths_texts(before.push(widths@[i as int])) =~= widths_texts(before).push(t@));
            assert(before.push(widths@[i as int]) =~= widths@.take(i + 1));
            lemma_join_push(widths_texts(before), t@, ","@);
        }
        if i > 0 {
            out.append(",");
        }
        out.append(t.as_str());
        i = i + 1;
    }
    assert(widths@.take(widths@.len() as int) =~= widths@);
    out
}

fn lex_reason(kind: LexErrorKind) -> (s: String)
    ensures
        s@ == lex_reason_text(kind),
{
    match kind {
        LexErrorKind::UnexpectedCharacter(c) => {
            let d = char_debug(c);
            prefixed("found ", d.as_str())
        },
        LexErrorKind::UnterminatedString => String::from_str("unterminated string"),
        LexErrorKind::InvalidEscape(c) => {
            let mut v: Vec<char> = Vec::new();
            v.push(c);
            let t = crate::text::string_from_chars(v);
            proof {
                assert(t@ =~= seq![c]);
            }
            let s = prefixed("invalid escape \\", t.as_str());
            assert(s@ =~= "invalid escape \\"@.push(c));
            s
        },
        LexErrorKind::InvalidNumber => String::from_str("invalid number"),
    }
}

impl EnvironmentError {
    /// What the error says.
    pub fn to_text(&self) -> (s: String)
        ensures
            s@ == env_error_text(*self),
    {
        match self {
            EnvironmentError::InvalidKey { key } => {
                let mut s = prefixed("top level keys of context must follow /[a-zA-Z_][a-zA-Z0-9_]*: `", key.as_str());
                s.append("`");
                s
            },
            EnvironmentError::InvalidEnvironmentValue { value } => {
                let t = value.to_text();
                prefixed("context value is not an object: ", t.as_str())
            },
        }
    }
}

impl ErrorReport {
    /// The report of an error of lexing or parsing: where it is, and what was
    /// found there.
    pub fn from_parse_error(e: &Error) -> (r: ErrorReport)
        ensures
            report_view(r) == parse_error_report(*e),
    {
        match e {
            Error::Lexer(LexerError::Lines(LinesLexerError::InconsistentLeadingWhitespace { span, found, expected })) => {
                let f = usize_to_text(*found);
                let mut l = prefixed("Found ", f.as_str());
                l.append(" spaces, expected one of ");
                let w = widths_to_text(expected);
                l.append(w.as_str());
                l.append(" spaces.");
                single(span, "Lexer: Inconsistent leading whitespace", l)
            },
            Error::Lexer(LexerError::Line(l)) => single(&l.span, "Lexer: Unexpected character", lex_reason(l.kind)),
            Error::Compiler(c) => {
                let label = match &c.found {
                    Some(t) => {
                        let x = t.to_text();
                        let mut s = prefixed("found '", x.as_str());
                        s.append("'");
                        s
                    },
                    None => String::from_str("found end of input"),
                };
                single(&c.span, "Compiler: Unexpected token", label)
            },
        }
    }

    /// The report of an error of evaluation: a message for its kind, and
    /// labels that show the values and names involved.
    pub fn from_eval_error(e: &EvalError) -> (r: ErrorReport)
        ensures
            report_view(r) == eval_error_report(*e),
    {
        match e {
            EvalError::Environment { span, source } => single(span, "Eval: Environment error", source.to_text()),
            EvalError::MissingVariable { span, var } => {
                single(span, "Eval: Missing variable", prefixed("Not in environment: ", var.as_str()))
            },
            EvalError::CallNonFunction { span, expr } => {
                let t = expr.to_text();
                single(span, "Eval: Tried to call non-function", prefixed("Not a function: ", t.as_str()))
            },
            EvalError::TypeError { span, expected, got } => {
                let mut l = prefixed("Expected: ", expected.as_str());
                l.append(", got: ");
                let g = got.to_text();
                l.append(g.as_str());
                single(span, "Eval: Unexpected type", l)
            },
            EvalError::IndexOutOfBounds { container_span, index_span, index, length } => {
                let n = usize_to_text(*length);
                let i = isize_to_text(*index);
                double(
                    "Eval: Index out of bounds",
                    container_span,
                    prefixed("Length: ", n.as_str()),
                    index_span,
                    prefixed("Index: ", i.as_str()),
                )
            },
            EvalError::KeyNotFound { key_span, key, object_span, object } => {
                let o = object_to_text(object);
                double("Eval: Key not found", object_span, prefixed("Object: ", o.as_str()), key_span, prefixed("Key: ", key.as_str()))
            },
            EvalError::RangeStartGreaterThanOrEqualToEnd { span, start, end } => {
                let mut l = usize_to_text(*start);
                l.append(" >= ");
                let t = usize_to_text(*end);
                l.append(t.as_str());
                single(span, "Eval: Range start >= end", l)
            },
            EvalError::ErrorExpression { span } => single(span, "Eval: Expression error", String::from_str("Error")),
            EvalError::MissingArgument { span, index } => {
                let i = usize_to_text(*index);
                single(span, "Eval: Missing argument", prefixed("No argument at index ", i.as_str()))
            },
            EvalError::BothTagged { left_span, right_span, left_tag, right_tag } => double(
                "Eval: Operands with different tags",
                left_span,
                prefixed("Tag: ", left_tag.as_str()),
                right_span,
                prefixed("Tag: ", right_tag.as_str()),
            ),
            EvalError::TaggedOrderingComparison { span, tag } => {
                single(span, "Eval: Ordering comparison of a tagged value", prefixed("Tag: ", tag.as_str()))
            },
            EvalError::TaggedStructuralOp { span, tag, op } => {
                let mut l = prefixed("Cannot ", op.as_str());
                l.append(" a value tagged ");
                l.append(tag.as_str());
                single(span, "Eval: Structural operation on a tagged value", l)
            },
        }
    }
}

} // verus!
