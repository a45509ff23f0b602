//! The token lexer: turns the characters of a line (or of an expression)
//! into tokens.

use vstd::prelude::*;

use crate::number::{decimal_from_str, Number};
use crate::source::SourceId;
use crate::span::{Span, Spanned};
use crate::text::{chars_of, string_from_chars};
use crate::token::{tokens_view, SpannedToken, Token, TokenView};
use crate::lines::{self, LinesLexerError, LinesMark, LinesToken, MarkSpan};

verus! {

/// Why a character could not start or finish a token.
#[derive(Clone, Copy, Debug, PartialEq, Eq)]
pub enum LexErrorKind {
    /// No token starts with this character.
    UnexpectedCharacter(char),
    /// A string literal has no closing quote.
    UnterminatedString,
    /// A backslash in a string literal is followed by this character, which
    /// makes no escape.
    InvalidEscape(char),
    /// `Decimal::from_str` refused the digits of a number literal.
    InvalidNumber,
}

/// An error of the token lexer, with the span of the characters it concerns.
#[derive(Clone, Debug, PartialEq, Eq)]
pub struct LineLexerError {
    pub kind: LexErrorKind,
    pub span: Span,
}

/// An error in the specification: its kind, start and end.
pub type LexErrorView = (LexErrorKind, int, int);

/// The characters that `char::is_whitespace` accepts: those with the Unicode
/// `White_Space` property.
pub open spec fn is_whitespace(c: char) -> bool {
    let u = c as u32;
    (0x09 <= u <= 0x0D) || u == 0x20 || u == 0x85 || u == 0xA0 || u == 0x1680 || (0x2000 <= u <= 0x200A)
        || u == 0x2028 || u == 0x2029 || u == 0x202F || u == 0x205F || u == 0x3000
}

pub open spec fn is_digit(c: char) -> bool {
    '0' <= c <= '9'
}

pub open spec fn is_alpha(c: char) -> bool {
    ('a' <= c <= 'z') || ('A' <= c <= 'Z')
}

/// A character that can start an identifier.
pub open spec fn is_ident_start(c: char) -> bool {
    is_alpha(c) || c == '_' || c == '$'
}

/// A character that can continue an identifier.
pub open spec fn is_ident_rest(c: char) -> bool {
    is_alpha(c) || is_digit(c) || c == '_'
}

/// The end of a comment whose text starts at `p`: the next line break, or `to`.
pub open spec fn comment_end(s: Seq<char>, p: int, to: int) -> int
    decreases to - p,
{
    if p >= to {
        to
    } else if s[p] == '\n' || s[p] == '\r' {
        p
    } else {
        comment_end(s, p + 1, to)
    }
}

pub proof fn lemma_comment_end(s: Seq<char>, p: int, to: int)
    requires
        p <= to,
    ensures
        p <= comment_end(s, p, to) <= to,
    decreases to - p,
{
    if p < to && !(s[p] == '\n' || s[p] == '\r') {
        lemma_comment_end(s, p + 1, to);
    }
}

/// The first position at or after `p` that is neither whitespace nor inside
/// a comment (`#` to the end of the line).
pub open spec fn padding_end(s: Seq<char>, p: int, to: int) -> int
    decreases to - p,
{
    if p >= to {
        p
    } else if is_whitespace(s[p]) {
        padding_end(s, p + 1, to)
    } else if s[p] == '#' {
        proof {
            lemma_comment_end(s, p + 1, to);
        }
        padding_end(s, comment_end(s, p + 1, to), to)
    } else {
        p
    }
}

pub proof fn lemma_padding_end(s: Seq<char>, p: int, to: int)
    requires
        p <= to,
    ensures
        p <= padding_end(s, p, to) <= to,
        padding_end(s, p, to) < to ==> !is_whitespace(s[padding_end(s, p, to)]) && s[padding_end(s, p, to)] != '#',
    decreases to - p,
{
    if p < to {
        if is_whitespace(s[p]) {
            lemma_padding_end(s, p + 1, to);
        } else if s[p] == '#' {
            lemma_comment_end(s, p + 1, to);
            lemma_padding_end(s, comment_end(s, p + 1, to), to);
        }
    }
}

/// The first position at or after `p` that holds no digit, or `to`.
pub open spec fn digits_end(s: Seq<char>, p: int, to: int) -> int
    decreases to - p,
{
    if p >= to || !is_digit(s[p]) {
        p
    } else {
        digits_end(s, p + 1, to)
    }
}

pub proof fn lemma_digits_end(s: Seq<char>, p: int, to: int)
    requires
        p <= to,
    ensures
        p <= digits_end(s, p, to) <= to,
    decreases to - p,
{
    if p < to && is_digit(s[p]) {
        lemma_digits_end(s, p + 1, to);
    }
}

/// The first position at or after `p` that cannot continue an identifier, or `to`.
pub open spec fn ident_end(s: Seq<char>, p: int, to: int) -> int
    decreases to - p,
{
    if p >= to || !is_ident_rest(s[p]) {
        p
    } else {
        ident_end(s, p + 1, to)
    }
}

pub proof fn lemma_ident_end(s: Seq<char>, p: int, to: int)
    requires
        p <= to,
    ensures
        p <= ident_end(s, p, to) <= to,
    decreases to - p,
{
    if p < to && is_ident_rest(s[p]) {
        lemma_ident_end(s, p + 1, to);
    }
}

/// The character that an escape `\c` in a string literal stands for.
pub open spec fn escape_char(c: char) -> Option<char> {
    if c == '\\' {
        Some('\\')
    } else if c == '/' {
        Some('/')
    } else if c == '"' {
        Some('"')
    } else if c == 'b' {
        Some('\x08')
    } else if c == 'f' {
        Some('\x0C')
    } else if c == 'n' {
        Some('\n')
    } else if c == 'r' {
        Some('\r')
    } else if c == 't' {
        Some('\t')
    } else {
        None
    }
}

/// The rest of a string literal from `p` (after the opening quote), with the
/// text read so far in `acc`: the text and the position after the closing
/// quote, or the error.
pub open spec fn scan_string(s: Seq<char>, p: int, to: int, acc: Seq<char>) -> Result<(Seq<char>, int), LexErrorView>
    decreases to - p,
{
    if p >= to {
        Err((LexErrorKind::UnterminatedString, p, p))
    } else if s[p] == '"' {
        Ok((acc, p + 1))
    } else if s[p] == '\\' {
        if p + 1 >= to {
            Err((LexErrorKind::UnterminatedString, p, p + 1))
        } else {
            match escape_char(s[p + 1]) {
                Some(e) => scan_string(s, p + 2, to, acc.push(e)),
                None => Err((LexErrorKind::InvalidEscape(s[p + 1]), p, p + 2)),
            }
        }
    } else {
        scan_string(s, p + 1, to, acc.push(s[p]))
    }
}

/// How a character is written inside a string literal: a quote, a backslash
/// and the control characters backspace, form feed, newline, carriage return
/// and tab as a backslash and a letter, a solidus as a backslash and a
/// solidus where `slash` says so; any other character as itself.
pub open spec fn quote_char(c: char, slash: bool) -> Seq<char> {
    if c == '/' && slash {
        seq!['\\', '/']
    } else if c == '"' {
        seq!['\\', '"']
    } else if c == '\\' {
        seq!['\\', '\\']
    } else if c == '\u{8}' {
        seq!['\\', 'b']
    } else if c == '\u{c}' {
        seq!['\\', 'f']
    } else if c == '\n' {
        seq!['\\', 'n']
    } else if c == '\r' {
        seq!['\\', 'r']
    } else if c == '\t' {
        seq!['\\', 't']
    } else {
        seq![c]
    }
}

/// A text written as the inside of a string literal.
pub open spec fn quote_text(w: Seq<char>, slash: bool) -> Seq<char>
    decreases w.len(),
{
    if w.len() == 0 {
        Seq::empty()
    } else {
        quote_char(w[0], slash) + quote_text(w.drop_first(), slash)
    }
}

proof fn lemma_scan_quoted(s: Seq<char>, p: int, to: int, acc: Seq<char>, w: Seq<char>, slash: bool)
    requires
        0 <= p,
        p + quote_text(w, slash).len() < to <= s.len(),
        s.subrange(p, p + quote_text(w, slash).len()) == quote_text(w, slash),
        s[p + quote_text(w, slash).len()] == '"',
    ensures
        scan_string(s, p, to, acc) == Ok::<(Seq<char>, int), LexErrorView>((acc + w, p + quote_text(w, slash).len() + 1)),
    decreases w.len(),
{
    let q = quote_text(w, slash);
    if w.len() == 0 {
        assert(acc + w =~= acc);
    } else {
        let c = w[0];
        let rest = w.drop_first();
        let qc = quote_char(c, slash);
        let qr = quote_text(rest, slash);
        assert(q == qc + qr);
        assert(s[p] == q[0]);
        let k = qc.len() as int;
        assert(s.subrange(p + k, p + k + qr.len()) =~= qr) by {
            assert forall|j: int| 0 <= j < qr.len() implies s.subrange(p + k, p + k + qr.len())[j] == qr[j] by {
                assert(s.subrange(p, p + q.len())[k + j] == q[k + j]);
            }
        }
        if k == 2 {
            assert(s[p + 1] == q[1]);
        }
        lemma_scan_quoted(s, p + k, to, acc.push(c), rest, slash);
        assert(acc.push(c) + rest =~= acc + w);
    }
}

/// Writing any text as a string literal, with its quotes, backslashes and
/// control characters escaped (and its solidi too, or not), and lexing it
/// gives the text back as one string token spanning the whole literal.
pub proof fn lemma_string_literal_round_trip(w: Seq<char>, slash: bool)
    ensures
        ({
            let s = seq!['"'] + quote_text(w, slash) + seq!['"'];
            spec_tokenize(s, 0, s.len() as int) == (seq![(TokenView::Str(w), 0int, s.len() as int)], Seq::<LexErrorView>::empty())
        }),
{
    let q = quote_text(w, slash);
    let s = seq!['"'] + q + seq!['"'];
    let n = s.len() as int;
    assert(s.subrange(1, 1 + q.len() as int) =~= q);
    assert(s[1 + q.len() as int] == '"');
    lemma_scan_quoted(s, 1, n, Seq::empty(), w, slash);
    assert(Seq::<char>::empty() + w =~= w);
    assert(s[0] == '"');
    assert(padding_end(s, 0, n) == 0);
    assert(lex_token(s, 0, n) == Ok::<(TokenView, int), LexErrorView>((TokenView::Str(w), n)));
    assert(Seq::<(TokenView, int, int)>::empty().push((TokenView::Str(w), 0int, n)) =~= seq![(TokenView::Str(w), 0int, n)]);
    assert(lex_from(s, n, n, seq![(TokenView::Str(w), 0int, n)], Seq::empty()) == (seq![(TokenView::Str(w), 0int, n)], Seq::<LexErrorView>::empty()));
}

pub proof fn lemma_scan_string(s: Seq<char>, p: int, to: int, acc: Seq<char>)
    requires
        p <= to,
    ensures
        scan_string(s, p, to, acc) matches Ok(r) ==> p < r.1 <= to,
    decreases to - p,
{
    if p < to && s[p] != '"' {
        if s[p] == '\\' {
            if p + 1 < to {
                if let Some(e) = escape_char(s[p + 1]) {
                    lemma_scan_string(s, p + 2, to, acc.push(e));
                }
            }
        } else {
            lemma_scan_string(s, p + 1, to, acc.push(s[p]));
        }
    }
}

/// The token an identifier-shaped word stands for: a keyword, or an identifier.
pub open spec fn word_token(w: Seq<char>) -> TokenView {
    if w == seq!['n', 'u', 'l', 'l'] {
        TokenView::Null
    } else if w == seq!['t', 'r', 'u', 'e'] {
        TokenView::Boolean(true)
    } else if w == seq!['f', 'a', 'l', 's', 'e'] {
        TokenView::Boolean(false)
    } else if w == seq!['i', 'f'] {
        TokenView::If
    } else if w == seq!['t', 'h', 'e', 'n'] {
        TokenView::Then
    } else if w == seq!['e', 'l', 's', 'e'] {
        TokenView::Else
    } else if w == seq!['l', 'e', 't'] {
        TokenView::Let
    } else if w == seq!['i', 'n'] {
        TokenView::In
    } else {
        TokenView::Identifier(w)
    }
}

/// Whether the character after `p` is `c`.
pub open spec fn next_is(s: Seq<char>, p: int, to: int, c: char) -> bool {
    p + 1 < to && s[p + 1] == c
}

/// The token of a single character, where one character makes the token.
pub open spec fn single_token(c: char) -> Option<TokenView> {
    if c == '(' {
        Some(TokenView::LeftParen)
    } else if c == ')' {
        Some(TokenView::RightParen)
    } else if c == '[' {
        Some(TokenView::LeftBrack)
    } else if c == ']' {
        Some(TokenView::RightBrack)
    } else if c == '{' {
        Some(TokenView::LeftBrace)
    } else if c == '}' {
        Some(TokenView::RightBrace)
    } else if c == ',' {
        Some(TokenView::Comma)
    } else if c == ':' {
        Some(TokenView::Colon)
    } else if c == '.' {
        Some(TokenView::Dot)
    } else if c == '+' {
        Some(TokenView::Plus)
    } else if c == '-' {
        Some(TokenView::Dash)
    } else if c == '*' {
        Some(TokenView::Star)
    } else if c == '/' {
        Some(TokenView::Slash)
    } else if c == '^' {
        Some(TokenView::Xor)
    } else if c == '%' {
        Some(TokenView::Rem)
    } else {
        None
    }
}

/// The token that starts at `p` (which holds no padding), with its end, or
/// the error that stops it. Numbers are a `0` or a digit string not starting
/// with `0`, with an optional fraction of at least one digit, read by
/// `Decimal::from_str`; strings are quoted, with the escapes of
/// `escape_char`; words are keywords or identifiers.
pub open spec fn lex_token(s: Seq<char>, p: int, to: int) -> Result<(TokenView, int), LexErrorView> {
    let c = s[p];
    if is_digit(c) {
        let ie = if c == '0' { p + 1 } else { digits_end(s, p + 1, to) };
        let e = if ie + 1 < to && s[ie] == '.' && is_digit(s[ie + 1]) { digits_end(s, ie + 1, to) } else { ie };
        match decimal_from_str(s.subrange(p, e)) {
            Some(n) => Ok((TokenView::Num(n), e)),
            None => Err((LexErrorKind::InvalidNumber, p, e)),
        }
    } else if c == '"' {
        match scan_string(s, p + 1, to, Seq::empty()) {
            Ok(r) => Ok((TokenView::Str(r.0), r.1)),
            Err(err) => Err(err),
        }
    } else if single_token(c) is Some {
        Ok((single_token(c).unwrap(), p + 1))
    } else if c == '=' {
        if next_is(s, p, to, '>') {
            Ok((TokenView::FatArrow, p + 2))
        } else if next_is(s, p, to, '=') {
            Ok((TokenView::Equal, p + 2))
        } else {
            Err((LexErrorKind::UnexpectedCharacter(c), p, p + 1))
        }
    } else if c == '>' {
        if next_is(s, p, to, '=') { Ok((TokenView::GreaterEqual, p + 2)) } else { Ok((TokenView::Greater, p + 1)) }
    } else if c == '<' {
        if next_is(s, p, to, '=') { Ok((TokenView::LessEqual, p + 2)) } else { Ok((TokenView::Less, p + 1)) }
    } else if c == '!' {
        if next_is(s, p, to, '=') { Ok((TokenView::NotEqual, p + 2)) } else { Ok((TokenView::Not, p + 1)) }
    } else if c == '&' {
        if next_is(s, p, to, '&') {
            Ok((TokenView::And, p + 2))
        } else {
            Err((LexErrorKind::UnexpectedCharacter(c), p, p + 1))
        }
    } else if c == '|' {
        if next_is(s, p, to, '|') {
            Ok((TokenView::Or, p + 2))
        } else {
            Err((LexErrorKind::UnexpectedCharacter(c), p, p + 1))
        }
    } else if is_ident_start(c) {
        let e = ident_end(s, p + 1, to);
        Ok((word_token(s.subrange(p, e)), e))
    } else {
        Err((LexErrorKind::UnexpectedCharacter(c), p, p + 1))
    }
}

pub proof fn lemma_lex_token(s: Seq<char>, p: int, to: int)
    requires
        0 <= p < to <= s.len(),
    ensures
        lex_token(s, p, to) matches Ok(r) ==> p < r.1 <= to,
        lex_token(s, p, to) matches Err(e) ==> p <= e.1 <= e.2 <= to,
{
    lemma_digits_end(s, p + 1, to);
    let ie = if s[p] == '0' { p + 1 } else { digits_end(s, p + 1, to) };
    if ie + 1 < to {
        lemma_digits_end(s, ie + 1, to);
    }
    lemma_scan_string(s, p + 1, to, Seq::empty());
    lemma_scan_string_err(s, p + 1, to, Seq::empty());
    lemma_ident_end(s, p + 1, to);
}

pub proof fn lemma_scan_string_err(s: Seq<char>, p: int, to: int, acc: Seq<char>)
    requires
        p <= to,
    ensures
        scan_string(s, p, to, acc) matches Err(e) ==> p <= e.1 <= e.2 <= to,
    decreases to - p,
{
    if p < to && s[p] != '"' {
        if s[p] == '\\' {
            if p + 1 < to {
                if let Some(e) = escape_char(s[p + 1]) {
                    lemma_scan_string_err(s, p + 2, to, acc.push(e));
                }
            }
        } else {
            lemma_scan_string_err(s, p + 1, to, acc.push(s[p]));
        }
    }
}

/// Lexes `s[p..to]`, adding to the tokens and errors found so far: skip
/// padding; at the end, stop; else read a token and go on after it, or, where
/// no token can be read, record the error and go on one character later.
pub open spec fn lex_from(s: Seq<char>, p: int, to: int, toks: Seq<(TokenView, int, int)>, errs: Seq<LexErrorView>) -> (Seq<(TokenView, int, int)>, Seq<LexErrorView>)
    decreases to - p,
{
    if p < 0 || p >= to || to > s.len() {
        (toks, errs)
    } else {
        let q = padding_end(s, p, to);
        proof {
            lemma_padding_end(s, p, to);
        }
        if q >= to {
            (toks, errs)
        } else {
            proof {
                lemma_lex_token(s, q, to);
            }
            match lex_token(s, q, to) {
                Ok(r) => lex_from(s, r.1, to, toks.push((r.0, q, r.1)), errs),
                Err(e) => lex_from(s, q + 1, to, toks, errs.push(e)),
            }
        }
    }
}

/// The tokens and errors of `s[from..to]`.
pub open spec fn spec_tokenize(s: Seq<char>, from: int, to: int) -> (Seq<(TokenView, int, int)>, Seq<LexErrorView>) {
    lex_from(s, from, to, Seq::empty(), Seq::empty())
}


fn whitespace(c: char) -> (b: bool)
    ensures
        b == is_whitespace(c),
{
    let u = c as u32;
    (0x09 <= u && u <= 0x0D) || u == 0x20 || u == 0x85 || u == 0xA0 || u == 0x1680 || (0x2000 <= u && u <= 0x200A)
        || u == 0x2028 || u == 0x2029 || u == 0x202F || u == 0x205F || u == 0x3000
}

fn digit(c: char) -> (b: bool)
    ensures
        b == is_digit(c),
{
    '0' <= c && c <= '9'
}

fn alpha(c: char) -> (b: bool)
    ensures
        b == is_alpha(c),
{
    ('a' <= c && c <= 'z') || ('A' <= c && c <= 'Z')
}

/// Skips padding from `p`.
fn skip_padding(chars: &Vec<char>, p: usize, to: usize) -> (q: usize)
    requires
        p <= to <= chars@.len(),
    ensures
        q == padding_end(chars@, p as int, to as int),
{
    let ghost s = chars@;
    let mut i = p;
    loop
        invariant
            p <= i <= to <= s.len(),
            s == chars@,
            padding_end(s, p as int, to as int) == padding_end(s, i as int, to as int),
        decreases to - i,
    {
        if i >= to {
            return i;
        }
        if whitespace(chars[i]) {
            i = i + 1;
        } else if chars[i] == '#' {
            let ghost hash = i;
            i = i + 1;
            while i < to && chars[i] != '\n' && chars[i] != '\r'
                invariant
                    hash < i <= to <= s.len(),
                    s == chars@,
                    comment_end(s, hash + 1, to as int) == comment_end(s, i as int, to as int),
                decreases to - i,
            {
                i = i + 1;
            }
        } else {
            return i;
        }
    }
}

/// The end of the digits from `p`.
fn scan_digits(chars: &Vec<char>, p: usize, to: usize) -> (e: usize)
    requires
        p <= to <= chars@.len(),
    ensures
        e == digits_end(chars@, p as int, to as int),
        p <= e <= to,
{
    let mut i = p;
    while i < to && digit(chars[i])
        invariant
            p <= i <= to <= chars@.len(),
            digits_end(chars@, p as int, to as int) == digits_end(chars@, i as int, to as int),
        decreases to - i,
    {
        i = i + 1;
    }
    i
}

/// The end of the identifier characters from `p`.
fn scan_ident(chars: &Vec<char>, p: usize, to: usize) -> (e: usize)
    requires
        p <= to <= chars@.len(),
    ensures
        e == ident_end(chars@, p as int, to as int),
        p <= e <= to,
{
    let mut i = p;
    while i < to && (alpha(chars[i]) || digit(chars[i]) || chars[i] == '_')
        invariant
            p <= i <= to <= chars@.len(),
            ident_end(chars@, p as int, to as int) == ident_end(chars@, i as int, to as int),
        decreases to - i,
    {
        i = i + 1;
    }
    i
}

/// Whether `chars[p..e]` is the word `w`.
fn is_word(chars: &Vec<char>, p: usize, e: usize, w: &Vec<char>) -> (b: bool)
    requires
        p <= e <= chars@.len(),
    ensures
        b == (chars@.subrange(p as int, e as int) == w@),
{
    if e - p != w.len() {
        return false;
    }
    let mut i: usize = 0;
    while i < w.len()
        invariant
            p <= e <= chars@.len(),
            e - p == w@.len(),
            i <= w@.len(),
            forall|j: int| 0 <= j < i ==> chars@[p + j] == w@[j],
        decreases w.len() - i,
    {
        if chars[p + i] != w[i] {
            assert(chars@.subrange(p as int, e as int)[i as int] != w@[i as int]);
            return false;
        }
        i = i + 1;
    }
    assert(chars@.subrange(p as int, e as int) =~= w@);
    true
}

/// The token of the word `chars[p..e]`.
fn word(chars: &Vec<char>, p: usize, e: usize) -> (t: Token)
    requires
        p <= e <= chars@.len(),
    ensures
        t@ == word_token(chars@.subrange(p as int, e as int)),
{
    let ghost w = chars@.subrange(p as int, e as int);
    if is_word(chars, p, e, &vec!['n', 'u', 'l', 'l']) {
        Token::Null
    } else if is_word(chars, p, e, &vec!['t', 'r', 'u', 'e']) {
        Token::Boolean(true)
    } else if is_word(chars, p, e, &vec!['f', 'a', 'l', 's', 'e']) {
        Token::Boolean(false)
    } else if is_word(chars, p, e, &vec!['i', 'f']) {
        Token::If
    } else if is_word(chars, p, e, &vec!['t', 'h', 'e', 'n']) {
        Token::Then
    } else if is_word(chars, p, e, &vec!['e', 'l', 's', 'e']) {
        Token::Else
    } else if is_word(chars, p, e, &vec!['l', 'e', 't']) {
        Token::Let
    } else if is_word(chars, p, e, &vec!['i', 'n']) {
        Token::In
    } else {
        Token::Identifier(crate::text::text_between(chars, p, e))
    }
}


fn escape(c: char) -> (r: Option<char>)
    ensures
        r == escape_char(c),
{
    if c == '\\' {
        Some('\\')
    } else if c == '/' {
        Some('/')
    } else if c == '"' {
        Some('"')
    } else if c == 'b' {
        Some('\x08')
    } else if c == 'f' {
        Some('\x0C')
    } else if c == 'n' {
        Some('\n')
    } else if c == 'r' {
        Some('\r')
    } else if c == 't' {
        Some('\t')
    } else {
        None
    }
}

/// Reads a string literal whose text starts at `p`, as `scan_string` says.
fn string_literal(chars: &Vec<char>, p: usize, to: usize) -> (r: Result<(String, usize), (LexErrorKind, usize, usize)>)
    requires
        p <= to <= chars@.len(),
    ensures
        match scan_string(chars@, p as int, to as int, Seq::empty()) {
            Ok(x) => r matches Ok(y) && y.0@ == x.0 && y.1 == x.1,
            Err(x) => r matches Err(y) && y.0 == x.0 && y.1 == x.1 && y.2 == x.2,
        },
{
    let ghost s = chars@;
    let mut acc: Vec<char> = Vec::new();
    let mut i = p;
    loop
        invariant
            p <= i <= to <= s.len(),
            s == chars@,
            scan_string(s, p as int, to as int, Seq::empty()) == scan_string(s, i as int, to as int, acc@),
        decreases to - i,
    {
        if i >= to {
            return Err((LexErrorKind::UnterminatedString, i, i));
        }
        let c = chars[i];
        if c == '"' {
            return Ok((string_from_chars(acc), i + 1));
        } else if c == '\\' {
            if i + 1 >= to {
                return Err((LexErrorKind::UnterminatedString, i, i + 1));
            }
            match escape(chars[i + 1]) {
                Some(e) => {
                    acc.push(e);
                    i = i + 2;
                },
                None => {
                    return Err((LexErrorKind::InvalidEscape(chars[i + 1]), i, i + 2));
                },
            }
        } else {
            acc.push(c);
            i = i + 1;
        }
    }
}

/// The token of a single character, where one character makes the token.
fn single(c: char) -> (r: Option<Token>)
    ensures
        match single_token(c) {
            Some(v) => r matches Some(t) && t@ == v,
            None => r is None,
        },
{
    if c == '(' {
        Some(Token::LeftParen)
    } else if c == ')' {
        Some(Token::RightParen)
    } else if c == '[' {
        Some(Token::LeftBrack)
    } else if c == ']' {
        Some(Token::RightBrack)
    } else if c == '{' {
        Some(Token::LeftBrace)
    } else if c == '}' {
        Some(Token::RightBrace)
    } else if c == ',' {
        Some(Token::Comma)
    } else if c == ':' {
        Some(Token::Colon)
    } else if c == '.' {
        Some(Token::Dot)
    } else if c == '+' {
        Some(Token::Plus)
    } else if c == '-' {
        Some(Token::Dash)
    } else if c == '*' {
        Some(Token::Star)
    } else if c == '/' {
        Some(Token::Slash)
    } else if c == '^' {
        Some(Token::Xor)
    } else if c == '%' {
        Some(Token::Rem)
    } else {
        None
    }
}

/// Reads the token at `p`, as `lex_token` says.
fn token_at(chars: &Vec<char>, p: usize, to: usize) -> (r: Result<(Token, usize), (LexErrorKind, usize, usize)>)
    requires
        p < to <= chars@.len(),
    ensures
        match lex_token(chars@, p as int, to as int) {
            Ok(x) => r matches Ok(y) && y.0@ == x.0 && y.1 == x.1,
            Err(x) => r matches Err(y) && y.0 == x.0 && y.1 == x.1 && y.2 == x.2,
        },
{
    let ghost s = chars@;
    proof { lemma_lex_token(s, p as int, to as int); }
    let c = chars[p];
    if digit(c) {
        let ie = if c == '0' { p + 1 } else { scan_digits(chars, p + 1, to) };
        let e = if ie < to && to - ie > 1 && chars[ie] == '.' && digit(chars[ie + 1]) { scan_digits(chars, ie + 1, to) } else { ie };
        let text = crate::text::text_between(chars, p, e);
        match Number::parse(text.as_str()) {
            Some(n) => Ok((Token::Number(n), e)),
            None => Err((LexErrorKind::InvalidNumber, p, e)),
        }
    } else if c == '"' {
        match string_literal(chars, p + 1, to) {
            Ok(x) => Ok((Token::String(x.0), x.1)),
            Err(x) => Err(x),
        }
    } else if let Some(t) = single(c) {
        Ok((t, p + 1))
    } else if c == '=' {
        if p + 1 < to && chars[p + 1] == '>' {
            Ok((Token::FatArrow, p + 2))
        } else if p + 1 < to && chars[p + 1] == '=' {
            Ok((Token::Equal, p + 2))
        } else {
            Err((LexErrorKind::UnexpectedCharacter(c), p, p + 1))
        }
    } else if c == '>' {
        if p + 1 < to && chars[p + 1] == '=' { Ok((Token::GreaterEqual, p + 2)) } else { Ok((Token::Greater, p + 1)) }
    } else if c == '<' {
        if p + 1 < to && chars[p + 1] == '=' { Ok((Token::LessEqual, p + 2)) } else { Ok((Token::Less, p + 1)) }
    } else if c == '!' {
        if p + 1 < to && chars[p + 1] == '=' { Ok((Token::NotEqual, p + 2)) } else { Ok((Token::Not, p + 1)) }
    } else if c == '&' {
        if p + 1 < to && chars[p + 1] == '&' {
            Ok((Token::And, p + 2))
        } else {
            Err((LexErrorKind::UnexpectedCharacter(c), p, p + 1))
        }
    } else if c == '|' {
        if p + 1 < to && chars[p + 1] == '|' {
            Ok((Token::Or, p + 2))
        } else {
            Err((LexErrorKind::UnexpectedCharacter(c), p, p + 1))
        }
    } else if alpha(c) || c == '_' || c == '$' {
        let e = scan_ident(chars, p + 1, to);
        Ok((word(chars, p, e), e))
    } else {
        Err((LexErrorKind::UnexpectedCharacter(c), p, p + 1))
    }
}

/// An error as kind, start and end.
pub open spec fn error_view(e: LineLexerError) -> LexErrorView {
    (e.kind, e.span.spec_start() as int, e.span.spec_end() as int)
}

/// Errors as kinds, starts and ends.
pub open spec fn errors_view(es: Seq<LineLexerError>) -> Seq<LexErrorView> {
    es.map_values(|e: LineLexerError| error_view(e))
}

/// Every token and error of `r` lies within `lo..to`, start before end.
pub open spec fn lexed_within(toks: Seq<(TokenView, int, int)>, errs: Seq<LexErrorView>, lo: int, to: int) -> bool {
    &&& forall|i: int| 0 <= i < toks.len() ==> lo <= (#[trigger] toks[i]).1 <= toks[i].2 <= to
    &&& forall|i: int| 0 <= i < errs.len() ==> lo <= (#[trigger] errs[i]).1 <= errs[i].2 <= to
}

proof fn lemma_lex_from_within(s: Seq<char>, p: int, to: int, toks: Seq<(TokenView, int, int)>, errs: Seq<LexErrorView>, lo: int)
    requires
        lo <= p,
        lexed_within(toks, errs, lo, to),
    ensures
        lexed_within(lex_from(s, p, to, toks, errs).0, lex_from(s, p, to, toks, errs).1, lo, to),
    decreases to - p,
{
    if !(p < 0 || p >= to || to > s.len()) {
        lemma_padding_end(s, p, to);
        let q = padding_end(s, p, to);
        if q < to {
            lemma_lex_token(s, q, to);
            match lex_token(s, q, to) {
                Ok(r) => {
                    let t2 = toks.push((r.0, q, r.1));
                    assert(t2[toks.len() as int] == (r.0, q, r.1));
                    assert forall|i: int| 0 <= i < t2.len() implies lo <= (#[trigger] t2[i]).1 <= t2[i].2 <= to by {
                        if i < toks.len() {
                            assert(t2[i] == toks[i]);
                        }
                    }
                    lemma_lex_from_within(s, r.1, to, t2, errs, lo);
                },
                Err(e) => {
                    let e2 = errs.push(e);
                    assert(e2[errs.len() as int] == e);
                    assert forall|i: int| 0 <= i < e2.len() implies lo <= (#[trigger] e2[i]).1 <= e2[i].2 <= to by {
                        if i < errs.len() {
                            assert(e2[i] == errs[i]);
                        }
                    }
                    lemma_lex_from_within(s, q + 1, to, toks, e2, lo);
                },
            }
        }
    }
}

/// The tokens and errors of `s[from..to]` lie within it.
pub proof fn lemma_tokenize_within(s: Seq<char>, from: int, to: int)
    ensures
        lexed_within(spec_tokenize(s, from, to).0, spec_tokenize(s, from, to).1, from, to),
{
    lemma_lex_from_within(s, from, to, Seq::empty(), Seq::empty(), from);
}

/// Tokens of the text `from..` moved so that `from` lies at `base`.
pub open spec fn moved_tokens(toks: Seq<(TokenView, int, int)>, from: int, base: int) -> Seq<(TokenView, int, int)> {
    toks.map_values(|t: (TokenView, int, int)| (t.0, base + (t.1 - from), base + (t.2 - from)))
}

/// An error of the text `from..to` moved in the same way; an error at the
/// very end of the text lies at `end`.
pub open spec fn moved_error(e: LexErrorView, from: int, to: int, base: int, end: int) -> LexErrorView {
    if e.1 == to {
        (e.0, end, end)
    } else {
        (e.0, base + (e.1 - from), base + (e.2 - from))
    }
}

/// Errors moved as `moved_error` says.
pub open spec fn moved_errors(errs: Seq<LexErrorView>, from: int, to: int, base: int, end: int) -> Seq<LexErrorView> {
    errs.map_values(|e: LexErrorView| moved_error(e, from, to, base, end))
}

/// Tokenizes `chars[from..to]`, as `spec_tokenize` says, with every span in
/// `source`: position `from` lies at `base`, and each character after it
/// counts one; an error at the very end lies at `end`.
pub fn tokenize_chars(chars: &Vec<char>, from: usize, to: usize, base: usize, end: usize, source: &SourceId) -> (r: (Vec<SpannedToken>, Vec<LineLexerError>))
    requires
        from <= to <= chars@.len(),
        base + (to - from) <= end,
    ensures
        tokens_view(r.0@) == moved_tokens(spec_tokenize(chars@, from as int, to as int).0, from as int, base as int),
        errors_view(r.1@) == moved_errors(spec_tokenize(chars@, from as int, to as int).1, from as int, to as int, base as int, end as int),
        forall|i: int| 0 <= i < r.0@.len() ==> (#[trigger] r.0@[i]).span.spec_source() == *source,
        forall|i: int| 0 <= i < r.1@.len() ==> (#[trigger] r.1@[i]).span.spec_source() == *source,
{
    let ghost s = chars@;
    let mut tokens: Vec<SpannedToken> = Vec::new();
    let mut errors: Vec<LineLexerError> = Vec::new();
    let ghost mut gt: Seq<(TokenView, int, int)> = Seq::empty();
    let ghost mut ge: Seq<LexErrorView> = Seq::empty();
    let mut p = from;
    proof {
        assert(tokens_view(tokens@) =~= moved_tokens(gt, from as int, base as int));
        assert(errors_view(errors@) =~= moved_errors(ge, from as int, to as int, base as int, end as int));
    }
    while p < to
        invariant
            from <= p <= to <= s.len(),
            base + (to - from) <= end,
            s == chars@,
            spec_tokenize(s, from as int, to as int) == lex_from(s, p as int, to as int, gt, ge),
            tokens_view(tokens@) == moved_tokens(gt, from as int, base as int),
            errors_view(errors@) == moved_errors(ge, from as int, to as int, base as int, end as int),
            forall|i: int| 0 <= i < tokens@.len() ==> (#[trigger] tokens@[i]).span.spec_source() == *source,
            forall|i: int| 0 <= i < errors@.len() ==> (#[trigger] errors@[i]).span.spec_source() == *source,
        decreases to - p,
    {
        proof { lemma_padding_end(s, p as int, to as int); }
        let q = skip_padding(chars, p, to);
        if q >= to {
            p = to;
            proof {
                assert(lex_from(s, to as int, to as int, gt, ge) == (gt, ge));
            }
        } else {
            proof { lemma_lex_token(s, q as int, to as int); }
            match token_at(chars, q, to) {
                Ok((t, e)) => {
                    let ghost before = tokens@;
                    let st = Spanned::new(t, Span::new(source.copy(), base + (q - from), base + (e - from)));
                    tokens.push(st);
                    proof {
                        let gt2 = gt.push((st.inner@, q as int, e as int));
                        assert(tokens_view(tokens@) =~= tokens_view(before).push((st.inner@, base + (q - from), base + (e - from))));
                        assert(moved_tokens(gt2, from as int, base as int) =~= moved_tokens(gt, from as int, base as int).push((st.inner@, base + (q - from), base + (e - from))));
                        assert(tokens_view(tokens@) =~= moved_tokens(gt2, from as int, base as int));
                        gt = gt2;
                        assert forall|i: int| 0 <= i < tokens@.len() implies (#[trigger] tokens@[i]).span.spec_source() == *source by {
                            if i < before.len() {
                                assert(tokens@[i] == before[i]);
                            }
                        }
                    }
                    p = e;
                },
                Err((kind, a, b)) => {
                    let ghost before = errors@;
                    let span = if a == to {
                        Span::new(source.copy(), end, end)
                    } else {
                        Span::new(source.copy(), base + (a - from), base + (b - from))
                    };
                    let err = LineLexerError { kind, span };
                    errors.push(err);
                    proof {
                        let ge2 = ge.push((kind, a as int, b as int));
                        let me = moved_error((kind, a as int, b as int), from as int, to as int, base as int, end as int);
                        assert(error_view(err) == me);
                        assert(errors_view(errors@) =~= errors_view(before).push(me));
                        assert(moved_errors(ge2, from as int, to as int, base as int, end as int) =~= moved_errors(ge, from as int, to as int, base as int, end as int).push(me));
                        assert(errors_view(errors@) =~= moved_errors(ge2, from as int, to as int, base as int, end as int));
                        ge = ge2;
                        assert forall|i: int| 0 <= i < errors@.len() implies (#[trigger] errors@[i]).span.spec_source() == *source by {
                            if i < before.len() {
                                assert(errors@[i] == before[i]);
                            }
                        }
                    }
                    p = q + 1;
                },
            }
        }
    }
    (tokens, errors)
}

/// Tokenizes a line of code: the tokens, with spans that count characters
/// from the start of `code`, and the errors, as `spec_tokenize` says. Where a
/// character starts no token, the error is recorded and lexing goes on after
/// it, so tokens always come back.
pub fn tokenize_line(code: &str, source: SourceId) -> (r: (Option<Vec<SpannedToken>>, Vec<LineLexerError>))
    ensures
        r.0 is Some,
        r.0 matches Some(ts) ==> (tokens_view(ts@), errors_view(r.1@)) == spec_tokenize(code@, 0, code@.len() as int),
        r.0 matches Some(ts) ==> forall|i: int| 0 <= i < ts@.len() ==> (#[trigger] ts@[i]).span.spec_source() == source,
        forall|i: int| 0 <= i < r.1@.len() ==> (#[trigger] r.1@[i]).span.spec_source() == source,
{
    let chars = chars_of(code);
    let n = chars.len();
    let (tokens, errors) = tokenize_chars(&chars, 0, n, 0, n, &source);
    proof {
        let r = spec_tokenize(code@, 0, n as int);
        lemma_tokenize_within(code@, 0, n as int);
        assert(moved_tokens(r.0, 0, 0) =~= r.0);
        assert(moved_errors(r.1, 0, n as int, 0, n as int) =~= r.1);
    }
    (Some(tokens), errors)
}


/// An error of either lexer.
#[derive(Clone, Debug, PartialEq, Eq)]
pub enum LexerError {
    Lines(LinesLexerError),
    Line(LineLexerError),
}

/// The tokens and errors of a block, from the tokens of the indentation lexer
/// at `i` on, with spans in bytes of `s`: indentation tokens carry over, and
/// each line is tokenized in place, its start in bytes and then one per
/// character, an error at the very end of a line lying at its end in bytes.
pub open spec fn block_tokens_from(s: Seq<char>, marks: Seq<MarkSpan>, i: int, toks: Seq<(TokenView, int, int)>, errs: Seq<LexErrorView>) -> (Seq<(TokenView, int, int)>, Seq<LexErrorView>)
    decreases marks.len() - i,
{
    if i < 0 || i >= marks.len() {
        (toks, errs)
    } else {
        let (m, a, b) = marks[i];
        let ba = lines::byte_offset(s, a);
        let bb = lines::byte_offset(s, b);
        match m {
            LinesMark::Indent => block_tokens_from(s, marks, i + 1, toks.push((TokenView::Indent, ba, bb)), errs),
            LinesMark::Dedent => block_tokens_from(s, marks, i + 1, toks.push((TokenView::Dedent, ba, bb)), errs),
            LinesMark::Dash => block_tokens_from(s, marks, i + 1, toks.push((TokenView::Dash, ba, bb)), errs),
            LinesMark::EndOfLine => block_tokens_from(s, marks, i + 1, toks.push((TokenView::EndOfLine, ba, bb)), errs),
            LinesMark::Line => {
                let r = spec_tokenize(s, a, b);
                block_tokens_from(s, marks, i + 1, toks + moved_tokens(r.0, a, ba), errs + moved_errors(r.1, a, b, ba, bb))
            },
        }
    }
}

/// Errors of the token lexer as views; others count for nothing.
pub open spec fn line_errors_view(es: Seq<LexerError>) -> Seq<LexErrorView> {
    es.map_values(|e: LexerError| match e {
        LexerError::Line(x) => error_view(x),
        LexerError::Lines(_) => (LexErrorKind::UnterminatedString, -1, -1),
    })
}

/// Tokenizes a block of code: first its indentation, then each line, with
/// spans that count bytes of `code`. Where the indentation is inconsistent,
/// no tokens come back and the one error says where; otherwise the tokens
/// come back with the errors of the lines.
pub fn tokenize_block(code: &str, source_id: SourceId) -> (r: (Option<Vec<SpannedToken>>, Vec<LexerError>))
    ensures
        match lines::spec_tokenize_lines(code@) {
            Err(e) => {
                &&& r.0 is None
                &&& r.1@.len() == 1
                &&& r.1@[0] matches LexerError::Lines(err) && lines::error_matches(err, lines::error_in_bytes(code@, e), source_id)
            },
            Ok(marks) => {
                &&& r.0 matches Some(ts) && (tokens_view(ts@), line_errors_view(r.1@)) == block_tokens_from(code@, marks, 0, Seq::empty(), Seq::empty())
                &&& r.0 matches Some(ts) && forall|i: int| 0 <= i < ts@.len() ==> (#[trigger] ts@[i]).span.spec_source() == source_id
                &&& forall|i: int| 0 <= i < r.1@.len() ==> ((#[trigger] r.1@[i]) matches LexerError::Line(e) && e.span.spec_source() == source_id)
            },
        },
{
    let total = code.as_bytes().len();
    let chars = chars_of(code);
    let ghost s = chars@;
    let offs = lines::byte_offsets(&chars, total);
    let lines_tokens = match lines::mark_lines(code, source_id.copy()) {
        Ok(ts) => ts,
        Err(e) => {
            let mut errors: Vec<LexerError> = Vec::new();
            errors.push(LexerError::Lines(lines::error_to_bytes(e, &offs, Ghost(s), Ghost(lines::spec_tokenize_lines(s)->Err_0), Ghost(source_id))));
            return (None, errors);
        },
    };
    let ghost marks = lines::tokens_view(lines_tokens@);
    let mut tokens: Vec<SpannedToken> = Vec::new();
    let mut errors: Vec<LexerError> = Vec::new();
    proof {
        assert(tokens_view(tokens@) =~= Seq::<(TokenView, int, int)>::empty());
        assert(line_errors_view(errors@) =~= Seq::<LexErrorView>::empty());
    }
    let mut i: usize = 0;
    while i < lines_tokens.len()
        invariant
            s == chars@,
            s == code@,
            offs@.len() == s.len() + 1,
            forall|k: int| 0 <= k <= s.len() ==> #[trigger] offs@[k] == lines::byte_offset(s, k),
            marks == lines::tokens_view(lines_tokens@),
            lines::tokens_sourced(lines_tokens@, s, source_id),
            i <= lines_tokens@.len(),
            block_tokens_from(s, marks, 0, Seq::empty(), Seq::empty())
                == block_tokens_from(s, marks, i as int, tokens_view(tokens@), line_errors_view(errors@)),
            forall|k: int| 0 <= k < errors@.len() ==> ((#[trigger] errors@[k]) matches LexerError::Line(e) && e.span.spec_source() == source_id),
            forall|k: int| 0 <= k < tokens@.len() ==> (#[trigger] tokens@[k]).span.spec_source() == source_id,
        decreases lines_tokens.len() - i,
    {
        let lt = &lines_tokens[i];
        let a = lt.span.start();
        let b = lt.span.end();
        assert(lines_tokens@[i as int].span.spec_start() <= lines_tokens@[i as int].span.spec_end() <= s.len());
        let ba = offs[a];
        let bb = offs[b];
        let ghost before = tokens@;
        assert(marks[i as int] == lines::token_view(lines_tokens@[i as int]));
        match &lt.inner {
            LinesToken::Line(_) => {
                assert(lines_tokens@[i as int].inner is Line);
                proof { lines::lemma_byte_offset_mono(s, a as int, b as int); }
                let (mut ts, es) = tokenize_chars(&chars, a, b, ba, bb, &source_id);
                let ghost before_errs = errors@;
                let ghost ts0 = ts@;
                tokens.append(&mut ts);
                let mut k: usize = 0;
                while k < es.len()
                    invariant
                        k <= es@.len(),
                        errors@.len() == before_errs.len() + k,
                        forall|x: int| 0 <= x < before_errs.len() ==> errors@[x] == before_errs[x],
                        forall|x: int| 0 <= x < k ==> errors@[before_errs.len() + x] == LexerError::Line(es@[x]),
                        forall|x: int| 0 <= x < es@.len() ==> (#[trigger] es@[x]).span.spec_source() == source_id,
                    decreases es.len() - k,
                {
                    errors.push(LexerError::Line(LineLexerError { kind: es[k].kind, span: es[k].span.copy() }));
                    k = k + 1;
                }
                proof {
                    assert(tokens_view(tokens@) =~= tokens_view(before) + tokens_view(ts0));
                    assert(line_errors_view(errors@) =~= line_errors_view(before_errs) + errors_view(es@));
                    assert forall|x: int| 0 <= x < errors@.len() implies ((#[trigger] errors@[x]) matches LexerError::Line(e) && e.span.spec_source() == source_id) by {
                        if x >= before_errs.len() {
                            assert(errors@[x] == LexerError::Line(es@[x - before_errs.len()]));
                        } else {
                            assert(errors@[x] == before_errs[x]);
                        }
                    }
                    assert forall|x: int| 0 <= x < tokens@.len() implies (#[trigger] tokens@[x]).span.spec_source() == source_id by {
                        if x >= before.len() {
                            assert(tokens@[x] == ts0[x - before.len()]);
                        } else {
                            assert(tokens@[x] == before[x]);
                        }
                    }
                }
            },
            other => {
                let t = match other {
                    LinesToken::Indent => Token::Indent,
                    LinesToken::Dedent => Token::Dedent,
                    LinesToken::Dash => Token::Dash,
                    _ => Token::EndOfLine,
                };
                tokens.push(Spanned::new(t, Span::new(source_id.copy(), ba, bb)));
                proof {
                    assert(tokens_view(tokens@) =~= tokens_view(before).push((t@, ba as int, bb as int)));
                    assert forall|x: int| 0 <= x < tokens@.len() implies (#[trigger] tokens@[x]).span.spec_source() == source_id by {
                        if x < before.len() {
                            assert(tokens@[x] == before[x]);
                        }
                    }
                }
            },
        }
        i = i + 1;
    }
    (Some(tokens), errors)
}

} // verus!
