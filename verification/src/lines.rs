//! The indentation lexer: splits code into lines and turns leading
//! whitespace and list markers into indent, dedent and dash tokens.

use vstd::prelude::*;

use crate::source::SourceId;
use crate::span::{Span, Spanned};
use crate::text::{chars_of, text_between};
use vstd::string::StringSliceAdditionalSpecFns;
use vstd::utf8::{encode_scalar, encode_utf8};

verus! {

/// A token of the indentation lexer.
#[derive(Clone, Debug, PartialEq, Eq, PartialOrd, Ord)]
pub enum LinesToken {
    Indent,
    Dedent,
    Line(String),
    Dash,
    EndOfLine,
}

/// The kind of a token of the indentation lexer, without its text.
#[derive(Clone, Copy, Debug, PartialEq, Eq)]
pub enum LinesMark {
    Indent,
    Dedent,
    Line,
    Dash,
    EndOfLine,
}

/// A token in the specification: its kind, its start and its end.
pub type MarkSpan = (LinesMark, int, int);

/// The error of the indentation lexer.
#[derive(Clone, Debug, PartialEq, Eq, PartialOrd, Ord)]
pub enum LinesLexerError {
    /// The leading whitespace of a line is shallower than the current
    /// indentation and matches no enclosing one.
    InconsistentLeadingWhitespace { span: Span, found: usize, expected: Vec<usize> },
}

/// How many bytes the first `k` characters of `s` take in UTF-8: the byte
/// offset of the character at `k`.
pub open spec fn byte_offset(s: Seq<char>, k: int) -> int {
    encode_utf8(s.take(k)).len() as int
}

proof fn lemma_encode_concat(a: Seq<char>, b: Seq<char>)
    ensures
        encode_utf8(a + b) == encode_utf8(a) + encode_utf8(b),
    decreases a.len(),
{
    if a.len() == 0 {
        assert(a + b =~= b);
        assert(encode_utf8(a) =~= Seq::<u8>::empty());
        assert(encode_utf8(a) + encode_utf8(b) =~= encode_utf8(b));
    } else {
        lemma_encode_concat(a.drop_first(), b);
        assert((a + b).drop_first() =~= a.drop_first() + b);
        assert((a + b)[0] == a[0]);
        assert(encode_utf8(a + b) =~= encode_scalar(a[0] as u32) + encode_utf8(a.drop_first() + b));
        assert(encode_utf8(a) =~= encode_scalar(a[0] as u32) + encode_utf8(a.drop_first()));
        assert(encode_utf8(a + b) =~= encode_utf8(a) + encode_utf8(b));
    }
}

/// Each character adds its UTF-8 width, one to four bytes.
proof fn lemma_byte_offset_step(s: Seq<char>, k: int)
    requires
        0 <= k < s.len(),
    ensures
        byte_offset(s, k + 1) == byte_offset(s, k) + encode_scalar(s[k] as u32).len(),
        1 <= encode_scalar(s[k] as u32).len() <= 4,
{
    broadcast use vstd::utf8::char_is_scalar;
    assert(s.take(k + 1) =~= s.take(k) + seq![s[k]]);
    lemma_encode_concat(s.take(k), seq![s[k]]);
    assert(seq![s[k]].drop_first() =~= Seq::<char>::empty());
    assert(encode_utf8(seq![s[k]]) =~= encode_scalar(s[k] as u32) + encode_utf8(Seq::<char>::empty()));
    assert(encode_utf8(seq![s[k]]) =~= encode_scalar(s[k] as u32));
}

/// Byte offsets grow by at least one per character and stay within the
/// whole encoding.
pub(crate) proof fn lemma_byte_offset_mono(s: Seq<char>, i: int, j: int)
    requires
        0 <= i <= j <= s.len(),
    ensures
        byte_offset(s, j) - byte_offset(s, i) >= j - i,
        byte_offset(s, j) <= encode_utf8(s).len(),
        byte_offset(s, 0) == 0,
    decreases j - i,
{
    assert(s.take(0) =~= Seq::<char>::empty());
    assert(s.take(s.len() as int) =~= s);
    if i < j {
        lemma_byte_offset_mono(s, i, j - 1);
        lemma_byte_offset_step(s, j - 1);
    }
    assert(s =~= s.take(j) + s.skip(j));
    lemma_encode_concat(s.take(j), s.skip(j));
}

/// The encoding of a stretch of characters is the stretch of the encoding
/// between their byte offsets.
pub proof fn lemma_encode_subrange(s: Seq<char>, a: int, b: int)
    requires
        0 <= a <= b <= s.len(),
    ensures
        encode_utf8(s.subrange(a, b)) == encode_utf8(s).subrange(byte_offset(s, a), byte_offset(s, b)),
{
    let x = s.take(a);
    let y = s.subrange(a, b);
    let z = s.skip(b);
    assert(s =~= x + y + z);
    assert(s.take(b) =~= x + y);
    lemma_encode_concat(x + y, z);
    lemma_encode_concat(x, y);
    let ex = encode_utf8(x);
    let ey = encode_utf8(y);
    assert(encode_utf8(s).subrange(ex.len() as int, (ex.len() + ey.len()) as int) =~= ey);
}

/// The UTF-8 width of a character.
fn utf8_width(c: char) -> (n: usize)
    ensures
        n == encode_scalar(c as u32).len(),
{
    broadcast use vstd::utf8::char_is_scalar;
    let v = c as u32;
    if v < 0x80 {
        1
    } else if v < 0x800 {
        2
    } else if v < 0x10000 {
        3
    } else {
        4
    }
}

/// The byte offset of every character position of `chars`, the end included;
/// `total` is the length of their encoding.
pub(crate) fn byte_offsets(chars: &Vec<char>, total: usize) -> (offs: Vec<usize>)
    requires
        encode_utf8(chars@).len() == total,
    ensures
        offs@.len() == chars@.len() + 1,
        forall|k: int| 0 <= k <= chars@.len() ==> #[trigger] offs@[k] == byte_offset(chars@, k),
{
    let ghost s = chars@;
    let mut offs: Vec<usize> = Vec::new();
    let mut acc: usize = 0;
    offs.push(0);
    proof { lemma_byte_offset_mono(s, 0, 0); }
    let mut i: usize = 0;
    while i < chars.len()
        invariant
            s == chars@,
            encode_utf8(s).len() == total,
            i <= s.len(),
            offs@.len() == i + 1,
            acc == byte_offset(s, i as int),
            forall|k: int| 0 <= k <= i ==> #[trigger] offs@[k] == byte_offset(s, k),
        decreases s.len() - i,
    {
        proof {
            lemma_byte_offset_step(s, i as int);
            lemma_byte_offset_mono(s, 0, i + 1);
        }
        acc = acc + utf8_width(chars[i]);
        offs.push(acc);
        i = i + 1;
    }
    offs
}

/// Whether a character counts as leading whitespace.
pub open spec fn is_blank(c: char) -> bool {
    c == ' ' || c == '\t'
}

/// The first position in `from..to` that holds no blank character.
pub open spec fn first_nonblank(s: Seq<char>, from: int, to: int) -> Option<int>
    decreases to - from,
{
    if from >= to {
        None
    } else if !is_blank(s[from]) {
        Some(from)
    } else {
        first_nonblank(s, from + 1, to)
    }
}

pub proof fn lemma_first_nonblank(s: Seq<char>, from: int, to: int)
    ensures
        first_nonblank(s, from, to) matches Some(k) ==> from <= k < to && !is_blank(s[k])
            && forall|j: int| from <= j < k ==> is_blank(#[trigger] s[j]),
        first_nonblank(s, from, to) is None ==> forall|j: int| from <= j < to ==> is_blank(#[trigger] s[j]),
    decreases to - from,
{
    if from < to {
        lemma_first_nonblank(s, from + 1, to);
    }
}

/// The position of the first newline at or after `from`, or the end.
pub open spec fn next_newline(s: Seq<char>, from: int) -> int
    decreases s.len() - from,
{
    if from >= s.len() {
        s.len() as int
    } else if s[from] == '\n' {
        from
    } else {
        next_newline(s, from + 1)
    }
}

pub proof fn lemma_next_newline(s: Seq<char>, from: int)
    requires
        0 <= from,
    ensures
        from >= s.len() ==> next_newline(s, from) == s.len(),
        from < s.len() ==> from <= next_newline(s, from) <= s.len(),
        next_newline(s, from) < s.len() ==> s[next_newline(s, from)] == '\n',
        forall|j: int| from <= j < next_newline(s, from) ==> #[trigger] s[j] != '\n',
    decreases s.len() - from,
{
    if from < s.len() && s[from] != '\n' {
        lemma_next_newline(s, from + 1);
    }
}

/// The lines of `s` from `from` on, as `(start, end, ending)`: the line is
/// `start..end`, and `end..ending` is its line ending (`\n` or `\r\n`, or
/// nothing on the last line). A line ending after the last line makes no
/// further line.
pub open spec fn line_spans_from(s: Seq<char>, from: int) -> Seq<(int, int, int)>
    decreases s.len() - from,
{
    if from < 0 || from >= s.len() {
        Seq::empty()
    } else {
        let j = next_newline(s, from);
        let end = if j < s.len() && j > from && s[j - 1] == '\r' { j - 1 } else { j };
        let ending = if j < s.len() { j + 1 } else { j };
        proof {
            lemma_next_newline(s, from);
        }
        seq![(from, end, ending)] + line_spans_from(s, ending)
    }
}

/// The lines of `s`.
pub open spec fn line_spans(s: Seq<char>) -> Seq<(int, int, int)> {
    line_spans_from(s, 0)
}


/// A line as offsets, widened to integers.
pub open spec fn line_as_int(l: (usize, usize, usize)) -> (int, int, int) {
    (l.0 as int, l.1 as int, l.2 as int)
}

/// Splits `chars` into lines, as `line_spans` says.
pub fn split_lines(chars: &Vec<char>) -> (lines: Vec<(usize, usize, usize)>)
    ensures
        lines@.map_values(|l: (usize, usize, usize)| line_as_int(l)) == line_spans(chars@),
        forall|i: int| 0 <= i < lines@.len() ==> #[trigger] lines@[i].0 <= lines@[i].1 <= lines@[i].2 <= chars@.len(),
{
    let ghost s = chars@;
    let n = chars.len();
    let mut lines: Vec<(usize, usize, usize)> = Vec::new();
    let mut from: usize = 0;
    while from < n
        invariant
            n == s.len(),
            s == chars@,
            from <= n,
            line_spans_from(s, 0) == lines@.map_values(|l: (usize, usize, usize)| line_as_int(l)) + line_spans_from(s, from as int),
            forall|i: int| 0 <= i < lines@.len() ==> #[trigger] lines@[i].0 <= lines@[i].1 <= lines@[i].2 <= from,
        decreases n - from,
    {
        let mut j = from;
        proof { lemma_next_newline(s, from as int); }
        while j < n && chars[j] != '\n'
            invariant
                from <= j <= n,
                n == s.len(),
                s == chars@,
                next_newline(s, from as int) == next_newline(s, j as int),
            decreases n - j,
        {
            j = j + 1;
        }
        let end = if j < n && j > from && chars[j - 1] == '\r' { j - 1 } else { j };
        let ending = if j < n { j + 1 } else { j };
        let ghost old_lines = lines@;
        lines.push((from, end, ending));
        proof {
            let f = |l: (usize, usize, usize)| line_as_int(l);
            assert(line_spans_from(s, from as int) == seq![(from as int, end as int, ending as int)] + line_spans_from(s, ending as int));
            assert(lines@.map_values(f) =~= old_lines.map_values(f).push((from as int, end as int, ending as int)));
            assert(line_spans_from(s, 0) =~= lines@.map_values(f) + line_spans_from(s, ending as int));
            assert forall|i: int| 0 <= i < lines@.len() implies #[trigger] lines@[i].0 <= lines@[i].1 <= lines@[i].2 <= ending by {
                if i < old_lines.len() {
                    assert(lines@[i] == old_lines[i]);
                    assert(old_lines[i].0 <= old_lines[i].1 <= old_lines[i].2 <= from);
                } else {
                    assert(lines@[i] == (from, end, ending));
                    assert(from <= end);
                    assert(end <= ending);
                }
            }
        }
        from = ending;
    }
    proof {
        let f = |l: (usize, usize, usize)| line_as_int(l);
        assert(line_spans_from(s, from as int) =~= Seq::<(int, int, int)>::empty());
        assert(line_spans_from(s, 0) =~= lines@.map_values(f));
    }
    lines
}


/// Pops every indentation deeper than `target`, one dedent at `pos` each.
pub open spec fn pop_dedents(stack: Seq<int>, target: int, pos: int) -> (Seq<int>, Seq<MarkSpan>)
    decreases stack.len(),
{
    if stack.len() > 0 && stack.last() > target {
        let rest = pop_dedents(stack.drop_last(), target, pos);
        (rest.0, seq![(LinesMark::Dedent, pos, pos)] + rest.1)
    } else {
        (stack, Seq::empty())
    }
}

/// The list markers at the start of a line's content, from `p` on, in the
/// line ending at `le`; `nb` is where the content starts and `indent` its
/// indentation. A `-` followed by blanks and more text is a marker and opens
/// an indentation at that text; a `-` directly followed by text is no marker;
/// a `-` followed by nothing but blanks is a marker, and the rest of the line
/// starts at its last character. Gives the position where the rest of the
/// line starts, the indentation stack and the tokens.
pub open spec fn list_marks(s: Seq<char>, p: int, le: int, nb: int, indent: int, stack: Seq<int>, toks: Seq<MarkSpan>) -> (int, Seq<int>, Seq<MarkSpan>)
    decreases le - p,
{
    if 0 <= p < le && s[p] == '-' {
        proof {
            lemma_first_nonblank(s, p + 1, le);
        }
        match first_nonblank(s, p + 1, le) {
            Some(q) => if q == p + 1 {
                (p, stack, toks)
            } else {
                list_marks(s, q, le, nb, indent, stack.push(indent + (q - nb)),
                    toks + seq![(LinesMark::Dash, p, p + 1), (LinesMark::Indent, p, q)])
            },
            None => (le - 1, stack, toks.push((LinesMark::Dash, p, p + 1))),
        }
    } else {
        (p, stack, toks)
    }
}

/// The error of a line whose indentation is inconsistent: the span of its
/// leading whitespace, the indentation found and the indentations expected.
pub type LineError = (int, int, int, Seq<int>);

/// Lexes one line `(ls, le, ending)` given the indentation stack and the
/// tokens so far. A blank line yields nothing.
pub open spec fn lex_line(s: Seq<char>, stack: Seq<int>, toks: Seq<MarkSpan>, line: (int, int, int)) -> Result<(Seq<int>, Seq<MarkSpan>), LineError> {
    let (ls, le, ending) = line;
    match first_nonblank(s, ls, le) {
        None => Ok((stack, toks)),
        Some(nb) => {
            let indent = nb - ls;
            let cur = stack.last();
            let dent: Result<(Seq<int>, Seq<MarkSpan>), LineError> = if indent == cur {
                Ok((stack, Seq::empty()))
            } else if indent > cur {
                Ok((stack.push(indent), seq![(LinesMark::Indent, nb - (indent - cur), nb)]))
            } else if stack.contains(indent) {
                Ok(pop_dedents(stack, indent, nb))
            } else {
                Err((ls, nb, indent, stack))
            };
            match dent {
                Err(e) => Err(e),
                Ok((st1, dt)) => {
                    let r = list_marks(s, nb, le, nb, indent, st1, toks + dt);
                    Ok((r.1, r.2 + seq![(LinesMark::Line, r.0, le), (LinesMark::EndOfLine, le, ending)]))
                },
            }
        },
    }
}

/// The state after lexing the first `i` lines.
pub open spec fn lex_prefix(s: Seq<char>, lines: Seq<(int, int, int)>, i: int) -> Result<(Seq<int>, Seq<MarkSpan>), LineError>
    decreases i,
{
    if i <= 0 {
        Ok((seq![0int], Seq::empty()))
    } else {
        match lex_prefix(s, lines, i - 1) {
            Ok(st) => lex_line(s, st.0, st.1, lines[i - 1]),
            Err(e) => Err(e),
        }
    }
}

/// The tokens of the indentation lexer for `s`, or its error: every line in
/// turn, then a dedent at the end of the code for each indentation still open.
pub open spec fn spec_tokenize_lines(s: Seq<char>) -> Result<Seq<MarkSpan>, LineError> {
    let lines = line_spans(s);
    match lex_prefix(s, lines, lines.len() as int) {
        Ok(st) => Ok(st.1 + pop_dedents(st.0, 0, s.len() as int).1),
        Err(e) => Err(e),
    }
}

/// An indentation stack: it starts at zero, increases strictly, and stays
/// within `bound`.
pub open spec fn stack_ok(stack: Seq<int>, bound: int) -> bool {
    &&& stack.len() >= 1
    &&& stack[0] == 0
    &&& forall|i: int, j: int| 0 <= i < j < stack.len() ==> stack[i] < stack[j]
    &&& forall|i: int| 0 <= i < stack.len() ==> 0 <= #[trigger] stack[i] <= bound
}


/// The kind of a token.
pub open spec fn mark_of(t: LinesToken) -> LinesMark {
    match t {
        LinesToken::Indent => LinesMark::Indent,
        LinesToken::Dedent => LinesMark::Dedent,
        LinesToken::Line(_) => LinesMark::Line,
        LinesToken::Dash => LinesMark::Dash,
        LinesToken::EndOfLine => LinesMark::EndOfLine,
    }
}

/// A token as kind, start and end.
pub open spec fn token_view(t: Spanned<LinesToken>) -> MarkSpan {
    (mark_of(t.inner), t.span.spec_start() as int, t.span.spec_end() as int)
}

/// Tokens as kinds, starts and ends.
pub open spec fn tokens_view(ts: Seq<Spanned<LinesToken>>) -> Seq<MarkSpan> {
    ts.map_values(|t: Spanned<LinesToken>| token_view(t))
}

/// Every token is in `source` and within `s`, and every line token holds the
/// text of its span.
pub open spec fn tokens_sourced(ts: Seq<Spanned<LinesToken>>, s: Seq<char>, source: SourceId) -> bool {
    forall|i: int| 0 <= i < ts.len() ==> {
        &&& (#[trigger] ts[i]).span.spec_source() == source
        &&& ts[i].span.spec_start() <= ts[i].span.spec_end() <= s.len()
        &&& (ts[i].inner matches LinesToken::Line(text) ==>
            text@ == s.subrange(ts[i].span.spec_start() as int, ts[i].span.spec_end() as int))
    }
}

/// An indentation stack, widened to integers.
pub open spec fn stack_view(v: Seq<usize>) -> Seq<int> {
    v.map_values(|x: usize| x as int)
}

proof fn lemma_push_token(ts: Seq<Spanned<LinesToken>>, t: Spanned<LinesToken>, s: Seq<char>, source: SourceId)
    requires
        tokens_sourced(ts, s, source),
        t.span.spec_source() == source,
        t.span.spec_start() <= t.span.spec_end() <= s.len(),
        t.inner matches LinesToken::Line(text) ==> text@ == s.subrange(t.span.spec_start() as int, t.span.spec_end() as int),
    ensures
        tokens_sourced(ts.push(t), s, source),
        tokens_view(ts.push(t)) == tokens_view(ts).push(token_view(t)),
{
    assert forall|i: int| 0 <= i < ts.push(t).len() implies {
        &&& (#[trigger] ts.push(t)[i]).span.spec_source() == source
        &&& ts.push(t)[i].span.spec_start() <= ts.push(t)[i].span.spec_end() <= s.len()
        &&& (ts.push(t)[i].inner matches LinesToken::Line(text) ==>
            text@ == s.subrange(ts.push(t)[i].span.spec_start() as int, ts.push(t)[i].span.spec_end() as int))
    } by {
        if i < ts.len() {
            assert(ts.push(t)[i] == ts[i]);
        }
    }
    assert(tokens_view(ts.push(t)) =~= tokens_view(ts).push(token_view(t)));
}

/// Appends a token with no text at `start..end`.
fn push_mark(tokens: &mut Vec<Spanned<LinesToken>>, token: LinesToken, source: &SourceId, start: usize, end: usize, Ghost(s): Ghost<Seq<char>>)
    requires
        tokens_sourced(old(tokens)@, s, *source),
        !(token is Line),
        start <= end <= s.len(),
    ensures
        tokens_sourced(final(tokens)@, s, *source),
        tokens_view(final(tokens)@) == tokens_view(old(tokens)@).push((mark_of(token), start as int, end as int)),
{
    let t = Spanned::new(token, Span::new(source.copy(), start, end));
    proof { lemma_push_token(tokens@, t, s, *source); }
    tokens.push(t);
}

/// The first position in `from..to` that is not blank.
fn find_nonblank(chars: &Vec<char>, from: usize, to: usize) -> (r: Option<usize>)
    requires
        to <= chars@.len(),
    ensures
        r == match first_nonblank(chars@, from as int, to as int) { Some(k) => Some(k as usize), None => None },
        r matches Some(k) ==> from <= k < to,
{
    let mut i = from;
    proof { lemma_first_nonblank(chars@, from as int, to as int); }
    while i < to
        invariant
            from <= i || from >= to,
            to <= chars@.len(),
            first_nonblank(chars@, from as int, to as int) == first_nonblank(chars@, i as int, to as int),
        decreases to - i,
    {
        if chars[i] != ' ' && chars[i] != '\t' {
            return Some(i);
        }
        i = i + 1;
    }
    None
}

/// Pops every indentation deeper than `target`, emitting a dedent at `pos` for each.
fn dedent_to(stack: &mut Vec<usize>, tokens: &mut Vec<Spanned<LinesToken>>, target: usize, pos: usize, source: &SourceId, Ghost(s): Ghost<Seq<char>>)
    requires
        stack_ok(stack_view(old(stack)@), s.len() as int),
        stack_view(old(stack)@).contains(target as int),
        tokens_sourced(old(tokens)@, s, *source),
        pos <= s.len(),
    ensures
        stack_ok(stack_view(final(stack)@), s.len() as int),
        stack_view(final(stack)@) == pop_dedents(stack_view(old(stack)@), target as int, pos as int).0,
        tokens_view(final(tokens)@) == tokens_view(old(tokens)@) + pop_dedents(stack_view(old(stack)@), target as int, pos as int).1,
        final(stack)@[final(stack)@.len() - 1] == target,
        tokens_sourced(final(tokens)@, s, *source),
{
    let ghost orig = stack_view(stack@);
    let ghost orig_toks = tokens_view(tokens@);
    let ghost k = choose|k: int| 0 <= k < orig.len() && orig[k] == target as int;
    while stack[stack.len() - 1] > target
        invariant
            stack_ok(stack_view(stack@), s.len() as int),
            pos <= s.len(),
            0 <= k < stack@.len(),
            stack@[k] == target,
            tokens_sourced(tokens@, s, *source),
            pop_dedents(orig, target as int, pos as int) == (pop_dedents(stack_view(stack@), target as int, pos as int).0,
                tokens_view(tokens@).subrange(orig_toks.len() as int, tokens_view(tokens@).len() as int) + pop_dedents(stack_view(stack@), target as int, pos as int).1),
            orig_toks.len() <= tokens@.len(),
            tokens_view(tokens@).subrange(0, orig_toks.len() as int) == orig_toks,
        decreases stack@.len(),
    {
        let ghost before = stack_view(stack@);
        let ghost before_toks = tokens_view(tokens@);
        assert(stack@.len() - 1 != k);
        stack.pop();
        proof {
            assert(stack_view(stack@) =~= before.drop_last());
        }
        push_mark(tokens, LinesToken::Dedent, source, pos, pos, Ghost(s));
        proof {
            let tv = tokens_view(tokens@);
            assert(tv.subrange(orig_toks.len() as int, tv.len() as int) =~=
                before_toks.subrange(orig_toks.len() as int, before_toks.len() as int).push((LinesMark::Dedent, pos as int, pos as int)));
            assert(tv.subrange(0, orig_toks.len() as int) =~= before_toks.subrange(0, orig_toks.len() as int));
            let rest = pop_dedents(stack_view(stack@), target as int, pos as int);
            assert(pop_dedents(before, target as int, pos as int) == (rest.0, seq![(LinesMark::Dedent, pos as int, pos as int)] + rest.1));
            assert(before_toks.subrange(orig_toks.len() as int, before_toks.len() as int) + (seq![(LinesMark::Dedent, pos as int, pos as int)] + rest.1)
                =~= tv.subrange(orig_toks.len() as int, tv.len() as int) + rest.1);
        }
    }
    proof {
        let cur = stack_view(stack@);
        assert(pop_dedents(cur, target as int, pos as int) == (cur, Seq::<MarkSpan>::empty()));
        let tv = tokens_view(tokens@);
        assert(tv =~= orig_toks + tv.subrange(orig_toks.len() as int, tv.len() as int));
        if k < stack@.len() - 1 {
            assert(stack_view(stack@)[k] < stack_view(stack@)[stack@.len() - 1]);
        }
    }
}


/// Lexes the list markers of a line, as `list_marks` says; gives where the
/// rest of the line starts.
fn list_markers(chars: &Vec<char>, nb: usize, le: usize, indent: usize, stack: &mut Vec<usize>, tokens: &mut Vec<Spanned<LinesToken>>, source: &SourceId) -> (p: usize)
    requires
        nb <= le <= chars@.len(),
        indent <= nb,
        stack_ok(stack_view(old(stack)@), chars@.len() as int),
        old(stack)@[old(stack)@.len() - 1] == indent,
        tokens_sourced(old(tokens)@, chars@, *source),
    ensures
        ({
            let r = list_marks(chars@, nb as int, le as int, nb as int, indent as int, stack_view(old(stack)@), tokens_view(old(tokens)@));
            &&& r.0 == p as int
            &&& r.1 == stack_view(final(stack)@)
            &&& r.2 == tokens_view(final(tokens)@)
        }),
        nb <= p <= le,
        stack_ok(stack_view(final(stack)@), chars@.len() as int),
        tokens_sourced(final(tokens)@, chars@, *source),
{
    let ghost s = chars@;
    let ghost goal = list_marks(s, nb as int, le as int, nb as int, indent as int, stack_view(stack@), tokens_view(tokens@));
    let mut p = nb;
    loop
        invariant
            nb <= p <= le <= s.len(),
            s == chars@,
            indent <= nb,
            stack_ok(stack_view(stack@), s.len() as int),
            stack@[stack@.len() - 1] == indent + (p - nb),
            tokens_sourced(tokens@, s, *source),
            goal == list_marks(s, p as int, le as int, nb as int, indent as int, stack_view(stack@), tokens_view(tokens@)),
            goal == list_marks(s, nb as int, le as int, nb as int, indent as int, stack_view(old(stack)@), tokens_view(old(tokens)@)),
        ensures
            goal == (p as int, stack_view(stack@), tokens_view(tokens@)),
            nb <= p <= le,
            stack_ok(stack_view(stack@), s.len() as int),
            tokens_sourced(tokens@, s, *source),
        decreases le - p,
    {
        if !(p < le && chars[p] == '-') {
            assert(goal == (p as int, stack_view(stack@), tokens_view(tokens@)));
            return p;
        }
        let next = find_nonblank(chars, p + 1, le);
        proof { lemma_first_nonblank(s, p + 1, le as int); }
        match next {
            Some(q) => {
                if q == p + 1 {
                    assert(first_nonblank(s, p + 1, le as int) == Some(q as int));
                    assert(goal == (p as int, stack_view(stack@), tokens_view(tokens@)));
                    return p;
                }
                let ghost before = stack_view(stack@);
                let ghost before_toks = tokens_view(tokens@);
                push_mark(tokens, LinesToken::Dash, source, p, p + 1, Ghost(s));
                push_mark(tokens, LinesToken::Indent, source, p, q, Ghost(s));
                let level = indent + (q - nb);
                stack.push(level);
                proof {
                    assert(stack_view(stack@) =~= before.push(level as int));
                    assert(tokens_view(tokens@) =~= before_toks + seq![(LinesMark::Dash, p as int, p + 1), (LinesMark::Indent, p as int, q as int)]);
                    let sv = stack_view(stack@);
                    assert forall|i: int, j: int| 0 <= i < j < sv.len() implies sv[i] < sv[j] by {
                        if j == sv.len() - 1 && i < j {
                            assert(before[i] <= before[before.len() - 1]);
                        } else {
                            assert(sv[i] == before[i] && sv[j] == before[j]);
                        }
                    }
                    assert forall|i: int| 0 <= i < sv.len() implies 0 <= #[trigger] sv[i] <= s.len() by {
                        if i < before.len() {
                            assert(sv[i] == before[i]);
                        }
                    }
                }
                p = q;
            },
            None => {
                push_mark(tokens, LinesToken::Dash, source, p, p + 1, Ghost(s));
                return le - 1;
            },
        }
    }
}

/// Copies the indentation stack.
fn copy_levels(v: &Vec<usize>) -> (c: Vec<usize>)
    ensures
        c@ == v@,
{
    let mut c: Vec<usize> = Vec::new();
    let mut i: usize = 0;
    while i < v.len()
        invariant
            i <= v@.len(),
            c@ == v@.subrange(0, i as int),
        decreases v.len() - i,
    {
        c.push(v[i]);
        proof { assert(c@ =~= v@.subrange(0, i + 1)); }
        i = i + 1;
    }
    proof { assert(v@.subrange(0, v@.len() as int) =~= v@); }
    c
}


/// Whether the indentation stack holds `x`.
fn levels_contain(v: &Vec<usize>, x: usize) -> (b: bool)
    ensures
        b == stack_view(v@).contains(x as int),
{
    let mut i: usize = 0;
    while i < v.len()
        invariant
            i <= v@.len(),
            forall|j: int| 0 <= j < i ==> v@[j] != x,
        decreases v.len() - i,
    {
        if v[i] == x {
            assert(stack_view(v@)[i as int] == x as int);
            return true;
        }
        i = i + 1;
    }
    proof {
        if stack_view(v@).contains(x as int) {
            let j = choose|j: int| 0 <= j < stack_view(v@).len() && stack_view(v@)[j] == x as int;
            assert(v@[j] == x);
        }
    }
    false
}

/// The error of the lexer matches the error of the specification.
pub open spec fn error_matches(err: LinesLexerError, e: LineError, source: SourceId) -> bool {
    match err {
        LinesLexerError::InconsistentLeadingWhitespace { span, found, expected } => {
            &&& span.spec_source() == source
            &&& span.spec_start() == e.0
            &&& span.spec_end() == e.1
            &&& found == e.2
            &&& stack_view(expected@) == e.3
        },
    }
}

/// The span of the error lies within the first `n` characters.
pub open spec fn error_within(err: LinesLexerError, n: int) -> bool {
    match err {
        LinesLexerError::InconsistentLeadingWhitespace { span, .. } => span.spec_start() <= span.spec_end() <= n,
    }
}

/// Lexes one line, as `lex_line` says.
fn lex_one_line(chars: &Vec<char>, line: (usize, usize, usize), stack: &mut Vec<usize>, tokens: &mut Vec<Spanned<LinesToken>>, source: &SourceId) -> (r: Result<(), LinesLexerError>)
    requires
        line.0 <= line.1 <= line.2 <= chars@.len(),
        stack_ok(stack_view(old(stack)@), chars@.len() as int),
        tokens_sourced(old(tokens)@, chars@, *source),
    ensures
        match lex_line(chars@, stack_view(old(stack)@), tokens_view(old(tokens)@), line_as_int(line)) {
            Ok(st) => {
                &&& r is Ok
                &&& stack_view(final(stack)@) == st.0
                &&& tokens_view(final(tokens)@) == st.1
                &&& stack_ok(stack_view(final(stack)@), chars@.len() as int)
                &&& tokens_sourced(final(tokens)@, chars@, *source)
            },
            Err(e) => r matches Err(err) && error_matches(err, e, *source),
        },
        r matches Err(err) ==> error_within(err, chars@.len() as int),
{
    let ghost s = chars@;
    let ghost st0 = stack_view(stack@);
    let ghost t0 = tokens_view(tokens@);
    let (ls, le, ending) = line;
    proof { lemma_first_nonblank(s, ls as int, le as int); }
    match find_nonblank(chars, ls, le) {
        None => Ok(()),
        Some(nb) => {
            let indent = nb - ls;
            let cur = stack[stack.len() - 1];
            if indent == cur {
                assert(st0.last() == cur as int);
            } else if indent > cur {
                let diff = indent - cur;
                stack.push(indent);
                push_mark(tokens, LinesToken::Indent, source, nb - diff, nb, Ghost(s));
                proof {
                    assert(stack_view(stack@) =~= st0.push(indent as int));
                    let sv = stack_view(stack@);
                    assert forall|i: int, j: int| 0 <= i < j < sv.len() implies sv[i] < sv[j] by {
                        if j == sv.len() - 1 && i < j {
                            assert(st0[i] <= st0[st0.len() - 1]);
                        } else {
                            assert(sv[i] == st0[i] && sv[j] == st0[j]);
                        }
                    }
                    assert forall|i: int| 0 <= i < sv.len() implies 0 <= #[trigger] sv[i] <= s.len() by {
                        if i < st0.len() {
                            assert(sv[i] == st0[i]);
                        }
                    }
                    assert(tokens_view(tokens@) =~= t0 + seq![(LinesMark::Indent, nb - (indent - cur), nb as int)]);
                }
            } else if levels_contain(stack, indent) {
                dedent_to(stack, tokens, indent, nb, source, Ghost(s));
            } else {
                let expected = copy_levels(stack);
                let span = Span::new(source.copy(), ls, nb);
                return Err(LinesLexerError::InconsistentLeadingWhitespace { span, found: indent, expected });
            }
            let ghost st1 = stack_view(stack@);
            let ghost t1 = tokens_view(tokens@);
            let p = list_markers(chars, nb, le, indent, stack, tokens, source);
            let text = text_between(chars, p, le);
            let t = Spanned::new(LinesToken::Line(text), Span::new(source.copy(), p, le));
            proof { lemma_push_token(tokens@, t, s, *source); }
            tokens.push(t);
            push_mark(tokens, LinesToken::EndOfLine, source, le, ending, Ghost(s));
            proof {
                let r = list_marks(s, nb as int, le as int, nb as int, indent as int, st1, t1);
                assert(tokens_view(tokens@) =~= r.2 + seq![(LinesMark::Line, r.0, le as int), (LinesMark::EndOfLine, le as int, ending as int)]);
            }
            Ok(())
        },
    }
}

proof fn lemma_prefix_err(s: Seq<char>, lines: Seq<(int, int, int)>, i: int, j: int)
    requires
        0 <= i <= j,
        lex_prefix(s, lines, i) is Err,
    ensures
        lex_prefix(s, lines, j) == lex_prefix(s, lines, i),
    decreases j - i,
{
    if i < j {
        lemma_prefix_err(s, lines, i, j - 1);
    }
}

/// Splits code into lines and lexes their indentation and list markers, as
/// `spec_tokenize_lines` says, with spans that count characters: on success,
/// the tokens, all in `source_id`, each line token holding the text of its
/// span; on failure, the first line whose indentation is inconsistent.
pub(crate) fn mark_lines(code: &str, source_id: SourceId) -> (r: Result<Vec<Spanned<LinesToken>>, LinesLexerError>)
    ensures
        match spec_tokenize_lines(code@) {
            Ok(t) => r matches Ok(ts) && tokens_view(ts@) == t && tokens_sourced(ts@, code@, source_id),
            Err(e) => r matches Err(err) && error_matches(err, e, source_id),
        },
        r matches Err(err) ==> error_within(err, code@.len() as int),
{
    let chars = chars_of(code);
    let ghost s = chars@;
    let lines = split_lines(&chars);
    let ghost ls = line_spans(s);
    let mut stack: Vec<usize> = Vec::new();
    stack.push(0);
    let mut tokens: Vec<Spanned<LinesToken>> = Vec::new();
    proof {
        assert(stack_view(stack@) =~= seq![0int]);
        assert(tokens_view(tokens@) =~= Seq::<MarkSpan>::empty());
        assert(lines@.len() == ls.len());
    }
    let mut i: usize = 0;
    while i < lines.len()
        invariant
            s == chars@,
            s == code@,
            ls == line_spans(s),
            lines@.map_values(|l: (usize, usize, usize)| line_as_int(l)) == ls,
            forall|k: int| 0 <= k < lines@.len() ==> #[trigger] lines@[k].0 <= lines@[k].1 <= lines@[k].2 <= chars@.len(),
            i <= lines@.len(),
            lex_prefix(s, ls, i as int) == Ok::<(Seq<int>, Seq<MarkSpan>), LineError>((stack_view(stack@), tokens_view(tokens@))),
            stack_ok(stack_view(stack@), s.len() as int),
            tokens_sourced(tokens@, s, source_id),
        decreases lines.len() - i,
    {
        let line = lines[i];
        assert(line_as_int(line) == ls[i as int]);
        let res = lex_one_line(&chars, line, &mut stack, &mut tokens, &source_id);
        match res {
            Ok(()) => {},
            Err(e) => {
                proof { lemma_prefix_err(s, ls, i + 1, ls.len() as int); }
                return Err(e);
            },
        }
        i = i + 1;
    }
    let ghost before = tokens_view(tokens@);
    let ghost st = stack_view(stack@);
    proof { assert(st[0] == 0); }
    dedent_to(&mut stack, &mut tokens, 0, chars.len(), &source_id, Ghost(s));
    Ok(tokens)
}

/// A token of the specification with its offsets turned from characters of
/// `s` into bytes.
pub open spec fn mark_in_bytes(s: Seq<char>, m: MarkSpan) -> MarkSpan {
    (m.0, byte_offset(s, m.1), byte_offset(s, m.2))
}

/// Tokens of the specification with their offsets in bytes of `s`.
pub open spec fn marks_in_bytes(s: Seq<char>, t: Seq<MarkSpan>) -> Seq<MarkSpan> {
    t.map_values(|m: MarkSpan| mark_in_bytes(s, m))
}

/// An error of the specification with its span in bytes of `s`.
pub open spec fn error_in_bytes(s: Seq<char>, e: LineError) -> LineError {
    (byte_offset(s, e.0), byte_offset(s, e.1), e.2, e.3)
}

/// The tokens match those of the specification one for one: each is in
/// `source`, and each line token holds the characters that the
/// specification's token spans in `s`.
pub open spec fn tokens_hold_text(ts: Seq<Spanned<LinesToken>>, t: Seq<MarkSpan>, s: Seq<char>, source: SourceId) -> bool {
    &&& ts.len() == t.len()
    &&& forall|i: int| 0 <= i < ts.len() ==> {
        &&& (#[trigger] ts[i]).span.spec_source() == source
        &&& (ts[i].inner matches LinesToken::Line(text) ==> text@ == s.subrange(t[i].1, t[i].2))
    }
}

/// The error with its span turned from characters of `s` into bytes, by the
/// table of byte offsets.
pub(crate) fn error_to_bytes(err: LinesLexerError, offs: &Vec<usize>, Ghost(s): Ghost<Seq<char>>, Ghost(e): Ghost<LineError>, Ghost(source): Ghost<SourceId>) -> (r: LinesLexerError)
    requires
        error_matches(err, e, source),
        error_within(err, s.len() as int),
        offs@.len() == s.len() + 1,
        forall|k: int| 0 <= k <= s.len() ==> #[trigger] offs@[k] == byte_offset(s, k),
    ensures
        error_matches(r, error_in_bytes(s, e), source),
{
    match err {
        LinesLexerError::InconsistentLeadingWhitespace { span, found, expected } => {
            let bspan = Span::new(span.source(), offs[span.start()], offs[span.end()]);
            LinesLexerError::InconsistentLeadingWhitespace { span: bspan, found, expected }
        },
    }
}

/// A copy of a token of the indentation lexer.
fn copy_lines_token(t: &LinesToken) -> (c: LinesToken)
    ensures
        c == *t,
{
    match t {
        LinesToken::Indent => LinesToken::Indent,
        LinesToken::Dedent => LinesToken::Dedent,
        LinesToken::Line(x) => LinesToken::Line(x.clone()),
        LinesToken::Dash => LinesToken::Dash,
        LinesToken::EndOfLine => LinesToken::EndOfLine,
    }
}

/// Splits code into lines and lexes their indentation and list markers, as
/// `spec_tokenize_lines` says, with spans that count bytes of `code`: on
/// success, the tokens, all in `source_id`, each line token holding the text
/// of its span; on failure, the first line whose indentation is
/// inconsistent, with the span of its leading whitespace.
pub fn tokenize_lines(code: &str, source_id: SourceId) -> (r: Result<Vec<Spanned<LinesToken>>, LinesLexerError>)
    ensures
        match spec_tokenize_lines(code@) {
            Ok(t) => r matches Ok(ts) && tokens_view(ts@) == marks_in_bytes(code@, t) && tokens_hold_text(ts@, t, code@, source_id),
            Err(e) => r matches Err(err) && error_matches(err, error_in_bytes(code@, e), source_id),
        },
        r matches Ok(ts) ==> forall|i: int| 0 <= i < ts@.len() ==> ((#[trigger] ts@[i]).inner matches LinesToken::Line(text) ==> {
            &&& ts@[i].span.spec_start() <= ts@[i].span.spec_end() <= code.spec_bytes().len()
            &&& encode_utf8(text@) == code.spec_bytes().subrange(ts@[i].span.spec_start() as int, ts@[i].span.spec_end() as int)
        }),
{
    let total = code.as_bytes().len();
    let chars = chars_of(code);
    let ghost s = chars@;
    let offs = byte_offsets(&chars, total);
    match mark_lines(code, source_id.copy()) {
        Err(err) => Err(error_to_bytes(err, &offs, Ghost(s), Ghost(spec_tokenize_lines(s)->Err_0), Ghost(source_id))),
        Ok(ts) => {
            let ghost t = tokens_view(ts@);
            let mut out: Vec<Spanned<LinesToken>> = Vec::new();
            let mut i: usize = 0;
            while i < ts.len()
                invariant
                    s == code@,
                    s == chars@,
                    offs@.len() == s.len() + 1,
                    forall|k: int| 0 <= k <= s.len() ==> #[trigger] offs@[k] == byte_offset(s, k),
                    t == tokens_view(ts@),
                    tokens_sourced(ts@, s, source_id),
                    i <= ts@.len(),
                    out@.len() == i,
                    tokens_view(out@) == marks_in_bytes(s, t).subrange(0, i as int),
                    forall|k: int| 0 <= k < i ==> {
                        &&& (#[trigger] out@[k]).span.spec_source() == source_id
                        &&& out@[k].inner == ts@[k].inner
                    },
                decreases ts.len() - i,
            {
                let tk = &ts[i];
                let a = tk.span.start();
                let b = tk.span.end();
                assert(ts@[i as int].span.spec_start() <= ts@[i as int].span.spec_end() <= s.len());
                let nt = Spanned::new(copy_lines_token(&tk.inner), Span::new(source_id.copy(), offs[a], offs[b]));
                let ghost before = out@;
                out.push(nt);
                proof {
                    assert(t[i as int] == token_view(ts@[i as int]));
                    assert(tokens_view(out@) =~= marks_in_bytes(s, t).subrange(0, i + 1));
                    assert forall|k: int| 0 <= k < i + 1 implies {
                        &&& (#[trigger] out@[k]).span.spec_source() == source_id
                        &&& out@[k].inner == ts@[k].inner
                    } by {
                        if k < i {
                            assert(out@[k] == before[k]);
                        }
                    }
                }
                i = i + 1;
            }
            proof {
                assert(tokens_view(out@) =~= marks_in_bytes(s, t));
                assert forall|k: int| 0 <= k < out@.len() implies {
                    &&& (#[trigger] out@[k]).span.spec_source() == source_id
                    &&& (out@[k].inner matches LinesToken::Line(text) ==> text@ == s.subrange(t[k].1, t[k].2))
                } by {
                    assert(out@[k].inner == ts@[k].inner);
                    assert(t[k] == token_view(ts@[k]));
                }
                assert forall|k: int| 0 <= k < out@.len() implies ((#[trigger] out@[k]).inner matches LinesToken::Line(text) ==> {
                    &&& out@[k].span.spec_start() <= out@[k].span.spec_end() <= code.spec_bytes().len()
                    &&& encode_utf8(text@) == code.spec_bytes().subrange(out@[k].span.spec_start() as int, out@[k].span.spec_end() as int)
                }) by {
                    assert(out@[k].inner == ts@[k].inner);
                    assert(t[k] == token_view(ts@[k]));
                    let a = t[k].1;
                    let b = t[k].2;
                    assert(tokens_view(out@)[k] == mark_in_bytes(s, t[k]));
                    if out@[k].inner is Line {
                        lemma_encode_subrange(s, a, b);
                        lemma_byte_offset_mono(s, a, b);
                        lemma_byte_offset_mono(s, b, s.len() as int);
                    }
                }
            }
            Ok(out)
        },
    }
}


/// How many tokens of kind `m` there are in `t`.
pub open spec fn count_mark(t: Seq<MarkSpan>, m: LinesMark) -> int
    decreases t.len(),
{
    if t.len() == 0 {
        0
    } else {
        count_mark(t.drop_last(), m) + if t.last().0 == m { 1int } else { 0int }
    }
}

/// Indentations opened and not yet closed in `t`.
pub open spec fn depth(t: Seq<MarkSpan>) -> int {
    count_mark(t, LinesMark::Indent) - count_mark(t, LinesMark::Dedent)
}

/// No prefix of `t` closes more indentations than it opened.
pub open spec fn prefix_ok(t: Seq<MarkSpan>) -> bool {
    forall|k: int| 0 <= k <= t.len() ==> depth(#[trigger] t.take(k)) >= 0
}

proof fn lemma_count_append(a: Seq<MarkSpan>, b: Seq<MarkSpan>, m: LinesMark)
    ensures
        count_mark(a + b, m) == count_mark(a, m) + count_mark(b, m),
    decreases b.len(),
{
    if b.len() == 0 {
        assert(a + b =~= a);
    } else {
        lemma_count_append(a, b.drop_last(), m);
        assert((a + b).drop_last() =~= a + b.drop_last());
    }
}

proof fn lemma_count_no_dedent(u: Seq<MarkSpan>)
    requires
        forall|i: int| 0 <= i < u.len() ==> (#[trigger] u[i]).0 != LinesMark::Dedent,
    ensures
        count_mark(u, LinesMark::Dedent) == 0,
        count_mark(u, LinesMark::Indent) >= 0,
    decreases u.len(),
{
    if u.len() > 0 {
        assert forall|i: int| 0 <= i < u.drop_last().len() implies (#[trigger] u.drop_last()[i]).0 != LinesMark::Dedent by {
            assert(u.drop_last()[i] == u[i]);
        }
        lemma_count_no_dedent(u.drop_last());
        assert(u[u.len() - 1].0 != LinesMark::Dedent);
    }
}

proof fn lemma_count_all_dedent(u: Seq<MarkSpan>)
    requires
        forall|i: int| 0 <= i < u.len() ==> (#[trigger] u[i]).0 == LinesMark::Dedent,
    ensures
        count_mark(u, LinesMark::Dedent) == u.len(),
        count_mark(u, LinesMark::Indent) == 0,
    decreases u.len(),
{
    if u.len() > 0 {
        assert forall|i: int| 0 <= i < u.drop_last().len() implies (#[trigger] u.drop_last()[i]).0 == LinesMark::Dedent by {
            assert(u.drop_last()[i] == u[i]);
        }
        lemma_count_all_dedent(u.drop_last());
        assert(u[u.len() - 1].0 == LinesMark::Dedent);
    }
}

proof fn lemma_append_no_dedent(t: Seq<MarkSpan>, u: Seq<MarkSpan>)
    requires
        prefix_ok(t),
        depth(t) >= 0,
        forall|i: int| 0 <= i < u.len() ==> (#[trigger] u[i]).0 != LinesMark::Dedent,
    ensures
        prefix_ok(t + u),
        depth(t + u) == depth(t) + count_mark(u, LinesMark::Indent),
{
    lemma_count_append(t, u, LinesMark::Indent);
    lemma_count_append(t, u, LinesMark::Dedent);
    lemma_count_no_dedent(u);
    assert forall|k: int| 0 <= k <= (t + u).len() implies depth(#[trigger] (t + u).take(k)) >= 0 by {
        if k <= t.len() {
            assert((t + u).take(k) =~= t.take(k));
        } else {
            let w = u.take(k - t.len());
            assert((t + u).take(k) =~= t + w);
            assert forall|i: int| 0 <= i < w.len() implies (#[trigger] w[i]).0 != LinesMark::Dedent by {
                assert(w[i] == u[i]);
            }
            lemma_count_no_dedent(w);
            lemma_count_append(t, w, LinesMark::Indent);
            lemma_count_append(t, w, LinesMark::Dedent);
        }
    }
}

proof fn lemma_append_dedents(t: Seq<MarkSpan>, u: Seq<MarkSpan>)
    requires
        prefix_ok(t),
        u.len() <= depth(t),
        forall|i: int| 0 <= i < u.len() ==> (#[trigger] u[i]).0 == LinesMark::Dedent,
    ensures
        prefix_ok(t + u),
        depth(t + u) == depth(t) - u.len(),
{
    lemma_count_append(t, u, LinesMark::Indent);
    lemma_count_append(t, u, LinesMark::Dedent);
    lemma_count_all_dedent(u);
    assert forall|k: int| 0 <= k <= (t + u).len() implies depth(#[trigger] (t + u).take(k)) >= 0 by {
        if k <= t.len() {
            assert((t + u).take(k) =~= t.take(k));
        } else {
            let w = u.take(k - t.len());
            assert((t + u).take(k) =~= t + w);
            assert forall|i: int| 0 <= i < w.len() implies (#[trigger] w[i]).0 == LinesMark::Dedent by {
                assert(w[i] == u[i]);
            }
            lemma_count_all_dedent(w);
            lemma_count_append(t, w, LinesMark::Indent);
            lemma_count_append(t, w, LinesMark::Dedent);
        }
    }
}

/// What the lexer keeps between lines: the stack starts at zero and has one
/// entry more than the indentations left open, and no prefix of the tokens
/// closes an indentation it did not open.
pub open spec fn balance_inv(stack: Seq<int>, toks: Seq<MarkSpan>) -> bool {
    &&& stack.len() >= 1
    &&& stack[0] == 0
    &&& forall|i: int| 1 <= i < stack.len() ==> #[trigger] stack[i] > 0
    &&& depth(toks) == stack.len() - 1
    &&& prefix_ok(toks)
}

proof fn lemma_pop_dedents_shape(stack: Seq<int>, target: int, pos: int)
    requires
        stack.len() >= 1,
        stack[0] == 0,
        target >= 0,
    ensures
        ({
            let r = pop_dedents(stack, target, pos);
            &&& r.0.len() >= 1
            &&& r.0 == stack.take(r.0.len() as int)
            &&& r.0.len() + r.1.len() == stack.len()
            &&& r.0.last() <= target
            &&& forall|i: int| 0 <= i < r.1.len() ==> (#[trigger] r.1[i]).0 == LinesMark::Dedent
        }),
    decreases stack.len(),
{
    if stack.last() > target {
        assert(stack.len() > 1);
        let d = stack.drop_last();
        lemma_pop_dedents_shape(d, target, pos);
        let r = pop_dedents(d, target, pos);
        assert(r.0 =~= stack.take(r.0.len() as int));
        let u = seq![(LinesMark::Dedent, pos, pos)] + r.1;
        assert forall|i: int| 0 <= i < u.len() implies (#[trigger] u[i]).0 == LinesMark::Dedent by {
            if i > 0 {
                assert(u[i] == r.1[i - 1]);
            }
        }
    } else {
        assert(stack =~= stack.take(stack.len() as int));
    }
}

proof fn lemma_pop_dedents_balance(stack: Seq<int>, toks: Seq<MarkSpan>, target: int, pos: int)
    requires
        balance_inv(stack, toks),
        target >= 0,
    ensures
        ({
            let r = pop_dedents(stack, target, pos);
            balance_inv(r.0, toks + r.1)
        }),
{
    lemma_pop_dedents_shape(stack, target, pos);
    let r = pop_dedents(stack, target, pos);
    lemma_append_dedents(toks, r.1);
    assert(r.0[0] == stack[0]);
    assert forall|i: int| 1 <= i < r.0.len() implies #[trigger] r.0[i] > 0 by {
        assert(r.0[i] == stack[i]);
    }
}

proof fn lemma_list_marks_balance(s: Seq<char>, p: int, le: int, nb: int, indent: int, stack: Seq<int>, toks: Seq<MarkSpan>)
    requires
        balance_inv(stack, toks),
        nb <= p,
        indent >= 0,
    ensures
        ({
            let r = list_marks(s, p, le, nb, indent, stack, toks);
            balance_inv(r.1, r.2)
        }),
    decreases le - p,
{
    if 0 <= p < le && s[p] == '-' {
        lemma_first_nonblank(s, p + 1, le);
        match first_nonblank(s, p + 1, le) {
            Some(q) => {
                if q != p + 1 {
                    let u = seq![(LinesMark::Dash, p, p + 1), (LinesMark::Indent, p, q)];
                    lemma_append_no_dedent(toks, u);
                    assert(count_mark(u, LinesMark::Indent) == 1) by {
                        reveal_with_fuel(count_mark, 3);
                        assert(u.drop_last() =~= seq![(LinesMark::Dash, p, p + 1)]);
                        assert(u.drop_last().drop_last() =~= Seq::<MarkSpan>::empty());
                    }
                    let st = stack.push(indent + (q - nb));
                    assert(st[0] == 0);
                    assert forall|i: int| 1 <= i < st.len() implies #[trigger] st[i] > 0 by {
                        if i < stack.len() {
                            assert(st[i] == stack[i]);
                        }
                    }
                    lemma_list_marks_balance(s, q, le, nb, indent, st, toks + u);
                }
            },
            None => {
                let u = seq![(LinesMark::Dash, p, p + 1)];
                lemma_append_no_dedent(toks, u);
                assert(count_mark(u, LinesMark::Indent) == 0) by {
                    reveal_with_fuel(count_mark, 2);
                    assert(u.drop_last() =~= Seq::<MarkSpan>::empty());
                }
                assert(toks + u =~= toks.push((LinesMark::Dash, p, p + 1)));
            },
        }
    }
}

proof fn lemma_lex_line_balance(s: Seq<char>, stack: Seq<int>, toks: Seq<MarkSpan>, line: (int, int, int))
    requires
        balance_inv(stack, toks),
    ensures
        lex_line(s, stack, toks, line) matches Ok(st) ==> balance_inv(st.0, st.1),
{
    let (ls, le, ending) = line;
    lemma_first_nonblank(s, ls, le);
    match first_nonblank(s, ls, le) {
        None => {},
        Some(nb) => {
            let indent = nb - ls;
            let cur = stack.last();
            let mut st1 = stack;
            let mut t1 = toks;
            if indent == cur {
                assert(toks + Seq::<MarkSpan>::empty() =~= toks);
            } else if indent > cur {
                let u = seq![(LinesMark::Indent, nb - (indent - cur), nb)];
                lemma_append_no_dedent(toks, u);
                assert(count_mark(u, LinesMark::Indent) == 1) by {
                    reveal_with_fuel(count_mark, 2);
                    assert(u.drop_last() =~= Seq::<MarkSpan>::empty());
                }
                st1 = stack.push(indent);
                t1 = toks + u;
                assert(st1[0] == 0);
                assert forall|i: int| 1 <= i < st1.len() implies #[trigger] st1[i] > 0 by {
                    if i < stack.len() {
                        assert(st1[i] == stack[i]);
                    }
                }
            } else if stack.contains(indent) {
                lemma_pop_dedents_balance(stack, toks, indent, nb);
                let r = pop_dedents(stack, indent, nb);
                st1 = r.0;
                t1 = toks + r.1;
            } else {
                return;
            }
            assert(balance_inv(st1, t1));
            lemma_list_marks_balance(s, nb, le, nb, indent, st1, t1);
            let r = list_marks(s, nb, le, nb, indent, st1, t1);
            let u = seq![(LinesMark::Line, r.0, le), (LinesMark::EndOfLine, le, ending)];
            lemma_append_no_dedent(r.2, u);
            assert(count_mark(u, LinesMark::Indent) == 0) by {
                reveal_with_fuel(count_mark, 3);
                assert(u.drop_last() =~= seq![(LinesMark::Line, r.0, le)]);
                assert(u.drop_last().drop_last() =~= Seq::<MarkSpan>::empty());
            }
        },
    }
}

proof fn lemma_lex_prefix_balance(s: Seq<char>, lines: Seq<(int, int, int)>, i: int)
    ensures
        lex_prefix(s, lines, i) matches Ok(st) ==> balance_inv(st.0, st.1),
    decreases i,
{
    if i <= 0 {
        let t = Seq::<MarkSpan>::empty();
        assert forall|k: int| 0 <= k <= t.len() implies depth(#[trigger] t.take(k)) >= 0 by {
            assert(t.take(k) =~= t);
        }
    } else {
        lemma_lex_prefix_balance(s, lines, i - 1);
        if let Ok(st) = lex_prefix(s, lines, i - 1) {
            lemma_lex_line_balance(s, st.0, st.1, lines[i - 1]);
        }
    }
}

/// The indentation lexer keeps its indents and dedents balanced: on success,
/// there are as many dedents as indents, and no prefix of the tokens holds
/// more dedents than indents.
pub proof fn lemma_tokenize_lines_balanced(s: Seq<char>)
    ensures
        spec_tokenize_lines(s) matches Ok(t) ==> {
            &&& count_mark(t, LinesMark::Indent) == count_mark(t, LinesMark::Dedent)
            &&& forall|k: int| 0 <= k <= t.len() ==> depth(#[trigger] t.take(k)) >= 0
        },
{
    let lines = line_spans(s);
    lemma_lex_prefix_balance(s, lines, lines.len() as int);
    if let Ok(st) = lex_prefix(s, lines, lines.len() as int) {
        lemma_pop_dedents_shape(st.0, 0, s.len() as int);
        lemma_pop_dedents_balance(st.0, st.1, 0, s.len() as int);
        let r = pop_dedents(st.0, 0, s.len() as int);
        // every remaining level is above zero except the first
        assert(r.0.len() == 1) by {
            if r.0.len() > 1 {
                assert(r.0[r.0.len() - 1] > 0);
            }
        }
    }
}


/// Every token lies within the first `n` characters, its start before its
/// end, and a dedent spans nothing.
pub open spec fn marks_ok(t: Seq<MarkSpan>, n: int) -> bool {
    forall|i: int| 0 <= i < t.len() ==> {
        &&& 0 <= (#[trigger] t[i]).1 <= t[i].2 <= n
        &&& (t[i].0 == LinesMark::Dedent ==> t[i].1 == t[i].2)
    }
}

proof fn lemma_marks_ok_append(a: Seq<MarkSpan>, b: Seq<MarkSpan>, n: int)
    requires
        marks_ok(a, n),
        marks_ok(b, n),
    ensures
        marks_ok(a + b, n),
{
    assert forall|i: int| 0 <= i < (a + b).len() implies {
        &&& 0 <= (#[trigger] (a + b)[i]).1 <= (a + b)[i].2 <= n
        &&& ((a + b)[i].0 == LinesMark::Dedent ==> (a + b)[i].1 == (a + b)[i].2)
    } by {
        if i < a.len() {
            assert((a + b)[i] == a[i]);
        } else {
            assert((a + b)[i] == b[i - a.len()]);
        }
    }
}

proof fn lemma_line_spans_from_ok(s: Seq<char>, from: int)
    requires
        0 <= from,
    ensures
        forall|i: int| 0 <= i < line_spans_from(s, from).len() ==> {
            let l = #[trigger] line_spans_from(s, from)[i];
            from <= l.0 <= l.1 <= l.2 <= s.len()
        },
    decreases s.len() - from,
{
    if from < s.len() {
        lemma_next_newline(s, from);
        let j = next_newline(s, from);
        let ending = if j < s.len() { j + 1 } else { j };
        lemma_line_spans_from_ok(s, ending);
        let end = if j < s.len() && j > from && s[j - 1] == '\r' { j - 1 } else { j };
        let rest = line_spans_from(s, ending);
        let all = line_spans_from(s, from);
        assert(all == seq![(from, end, ending)] + rest);
        assert forall|i: int| 0 <= i < all.len() implies {
            let l = #[trigger] all[i];
            from <= l.0 <= l.1 <= l.2 <= s.len()
        } by {
            if i > 0 {
                assert(all[i] == rest[i - 1]);
            }
        }
    }
}

proof fn lemma_pop_dedents_ok(stack: Seq<int>, target: int, pos: int, n: int)
    requires
        0 <= pos <= n,
    ensures
        marks_ok(pop_dedents(stack, target, pos).1, n),
    decreases stack.len(),
{
    if stack.len() > 0 && stack.last() > target {
        lemma_pop_dedents_ok(stack.drop_last(), target, pos, n);
        let r = pop_dedents(stack.drop_last(), target, pos);
        let u = seq![(LinesMark::Dedent, pos, pos)];
        assert(marks_ok(u, n));
        lemma_marks_ok_append(u, r.1, n);
    }
}

proof fn lemma_list_marks_ok(s: Seq<char>, p: int, le: int, nb: int, indent: int, stack: Seq<int>, toks: Seq<MarkSpan>)
    requires
        0 <= p <= le <= s.len(),
        marks_ok(toks, s.len() as int),
    ensures
        ({
            let r = list_marks(s, p, le, nb, indent, stack, toks);
            &&& marks_ok(r.2, s.len() as int)
            &&& p <= r.0 <= le
        }),
    decreases le - p,
{
    if 0 <= p < le && s[p] == '-' {
        lemma_first_nonblank(s, p + 1, le);
        match first_nonblank(s, p + 1, le) {
            Some(q) => {
                if q != p + 1 {
                    let u = seq![(LinesMark::Dash, p, p + 1), (LinesMark::Indent, p, q)];
                    assert(marks_ok(u, s.len() as int));
                    lemma_marks_ok_append(toks, u, s.len() as int);
                    lemma_list_marks_ok(s, q, le, nb, indent, stack.push(indent + (q - nb)), toks + u);
                }
            },
            None => {
                let u = seq![(LinesMark::Dash, p, p + 1)];
                assert(marks_ok(u, s.len() as int));
                lemma_marks_ok_append(toks, u, s.len() as int);
                assert(toks + u =~= toks.push((LinesMark::Dash, p, p + 1)));
            },
        }
    }
}

proof fn lemma_lex_line_ok(s: Seq<char>, stack: Seq<int>, toks: Seq<MarkSpan>, line: (int, int, int))
    requires
        balance_inv(stack, toks),
        marks_ok(toks, s.len() as int),
        0 <= line.0 <= line.1 <= line.2 <= s.len(),
    ensures
        lex_line(s, stack, toks, line) matches Ok(st) ==> marks_ok(st.1, s.len() as int),
{
    let (ls, le, ending) = line;
    let n = s.len() as int;
    lemma_first_nonblank(s, ls, le);
    match first_nonblank(s, ls, le) {
        None => {},
        Some(nb) => {
            let indent = nb - ls;
            let cur = stack.last();
            assert(cur >= 0) by {
                if stack.len() > 1 {
                    assert(stack[stack.len() - 1] > 0);
                }
            }
            let mut st1 = stack;
            let mut t1 = toks;
            if indent == cur {
                assert(toks + Seq::<MarkSpan>::empty() =~= toks);
            } else if indent > cur {
                let u = seq![(LinesMark::Indent, nb - (indent - cur), nb)];
                assert(marks_ok(u, n));
                lemma_marks_ok_append(toks, u, n);
                st1 = stack.push(indent);
                t1 = toks + u;
            } else if stack.contains(indent) {
                lemma_pop_dedents_ok(stack, indent, nb, n);
                let r = pop_dedents(stack, indent, nb);
                lemma_marks_ok_append(toks, r.1, n);
                st1 = r.0;
                t1 = toks + r.1;
            } else {
                return;
            }
            lemma_list_marks_ok(s, nb, le, nb, indent, st1, t1);
            let r = list_marks(s, nb, le, nb, indent, st1, t1);
            let u = seq![(LinesMark::Line, r.0, le), (LinesMark::EndOfLine, le, ending)];
            assert(marks_ok(u, n));
            lemma_marks_ok_append(r.2, u, n);
        },
    }
}

proof fn lemma_lex_prefix_ok(s: Seq<char>, lines: Seq<(int, int, int)>, i: int)
    requires
        i <= lines.len(),
        forall|k: int| 0 <= k < lines.len() ==> {
            let l = #[trigger] lines[k];
            0 <= l.0 <= l.1 <= l.2 <= s.len()
        },
    ensures
        lex_prefix(s, lines, i) matches Ok(st) ==> marks_ok(st.1, s.len() as int),
    decreases i,
{
    if i > 0 {
        lemma_lex_prefix_ok(s, lines, i - 1);
        lemma_lex_prefix_balance(s, lines, i - 1);
        if let Ok(st) = lex_prefix(s, lines, i - 1) {
            let l = lines[i - 1];
            lemma_lex_line_ok(s, st.0, st.1, l);
        }
    }
}

/// Every token of the indentation lexer lies within the code, its start
/// before its end, and every dedent spans nothing.
pub proof fn lemma_tokenize_lines_spans(s: Seq<char>)
    ensures
        spec_tokenize_lines(s) matches Ok(t) ==> marks_ok(t, s.len() as int),
{
    let lines = line_spans(s);
    lemma_line_spans_from_ok(s, 0);
    lemma_lex_prefix_ok(s, lines, lines.len() as int);
    if let Ok(st) = lex_prefix(s, lines, lines.len() as int) {
        lemma_pop_dedents_ok(st.0, 0, s.len() as int, s.len() as int);
        lemma_marks_ok_append(st.1, pop_dedents(st.0, 0, s.len() as int).1, s.len() as int);
    }
}
} // verus!
