//! The texts of tokens, expressions and values, as they are shown to users.

use vstd::prelude::*;

use crate::ast::{
    entries_view, expr_view, lemma_entries_index, lemma_entries_push, lemma_sexprs_index, lemma_sexprs_push, sexpr_view,
    sexprs_view, text_view, texts_view, BinaryOperator, ExprView, Expression, SExprView, SpannedExpression, TextView, UnaryOperator,
};
use crate::lexer::{
    ident_end, is_alpha, is_ident_rest, is_ident_start, is_whitespace, lex_from, lex_token, padding_end, spec_tokenize, word_token,
    LexErrorView,
};
use crate::number::decimal_text;
use crate::span::Spanned;
use crate::text::string_from_chars;
use crate::token::{Token, TokenView};
use crate::value::{
    lemma_svals_index, lemma_svals_push, lemma_ventries_index, lemma_ventries_push, strings_view, sval_view, svals_view,
    val_view, ventries_view, SValueView, SpannedValue, Value, ValueView,
};

verus! {

/// What `char`'s `Debug` shows of a character: the character between single
/// quotes, escaped.
pub uninterp spec fn char_debug_text(c: char) -> Seq<char>;

/// The text of a character, written with `format!("{:?}", c)`.
#[verifier::external_body]
pub(crate) fn char_debug(c: char) -> (s: String)
    ensures
        s@ == char_debug_text(c),
{
    format!("{:?}", c)
}

/// The text of a boolean.
pub open spec fn bool_text(b: bool) -> Seq<char> {
    if b { "true"@ } else { "false"@ }
}

/// The symbol of a unary operator.
pub open spec fn unary_text(op: UnaryOperator) -> Seq<char> {
    match op {
        UnaryOperator::Negate => "-"@,
        UnaryOperator::Not => "!"@,
    }
}

/// The symbol of a binary operator.
pub open spec fn binary_text(op: BinaryOperator) -> Seq<char> {
    match op {
        BinaryOperator::Add => "+"@,
        BinaryOperator::Subtract => "-"@,
        BinaryOperator::Multiply => "*"@,
        BinaryOperator::Divide => "/"@,
        BinaryOperator::Rem => "%"@,
        BinaryOperator::Greater => ">"@,
        BinaryOperator::GreaterEqual => ">="@,
        BinaryOperator::Less => "<"@,
        BinaryOperator::LessEqual => "<="@,
        BinaryOperator::Equal => "=="@,
        BinaryOperator::NotEqual => "!="@,
        BinaryOperator::And => "&&"@,
        BinaryOperator::Or => "||"@,
        BinaryOperator::Xor => "^"@,
    }
}

/// The text of a token: its symbol or keyword, the characters of a string or
/// identifier, the decimal text of a number; an indent shows as two spaces, a
/// dedent as nothing, an end of line as a newline.
pub open spec fn token_text(t: TokenView) -> Seq<char> {
    match t {
        TokenView::Invalid(c) => char_debug_text(c),
        TokenView::Indent => "  "@,
        TokenView::Dedent => Seq::empty(),
        TokenView::EndOfLine => "\n"@,
        TokenView::Null => "null"@,
        TokenView::Boolean(b) => bool_text(b),
        TokenView::Str(s) => s,
        TokenView::Num(p) => decimal_text(p),
        TokenView::Identifier(s) => s,
        TokenView::LeftParen => "("@,
        TokenView::RightParen => ")"@,
        TokenView::LeftBrack => "["@,
        TokenView::RightBrack => "]"@,
        TokenView::LeftBrace => "{"@,
        TokenView::RightBrace => "}"@,
        TokenView::If => "if"@,
        TokenView::Then => "then"@,
        TokenView::Else => "else"@,
        TokenView::Let => "let"@,
        TokenView::In => "in"@,
        TokenView::Comma => ","@,
        TokenView::Colon => ":"@,
        TokenView::Dot => "."@,
        TokenView::FatArrow => "=>"@,
        TokenView::Plus => "+"@,
        TokenView::Dash => "-"@,
        TokenView::Star => "*"@,
        TokenView::Slash => "/"@,
        TokenView::Greater => ">"@,
        TokenView::GreaterEqual => ">="@,
        TokenView::Less => "<"@,
        TokenView::LessEqual => "<="@,
        TokenView::Equal => "=="@,
        TokenView::NotEqual => "!="@,
        TokenView::And => "&&"@,
        TokenView::Or => "||"@,
        TokenView::Xor => "^"@,
        TokenView::Not => "!"@,
        TokenView::Rem => "%"@,
    }
}

/// The decimal digit of a number below ten.
pub open spec fn digit_char(d: nat) -> char {
    if d == 0 { '0' } else if d == 1 { '1' } else if d == 2 { '2' } else if d == 3 { '3' } else if d == 4 { '4' }
    else if d == 5 { '5' } else if d == 6 { '6' } else if d == 7 { '7' } else if d == 8 { '8' } else { '9' }
}

/// The decimal text of a natural number, without leading zeros.
pub open spec fn nat_text(n: nat) -> Seq<char>
    decreases n,
{
    if n < 10 {
        seq![digit_char(n)]
    } else {
        nat_text(n / 10).push(digit_char(n % 10))
    }
}

/// The decimal text of an integer, with a minus sign when it is negative.
pub open spec fn int_text(i: int) -> Seq<char> {
    if i < 0 { "-"@ + nat_text((-i) as nat) } else { nat_text(i as nat) }
}

fn digit_of(d: u128) -> (c: char)
    requires
        d < 10,
    ensures
        c == digit_char(d as nat),
{
    if d == 0 { '0' } else if d == 1 { '1' } else if d == 2 { '2' } else if d == 3 { '3' } else if d == 4 { '4' }
    else if d == 5 { '5' } else if d == 6 { '6' } else if d == 7 { '7' } else if d == 8 { '8' } else { '9' }
}

fn push_digits(n: u128, out: &mut Vec<char>)
    ensures
        final(out)@ == old(out)@ + nat_text(n as nat),
    decreases n,
{
    if n >= 10 {
        push_digits(n / 10, out);
    }
    out.push(digit_of(n % 10));
    proof {
        if n < 10 {
            assert(n % 10 == n);
        }
    }
}

/// The decimal text of a `usize`, as `Display` writes it.
pub fn usize_to_text(n: usize) -> (s: String)
    ensures
        s@ == nat_text(n as nat),
{
    let mut v: Vec<char> = Vec::new();
    push_digits(n as u128, &mut v);
    assert(v@ =~= nat_text(n as nat));
    string_from_chars(v)
}

/// The decimal text of an `isize`, as `Display` writes it.
pub fn isize_to_text(i: isize) -> (s: String)
    ensures
        s@ == int_text(i as int),
{
    let mut v: Vec<char> = Vec::new();
    if i < 0 {
        v.push('-');
        let m: u128 = (0 - (i as i128)) as u128;
        push_digits(m, &mut v);
        proof {
            reveal_strlit("-");
            assert(v@ =~= "-"@ + nat_text((-(i as int)) as nat));
        }
    } else {
        push_digits(i as u128, &mut v);
        assert(v@ =~= nat_text(i as nat));
    }
    string_from_chars(v)
}

/// The text of a boolean.
pub fn bool_to_text(b: bool) -> (s: String)
    ensures
        s@ == bool_text(b),
{
    if b { String::from_str("true") } else { String::from_str("false") }
}

impl UnaryOperator {
    /// The symbol of the operator.
    pub fn to_text(&self) -> (s: String)
        ensures
            s@ == unary_text(*self),
    {
        match self {
            UnaryOperator::Negate => String::from_str("-"),
            UnaryOperator::Not => String::from_str("!"),
        }
    }
}

impl BinaryOperator {
    /// The symbol of the operator.
    pub fn to_text(&self) -> (s: String)
        ensures
            s@ == binary_text(*self),
    {
        match self {
            BinaryOperator::Add => String::from_str("+"),
            BinaryOperator::Subtract => String::from_str("-"),
            BinaryOperator::Multiply => String::from_str("*"),
            BinaryOperator::Divide => String::from_str("/"),
            BinaryOperator::Rem => String::from_str("%"),
            BinaryOperator::Greater => String::from_str(">"),
            BinaryOperator::GreaterEqual => String::from_str(">="),
            BinaryOperator::Less => String::from_str("<"),
            BinaryOperator::LessEqual => String::from_str("<="),
            BinaryOperator::Equal => String::from_str("=="),
            BinaryOperator::NotEqual => String::from_str("!="),
            BinaryOperator::And => String::from_str("&&"),
            BinaryOperator::Or => String::from_str("||"),
            BinaryOperator::Xor => String::from_str("^"),
        }
    }
}

impl Token {
    /// The text of the token, as it is shown in messages.
    pub fn to_text(&self) -> (s: String)
        ensures
            s@ == token_text(self@),
    {
        match self {
            Token::Invalid(c) => char_debug(*c),
            Token::Indent => String::from_str("  "),
            Token::Dedent => String::new(),
            Token::EndOfLine => String::from_str("\n"),
            Token::Null => String::from_str("null"),
            Token::Boolean(b) => bool_to_text(*b),
            Token::String(s) => s.clone(),
            Token::Number(n) => n.to_text(),
            Token::Identifier(s) => s.clone(),
            Token::LeftParen => String::from_str("("),
            Token::RightParen => String::from_str(")"),
            Token::LeftBrack => String::from_str("["),
            Token::RightBrack => String::from_str("]"),
            Token::LeftBrace => String::from_str("{"),
            Token::RightBrace => String::from_str("}"),
            Token::If => String::from_str("if"),
            Token::Then => String::from_str("then"),
            Token::Else => String::from_str("else"),
            Token::Let => String::from_str("let"),
            Token::In => String::from_str("in"),
            Token::Comma => String::from_str(","),
            Token::Colon => String::from_str(":"),
            Token::Dot => String::from_str("."),
            Token::FatArrow => String::from_str("=>"),
            Token::Plus => String::from_str("+"),
            Token::Dash => String::from_str("-"),
            Token::Star => String::from_str("*"),
            Token::Slash => String::from_str("/"),
            Token::Greater => String::from_str(">"),
            Token::GreaterEqual => String::from_str(">="),
            Token::Less => String::from_str("<"),
            Token::LessEqual => String::from_str("<="),
            Token::Equal => String::from_str("=="),
            Token::NotEqual => String::from_str("!="),
            Token::And => String::from_str("&&"),
            Token::Or => String::from_str("||"),
            Token::Xor => String::from_str("^"),
            Token::Not => String::from_str("!"),
            Token::Rem => String::from_str("%"),
        }
    }
}

/// Texts joined with a separator between each two of them.
pub open spec fn join_texts(parts: Seq<Seq<char>>, sep: Seq<char>) -> Seq<char>
    decreases parts.len(),
{
    if parts.len() == 0 {
        Seq::empty()
    } else if parts.len() == 1 {
        parts[0]
    } else {
        join_texts(parts.drop_last(), sep) + sep + parts.last()
    }
}

/// Joining one text more appends the separator, unless it is the first.
pub proof fn lemma_join_push(parts: Seq<Seq<char>>, x: Seq<char>, sep: Seq<char>)
    ensures
        join_texts(parts.push(x), sep) == if parts.len() == 0 { x } else { join_texts(parts, sep) + sep + x },
{
    assert(parts.push(x).drop_last() =~= parts);
    if parts.len() == 0 {
        assert(parts.push(x)[0] == x);
    }
}

/// The text of a spanned expression: that of the expression.
pub open spec fn sexpr_text(e: SExprView) -> Seq<char>
    decreases e, 1int,
{
    expr_text(e.expr)
}

/// The texts of a sequence of expressions.
pub open spec fn sexprs_texts(s: Seq<SExprView>) -> Seq<Seq<char>>
    decreases s, 2int,
{
    if s.len() == 0 {
        Seq::empty()
    } else {
        sexprs_texts(s.drop_last()).push(sexpr_text(s.last()))
    }
}

/// The texts of object entries: the quoted key, a colon and the value.
pub open spec fn entries_texts(s: Seq<(TextView, SExprView)>) -> Seq<Seq<char>>
    decreases s, 2int,
{
    if s.len() == 0 {
        Seq::empty()
    } else {
        entries_texts(s.drop_last()).push("\""@ + s.last().0.0 + "\": "@ + sexpr_text(s.last().1))
    }
}

/// The names of function arguments.
pub open spec fn arg_names(args: Seq<TextView>) -> Seq<Seq<char>> {
    args.map_values(|t: TextView| t.0)
}

/// The text of an expression, as it is written in code: strings quoted,
/// binary operators between spaces, lists and objects with their items
/// separated by `, `, a missing slice bound as nothing.
pub open spec fn expr_text(e: ExprView) -> Seq<char>
    decreases e, 0int,
{
    match e {
        ExprView::Null => "null"@,
        ExprView::Boolean(b) => bool_text(b),
        ExprView::Str(s) => "\""@ + s + "\""@,
        ExprView::Num(p) => decimal_text(p),
        ExprView::List(items) => "["@ + join_texts(sexprs_texts(items), ", "@) + "]"@,
        ExprView::Object(entries) => "{"@ + join_texts(entries_texts(entries), ", "@) + "}"@,
        ExprView::Function { args, body } => "("@ + join_texts(arg_names(args), ", "@) + ") => "@ + sexpr_text(*body),
        ExprView::Identifier(s) => s,
        ExprView::Unary { right, operator } => unary_text(operator) + sexpr_text(*right),
        ExprView::Binary { left, right, operator } => sexpr_text(*left) + " "@ + binary_text(operator) + " "@ + sexpr_text(
            *right,
        ),
        ExprView::Call { function, args } => sexpr_text(*function) + "("@ + join_texts(sexprs_texts(args), ", "@) + ")"@,
        ExprView::GetIndex { container, index } => sexpr_text(*container) + "["@ + sexpr_text(*index) + "]"@,
        ExprView::GetKey { container, key } => sexpr_text(*container) + "."@ + key.0,
        ExprView::GetSlice { container, start, end } => sexpr_text(*container) + "["@ + match start {
            Some(x) => sexpr_text(*x),
            None => Seq::empty(),
        } + ":"@ + match end {
            Some(x) => sexpr_text(*x),
            None => Seq::empty(),
        } + "]"@,
        ExprView::Error => "error"@,
    }
}

proof fn lemma_sexprs_texts_push(s: Seq<SExprView>, x: SExprView)
    ensures
        sexprs_texts(s.push(x)) == sexprs_texts(s).push(sexpr_text(x)),
{
    assert(s.push(x).drop_last() =~= s);
}

proof fn lemma_sexprs_texts_len(s: Seq<SExprView>)
    ensures
        sexprs_texts(s).len() == s.len(),
    decreases s.len(),
{
    if s.len() > 0 {
        lemma_sexprs_texts_len(s.drop_last());
    }
}

proof fn lemma_entries_texts_push(s: Seq<(TextView, SExprView)>, x: (TextView, SExprView))
    ensures
        entries_texts(s.push(x)) == entries_texts(s).push("\""@ + x.0.0 + "\": "@ + sexpr_text(x.1)),
{
    assert(s.push(x).drop_last() =~= s);
}

proof fn lemma_entries_texts_len(s: Seq<(TextView, SExprView)>)
    ensures
        entries_texts(s).len() == s.len(),
    decreases s.len(),
{
    if s.len() > 0 {
        lemma_entries_texts_len(s.drop_last());
    }
}

/// The text of a spanned expression.
fn sexpr_to_text(e: &SpannedExpression) -> (s: String)
    ensures
        s@ == sexpr_text(sexpr_view(*e)),
    decreases e, 1int,
{
    expr_to_text(&e.inner)
}

/// The texts of expressions, joined by `, `.
fn sexprs_to_text(items: &Vec<SpannedExpression>) -> (s: String)
    ensures
        s@ == join_texts(sexprs_texts(sexprs_view(items@)), ", "@),
    decreases items, 2int,
{
    let mut out = String::new();
    let mut i: usize = 0;
    while i < items.len()
        invariant
            i <= items@.len(),
            out@ == join_texts(sexprs_texts(sexprs_view(items@.take(i as int))), ", "@),
        decreases items.len() - i,
    {
        let t = sexpr_to_text(&items[i]);
        proof {
            let before = items@.take(i as int);
            lemma_sexprs_push(before, items@[i as int]);
            assert(before.push(items@[i as int]) =~= items@.take(i + 1));
            lemma_sexprs_texts_push(sexprs_view(before), sexpr_view(items@[i as int]));
            lemma_sexprs_index(before);
            lemma_sexprs_texts_len(sexprs_view(before));
            lemma_join_push(sexprs_texts(sexprs_view(before)), t@, ", "@);
        }
        if i > 0 {
            out.append(", ");
        }
        out.append(t.as_str());
        i = i + 1;
    }
    assert(items@.take(items@.len() as int) =~= items@);
    out
}

/// The texts of object entries, joined by `, `.
fn entries_to_text(entries: &Vec<(Spanned<String>, SpannedExpression)>) -> (s: String)
    ensures
        s@ == join_texts(entries_texts(entries_view(entries@)), ", "@),
    decreases entries, 2int,
{
    let mut out = String::new();
    let mut i: usize = 0;
    while i < entries.len()
        invariant
            i <= entries@.len(),
            out@ == join_texts(entries_texts(entries_view(entries@.take(i as int))), ", "@),
        decreases entries.len() - i,
    {
        let v = sexpr_to_text(&entries[i].1);
        let mut t = String::from_str("\"");
        t.append(entries[i].0.inner.as_str());
        t.append("\": ");
        t.append(v.as_str());
        proof {
            let before = entries@.take(i as int);
            lemma_entries_push(before, entries@[i as int]);
            assert(before.push(entries@[i as int]) =~= entries@.take(i + 1));
            lemma_entries_texts_push(entries_view(before), (text_view(entries@[i as int].0), sexpr_view(entries@[i as int].1)));
            lemma_entries_index(before);
            lemma_entries_texts_len(entries_view(before));
            lemma_join_push(entries_texts(entries_view(before)), t@, ", "@);
        }
        if i > 0 {
            out.append(", ");
        }
        out.append(t.as_str());
        i = i + 1;
    }
    assert(entries@.take(entries@.len() as int) =~= entries@);
    out
}

/// The names of function arguments, joined by `, `.
fn args_to_text(args: &Vec<Spanned<String>>) -> (s: String)
    ensures
        s@ == join_texts(arg_names(texts_view(args@)), ", "@),
{
    let mut out = String::new();
    let mut i: usize = 0;
    while i < args.len()
        invariant
            i <= args@.len(),
            out@ == join_texts(arg_names(texts_view(args@.take(i as int))), ", "@),
        decreases args.len() - i,
    {
        proof {
            let before = args@.take(i as int);
            assert(arg_names(texts_view(before.push(args@[i as int]))) =~= arg_names(texts_view(before)).push(
                args@[i as int].inner@,
            ));
            assert(before.push(args@[i as int]) =~= args@.take(i + 1));
            lemma_join_push(arg_names(texts_view(before)), args@[i as int].inner@, ", "@);
        }
        if i > 0 {
            out.append(", ");
        }
        out.append(args[i].inner.as_str());
        i = i + 1;
    }
    assert(args@.take(args@.len() as int) =~= args@);
    out
}

/// The text of an expression.
fn expr_to_text(e: &Expression) -> (s: String)
    ensures
        s@ == expr_text(expr_view(*e)),
    decreases e, 0int,
{
    match e {
        Expression::Null => String::from_str("null"),
        Expression::Boolean(b) => bool_to_text(*b),
        Expression::String(x) => {
            let mut s = String::from_str("\"");
            s.append(x.as_str());
            s.append("\"");
            s
        },
        Expression::Number(n) => n.to_text(),
        Expression::List(items) => {
            let mut s = String::from_str("[");
            let inner = sexprs_to_text(items);
            s.append(inner.as_str());
            s.append("]");
            s
        },
        Expression::Object(entries) => {
            let mut s = String::from_str("{");
            let inner = entries_to_text(entries);
            s.append(inner.as_str());
            s.append("}");
            s
        },
        Expression::Function { args, body } => {
            let mut s = String::from_str("(");
            let names = args_to_text(args);
            s.append(names.as_str());
            s.append(") => ");
            let b = sexpr_to_text(&**body);
            s.append(b.as_str());
            s
        },
        Expression::Identifier(x) => x.clone(),
        Expression::Unary { right, operator } => {
            let mut s = operator.to_text();
            let r = sexpr_to_text(&**right);
            s.append(r.as_str());
            s
        },
        Expression::Binary { left, right, operator } => {
            let mut s = sexpr_to_text(&**left);
            s.append(" ");
            let o = operator.to_text();
            s.append(o.as_str());
            s.append(" ");
            let r = sexpr_to_text(&**right);
            s.append(r.as_str());
            s
        },
        Expression::Call { function, args } => {
            let mut s = sexpr_to_text(&**function);
            s.append("(");
            let a = sexprs_to_text(args);
            s.append(a.as_str());
            s.append(")");
            s
        },
        Expression::GetIndex { container, index } => {
            let mut s = sexpr_to_text(&**container);
            s.append("[");
            let i = sexpr_to_text(&**index);
            s.append(i.as_str());
            s.append("]");
            s
        },
        Expression::GetKey { container, key } => {
            let mut s = sexpr_to_text(&**container);
            s.append(".");
            s.append(key.inner.as_str());
            s
        },
        Expression::GetSlice { container, start, end } => {
            let mut s = sexpr_to_text(&**container);
            s.append("[");
            match start {
                Some(x) => {
                    let t = sexpr_to_text(&**x);
                    s.append(t.as_str());
                },
                None => {},
            }
            s.append(":");
            match end {
                Some(x) => {
                    let t = sexpr_to_text(&**x);
                    s.append(t.as_str());
                },
                None => {},
            }
            s.append("]");
            s
        },
        Expression::Error => String::from_str("error"),
    }
}

impl Expression {
    /// The text of the expression, as it is written in code.
    pub fn to_text(&self) -> (s: String)
        ensures
            s@ == expr_text(expr_view(*self)),
    {
        expr_to_text(self)
    }
}

/// The text of a spanned value: that of the value.
pub open spec fn sval_text(v: SValueView) -> Seq<char>
    decreases v, 1int,
{
    val_text(v.value)
}

/// The texts of a sequence of values.
pub open spec fn svals_texts(s: Seq<SValueView>) -> Seq<Seq<char>>
    decreases s, 2int,
{
    if s.len() == 0 {
        Seq::empty()
    } else {
        svals_texts(s.drop_last()).push(sval_text(s.last()))
    }
}

/// The texts of object entries: the quoted key, a colon and the value.
pub open spec fn ventries_texts(s: Seq<(Seq<char>, SValueView)>) -> Seq<Seq<char>>
    decreases s, 2int,
{
    if s.len() == 0 {
        Seq::empty()
    } else {
        ventries_texts(s.drop_last()).push("\""@ + s.last().0 + "\": "@ + sval_text(s.last().1))
    }
}

/// The text of a value, as it is shown to users: a string as its characters,
/// lists and objects with their items separated by `, `, a function by its
/// arguments, a tagged value as the value it wraps.
pub open spec fn val_text(v: ValueView) -> Seq<char>
    decreases v, 0int,
{
    match v {
        ValueView::Null => "null"@,
        ValueView::Boolean(b) => bool_text(b),
        ValueView::Str(s) => s,
        ValueView::Num(p) => decimal_text(p),
        ValueView::List(items) => "["@ + join_texts(svals_texts(items), ", "@) + "]"@,
        ValueView::Object(entries) => "{"@ + join_texts(ventries_texts(entries), ", "@) + "}"@,
        ValueView::Function(f) => "("@ + join_texts(f.args, ", "@) + ") => ..."@,
        ValueView::Tagged { inner, .. } => sval_text(*inner),
    }
}

proof fn lemma_svals_texts_push(s: Seq<SValueView>, x: SValueView)
    ensures
        svals_texts(s.push(x)) == svals_texts(s).push(sval_text(x)),
{
    assert(s.push(x).drop_last() =~= s);
}

proof fn lemma_svals_texts_len(s: Seq<SValueView>)
    ensures
        svals_texts(s).len() == s.len(),
    decreases s.len(),
{
    if s.len() > 0 {
        lemma_svals_texts_len(s.drop_last());
    }
}

proof fn lemma_ventries_texts_push(s: Seq<(Seq<char>, SValueView)>, x: (Seq<char>, SValueView))
    ensures
        ventries_texts(s.push(x)) == ventries_texts(s).push("\""@ + x.0 + "\": "@ + sval_text(x.1)),
{
    assert(s.push(x).drop_last() =~= s);
}

proof fn lemma_ventries_texts_len(s: Seq<(Seq<char>, SValueView)>)
    ensures
        ventries_texts(s).len() == s.len(),
    decreases s.len(),
{
    if s.len() > 0 {
        lemma_ventries_texts_len(s.drop_last());
    }
}

/// The text of a spanned value.
fn sval_to_text(v: &SpannedValue) -> (s: String)
    ensures
        s@ == sval_text(sval_view(*v)),
    decreases v, 1int,
{
    val_to_text(&v.inner)
}

/// The texts of values, joined by `, `.
fn svals_to_text(items: &Vec<SpannedValue>) -> (s: String)
    ensures
        s@ == join_texts(svals_texts(svals_view(items@)), ", "@),
    decreases items, 2int,
{
    let mut out = String::new();
    let mut i: usize = 0;
    while i < items.len()
        invariant
            i <= items@.len(),
            out@ == join_texts(svals_texts(svals_view(items@.take(i as int))), ", "@),
        decreases items.len() - i,
    {
        let t = sval_to_text(&items[i]);
        proof {
            let before = items@.take(i as int);
            lemma_svals_push(before, items@[i as int]);
            assert(before.push(items@[i as int]) =~= items@.take(i + 1));
            lemma_svals_texts_push(svals_view(before), sval_view(items@[i as int]));
            lemma_svals_index(before);
            lemma_svals_texts_len(svals_view(before));
            lemma_join_push(svals_texts(svals_view(before)), t@, ", "@);
        }
        if i > 0 {
            out.append(", ");
        }
        out.append(t.as_str());
        i = i + 1;
    }
    assert(items@.take(items@.len() as int) =~= items@);
    out
}

/// The texts of object entries, joined by `, `.
fn ventries_to_text(entries: &Vec<(String, SpannedValue)>) -> (s: String)
    ensures
        s@ == join_texts(ventries_texts(ventries_view(entries@)), ", "@),
    decreases entries, 2int,
{
    let mut out = String::new();
    let mut i: usize = 0;
    while i < entries.len()
        invariant
            i <= entries@.len(),
            out@ == join_texts(ventries_texts(ventries_view(entries@.take(i as int))), ", "@),
        decreases entries.len() - i,
    {
        let v = sval_to_text(&entries[i].1);
        let mut t = String::from_str("\"");
        t.append(entries[i].0.as_str());
        t.append("\": ");
        t.append(v.as_str());
        proof {
            let before = entries@.take(i as int);
            lemma_ventries_push(before, entries@[i as int]);
            assert(before.push(entries@[i as int]) =~= entries@.take(i + 1));
            lemma_ventries_texts_push(ventries_view(before), (entries@[i as int].0@, sval_view(entries@[i as int].1)));
            lemma_ventries_index(before);
            lemma_ventries_texts_len(ventries_view(before));
            lemma_join_push(ventries_texts(ventries_view(before)), t@, ", "@);
        }
        if i > 0 {
            out.append(", ");
        }
        out.append(t.as_str());
        i = i + 1;
    }
    assert(entries@.take(entries@.len() as int) =~= entries@);
    out
}

/// Strings joined by `, `.
fn strings_to_text(parts: &Vec<String>) -> (s: String)
    ensures
        s@ == join_texts(strings_view(parts@), ", "@),
{
    let mut out = String::new();
    let mut i: usize = 0;
    while i < parts.len()
        invariant
            i <= parts@.len(),
            out@ == join_texts(strings_view(parts@.take(i as int)), ", "@),
        decreases parts.len() - i,
    {
        proof {
            let before = parts@.take(i as int);
            assert(strings_view(before.push(parts@[i as int])) =~= strings_view(before).push(parts@[i as int]@));
            assert(before.push(parts@[i as int]) =~= parts@.take(i + 1));
            lemma_join_push(strings_view(before), parts@[i as int]@, ", "@);
        }
        if i > 0 {
            out.append(", ");
        }
        out.append(parts[i].as_str());
        i = i + 1;
    }
    assert(parts@.take(parts@.len() as int) =~= parts@);
    out
}

/// The text of an object with the given entries.
pub fn object_to_text(entries: &Vec<(String, SpannedValue)>) -> (s: String)
    ensures
        s@ == val_text(ValueView::Object(ventries_view(entries@))),
    decreases entries, 3int,
{
    let mut s = String::from_str("{");
    let inner = ventries_to_text(entries);
    s.append(inner.as_str());
    s.append("}");
    s
}

/// The text of a value.
fn val_to_text(v: &Value) -> (s: String)
    ensures
        s@ == val_text(val_view(*v)),
    decreases v, 0int,
{
    match v {
        Value::Null => String::from_str("null"),
        Value::Boolean(b) => bool_to_text(*b),
        Value::String(x) => x.clone(),
        Value::Number(n) => n.to_text(),
        Value::List(items) => {
            let mut s = String::from_str("[");
            let inner = svals_to_text(items);
            s.append(inner.as_str());
            s.append("]");
            s
        },
        Value::Object(entries) => object_to_text(entries),
        Value::Function(f) => {
            let mut s = String::from_str("(");
            let names = strings_to_text(&f.args);
            s.append(names.as_str());
            s.append(") => ...");
            s
        },
        Value::Tagged { inner, .. } => sval_to_text(&**inner),
    }
}

impl Value {
    /// The text of the value, as it is shown to users.
    pub fn to_text(&self) -> (s: String)
        ensures
            s@ == val_text(val_view(*self)),
    {
        val_to_text(self)
    }
}


/// A token whose text is fixed: `null`, a boolean, a keyword or a symbol.
pub open spec fn has_fixed_text(t: TokenView) -> bool {
    match t {
        TokenView::Null | TokenView::Boolean(_) | TokenView::If | TokenView::Then | TokenView::Else
        | TokenView::Let | TokenView::In | TokenView::LeftParen | TokenView::RightParen | TokenView::LeftBrack
        | TokenView::RightBrack | TokenView::LeftBrace | TokenView::RightBrace | TokenView::Comma
        | TokenView::Colon | TokenView::Dot | TokenView::FatArrow | TokenView::Plus | TokenView::Dash
        | TokenView::Star | TokenView::Slash | TokenView::Greater | TokenView::GreaterEqual | TokenView::Less
        | TokenView::LessEqual | TokenView::Equal | TokenView::NotEqual | TokenView::And | TokenView::Or
        | TokenView::Xor | TokenView::Not | TokenView::Rem => true,
        _ => false,
    }
}

/// An identifier as the lexer reads one: a letter, `_` or `$`, then letters,
/// digits or `_`, and no keyword.
pub open spec fn is_plain_identifier(i: Seq<char>) -> bool {
    &&& i.len() > 0
    &&& is_ident_start(i[0])
    &&& forall|k: int| 1 <= k < i.len() ==> #[trigger] is_ident_rest(i[k])
    &&& word_token(i) == TokenView::Identifier(i)
}

proof fn lemma_ident_end_all(s: Seq<char>, p: int, n: int)
    requires
        0 <= p <= n <= s.len(),
        forall|k: int| p <= k < n ==> #[trigger] is_ident_rest(s[k]),
    ensures
        ident_end(s, p, n) == n,
    decreases n - p,
{
    if p < n {
        lemma_ident_end_all(s, p + 1, n);
    }
}

/// Text that starts with no padding and lexes as one token from its start to
/// its end is that token alone.
proof fn lemma_one_token(s: Seq<char>, t: TokenView)
    requires
        s.len() > 0,
        !is_whitespace(s[0]),
        s[0] != '#',
        lex_token(s, 0, s.len() as int) == Ok::<(TokenView, int), LexErrorView>((t, s.len() as int)),
    ensures
        spec_tokenize(s, 0, s.len() as int) == (seq![(t, 0int, s.len() as int)], Seq::<LexErrorView>::empty()),
{
    let n = s.len() as int;
    assert(padding_end(s, 0, n) == 0);
    assert(Seq::<(TokenView, int, int)>::empty().push((t, 0int, n)) =~= seq![(t, 0int, n)]);
    assert(lex_from(s, n, n, seq![(t, 0int, n)], Seq::empty()) == (seq![(t, 0int, n)], Seq::<LexErrorView>::empty()));
}

/// A keyword's text lexes as the keyword.
proof fn lemma_word_lexes(s: Seq<char>)
    requires
        s.len() > 0,
        is_alpha(s[0]),
        forall|k: int| 1 <= k < s.len() ==> #[trigger] is_ident_rest(s[k]),
    ensures
        spec_tokenize(s, 0, s.len() as int) == (seq![(word_token(s), 0int, s.len() as int)], Seq::<LexErrorView>::empty()),
{
    let n = s.len() as int;
    lemma_ident_end_all(s, 1, n);
    assert(s.subrange(0, n) =~= s);
    lemma_one_token(s, word_token(s));
}

/// Showing a token whose text is fixed, or a plain identifier, and lexing
/// that text gives the token back, spanning the whole text.
pub proof fn lemma_display_lexes_back(t: TokenView)
    requires
        has_fixed_text(t) || (t matches TokenView::Identifier(i) && is_plain_identifier(i)),
    ensures
        spec_tokenize(token_text(t), 0, token_text(t).len() as int)
            == (seq![(t, 0int, token_text(t).len() as int)], Seq::<LexErrorView>::empty()),
{
    let s = token_text(t);
    match t {
        TokenView::Identifier(i) => {
            let n = i.len() as int;
            lemma_ident_end_all(i, 1, n);
            assert(i.subrange(0, n) =~= i);
            lemma_one_token(i, t);
        },
        TokenView::Null => {
            reveal_strlit("null");
            assert(s =~= seq!['n', 'u', 'l', 'l']);
            lemma_word_lexes(s);
        },
        TokenView::Boolean(b) => {
            reveal_strlit("true");
            reveal_strlit("false");
            if b {
                assert(s =~= seq!['t', 'r', 'u', 'e']);
            } else {
                assert(s =~= seq!['f', 'a', 'l', 's', 'e']);
            }
            lemma_word_lexes(s);
        },
        TokenView::If => {
            reveal_strlit("if");
            assert(s =~= seq!['i', 'f']);
            lemma_word_lexes(s);
        },
        TokenView::Then => {
            reveal_strlit("then");
            assert(s =~= seq!['t', 'h', 'e', 'n']);
            lemma_word_lexes(s);
        },
        TokenView::Else => {
            reveal_strlit("else");
            assert(s =~= seq!['e', 'l', 's', 'e']);
            lemma_word_lexes(s);
        },
        TokenView::Let => {
            reveal_strlit("let");
            assert(s =~= seq!['l', 'e', 't']);
            lemma_word_lexes(s);
        },
        TokenView::In => {
            reveal_strlit("in");
            assert(s =~= seq!['i', 'n']);
            lemma_word_lexes(s);
        },
        TokenView::LeftParen => { reveal_strlit("("); lemma_one_token(s, t); },
        TokenView::RightParen => { reveal_strlit(")"); lemma_one_token(s, t); },
        TokenView::LeftBrack => { reveal_strlit("["); lemma_one_token(s, t); },
        TokenView::RightBrack => { reveal_strlit("]"); lemma_one_token(s, t); },
        TokenView::LeftBrace => { reveal_strlit("{"); lemma_one_token(s, t); },
        TokenView::RightBrace => { reveal_strlit("}"); lemma_one_token(s, t); },
        TokenView::Comma => { reveal_strlit(","); lemma_one_token(s, t); },
        TokenView::Colon => { reveal_strlit(":"); lemma_one_token(s, t); },
        TokenView::Dot => { reveal_strlit("."); lemma_one_token(s, t); },
        TokenView::FatArrow => { reveal_strlit("=>"); lemma_one_token(s, t); },
        TokenView::Plus => { reveal_strlit("+"); lemma_one_token(s, t); },
        TokenView::Dash => { reveal_strlit("-"); lemma_one_token(s, t); },
        TokenView::Star => { reveal_strlit("*"); lemma_one_token(s, t); },
        TokenView::Slash => { reveal_strlit("/"); lemma_one_token(s, t); },
        TokenView::Greater => { reveal_strlit(">"); lemma_one_token(s, t); },
        TokenView::GreaterEqual => { reveal_strlit(">="); lemma_one_token(s, t); },
        TokenView::Less => { reveal_strlit("<"); lemma_one_token(s, t); },
        TokenView::LessEqual => { reveal_strlit("<="); lemma_one_token(s, t); },
        TokenView::Equal => { reveal_strlit("=="); lemma_one_token(s, t); },
        TokenView::NotEqual => { reveal_strlit("!="); lemma_one_token(s, t); },
        TokenView::And => { reveal_strlit("&&"); lemma_one_token(s, t); },
        TokenView::Or => { reveal_strlit("||"); lemma_one_token(s, t); },
        TokenView::Xor => { reveal_strlit("^"); lemma_one_token(s, t); },
        TokenView::Not => { reveal_strlit("!"); lemma_one_token(s, t); },
        TokenView::Rem => { reveal_strlit("%"); lemma_one_token(s, t); },
        _ => {},
    }
}

} // verus!
