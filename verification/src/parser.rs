//! The expression parser: tokens to an expression tree.
//!
//! The grammar, from loosest to tightest:
//!
//! ```text
//! expr       := or
//! or         := and ("||" and)*
//! and        := xor ("&&" xor)*
//! xor        := equality ("^" equality)*
//! equality   := comparison (("==" | "!=") comparison)*
//! comparison := term (("<" | "<=" | ">" | ">=") term)*
//! term       := factor (("+" | "-") factor)*
//! factor     := unary (("*" | "/" | "%") unary)*
//! unary      := ("-" | "!") unary | postfix
//! postfix    := atom ("(" items ")" | "[" expr "]" | "[" expr? ":" expr? "]" | "." identifier)*
//! atom       := null | boolean | number | string | identifier
//!             | "[" items "]" | "{" fields "}" | function | "(" expr ")"
//! function   := "(" (identifier ("," identifier)* ","?)? ")" "=>" expr
//! items      := (expr ("," expr)* ","?)?
//! fields     := (field ("," field)* ","?)?
//! field      := identifier ":" expr?
//! ```
//!
//! Binary operators associate to the left. A field without a value stands
//! for the variable of its name.

use vstd::prelude::*;

use crate::ast::{BinaryOperator, ExprView, Expression, SExprView, SpannedExpression, TextView, UnaryOperator};
use crate::span::{Span, Spanned};
use crate::token::{tokens_view, SpannedToken, Token, TokenView};
use crate::ast::{
    entries_view, expr_in, lemma_entries_push, lemma_sexprs_push, sexpr_in, sexpr_view, sexprs_view, text_view, texts_in, texts_view,
};
use crate::lexer::{errors_view, spec_tokenize, tokenize_line, LexErrorView, LexerError};
use crate::source::SourceId;

verus! {

/// Tokens as the parser specification reads them: kind, start and end.
pub type Toks = Seq<(TokenView, int, int)>;

/// A parse: the result and the position after it, or the position of the
/// token that could not be read.
pub type ExprParse = Result<(SExprView, int), int>;

/// The kind of the token at `i`, if there is one.
pub open spec fn at(ts: Toks, i: int) -> Option<TokenView> {
    if 0 <= i < ts.len() {
        Some(ts[i].0)
    } else {
        None
    }
}

/// The smaller of two positions.
pub open spec fn min_pos(a: int, b: int) -> int {
    if a <= b { a } else { b }
}

/// The larger of two positions.
pub open spec fn max_pos(a: int, b: int) -> int {
    if a >= b { a } else { b }
}

/// A view spanning from `a` to `b`, as `Span::union` joins spans.
pub open spec fn joined(e: ExprView, a: SExprView, start: int, end: int) -> SExprView {
    SExprView { expr: e, start: min_pos(a.start, start), end: max_pos(a.end, end) }
}

/// The binary operator of the token at `i`, if it binds at `level`
/// (1 is `||`, 7 is `*`, `/` and `%`).
pub open spec fn infix_at(ts: Toks, i: int, level: int) -> Option<BinaryOperator> {
    match at(ts, i) {
        Some(TokenView::Or) => if level == 1 { Some(BinaryOperator::Or) } else { None },
        Some(TokenView::And) => if level == 2 { Some(BinaryOperator::And) } else { None },
        Some(TokenView::Xor) => if level == 3 { Some(BinaryOperator::Xor) } else { None },
        Some(TokenView::Equal) => if level == 4 { Some(BinaryOperator::Equal) } else { None },
        Some(TokenView::NotEqual) => if level == 4 { Some(BinaryOperator::NotEqual) } else { None },
        Some(TokenView::Less) => if level == 5 { Some(BinaryOperator::Less) } else { None },
        Some(TokenView::LessEqual) => if level == 5 { Some(BinaryOperator::LessEqual) } else { None },
        Some(TokenView::Greater) => if level == 5 { Some(BinaryOperator::Greater) } else { None },
        Some(TokenView::GreaterEqual) => if level == 5 { Some(BinaryOperator::GreaterEqual) } else { None },
        Some(TokenView::Plus) => if level == 6 { Some(BinaryOperator::Add) } else { None },
        Some(TokenView::Dash) => if level == 6 { Some(BinaryOperator::Subtract) } else { None },
        Some(TokenView::Star) => if level == 7 { Some(BinaryOperator::Multiply) } else { None },
        Some(TokenView::Slash) => if level == 7 { Some(BinaryOperator::Divide) } else { None },
        Some(TokenView::Rem) => if level == 7 { Some(BinaryOperator::Rem) } else { None },
        _ => None,
    }
}

/// The layer of an operator in the grammar, from loosest to tightest: `||`,
/// `&&`, `^`, equality, comparison, the terms `+` and `-`, and the factors
/// `*`, `/` and `%`.
pub open spec fn layer(o: BinaryOperator) -> int {
    match o {
        BinaryOperator::Or => 0,
        BinaryOperator::And => 1,
        BinaryOperator::Xor => 2,
        BinaryOperator::Equal | BinaryOperator::NotEqual => 3,
        BinaryOperator::Less | BinaryOperator::LessEqual | BinaryOperator::Greater | BinaryOperator::GreaterEqual => 4,
        BinaryOperator::Add | BinaryOperator::Subtract => 5,
        BinaryOperator::Multiply | BinaryOperator::Divide | BinaryOperator::Rem => 6,
    }
}

/// Operators bind in the grammar's layers: two operators of one layer bind
/// at the same level, and an operator of a tighter layer at a higher level;
/// so `%` binds with `*` and `/`, above `+` and `-`.
pub proof fn lemma_binding_levels(ts: Toks, i: int, l: int, us: Toks, j: int, m: int, o: BinaryOperator, q: BinaryOperator)
    requires
        infix_at(ts, i, l) == Some(o),
        infix_at(us, j, m) == Some(q),
    ensures
        layer(o) == layer(q) ==> l == m,
        layer(o) < layer(q) ==> l < m,
{
}

/// An expression at `pos`.
pub open spec fn p_expr(ts: Toks, pos: int) -> ExprParse
    decreases ts.len() - pos, 40int,
{
    p_binary(ts, 1, pos)
}

/// An expression at binary `level` (1 to 7) at `pos`.
pub open spec fn p_binary(ts: Toks, level: int, pos: int) -> ExprParse
    decreases ts.len() - pos, 40 - 2 * level,
{
    if level < 1 || level > 7 {
        Err(pos)
    } else {
        let left = if level < 7 { p_binary(ts, level + 1, pos) } else { p_unary(ts, pos) };
        match left {
            Err(e) => Err(e),
            Ok((l, p)) => if p <= pos || p > ts.len() { Err(p) } else { p_binary_rest(ts, level, l, p) },
        }
    }
}

/// The operators and right operands at `level` that follow `left` at `pos`.
pub open spec fn p_binary_rest(ts: Toks, level: int, left: SExprView, pos: int) -> ExprParse
    decreases ts.len() - pos, 39 - 2 * level,
{
    if level < 1 || level > 7 || pos < 0 {
        Err(pos)
    } else {
        match infix_at(ts, pos, level) {
            None => Ok((left, pos)),
            Some(op) => {
                let right = if level < 7 { p_binary(ts, level + 1, pos + 1) } else { p_unary(ts, pos + 1) };
                match right {
                    Err(e) => Err(e),
                    Ok((r, p)) => if p <= pos || p > ts.len() {
                        Err(p)
                    } else {
                        let e = ExprView::Binary { left: Box::new(left), right: Box::new(r), operator: op };
                        p_binary_rest(ts, level, joined(e, left, r.start, r.end), p)
                    },
                }
            },
        }
    }
}

/// A unary expression at `pos`: prefix operators, then a postfix expression.
pub open spec fn p_unary(ts: Toks, pos: int) -> ExprParse
    decreases ts.len() - pos, 10int,
{
    let op = match at(ts, pos) {
        Some(TokenView::Dash) => Some(UnaryOperator::Negate),
        Some(TokenView::Not) => Some(UnaryOperator::Not),
        _ => None,
    };
    match op {
        Some(o) => match p_unary(ts, pos + 1) {
            Err(e) => Err(e),
            Ok((r, p)) => {
                let e = ExprView::Unary { right: Box::new(r), operator: o };
                Ok((SExprView { expr: e, start: min_pos(ts[pos].1, r.start), end: max_pos(ts[pos].2, r.end) }, p))
            },
        },
        None => p_postfix(ts, pos),
    }
}

/// An atom at `pos` followed by calls, indexes, slices and key accesses.
pub open spec fn p_postfix(ts: Toks, pos: int) -> ExprParse
    decreases ts.len() - pos, 9int,
{
    match p_atom(ts, pos) {
        Err(e) => Err(e),
        Ok((a, p)) => if p <= pos || p > ts.len() { Err(p) } else { p_postfix_rest(ts, a, p) },
    }
}

/// The calls, indexes, slices and key accesses after `left` at `pos`.
pub open spec fn p_postfix_rest(ts: Toks, left: SExprView, pos: int) -> ExprParse
    decreases ts.len() - pos, 8int,
{
    if pos < 0 {
        Err(pos)
    } else {
        match at(ts, pos) {
            Some(TokenView::LeftParen) => match p_items(ts, pos + 1, TokenView::RightParen, Seq::empty()) {
                Err(e) => Err(e),
                Ok((args, q)) => if q <= pos || q > ts.len() {
                    Err(q)
                } else {
                    let e = ExprView::Call { function: Box::new(left), args };
                    p_postfix_rest(ts, joined(e, left, ts[pos].1, ts[q - 1].2), q)
                },
            },
            Some(TokenView::LeftBrack) => {
                if at(ts, pos + 1) == Some(TokenView::Colon) {
                    if at(ts, pos + 2) == Some(TokenView::RightBrack) {
                        let e = ExprView::GetSlice { container: Box::new(left), start: None, end: None };
                        p_postfix_rest(ts, joined(e, left, ts[pos].1, ts[pos + 2].2), pos + 3)
                    } else {
                        match p_expr(ts, pos + 2) {
                            Err(e) => Err(e),
                            Ok((x, q)) => if q <= pos || q > ts.len() || at(ts, q) != Some(TokenView::RightBrack) {
                                Err(q)
                            } else {
                                let e = ExprView::GetSlice { container: Box::new(left), start: None, end: Some(Box::new(x)) };
                                p_postfix_rest(ts, joined(e, left, ts[pos].1, ts[q].2), q + 1)
                            },
                        }
                    }
                } else {
                    match p_expr(ts, pos + 1) {
                        Err(e) => Err(e),
                        Ok((x, q)) => if q <= pos || q > ts.len() {
                            Err(q)
                        } else if at(ts, q) == Some(TokenView::RightBrack) {
                            let e = ExprView::GetIndex { container: Box::new(left), index: Box::new(x) };
                            p_postfix_rest(ts, joined(e, left, ts[pos].1, ts[q].2), q + 1)
                        } else if at(ts, q) == Some(TokenView::Colon) {
                            if at(ts, q + 1) == Some(TokenView::RightBrack) {
                                let e = ExprView::GetSlice { container: Box::new(left), start: Some(Box::new(x)), end: None };
                                p_postfix_rest(ts, joined(e, left, ts[pos].1, ts[q + 1].2), q + 2)
                            } else {
                                match p_expr(ts, q + 1) {
                                    Err(e) => Err(e),
                                    Ok((y, r)) => if r <= q || r > ts.len() || at(ts, r) != Some(TokenView::RightBrack) {
                                        Err(r)
                                    } else {
                                        let e = ExprView::GetSlice {
                                            container: Box::new(left),
                                            start: Some(Box::new(x)),
                                            end: Some(Box::new(y)),
                                        };
                                        p_postfix_rest(ts, joined(e, left, ts[pos].1, ts[r].2), r + 1)
                                    },
                                }
                            }
                        } else {
                            Err(q)
                        }
                    }
                }
            },
            Some(TokenView::Dot) => match at(ts, pos + 1) {
                Some(TokenView::Identifier(name)) => {
                    let e = ExprView::GetKey { container: Box::new(left), key: (name, ts[pos + 1].1, ts[pos + 1].2) };
                    p_postfix_rest(ts, joined(e, left, ts[pos].1, ts[pos + 1].2), pos + 2)
                },
                _ => Err(pos + 1),
            },
            _ => Ok((left, pos)),
        }
    }
}

/// The names of a function's arguments from `pos` on, up to and including
/// `)`, after those in `acc`: identifiers separated by commas, with an optional
/// trailing comma.
pub open spec fn p_params(ts: Toks, pos: int, acc: Seq<TextView>) -> Result<(Seq<TextView>, int), int>
    decreases ts.len() - pos,
{
    if pos < 0 || pos > ts.len() {
        Err(pos)
    } else if at(ts, pos) == Some(TokenView::RightParen) {
        Ok((acc, pos + 1))
    } else {
        match at(ts, pos) {
            Some(TokenView::Identifier(n)) => {
                let acc2 = acc.push((n, ts[pos].1, ts[pos].2));
                if at(ts, pos + 1) == Some(TokenView::Comma) {
                    p_params(ts, pos + 2, acc2)
                } else if at(ts, pos + 1) == Some(TokenView::RightParen) {
                    Ok((acc2, pos + 2))
                } else {
                    Err(pos + 1)
                }
            },
            _ => Err(pos),
        }
    }
}

/// A function `(args) => body` at `pos`; its body reaches as far as an expression can.
pub open spec fn p_lambda(ts: Toks, pos: int) -> ExprParse
    decreases ts.len() - pos, 6int,
{
    if pos < 0 || at(ts, pos) != Some(TokenView::LeftParen) {
        Err(pos)
    } else {
        match p_params(ts, pos + 1, Seq::empty()) {
            Err(e) => Err(e),
            Ok((args, q)) => if q <= pos || q > ts.len() || at(ts, q) != Some(TokenView::FatArrow) {
                Err(q)
            } else {
                match p_expr(ts, q + 1) {
                    Err(e) => Err(e),
                    Ok((b, r)) => if r <= q + 1 || r > ts.len() {
                        Err(r)
                    } else {
                        Ok((SExprView { expr: ExprView::Function { args, body: Box::new(b) }, start: ts[pos].1, end: ts[r - 1].2 }, r))
                    },
                }
            },
        }
    }
}

/// A single-token view at `pos` with the token's span.
pub open spec fn token_expr(ts: Toks, pos: int, e: ExprView) -> SExprView {
    SExprView { expr: e, start: ts[pos].1, end: ts[pos].2 }
}

/// An atom at `pos`.
pub open spec fn p_atom(ts: Toks, pos: int) -> ExprParse
    decreases ts.len() - pos, 7int,
{
    if pos < 0 {
        Err(pos)
    } else {
        match at(ts, pos) {
            Some(TokenView::Null) => Ok((token_expr(ts, pos, ExprView::Null), pos + 1)),
            Some(TokenView::Boolean(b)) => Ok((token_expr(ts, pos, ExprView::Boolean(b)), pos + 1)),
            Some(TokenView::Num(n)) => Ok((token_expr(ts, pos, ExprView::Num(n)), pos + 1)),
            Some(TokenView::Str(s)) => Ok((token_expr(ts, pos, ExprView::Str(s)), pos + 1)),
            Some(TokenView::Identifier(s)) => Ok((token_expr(ts, pos, ExprView::Identifier(s)), pos + 1)),
            Some(TokenView::LeftBrack) => match p_items(ts, pos + 1, TokenView::RightBrack, Seq::empty()) {
                Err(e) => Err(e),
                Ok((items, q)) => if q <= pos || q > ts.len() {
                    Err(q)
                } else {
                    Ok((SExprView { expr: ExprView::List(items), start: ts[pos].1, end: ts[q - 1].2 }, q))
                },
            },
            Some(TokenView::LeftBrace) => match p_fields(ts, pos + 1, Seq::empty()) {
                Err(e) => Err(e),
                Ok((fields, q)) => if q <= pos || q > ts.len() {
                    Err(q)
                } else {
                    Ok((SExprView { expr: ExprView::Object(fields), start: ts[pos].1, end: ts[q - 1].2 }, q))
                },
            },
            Some(TokenView::LeftParen) => match p_lambda(ts, pos) {
                Ok(r) => Ok(r),
                Err(_) => match p_expr(ts, pos + 1) {
                    Err(e) => Err(e),
                    Ok((x, q)) => if q <= pos || q > ts.len() || at(ts, q) != Some(TokenView::RightParen) {
                        Err(q)
                    } else {
                        Ok((SExprView { expr: x.expr, start: ts[pos].1, end: ts[q].2 }, q + 1))
                    },
                },
            },
            _ => Err(pos),
        }
    }
}

/// The items from `pos` up to and including the token `close`, after the
/// items `acc` already read; gives the items and the position after `close`.
pub open spec fn p_items(ts: Toks, pos: int, close: TokenView, acc: Seq<SExprView>) -> Result<(Seq<SExprView>, int), int>
    decreases ts.len() - pos, 45int,
{
    if pos < 0 {
        Err(pos)
    } else if at(ts, pos) == Some(close) {
        Ok((acc, pos + 1))
    } else {
        match p_expr(ts, pos) {
            Err(e) => Err(e),
            Ok((x, p)) => if p <= pos || p > ts.len() {
                Err(p)
            } else if at(ts, p) == Some(TokenView::Comma) {
                p_items(ts, p + 1, close, acc.push(x))
            } else if at(ts, p) == Some(close) {
                Ok((acc.push(x), p + 1))
            } else {
                Err(p)
            },
        }
    }
}

/// The fields of an object from `pos` up to and including `}`, after the
/// fields `acc` already read.
pub open spec fn p_fields(ts: Toks, pos: int, acc: Seq<(TextView, SExprView)>) -> Result<(Seq<(TextView, SExprView)>, int), int>
    decreases ts.len() - pos, 45int,
{
    if pos < 0 {
        Err(pos)
    } else if at(ts, pos) == Some(TokenView::RightBrace) {
        Ok((acc, pos + 1))
    } else {
        match at(ts, pos) {
            Some(TokenView::Identifier(k)) => if at(ts, pos + 1) != Some(TokenView::Colon) {
                Err(pos + 1)
            } else {
                let key = (k, ts[pos].1, ts[pos].2);
                let value: ExprParse = if at(ts, pos + 2) == Some(TokenView::Comma) || at(ts, pos + 2) == Some(TokenView::RightBrace) {
                    Ok((token_expr(ts, pos, ExprView::Identifier(k)), pos + 2))
                } else {
                    p_expr(ts, pos + 2)
                };
                match value {
                    Err(e) => Err(e),
                    Ok((v, p)) => if p <= pos || p > ts.len() {
                        Err(p)
                    } else if at(ts, p) == Some(TokenView::Comma) {
                        p_fields(ts, p + 1, acc.push((key, v)))
                    } else if at(ts, p) == Some(TokenView::RightBrace) {
                        Ok((acc.push((key, v)), p + 1))
                    } else {
                        Err(p)
                    },
                }
            },
            _ => Err(pos),
        }
    }
}

/// The expression that all of `ts` makes, or the position of the first
/// token that stops it (the length of `ts` where the tokens end too soon).
pub open spec fn spec_parse_expression(ts: Toks) -> Result<SExprView, int> {
    match p_expr(ts, 0) {
        Err(e) => Err(e),
        Ok((x, p)) => if p == ts.len() { Ok(x) } else { Err(p) },
    }
}


/// An exec parse matches its specification.
pub open spec fn parse_matches(r: Result<(SpannedExpression, usize), usize>, s: ExprParse) -> bool {
    match s {
        Ok((v, p)) => r matches Ok((e, q)) && sexpr_view(e) == v && q as int == p,
        Err(p) => r matches Err(q) && q as int == p,
    }
}

/// The tokens are few enough that positions past them fit in a `usize`.
pub open spec fn tokens_fit(tokens: Seq<SpannedToken>) -> bool {
    tokens.len() + 8 < usize::MAX
}

/// Every token's span is in source `src`.
pub open spec fn toks_in(ts: Seq<SpannedToken>, src: SourceId) -> bool {
    forall|i: int| 0 <= i < ts.len() ==> (#[trigger] ts[i]).span.spec_source() == src
}

/// Every expression of a sequence has all its spans in source `src`.
pub open spec fn sexprs_in(s: Seq<SpannedExpression>, src: SourceId) -> bool {
    forall|i: int| 0 <= i < s.len() ==> sexpr_in(#[trigger] s[i], src)
}

/// Every entry of a sequence has its key's and its value's spans in source `src`.
pub open spec fn entries_in(s: Seq<(Spanned<String>, SpannedExpression)>, src: SourceId) -> bool {
    forall|i: int| 0 <= i < s.len() ==> (#[trigger] s[i]).0.span.spec_source() == src && sexpr_in(s[i].1, src)
}

/// A span from the start of token `a` to the end of token `b`.
pub(crate) fn token_range(tokens: &Vec<SpannedToken>, a: usize, b: usize) -> (sp: Span)
    requires
        a < tokens@.len(),
        b < tokens@.len(),
    ensures
        sp.spec_start() == tokens@[a as int].span.spec_start(),
        sp.spec_end() == tokens@[b as int].span.spec_end(),
        sp.spec_source() == tokens@[a as int].span.spec_source(),
{
    Span::new(tokens[a].span.source(), tokens[a].span.start(), tokens[b].span.end())
}

/// The binary operator of the token at `i` at `level`.
fn infix(tokens: &Vec<SpannedToken>, i: usize, level: usize) -> (r: Option<BinaryOperator>)
    ensures
        r == infix_at(tokens_view(tokens@), i as int, level as int),
{
    if i >= tokens.len() {
        return None;
    }
    match &tokens[i].inner {
        Token::Or => if level == 1 { Some(BinaryOperator::Or) } else { None },
        Token::And => if level == 2 { Some(BinaryOperator::And) } else { None },
        Token::Xor => if level == 3 { Some(BinaryOperator::Xor) } else { None },
        Token::Equal => if level == 4 { Some(BinaryOperator::Equal) } else { None },
        Token::NotEqual => if level == 4 { Some(BinaryOperator::NotEqual) } else { None },
        Token::Less => if level == 5 { Some(BinaryOperator::Less) } else { None },
        Token::LessEqual => if level == 5 { Some(BinaryOperator::LessEqual) } else { None },
        Token::Greater => if level == 5 { Some(BinaryOperator::Greater) } else { None },
        Token::GreaterEqual => if level == 5 { Some(BinaryOperator::GreaterEqual) } else { None },
        Token::Plus => if level == 6 { Some(BinaryOperator::Add) } else { None },
        Token::Dash => if level == 6 { Some(BinaryOperator::Subtract) } else { None },
        Token::Star => if level == 7 { Some(BinaryOperator::Multiply) } else { None },
        Token::Slash => if level == 7 { Some(BinaryOperator::Divide) } else { None },
        Token::Rem => if level == 7 { Some(BinaryOperator::Rem) } else { None },
        _ => None,
    }
}

/// Whether the token at `i` is a comma.
fn is_comma(tokens: &Vec<SpannedToken>, i: usize) -> (b: bool)
    ensures
        b == (at(tokens_view(tokens@), i as int) == Some(TokenView::Comma)),
{
    i < tokens.len() && matches!(tokens[i].inner, Token::Comma)
}

/// Whether the token at `i` is a colon.
fn is_colon(tokens: &Vec<SpannedToken>, i: usize) -> (b: bool)
    ensures
        b == (at(tokens_view(tokens@), i as int) == Some(TokenView::Colon)),
{
    i < tokens.len() && matches!(tokens[i].inner, Token::Colon)
}

/// Whether the token at `i` is `]`.
fn is_right_brack(tokens: &Vec<SpannedToken>, i: usize) -> (b: bool)
    ensures
        b == (at(tokens_view(tokens@), i as int) == Some(TokenView::RightBrack)),
{
    i < tokens.len() && matches!(tokens[i].inner, Token::RightBrack)
}

/// Whether the token at `i` is `)`.
fn is_right_paren(tokens: &Vec<SpannedToken>, i: usize) -> (b: bool)
    ensures
        b == (at(tokens_view(tokens@), i as int) == Some(TokenView::RightParen)),
{
    i < tokens.len() && matches!(tokens[i].inner, Token::RightParen)
}

/// Whether the token at `i` is `}`.
fn is_right_brace(tokens: &Vec<SpannedToken>, i: usize) -> (b: bool)
    ensures
        b == (at(tokens_view(tokens@), i as int) == Some(TokenView::RightBrace)),
{
    i < tokens.len() && matches!(tokens[i].inner, Token::RightBrace)
}

/// The closing token of a list of items: `)` or `]`.
pub open spec fn closer(paren: bool) -> TokenView {
    if paren { TokenView::RightParen } else { TokenView::RightBrack }
}

fn is_closer(tokens: &Vec<SpannedToken>, i: usize, paren: bool) -> (b: bool)
    ensures
        b == (at(tokens_view(tokens@), i as int) == Some(closer(paren))),
{
    if paren { is_right_paren(tokens, i) } else { is_right_brack(tokens, i) }
}

/// Parses an expression at `pos`, as `p_expr` says.
pub fn parse_expr(tokens: &Vec<SpannedToken>, pos: usize) -> (r: Result<(SpannedExpression, usize), usize>)
    requires
        tokens_fit(tokens@),
        pos <= tokens@.len() + 4,
    ensures
        parse_matches(r, p_expr(tokens_view(tokens@), pos as int)),
        forall|src: SourceId| #[trigger] toks_in(tokens@, src) ==> (r matches Ok((e, q)) ==> sexpr_in(e, src)),
    decreases tokens@.len() - pos, 40int,
{
    parse_binary(tokens, 1, pos)
}

fn parse_binary(tokens: &Vec<SpannedToken>, level: usize, pos: usize) -> (r: Result<(SpannedExpression, usize), usize>)
    requires
        tokens_fit(tokens@),
        pos <= tokens@.len() + 4,
        1 <= level <= 7,
    ensures
        parse_matches(r, p_binary(tokens_view(tokens@), level as int, pos as int)),
        forall|src: SourceId| #[trigger] toks_in(tokens@, src) ==> (r matches Ok((e, q)) ==> sexpr_in(e, src)),
    decreases tokens@.len() - pos, 40 - 2 * level,
{
    let left = if level < 7 { parse_binary(tokens, level + 1, pos) } else { parse_unary(tokens, pos) };
    match left {
        Err(e) => Err(e),
        Ok((l, p)) => if p <= pos || p > tokens.len() { Err(p) } else { parse_binary_rest(tokens, level, l, p) },
    }
}

fn parse_binary_rest(tokens: &Vec<SpannedToken>, level: usize, left: SpannedExpression, pos: usize) -> (r: Result<(SpannedExpression, usize), usize>)
    requires
        tokens_fit(tokens@),
        pos <= tokens@.len(),
        1 <= level <= 7,
    ensures
        parse_matches(r, p_binary_rest(tokens_view(tokens@), level as int, sexpr_view(left), pos as int)),
        forall|src: SourceId| #[trigger] toks_in(tokens@, src) && sexpr_in(left, src) ==> (r matches Ok((e, q)) ==> sexpr_in(e, src)),
    decreases tokens@.len() - pos, 39 - 2 * level,
{
    match infix(tokens, pos, level) {
        None => Ok((left, pos)),
        Some(op) => {
            let right = if level < 7 { parse_binary(tokens, level + 1, pos + 1) } else { parse_unary(tokens, pos + 1) };
            match right {
                Err(e) => Err(e),
                Ok((r, p)) => if p <= pos || p > tokens.len() {
                    Err(p)
                } else {
                    let rspan = r.span();
                    let span = left.span().union(rspan);
                    let e = Spanned::new(Expression::Binary { left: Box::new(left), right: Box::new(r), operator: op }, span);
                    parse_binary_rest(tokens, level, e, p)
                },
            }
        },
    }
}

fn parse_unary(tokens: &Vec<SpannedToken>, pos: usize) -> (r: Result<(SpannedExpression, usize), usize>)
    requires
        tokens_fit(tokens@),
        pos <= tokens@.len() + 4,
    ensures
        parse_matches(r, p_unary(tokens_view(tokens@), pos as int)),
        forall|src: SourceId| #[trigger] toks_in(tokens@, src) ==> (r matches Ok((e, q)) ==> sexpr_in(e, src)),
    decreases tokens@.len() - pos, 10int,
{
    let op = if pos < tokens.len() {
        match &tokens[pos].inner {
            Token::Dash => Some(UnaryOperator::Negate),
            Token::Not => Some(UnaryOperator::Not),
            _ => None,
        }
    } else {
        None
    };
    match op {
        Some(o) => match parse_unary(tokens, pos + 1) {
            Err(e) => Err(e),
            Ok((r, p)) => {
                let span = tokens[pos].span().union(r.span());
                Ok((Spanned::new(Expression::Unary { right: Box::new(r), operator: o }, span), p))
            },
        },
        None => parse_postfix(tokens, pos),
    }
}

fn parse_postfix(tokens: &Vec<SpannedToken>, pos: usize) -> (r: Result<(SpannedExpression, usize), usize>)
    requires
        tokens_fit(tokens@),
        pos <= tokens@.len() + 4,
    ensures
        parse_matches(r, p_postfix(tokens_view(tokens@), pos as int)),
        forall|src: SourceId| #[trigger] toks_in(tokens@, src) ==> (r matches Ok((e, q)) ==> sexpr_in(e, src)),
    decreases tokens@.len() - pos, 9int,
{
    match parse_atom(tokens, pos) {
        Err(e) => Err(e),
        Ok((a, p)) => if p <= pos || p > tokens.len() { Err(p) } else { parse_postfix_rest(tokens, a, p) },
    }
}

fn parse_postfix_rest(tokens: &Vec<SpannedToken>, left: SpannedExpression, pos: usize) -> (r: Result<(SpannedExpression, usize), usize>)
    requires
        tokens_fit(tokens@),
        pos <= tokens@.len(),
    ensures
        parse_matches(r, p_postfix_rest(tokens_view(tokens@), sexpr_view(left), pos as int)),
        forall|src: SourceId| #[trigger] toks_in(tokens@, src) && sexpr_in(left, src) ==> (r matches Ok((e, q)) ==> sexpr_in(e, src)),
    decreases tokens@.len() - pos, 8int,
{
    let ghost ts = tokens_view(tokens@);
    if pos >= tokens.len() {
        return Ok((left, pos));
    }
    match &tokens[pos].inner {
        Token::LeftParen => match parse_items(tokens, pos + 1, true, Vec::new()) {
            Err(e) => Err(e),
            Ok((args, q)) => if q <= pos || q > tokens.len() {
                Err(q)
            } else {
                let span = left.span().union(token_range(tokens, pos, q - 1));
                let e = Spanned::new(Expression::Call { function: Box::new(left), args }, span);
                parse_postfix_rest(tokens, e, q)
            },
        },
        Token::LeftBrack => {
            if is_colon(tokens, pos + 1) {
                if is_right_brack(tokens, pos + 2) {
                    let span = left.span().union(token_range(tokens, pos, pos + 2));
                    let e = Spanned::new(Expression::GetSlice { container: Box::new(left), start: None, end: None }, span);
                    parse_postfix_rest(tokens, e, pos + 3)
                } else {
                    match parse_expr(tokens, pos + 2) {
                        Err(e) => Err(e),
                        Ok((x, q)) => if q <= pos || q > tokens.len() || !is_right_brack(tokens, q) {
                            Err(q)
                        } else {
                            let span = left.span().union(token_range(tokens, pos, q));
                            let e = Spanned::new(Expression::GetSlice { container: Box::new(left), start: None, end: Some(Box::new(x)) }, span);
                            parse_postfix_rest(tokens, e, q + 1)
                        },
                    }
                }
            } else {
                match parse_expr(tokens, pos + 1) {
                    Err(e) => Err(e),
                    Ok((x, q)) => if q <= pos || q > tokens.len() {
                        Err(q)
                    } else if is_right_brack(tokens, q) {
                        let span = left.span().union(token_range(tokens, pos, q));
                        let e = Spanned::new(Expression::GetIndex { container: Box::new(left), index: Box::new(x) }, span);
                        parse_postfix_rest(tokens, e, q + 1)
                    } else if is_colon(tokens, q) {
                        if is_right_brack(tokens, q + 1) {
                            let span = left.span().union(token_range(tokens, pos, q + 1));
                            let e = Spanned::new(Expression::GetSlice { container: Box::new(left), start: Some(Box::new(x)), end: None }, span);
                            parse_postfix_rest(tokens, e, q + 2)
                        } else {
                            match parse_expr(tokens, q + 1) {
                                Err(e) => Err(e),
                                Ok((y, r)) => if r <= q || r > tokens.len() || !is_right_brack(tokens, r) {
                                    Err(r)
                                } else {
                                    let span = left.span().union(token_range(tokens, pos, r));
                                    let e = Spanned::new(Expression::GetSlice {
                                        container: Box::new(left),
                                        start: Some(Box::new(x)),
                                        end: Some(Box::new(y)),
                                    }, span);
                                    parse_postfix_rest(tokens, e, r + 1)
                                },
                            }
                        }
                    } else {
                        Err(q)
                    },
                }
            }
        },
        Token::Dot => {
            if pos + 1 < tokens.len() {
                match &tokens[pos + 1].inner {
                    Token::Identifier(name) => {
                        let key = Spanned::new(name.clone(), tokens[pos + 1].span());
                        let span = left.span().union(token_range(tokens, pos, pos + 1));
                        let e = Spanned::new(Expression::GetKey { container: Box::new(left), key }, span);
                        parse_postfix_rest(tokens, e, pos + 2)
                    },
                    _ => Err(pos + 1),
                }
            } else {
                Err(pos + 1)
            }
        },
        _ => Ok((left, pos)),
    }
}

/// Parses the names of a function's arguments at `pos`, as `p_params` says.
pub(crate) fn parse_params(tokens: &Vec<SpannedToken>, pos: usize, acc: Vec<Spanned<String>>) -> (r: Result<(Vec<Spanned<String>>, usize), usize>)
    requires
        tokens_fit(tokens@),
        pos <= tokens@.len(),
    ensures
        match p_params(tokens_view(tokens@), pos as int, texts_view(acc@)) {
            Ok((v, p)) => r matches Ok((e, q)) && texts_view(e@) == v && q as int == p,
            Err(p) => r matches Err(q) && q as int == p,
        },
        forall|src: SourceId| #[trigger] toks_in(tokens@, src) && texts_in(acc@, src) ==> (r matches Ok((e, q)) ==> texts_in(e@, src)),
    decreases tokens@.len() - pos,
{
    if is_right_paren(tokens, pos) {
        return Ok((acc, pos + 1));
    }
    if pos >= tokens.len() {
        return Err(pos);
    }
    match &tokens[pos].inner {
        Token::Identifier(n) => {
            let mut acc = acc;
            let ghost before = acc@;
            acc.push(Spanned::new(n.clone(), tokens[pos].span()));
            proof {
                assert(texts_view(acc@) =~= texts_view(before).push(
                    (n@, tokens@[pos as int].span.spec_start() as int, tokens@[pos as int].span.spec_end() as int),
                ));
            }
            if is_comma(tokens, pos + 1) {
                parse_params(tokens, pos + 2, acc)
            } else if is_right_paren(tokens, pos + 1) {
                Ok((acc, pos + 2))
            } else {
                Err(pos + 1)
            }
        },
        _ => Err(pos),
    }
}

/// Parses a function `(args) => body` at `pos`, as `p_lambda` says.
pub(crate) fn parse_lambda(tokens: &Vec<SpannedToken>, pos: usize) -> (r: Result<(SpannedExpression, usize), usize>)
    requires
        tokens_fit(tokens@),
        pos <= tokens@.len() + 4,
    ensures
        parse_matches(r, p_lambda(tokens_view(tokens@), pos as int)),
        forall|src: SourceId| #[trigger] toks_in(tokens@, src) ==> (r matches Ok((e, q)) ==> sexpr_in(e, src)),
    decreases tokens@.len() - pos, 6int,
{
    if pos >= tokens.len() || !matches!(tokens[pos].inner, Token::LeftParen) {
        return Err(pos);
    }
    let empty: Vec<Spanned<String>> = Vec::new();
    proof { assert(texts_view(empty@) =~= Seq::empty()); }
    match parse_params(tokens, pos + 1, empty) {
        Err(e) => Err(e),
        Ok((args, q)) => if q <= pos || q > tokens.len() || q >= tokens.len() || !matches!(tokens[q].inner, Token::FatArrow) {
            Err(q)
        } else {
            match parse_expr(tokens, q + 1) {
                Err(e) => Err(e),
                Ok((b, r)) => if r <= q + 1 || r > tokens.len() {
                    Err(r)
                } else {
                    let span = token_range(tokens, pos, r - 1);
                    Ok((Spanned::new(Expression::Function { args, body: Box::new(b) }, span), r))
                },
            }
        },
    }
}

fn parse_atom(tokens: &Vec<SpannedToken>, pos: usize) -> (r: Result<(SpannedExpression, usize), usize>)
    requires
        tokens_fit(tokens@),
        pos <= tokens@.len() + 4,
    ensures
        parse_matches(r, p_atom(tokens_view(tokens@), pos as int)),
        forall|src: SourceId| #[trigger] toks_in(tokens@, src) ==> (r matches Ok((e, q)) ==> sexpr_in(e, src)),
    decreases tokens@.len() - pos, 7int,
{
    if pos >= tokens.len() {
        return Err(pos);
    }
    match &tokens[pos].inner {
        Token::Null => Ok((Spanned::new(Expression::Null, tokens[pos].span()), pos + 1)),
        Token::Boolean(b) => Ok((Spanned::new(Expression::Boolean(*b), tokens[pos].span()), pos + 1)),
        Token::Number(n) => Ok((Spanned::new(Expression::Number(*n), tokens[pos].span()), pos + 1)),
        Token::String(s) => Ok((Spanned::new(Expression::String(s.clone()), tokens[pos].span()), pos + 1)),
        Token::Identifier(s) => Ok((Spanned::new(Expression::Identifier(s.clone()), tokens[pos].span()), pos + 1)),
        Token::LeftBrack => match parse_items(tokens, pos + 1, false, Vec::new()) {
            Err(e) => Err(e),
            Ok((items, q)) => if q <= pos || q > tokens.len() {
                Err(q)
            } else {
                Ok((Spanned::new(Expression::List(items), token_range(tokens, pos, q - 1)), q))
            },
        },
        Token::LeftBrace => match parse_fields(tokens, pos + 1, Vec::new()) {
            Err(e) => Err(e),
            Ok((fields, q)) => if q <= pos || q > tokens.len() {
                Err(q)
            } else {
                Ok((Spanned::new(Expression::Object(fields), token_range(tokens, pos, q - 1)), q))
            },
        },
        Token::LeftParen => match parse_lambda(tokens, pos) {
            Ok(r) => Ok(r),
            Err(_) => match parse_expr(tokens, pos + 1) {
                Err(e) => Err(e),
                Ok((x, q)) => if q <= pos || q > tokens.len() || !is_right_paren(tokens, q) {
                    Err(q)
                } else {
                    Ok((Spanned::new(x.inner, token_range(tokens, pos, q)), q + 1))
                },
            },
        },
        _ => Err(pos),
    }
}

fn parse_items(tokens: &Vec<SpannedToken>, pos: usize, paren: bool, acc: Vec<SpannedExpression>) -> (r: Result<(Vec<SpannedExpression>, usize), usize>)
    requires
        tokens_fit(tokens@),
        pos <= tokens@.len() + 4,
    ensures
        match p_items(tokens_view(tokens@), pos as int, closer(paren), sexprs_view(acc@)) {
            Ok((v, p)) => r matches Ok((e, q)) && sexprs_view(e@) == v && q as int == p,
            Err(p) => r matches Err(q) && q as int == p,
        },
        forall|src: SourceId| #[trigger] toks_in(tokens@, src) && sexprs_in(acc@, src) ==> (r matches Ok((e, q)) ==> sexprs_in(e@, src)),
    decreases tokens@.len() - pos, 45int,
{
    if is_closer(tokens, pos, paren) {
        return Ok((acc, pos + 1));
    }
    match parse_expr(tokens, pos) {
        Err(e) => Err(e),
        Ok((x, p)) => if p <= pos || p > tokens.len() {
            Err(p)
        } else if is_comma(tokens, p) {
            let mut acc = acc;
            proof { lemma_sexprs_push(acc@, x); }
            acc.push(x);
            parse_items(tokens, p + 1, paren, acc)
        } else if is_closer(tokens, p, paren) {
            let mut acc = acc;
            proof { lemma_sexprs_push(acc@, x); }
            acc.push(x);
            Ok((acc, p + 1))
        } else {
            Err(p)
        },
    }
}

fn parse_fields(tokens: &Vec<SpannedToken>, pos: usize, acc: Vec<(Spanned<String>, SpannedExpression)>) -> (r: Result<(Vec<(Spanned<String>, SpannedExpression)>, usize), usize>)
    requires
        tokens_fit(tokens@),
        pos <= tokens@.len() + 4,
    ensures
        match p_fields(tokens_view(tokens@), pos as int, entries_view(acc@)) {
            Ok((v, p)) => r matches Ok((e, q)) && entries_view(e@) == v && q as int == p,
            Err(p) => r matches Err(q) && q as int == p,
        },
        forall|src: SourceId| #[trigger] toks_in(tokens@, src) && entries_in(acc@, src) ==> (r matches Ok((e, q)) ==> entries_in(e@, src)),
    decreases tokens@.len() - pos, 45int,
{
    if is_right_brace(tokens, pos) {
        return Ok((acc, pos + 1));
    }
    if pos >= tokens.len() {
        return Err(pos);
    }
    match &tokens[pos].inner {
        Token::Identifier(k) => {
            if !is_colon(tokens, pos + 1) {
                return Err(pos + 1);
            }
            let key = Spanned::new(k.clone(), tokens[pos].span());
            let value = if is_comma(tokens, pos + 2) || is_right_brace(tokens, pos + 2) {
                Ok((Spanned::new(Expression::Identifier(k.clone()), tokens[pos].span()), pos + 2))
            } else {
                parse_expr(tokens, pos + 2)
            };
            match value {
                Err(e) => Err(e),
                Ok((v, p)) => if p <= pos || p > tokens.len() {
                    Err(p)
                } else if is_comma(tokens, p) {
                    let mut acc = acc;
                    proof { lemma_entries_push(acc@, (key, v)); }
                    acc.push((key, v));
                    parse_fields(tokens, p + 1, acc)
                } else if is_right_brace(tokens, p) {
                    let mut acc = acc;
                    proof { lemma_entries_push(acc@, (key, v)); }
                    acc.push((key, v));
                    Ok((acc, p + 1))
                } else {
                    Err(p)
                },
            }
        },
        _ => Err(pos),
    }
}


/// An error of the parser: the token it could not read, or the end of the
/// input where more was expected.
#[derive(Clone, Debug, PartialEq)]
pub struct CompilerError {
    pub span: Span,
    pub found: Option<Token>,
}

/// An error of lexing or parsing.
#[derive(Clone, Debug, PartialEq)]
pub enum Error {
    Lexer(LexerError),
    Compiler(CompilerError),
}

/// The error of the parser at token `p`: the token and its span, or, past
/// the tokens, the end of the input, whose start and end are `eoi`.
pub open spec fn compiler_error_at(e: CompilerError, ts: Toks, p: int, eoi: (int, int)) -> bool {
    if 0 <= p < ts.len() {
        &&& e.found matches Some(t) && t@ == ts[p].0
        &&& e.span.spec_start() == ts[p].1
        &&& e.span.spec_end() == ts[p].2
    } else {
        &&& e.found is None
        &&& e.span.spec_start() == eoi.0
        &&& e.span.spec_end() == eoi.1
    }
}

/// The error at token `p`.
pub(crate) fn error_at(tokens: &Vec<SpannedToken>, p: usize, eoi: &Span) -> (e: CompilerError)
    ensures
        compiler_error_at(e, tokens_view(tokens@), p as int, (eoi.spec_start() as int, eoi.spec_end() as int)),
        p >= tokens@.len() ==> e.span == *eoi,
        p < tokens@.len() ==> e.span == tokens@[p as int].span,
{
    if p < tokens.len() {
        CompilerError { span: tokens[p].span(), found: Some(tokens[p].inner.copy()) }
    } else {
        CompilerError { span: eoi.copy(), found: None }
    }
}

/// Parses all of `tokens` as one expression: the expression, or the error at
/// the first token that stops it (`eoi` where the tokens end too soon).
pub fn compile_expression(tokens: &Vec<SpannedToken>, eoi: &Span) -> (r: Result<SpannedExpression, CompilerError>)
    ensures
        tokens_fit(tokens@) ==> match spec_parse_expression(tokens_view(tokens@)) {
            Ok(v) => r matches Ok(e) && sexpr_view(e) == v,
            Err(p) => r matches Err(e) && compiler_error_at(e, tokens_view(tokens@), p, (eoi.spec_start() as int, eoi.spec_end() as int)),
        },
        !tokens_fit(tokens@) ==> (r matches Err(e) && e.span == *eoi),
        r matches Err(e) ==> (e.found is None ==> e.span == *eoi),
        toks_in(tokens@, eoi.spec_source()) ==> match r {
            Ok(e) => sexpr_in(e, eoi.spec_source()),
            Err(e) => e.span.spec_source() == eoi.spec_source(),
        },
{
    if tokens.len() > usize::MAX - 9 {
        return Err(CompilerError { span: eoi.copy(), found: None });
    }
    match parse_expr(tokens, 0) {
        Ok((e, p)) => if p == tokens.len() { Ok(e) } else { Err(error_at(tokens, p, eoi)) },
        Err(p) => Err(error_at(tokens, p, eoi)),
    }
}

/// Lexes and parses `code` as one expression: the expression, where it
/// parses, and every error: first those of the lexer, then that of the
/// parser. Spans count characters of `code`.
pub fn parse_expression(code: &str, source: SourceId) -> (r: (Option<SpannedExpression>, Vec<Error>))
    ensures
        ({
            let lexed = spec_tokenize(code@, 0, code@.len() as int);
            &&& r.1@.len() >= lexed.1.len()
            &&& forall|i: int| 0 <= i < lexed.1.len() ==> ((#[trigger] r.1@[i]) matches Error::Lexer(LexerError::Line(e))
                && crate::lexer::error_view(e) == lexed.1[i])
            &&& lexed.0.len() + 8 < usize::MAX ==> match spec_parse_expression(lexed.0) {
                Ok(v) => r.0 matches Some(e) && sexpr_view(e) == v && r.1@.len() == lexed.1.len(),
                Err(p) => {
                    &&& r.0 is None
                    &&& r.1@.len() == lexed.1.len() + 1
                    &&& r.1@[r.1@.len() - 1] matches Error::Compiler(ce) && compiler_error_at(ce, lexed.0, p, (code@.len() as int, code@.len() as int))
                },
            }
        }),
        r.0 matches Some(e) ==> sexpr_in(e, source),
        forall|i: int| 0 <= i < r.1@.len() ==> match #[trigger] r.1@[i] {
            Error::Lexer(LexerError::Line(e)) => e.span.spec_source() == source,
            Error::Lexer(LexerError::Lines(_)) => false,
            Error::Compiler(c) => c.span.spec_source() == source,
        },
{
    let n = crate::text::chars_of(code).len();
    let eoi = Span::new(source.copy(), n, n);
    let (tokens, lex_errors) = tokenize_line(code, source);
    let tokens = match tokens {
        Some(t) => t,
        None => Vec::new(),
    };
    let ghost les = lex_errors@;
    let mut errors: Vec<Error> = Vec::new();
    let mut i: usize = 0;
    while i < lex_errors.len()
        invariant
            i <= les.len(),
            les == lex_errors@,
            errors@.len() == i,
            forall|k: int| 0 <= k < i ==> ((#[trigger] errors@[k]) matches Error::Lexer(LexerError::Line(e))
                && crate::lexer::error_view(e) == crate::lexer::error_view(les[k]) && e.span.spec_source() == source),
            forall|k: int| 0 <= k < les.len() ==> (#[trigger] les[k]).span.spec_source() == source,
        decreases lex_errors.len() - i,
    {
        let e = &lex_errors[i];
        errors.push(Error::Lexer(LexerError::Line(crate::lexer::LineLexerError { kind: e.kind, span: e.span.copy() })));
        i = i + 1;
    }
    proof {
        assert forall|k: int| 0 <= k < les.len() implies crate::lexer::error_view(les[k]) == errors_view(les)[k] by {}
    }
    match compile_expression(&tokens, &eoi) {
        Ok(e) => (Some(e), errors),
        Err(ce) => {
            errors.push(Error::Compiler(ce));
            (None, errors)
        },
    }
}

} // verus!
