//! The block parser: the tokens of indented code to a block tree.
//!
//! The grammar, where each alternative is tried in order and the first that
//! reads wins:
//!
//! ```text
//! block    := object | list | function | call | if | let | line
//! line     := expr EOL
//! lambda   := "(" (identifier ("," identifier)* ","?)? ")" "=>" expr
//! value    := block | EOL INDENT block (DEDENT | end)
//! entry    := (string | identifier) ":" value
//! object   := entry+
//! item     := "-" entry INDENT entry+ (DEDENT | end) | "-" block | "-" INDENT block (DEDENT | end)
//! list     := item+
//! function := "(" (identifier ("," identifier)* ","?)? ")" "=>" EOL INDENT block (DEDENT | end)
//! call     := (identifier | lambda) value
//! if       := "if" value "then" value "else" value | "if" value "then" value | "if" value "else" value
//! let      := "let" (entry+ | EOL INDENT entry+ (DEDENT | end)) "in" value
//! ```
//!
//! A block's span runs from its first token to the last token it reads; a
//! line's block has the span of its expression.

use vstd::prelude::*;

use crate::ast::{
    block_entries_view, block_in, expr_in, lemma_block_entries_push, lemma_sblocks_push, sblock_in, sblock_view, sblocks_view,
    sexpr_in, text_view, texts_in, texts_view, Block, BlockView, ExprView, Expression, SBlockView, SExprView, SpannedBlock,
    TextView,
};
use crate::lexer::{tokenize_block, LexErrorView, LexerError};
use crate::lines::{self, LinesLexerError};
use crate::parser::{
    at, compiler_error_at, error_at, max_pos, p_expr, p_lambda, p_params, parse_expr, parse_lambda, parse_params, token_range,
    tokens_fit, toks_in, CompilerError, Error, Toks,
};
use crate::source::SourceId;
use crate::span::{Span, Spanned};
use crate::token::{tokens_view, SpannedToken, Token, TokenView};

verus! {

/// A parse of a block: the block and the position after it, or the furthest
/// position where reading failed.
pub type BlockParse = Result<(SBlockView, int), int>;

/// The span view from the start of token `a` to the end of token `b`.
pub open spec fn block_at(ts: Toks, b: BlockView, first: int, last: int) -> SBlockView {
    SBlockView { block: b, start: ts[first].1, end: ts[last].2 }
}

/// After a nested block that ends at `q`: a dedent is read, or the input ends there.
pub open spec fn close_at(ts: Toks, q: int) -> Option<int> {
    if at(ts, q) == Some(TokenView::Dedent) {
        Some(q + 1)
    } else if q == ts.len() {
        Some(q)
    } else {
        None
    }
}

/// A block at `pos`: the first alternative that reads.
pub open spec fn p_block(ts: Toks, pos: int) -> BlockParse
    decreases ts.len() - pos, 21int,
{
    if pos < 0 || pos > ts.len() {
        Err(pos)
    } else {
        match p_object(ts, pos) {
            Ok(r) => Ok(r),
            Err(e1) => match p_list(ts, pos) {
                Ok(r) => Ok(r),
                Err(e2) => match p_function(ts, pos) {
                    Ok(r) => Ok(r),
                    Err(e3) => match p_call(ts, pos) {
                        Ok(r) => Ok(r),
                        Err(e4) => match p_if(ts, pos) {
                            Ok(r) => Ok(r),
                            Err(e5) => match p_let(ts, pos) {
                                Ok(r) => Ok(r),
                                Err(e6) => match p_line(ts, pos) {
                                    Ok(r) => Ok(r),
                                    Err(e7) => Err(max_pos(e1, max_pos(e2, max_pos(e3, max_pos(e4, max_pos(e5, max_pos(e6, e7))))))),
                                },
                            },
                        },
                    },
                },
            },
        }
    }
}

/// A value at `pos`: a block on the same line, or an indented block on the
/// following lines.
pub open spec fn p_value(ts: Toks, pos: int) -> BlockParse
    decreases ts.len() - pos, 22int,
{
    if pos < 0 || pos > ts.len() {
        Err(pos)
    } else {
        match p_block(ts, pos) {
            Ok(r) => Ok(r),
            Err(e1) => if at(ts, pos) == Some(TokenView::EndOfLine) && at(ts, pos + 1) == Some(TokenView::Indent) {
                match p_block(ts, pos + 2) {
                    Ok((b, q)) => if q <= pos || q > ts.len() {
                        Err(q)
                    } else {
                        match close_at(ts, q) {
                            Some(r) => Ok((b, r)),
                            None => Err(max_pos(e1, q)),
                        }
                    },
                    Err(e2) => Err(max_pos(e1, e2)),
                }
            } else {
                Err(max_pos(e1, if at(ts, pos) == Some(TokenView::EndOfLine) { pos + 1 } else { pos }))
            },
        }
    }
}

/// The key of an entry at `pos`: a string or an identifier.
pub open spec fn key_at(ts: Toks, pos: int) -> Option<Seq<char>> {
    match at(ts, pos) {
        Some(TokenView::Str(k)) => Some(k),
        Some(TokenView::Identifier(k)) => Some(k),
        _ => None,
    }
}

/// An entry `key: value` at `pos`.
pub open spec fn p_entry(ts: Toks, pos: int) -> Result<((TextView, SBlockView), int), int>
    decreases ts.len() - pos, 18int,
{
    match key_at(ts, pos) {
        Some(k) => if at(ts, pos + 1) == Some(TokenView::Colon) {
            match p_value(ts, pos + 2) {
                Ok((v, q)) => Ok((((k, ts[pos].1, ts[pos].2), v), q)),
                Err(e) => Err(e),
            }
        } else {
            Err(pos + 1)
        },
        None => Err(pos),
    }
}

/// Entries from `pos` on after those in `acc`, as many as read; at least one.
pub open spec fn p_entries(ts: Toks, pos: int, acc: Seq<(TextView, SBlockView)>) -> Result<(Seq<(TextView, SBlockView)>, int), int>
    decreases ts.len() - pos, 19int,
{
    if pos < 0 || pos > ts.len() {
        Err(pos)
    } else {
        match p_entry(ts, pos) {
            Ok((kv, q)) => if q <= pos || q > ts.len() {
                Err(q)
            } else {
                p_entries(ts, q, acc.push(kv))
            },
            Err(e) => if acc.len() > 0 {
                Ok((acc, pos))
            } else {
                Err(e)
            },
        }
    }
}

/// An object: one or more entries.
pub open spec fn p_object(ts: Toks, pos: int) -> BlockParse
    decreases ts.len() - pos, 20int,
{
    match p_entries(ts, pos, Seq::empty()) {
        Ok((es, q)) => if q <= pos || q > ts.len() {
            Err(q)
        } else {
            Ok((block_at(ts, BlockView::Object(es), pos, q - 1), q))
        },
        Err(e) => Err(e),
    }
}

/// An object as a list item at the `-` marker at `pos`: an entry on the
/// marker's line, and one or more entries indented below it.
pub open spec fn p_item_object(ts: Toks, pos: int) -> BlockParse
    decreases ts.len() - pos, 17int,
{
    if pos < 0 || pos >= ts.len() {
        Err(pos)
    } else {
        match p_entry(ts, pos + 1) {
            Ok((kv, q)) => if q <= pos + 1 || q > ts.len() {
                Err(q)
            } else if at(ts, q) != Some(TokenView::Indent) {
                Err(q)
            } else {
                match p_entries(ts, q + 1, Seq::empty()) {
                    Ok((es, r)) => if r <= q || r > ts.len() {
                        Err(r)
                    } else {
                        match close_at(ts, r) {
                            Some(u) => Ok((block_at(ts, BlockView::Object(seq![kv] + es), pos, u - 1), u)),
                            None => Err(r),
                        }
                    },
                    Err(e) => Err(e),
                }
            },
            Err(e) => Err(e),
        }
    }
}

/// A list item at `pos`, after a `-` marker: an entry with more entries
/// indented below it, then a block on the same line, then a block indented
/// after the marker.
pub open spec fn p_item(ts: Toks, pos: int) -> BlockParse
    decreases ts.len() - pos, 18int,
{
    if pos < 0 || pos >= ts.len() || at(ts, pos) != Some(TokenView::Dash) {
        Err(pos)
    } else {
        match p_item_object(ts, pos) {
            Ok(r) => Ok(r),
            Err(e1) => match p_block(ts, pos + 1) {
                Ok(r) => Ok(r),
                Err(e2) => if at(ts, pos + 1) == Some(TokenView::Indent) {
                    match p_block(ts, pos + 2) {
                        Ok((b, q)) => if q <= pos + 1 || q > ts.len() {
                            Err(q)
                        } else {
                            match close_at(ts, q) {
                                Some(r) => Ok((b, r)),
                                None => Err(max_pos(e1, max_pos(e2, q))),
                            }
                        },
                        Err(e3) => Err(max_pos(e1, max_pos(e2, e3))),
                    }
                } else {
                    Err(max_pos(e1, e2))
                },
            },
        }
    }
}

/// List items from `pos` on after those in `acc`, as many as read; at least one.
pub open spec fn p_items(ts: Toks, pos: int, acc: Seq<SBlockView>) -> Result<(Seq<SBlockView>, int), int>
    decreases ts.len() - pos, 19int,
{
    if pos < 0 || pos > ts.len() {
        Err(pos)
    } else {
        match p_item(ts, pos) {
            Ok((b, q)) => if q <= pos || q > ts.len() {
                Err(q)
            } else {
                p_items(ts, q, acc.push(b))
            },
            Err(e) => if acc.len() > 0 {
                Ok((acc, pos))
            } else {
                Err(e)
            },
        }
    }
}

/// A list: one or more items, each after a `-` marker.
pub open spec fn p_list(ts: Toks, pos: int) -> BlockParse
    decreases ts.len() - pos, 20int,
{
    match p_items(ts, pos, Seq::empty()) {
        Ok((items, q)) => if q <= pos || q > ts.len() {
            Err(q)
        } else {
            Ok((block_at(ts, BlockView::List(items), pos, q - 1), q))
        },
        Err(e) => Err(e),
    }
}

/// A function: arguments, `=>`, and an indented body.
pub open spec fn p_function(ts: Toks, pos: int) -> BlockParse
    decreases ts.len() - pos, 20int,
{
    if at(ts, pos) != Some(TokenView::LeftParen) {
        Err(pos)
    } else {
        match p_params(ts, pos + 1, Seq::empty()) {
            Err(e) => Err(e),
            Ok((args, q)) => if q <= pos || q > ts.len() {
                Err(q)
            } else if at(ts, q) != Some(TokenView::FatArrow) {
                Err(q)
            } else if at(ts, q + 1) != Some(TokenView::EndOfLine) {
                Err(q + 1)
            } else if at(ts, q + 2) != Some(TokenView::Indent) {
                Err(q + 2)
            } else {
                match p_block(ts, q + 3) {
                    Err(e) => Err(e),
                    Ok((b, r)) => if r <= q || r > ts.len() {
                        Err(r)
                    } else {
                        match close_at(ts, r) {
                            Some(u) => Ok((block_at(ts, BlockView::Function { args, body: Box::new(b) }, pos, u - 1), u)),
                            None => Err(r),
                        }
                    },
                }
            },
        }
    }
}

/// A call: a function, by its name or written out, and its argument block.
pub open spec fn p_call(ts: Toks, pos: int) -> BlockParse
    decreases ts.len() - pos, 20int,
{
    let function = match at(ts, pos) {
        Some(TokenView::Identifier(n)) => Ok((SExprView { expr: ExprView::Identifier(n), start: ts[pos].1, end: ts[pos].2 }, pos + 1)),
        _ => p_lambda(ts, pos),
    };
    match function {
        Err(e) => Err(e),
        Ok((f, p)) => if p <= pos || p > ts.len() {
            Err(p)
        } else {
            match p_value(ts, p) {
                Err(e) => Err(e),
                Ok((v, q)) => if q <= pos || q > ts.len() {
                    Err(q)
                } else {
                    Ok((block_at(ts, BlockView::Call { function: Box::new(f), args: Box::new(v) }, pos, q - 1), q))
                },
            }
        },
    }
}

/// An `if` with a `then` branch, an `else` branch, or both.
pub open spec fn p_if(ts: Toks, pos: int) -> BlockParse
    decreases ts.len() - pos, 20int,
{
    if at(ts, pos) != Some(TokenView::If) {
        Err(pos)
    } else {
        match p_value(ts, pos + 1) {
            Err(e) => Err(e),
            Ok((c, q)) => if q <= pos || q > ts.len() {
                Err(q)
            } else if at(ts, q) == Some(TokenView::Then) {
                match p_value(ts, q + 1) {
                    Err(e) => Err(max_pos(e, q)),
                    Ok((t, r)) => if r <= q || r > ts.len() {
                        Err(r)
                    } else if at(ts, r) == Some(TokenView::Else) {
                        match p_value(ts, r + 1) {
                            Ok((f, u)) => if u <= r || u > ts.len() {
                                Err(u)
                            } else {
                                Ok((block_at(ts, BlockView::If {
                                    condition: Box::new(c),
                                    consequent: Some(Box::new(t)),
                                    alternative: Some(Box::new(f)),
                                }, pos, u - 1), u))
                            },
                            Err(_) => Ok((block_at(ts, BlockView::If {
                                condition: Box::new(c),
                                consequent: Some(Box::new(t)),
                                alternative: None,
                            }, pos, r - 1), r)),
                        }
                    } else {
                        Ok((block_at(ts, BlockView::If { condition: Box::new(c), consequent: Some(Box::new(t)), alternative: None }, pos, r - 1), r))
                    },
                }
            } else if at(ts, q) == Some(TokenView::Else) {
                match p_value(ts, q + 1) {
                    Err(e) => Err(max_pos(e, q)),
                    Ok((f, r)) => if r <= q || r > ts.len() {
                        Err(r)
                    } else {
                        Ok((block_at(ts, BlockView::If { condition: Box::new(c), consequent: None, alternative: Some(Box::new(f)) }, pos, r - 1), r))
                    },
                }
            } else {
                Err(q)
            },
        }
    }
}

/// The variables of a `let`: entries on the same line, or indented entries
/// on the following lines.
pub open spec fn p_let_vars(ts: Toks, pos: int) -> Result<(Seq<(TextView, SBlockView)>, int), int>
    decreases ts.len() - pos, 20int,
{
    if pos < 0 || pos > ts.len() {
        Err(pos)
    } else {
        match p_entries(ts, pos, Seq::empty()) {
            Ok(r) => Ok(r),
            Err(e1) => if at(ts, pos) == Some(TokenView::EndOfLine) && at(ts, pos + 1) == Some(TokenView::Indent) {
                match p_entries(ts, pos + 2, Seq::empty()) {
                    Ok((es, q)) => if q <= pos || q > ts.len() {
                        Err(q)
                    } else {
                        match close_at(ts, q) {
                            Some(r) => Ok((es, r)),
                            None => Err(max_pos(e1, q)),
                        }
                    },
                    Err(e2) => Err(max_pos(e1, e2)),
                }
            } else {
                Err(max_pos(e1, if at(ts, pos) == Some(TokenView::EndOfLine) { pos + 1 } else { pos }))
            },
        }
    }
}

/// A `let`: variables, `in`, and a body.
pub open spec fn p_let(ts: Toks, pos: int) -> BlockParse
    decreases ts.len() - pos, 20int,
{
    if at(ts, pos) != Some(TokenView::Let) {
        Err(pos)
    } else {
        match p_let_vars(ts, pos + 1) {
            Err(e) => Err(e),
            Ok((vars, q)) => if q <= pos || q > ts.len() {
                Err(q)
            } else if at(ts, q) != Some(TokenView::In) {
                Err(q)
            } else {
                match p_value(ts, q + 1) {
                    Err(e) => Err(e),
                    Ok((b, r)) => if r <= q || r > ts.len() {
                        Err(r)
                    } else {
                        Ok((block_at(ts, BlockView::Let { variables: vars, body: Box::new(b) }, pos, r - 1), r))
                    },
                }
            },
        }
    }
}

/// An expression that ends its line; the block has the expression's span.
pub open spec fn p_line(ts: Toks, pos: int) -> BlockParse
    decreases ts.len() - pos, 20int,
{
    match p_expr(ts, pos) {
        Err(e) => Err(e),
        Ok((x, q)) => if q <= pos || q > ts.len() {
            Err(q)
        } else if at(ts, q) == Some(TokenView::EndOfLine) {
            Ok((SBlockView { block: BlockView::Expression(x.expr), start: x.start, end: x.end }, q + 1))
        } else {
            Err(q)
        },
    }
}

/// All of the tokens as one block.
pub open spec fn spec_parse_block(ts: Toks) -> Result<SBlockView, int> {
    match p_block(ts, 0) {
        Err(e) => Err(e),
        Ok((b, p)) => if p == ts.len() { Ok(b) } else { Err(p) },
    }
}


// ---------------------------------------------------------------------------
// The parser.

/// The punctuation and keywords the block grammar looks for.
#[derive(Clone, Copy)]
enum Mark {
    EndOfLine,
    Indent,
    Dedent,
    Dash,
    Colon,
    Comma,
    LeftParen,
    RightParen,
    FatArrow,
    If,
    Then,
    Else,
    Let,
    In,
}

spec fn mark_view(m: Mark) -> TokenView {
    match m {
        Mark::EndOfLine => TokenView::EndOfLine,
        Mark::Indent => TokenView::Indent,
        Mark::Dedent => TokenView::Dedent,
        Mark::Dash => TokenView::Dash,
        Mark::Colon => TokenView::Colon,
        Mark::Comma => TokenView::Comma,
        Mark::LeftParen => TokenView::LeftParen,
        Mark::RightParen => TokenView::RightParen,
        Mark::FatArrow => TokenView::FatArrow,
        Mark::If => TokenView::If,
        Mark::Then => TokenView::Then,
        Mark::Else => TokenView::Else,
        Mark::Let => TokenView::Let,
        Mark::In => TokenView::In,
    }
}

/// Whether the token at `i` is the given mark.
fn is_mark(tokens: &Vec<SpannedToken>, i: usize, m: Mark) -> (b: bool)
    ensures
        b == (at(tokens_view(tokens@), i as int) == Some(mark_view(m))),
{
    if i >= tokens.len() {
        return false;
    }
    match (&tokens[i].inner, m) {
        (Token::EndOfLine, Mark::EndOfLine) => true,
        (Token::Indent, Mark::Indent) => true,
        (Token::Dedent, Mark::Dedent) => true,
        (Token::Dash, Mark::Dash) => true,
        (Token::Colon, Mark::Colon) => true,
        (Token::Comma, Mark::Comma) => true,
        (Token::LeftParen, Mark::LeftParen) => true,
        (Token::RightParen, Mark::RightParen) => true,
        (Token::FatArrow, Mark::FatArrow) => true,
        (Token::If, Mark::If) => true,
        (Token::Then, Mark::Then) => true,
        (Token::Else, Mark::Else) => true,
        (Token::Let, Mark::Let) => true,
        (Token::In, Mark::In) => true,
        _ => false,
    }
}

fn max_usize(a: usize, b: usize) -> (m: usize)
    ensures
        m as int == max_pos(a as int, b as int),
{
    if a >= b { a } else { b }
}

/// The position after a nested block that ends at `q`.
fn close_after(tokens: &Vec<SpannedToken>, q: usize) -> (r: Option<usize>)
    requires
        q <= tokens@.len(),
        tokens_fit(tokens@),
    ensures
        match close_at(tokens_view(tokens@), q as int) {
            Some(x) => r matches Some(y) && y as int == x,
            None => r is None,
        },
{
    if is_mark(tokens, q, Mark::Dedent) {
        Some(q + 1)
    } else if q == tokens.len() {
        Some(q)
    } else {
        None
    }
}

/// An exec block parse matches its specification.
pub open spec fn block_matches(r: Result<(SpannedBlock, usize), usize>, s: BlockParse) -> bool {
    match s {
        Ok((v, p)) => r matches Ok((b, q)) && sblock_view(b) == v && q as int == p,
        Err(p) => r matches Err(q) && q as int == p,
    }
}

/// Every block of a sequence has all its spans in source `src`.
pub open spec fn sblocks_in(s: Seq<SpannedBlock>, src: SourceId) -> bool {
    forall|i: int| 0 <= i < s.len() ==> sblock_in(#[trigger] s[i], src)
}

/// Every entry of a sequence has its key's and its block's spans in source `src`.
pub open spec fn block_entries_in(s: Seq<(Spanned<String>, SpannedBlock)>, src: SourceId) -> bool {
    forall|i: int| 0 <= i < s.len() ==> (#[trigger] s[i]).0.span.spec_source() == src && sblock_in(s[i].1, src)
}

/// Parses a block at `pos`, as `p_block` says.
pub fn parse_block_at(tokens: &Vec<SpannedToken>, pos: usize) -> (r: Result<(SpannedBlock, usize), usize>)
    requires
        tokens_fit(tokens@),
        pos <= tokens@.len(),
    ensures
        block_matches(r, p_block(tokens_view(tokens@), pos as int)),
        forall|src: SourceId| #[trigger] toks_in(tokens@, src) ==> (r matches Ok((e, q)) ==> sblock_in(e, src)),
    decreases tokens@.len() - pos, 21int,
{
    let e1 = match parse_object(tokens, pos) {
        Ok(r) => {
            return Ok(r);
        },
        Err(e) => e,
    };
    let e2 = match parse_list(tokens, pos) {
        Ok(r) => {
            return Ok(r);
        },
        Err(e) => e,
    };
    let e3 = match parse_function(tokens, pos) {
        Ok(r) => {
            return Ok(r);
        },
        Err(e) => e,
    };
    let e4 = match parse_call(tokens, pos) {
        Ok(r) => {
            return Ok(r);
        },
        Err(e) => e,
    };
    let e5 = match parse_if(tokens, pos) {
        Ok(r) => {
            return Ok(r);
        },
        Err(e) => e,
    };
    let e6 = match parse_let(tokens, pos) {
        Ok(r) => {
            return Ok(r);
        },
        Err(e) => e,
    };
    let e7 = match parse_line(tokens, pos) {
        Ok(r) => {
            return Ok(r);
        },
        Err(e) => e,
    };
    Err(max_usize(e1, max_usize(e2, max_usize(e3, max_usize(e4, max_usize(e5, max_usize(e6, e7)))))))
}

fn parse_value(tokens: &Vec<SpannedToken>, pos: usize) -> (r: Result<(SpannedBlock, usize), usize>)
    requires
        tokens_fit(tokens@),
        pos <= tokens@.len(),
    ensures
        block_matches(r, p_value(tokens_view(tokens@), pos as int)),
        forall|src: SourceId| #[trigger] toks_in(tokens@, src) ==> (r matches Ok((e, q)) ==> sblock_in(e, src)),
    decreases tokens@.len() - pos, 22int,
{
    match parse_block_at(tokens, pos) {
        Ok(r) => Ok(r),
        Err(e1) => if is_mark(tokens, pos, Mark::EndOfLine) && is_mark(tokens, pos + 1, Mark::Indent) {
            match parse_block_at(tokens, pos + 2) {
                Ok((b, q)) => if q <= pos || q > tokens.len() {
                    Err(q)
                } else {
                    match close_after(tokens, q) {
                        Some(r) => Ok((b, r)),
                        None => Err(max_usize(e1, q)),
                    }
                },
                Err(e2) => Err(max_usize(e1, e2)),
            }
        } else {
            Err(max_usize(e1, if is_mark(tokens, pos, Mark::EndOfLine) { pos + 1 } else { pos }))
        },
    }
}

/// The text of the key at `pos`.
fn key_text(tokens: &Vec<SpannedToken>, pos: usize) -> (r: Option<String>)
    ensures
        match key_at(tokens_view(tokens@), pos as int) {
            Some(k) => r matches Some(s) && s@ == k,
            None => r is None,
        },
{
    if pos >= tokens.len() {
        return None;
    }
    match &tokens[pos].inner {
        Token::String(k) => Some(k.clone()),
        Token::Identifier(k) => Some(k.clone()),
        _ => None,
    }
}

fn parse_entry(tokens: &Vec<SpannedToken>, pos: usize) -> (r: Result<((Spanned<String>, SpannedBlock), usize), usize>)
    requires
        tokens_fit(tokens@),
        pos <= tokens@.len(),
    ensures
        match p_entry(tokens_view(tokens@), pos as int) {
            Ok((kv, p)) => r matches Ok((x, q)) && (text_view(x.0), sblock_view(x.1)) == kv && q as int == p,
            Err(p) => r matches Err(q) && q as int == p,
        },
        forall|src: SourceId| #[trigger] toks_in(tokens@, src) ==> (r matches Ok((x, q)) ==> x.0.span.spec_source() == src && sblock_in(x.1, src)),
    decreases tokens@.len() - pos, 18int,
{
    let key = match key_text(tokens, pos) {
        Some(k) => k,
        None => {
            return Err(pos);
        },
    };
    if !is_mark(tokens, pos + 1, Mark::Colon) {
        return Err(pos + 1);
    }
    match parse_value(tokens, pos + 2) {
        Ok((v, q)) => Ok(((Spanned::new(key, tokens[pos].span()), v), q)),
        Err(e) => Err(e),
    }
}

fn parse_entries(tokens: &Vec<SpannedToken>, pos: usize, acc: Vec<(Spanned<String>, SpannedBlock)>) -> (r: Result<(Vec<(Spanned<String>, SpannedBlock)>, usize), usize>)
    requires
        tokens_fit(tokens@),
        pos <= tokens@.len(),
    ensures
        match p_entries(tokens_view(tokens@), pos as int, block_entries_view(acc@)) {
            Ok((v, p)) => r matches Ok((e, q)) && block_entries_view(e@) == v && q as int == p,
            Err(p) => r matches Err(q) && q as int == p,
        },
        forall|src: SourceId| #[trigger] toks_in(tokens@, src) && block_entries_in(acc@, src) ==> (r matches Ok((e, q)) ==> block_entries_in(e@, src)),
    decreases tokens@.len() - pos, 19int,
{
    match parse_entry(tokens, pos) {
        Ok((kv, q)) => if q <= pos || q > tokens.len() {
            Err(q)
        } else {
            let mut acc = acc;
            proof { lemma_block_entries_push(acc@, kv); }
            acc.push(kv);
            parse_entries(tokens, q, acc)
        },
        Err(e) => if acc.len() > 0 {
            Ok((acc, pos))
        } else {
            Err(e)
        },
    }
}

fn parse_object(tokens: &Vec<SpannedToken>, pos: usize) -> (r: Result<(SpannedBlock, usize), usize>)
    requires
        tokens_fit(tokens@),
        pos <= tokens@.len(),
    ensures
        block_matches(r, p_object(tokens_view(tokens@), pos as int)),
        forall|src: SourceId| #[trigger] toks_in(tokens@, src) ==> (r matches Ok((e, q)) ==> sblock_in(e, src)),
    decreases tokens@.len() - pos, 20int,
{
    let empty: Vec<(Spanned<String>, SpannedBlock)> = Vec::new();
    proof { assert(block_entries_view(empty@) =~= Seq::empty()); }
    match parse_entries(tokens, pos, empty) {
        Ok((es, q)) => if q <= pos || q > tokens.len() {
            Err(q)
        } else {
            Ok((Spanned::new(Block::Object(es), token_range(tokens, pos, q - 1)), q))
        },
        Err(e) => Err(e),
    }
}

fn parse_item(tokens: &Vec<SpannedToken>, pos: usize) -> (r: Result<(SpannedBlock, usize), usize>)
    requires
        tokens_fit(tokens@),
        pos <= tokens@.len(),
    ensures
        block_matches(r, p_item(tokens_view(tokens@), pos as int)),
        forall|src: SourceId| #[trigger] toks_in(tokens@, src) ==> (r matches Ok((e, q)) ==> sblock_in(e, src)),
    decreases tokens@.len() - pos, 18int,
{
    if pos >= tokens.len() || !is_mark(tokens, pos, Mark::Dash) {
        return Err(pos);
    }
    let e1 = match parse_item_object(tokens, pos) {
        Ok(r) => {
            return Ok(r);
        },
        Err(e) => e,
    };
    let e2 = match parse_block_at(tokens, pos + 1) {
        Ok(r) => {
            return Ok(r);
        },
        Err(e) => e,
    };
    if is_mark(tokens, pos + 1, Mark::Indent) {
        match parse_block_at(tokens, pos + 2) {
            Ok((b, q)) => if q <= pos + 1 || q > tokens.len() {
                Err(q)
            } else {
                match close_after(tokens, q) {
                    Some(r) => Ok((b, r)),
                    None => Err(max_usize(e1, max_usize(e2, q))),
                }
            },
            Err(e3) => Err(max_usize(e1, max_usize(e2, e3))),
        }
    } else {
        Err(max_usize(e1, e2))
    }
}

fn parse_item_object(tokens: &Vec<SpannedToken>, pos: usize) -> (r: Result<(SpannedBlock, usize), usize>)
    requires
        tokens_fit(tokens@),
        pos < tokens@.len(),
    ensures
        block_matches(r, p_item_object(tokens_view(tokens@), pos as int)),
        forall|src: SourceId| #[trigger] toks_in(tokens@, src) ==> (r matches Ok((e, q)) ==> sblock_in(e, src)),
    decreases tokens@.len() - pos, 17int,
{
    match parse_entry(tokens, pos + 1) {
        Ok((kv, q)) => if q <= pos + 1 || q > tokens.len() {
            Err(q)
        } else if !is_mark(tokens, q, Mark::Indent) {
            Err(q)
        } else {
            let empty: Vec<(Spanned<String>, SpannedBlock)> = Vec::new();
            proof { assert(block_entries_view(empty@) =~= Seq::empty()); }
            match parse_entries(tokens, q + 1, empty) {
                Ok((es, r)) => if r <= q || r > tokens.len() {
                    Err(r)
                } else {
                    match close_after(tokens, r) {
                        Some(u) => {
                            let ghost rest = es@;
                            let mut all: Vec<(Spanned<String>, SpannedBlock)> = es;
                            all.insert(0, kv);
                            proof {
                                crate::ast::lemma_block_entries_index(rest);
                                crate::ast::lemma_block_entries_index(all@);
                                assert(block_entries_view(all@) =~= seq![(text_view(kv.0), sblock_view(kv.1))] + block_entries_view(rest));
                            }
                            Ok((Spanned::new(Block::Object(all), token_range(tokens, pos, u - 1)), u))
                        },
                        None => Err(r),
                    }
                },
                Err(e) => Err(e),
            }
        },
        Err(e) => Err(e),
    }
}

fn parse_items(tokens: &Vec<SpannedToken>, pos: usize, acc: Vec<SpannedBlock>) -> (r: Result<(Vec<SpannedBlock>, usize), usize>)
    requires
        tokens_fit(tokens@),
        pos <= tokens@.len(),
    ensures
        match p_items(tokens_view(tokens@), pos as int, sblocks_view(acc@)) {
            Ok((v, p)) => r matches Ok((e, q)) && sblocks_view(e@) == v && q as int == p,
            Err(p) => r matches Err(q) && q as int == p,
        },
        forall|src: SourceId| #[trigger] toks_in(tokens@, src) && sblocks_in(acc@, src) ==> (r matches Ok((e, q)) ==> sblocks_in(e@, src)),
    decreases tokens@.len() - pos, 19int,
{
    proof { crate::ast::lemma_sblocks_index(acc@); }
    match parse_item(tokens, pos) {
        Ok((b, q)) => if q <= pos || q > tokens.len() {
            Err(q)
        } else {
            let mut acc = acc;
            proof { lemma_sblocks_push(acc@, b); }
            acc.push(b);
            parse_items(tokens, q, acc)
        },
        Err(e) => if acc.len() > 0 {
            Ok((acc, pos))
        } else {
            Err(e)
        },
    }
}

fn parse_list(tokens: &Vec<SpannedToken>, pos: usize) -> (r: Result<(SpannedBlock, usize), usize>)
    requires
        tokens_fit(tokens@),
        pos <= tokens@.len(),
    ensures
        block_matches(r, p_list(tokens_view(tokens@), pos as int)),
        forall|src: SourceId| #[trigger] toks_in(tokens@, src) ==> (r matches Ok((e, q)) ==> sblock_in(e, src)),
    decreases tokens@.len() - pos, 20int,
{
    let empty: Vec<SpannedBlock> = Vec::new();
    proof { assert(sblocks_view(empty@) =~= Seq::empty()); }
    match parse_items(tokens, pos, empty) {
        Ok((items, q)) => if q <= pos || q > tokens.len() {
            Err(q)
        } else {
            Ok((Spanned::new(Block::List(items), token_range(tokens, pos, q - 1)), q))
        },
        Err(e) => Err(e),
    }
}

fn parse_function(tokens: &Vec<SpannedToken>, pos: usize) -> (r: Result<(SpannedBlock, usize), usize>)
    requires
        tokens_fit(tokens@),
        pos <= tokens@.len(),
    ensures
        block_matches(r, p_function(tokens_view(tokens@), pos as int)),
        forall|src: SourceId| #[trigger] toks_in(tokens@, src) ==> (r matches Ok((e, q)) ==> sblock_in(e, src)),
    decreases tokens@.len() - pos, 20int,
{
    if !is_mark(tokens, pos, Mark::LeftParen) {
        return Err(pos);
    }
    let empty: Vec<Spanned<String>> = Vec::new();
    proof { assert(texts_view(empty@) =~= Seq::empty()); }
    match parse_params(tokens, pos + 1, empty) {
        Err(e) => Err(e),
        Ok((args, q)) => if q <= pos || q > tokens.len() {
            Err(q)
        } else if !is_mark(tokens, q, Mark::FatArrow) {
            Err(q)
        } else if !is_mark(tokens, q + 1, Mark::EndOfLine) {
            Err(q + 1)
        } else if !is_mark(tokens, q + 2, Mark::Indent) {
            Err(q + 2)
        } else {
            match parse_block_at(tokens, q + 3) {
                Err(e) => Err(e),
                Ok((b, r)) => if r <= q || r > tokens.len() {
                    Err(r)
                } else {
                    match close_after(tokens, r) {
                        Some(u) => Ok((Spanned::new(Block::Function { args, body: Box::new(b) }, token_range(tokens, pos, u - 1)), u)),
                        None => Err(r),
                    }
                },
            }
        },
    }
}

fn parse_call(tokens: &Vec<SpannedToken>, pos: usize) -> (r: Result<(SpannedBlock, usize), usize>)
    requires
        tokens_fit(tokens@),
        pos <= tokens@.len(),
    ensures
        block_matches(r, p_call(tokens_view(tokens@), pos as int)),
        forall|src: SourceId| #[trigger] toks_in(tokens@, src) ==> (r matches Ok((e, q)) ==> sblock_in(e, src)),
    decreases tokens@.len() - pos, 20int,
{
    let function = if pos < tokens.len() {
        match &tokens[pos].inner {
            Token::Identifier(n) => Ok((Spanned::new(Expression::Identifier(n.clone()), tokens[pos].span()), pos + 1)),
            _ => parse_lambda(tokens, pos),
        }
    } else {
        parse_lambda(tokens, pos)
    };
    match function {
        Err(e) => Err(e),
        Ok((f, p)) => if p <= pos || p > tokens.len() {
            Err(p)
        } else {
            match parse_value(tokens, p) {
                Err(e) => Err(e),
                Ok((v, q)) => if q <= pos || q > tokens.len() {
                    Err(q)
                } else {
                    Ok((Spanned::new(Block::Call { function: Box::new(f), args: Box::new(v) }, token_range(tokens, pos, q - 1)), q))
                },
            }
        },
    }
}

fn parse_if(tokens: &Vec<SpannedToken>, pos: usize) -> (r: Result<(SpannedBlock, usize), usize>)
    requires
        tokens_fit(tokens@),
        pos <= tokens@.len(),
    ensures
        block_matches(r, p_if(tokens_view(tokens@), pos as int)),
        forall|src: SourceId| #[trigger] toks_in(tokens@, src) ==> (r matches Ok((e, q)) ==> sblock_in(e, src)),
    decreases tokens@.len() - pos, 20int,
{
    if !is_mark(tokens, pos, Mark::If) {
        return Err(pos);
    }
    match parse_value(tokens, pos + 1) {
        Err(e) => Err(e),
        Ok((c, q)) => if q <= pos || q > tokens.len() {
            Err(q)
        } else if is_mark(tokens, q, Mark::Then) {
            match parse_value(tokens, q + 1) {
                Err(e) => Err(max_usize(e, q)),
                Ok((t, r)) => if r <= q || r > tokens.len() {
                    Err(r)
                } else if is_mark(tokens, r, Mark::Else) {
                    match parse_value(tokens, r + 1) {
                        Ok((f, u)) => if u <= r || u > tokens.len() {
                            Err(u)
                        } else {
                            let b = Block::If { condition: Box::new(c), consequent: Some(Box::new(t)), alternative: Some(Box::new(f)) };
                            Ok((Spanned::new(b, token_range(tokens, pos, u - 1)), u))
                        },
                        Err(_) => {
                            let b = Block::If { condition: Box::new(c), consequent: Some(Box::new(t)), alternative: None };
                            Ok((Spanned::new(b, token_range(tokens, pos, r - 1)), r))
                        },
                    }
                } else {
                    let b = Block::If { condition: Box::new(c), consequent: Some(Box::new(t)), alternative: None };
                    Ok((Spanned::new(b, token_range(tokens, pos, r - 1)), r))
                },
            }
        } else if is_mark(tokens, q, Mark::Else) {
            match parse_value(tokens, q + 1) {
                Err(e) => Err(max_usize(e, q)),
                Ok((f, r)) => if r <= q || r > tokens.len() {
                    Err(r)
                } else {
                    let b = Block::If { condition: Box::new(c), consequent: None, alternative: Some(Box::new(f)) };
                    Ok((Spanned::new(b, token_range(tokens, pos, r - 1)), r))
                },
            }
        } else {
            Err(q)
        },
    }
}

fn parse_let_vars(tokens: &Vec<SpannedToken>, pos: usize) -> (r: Result<(Vec<(Spanned<String>, SpannedBlock)>, usize), usize>)
    requires
        tokens_fit(tokens@),
        pos <= tokens@.len(),
    ensures
        match p_let_vars(tokens_view(tokens@), pos as int) {
            Ok((v, p)) => r matches Ok((e, q)) && block_entries_view(e@) == v && q as int == p,
            Err(p) => r matches Err(q) && q as int == p,
        },
        forall|src: SourceId| #[trigger] toks_in(tokens@, src) ==> (r matches Ok((e, q)) ==> block_entries_in(e@, src)),
    decreases tokens@.len() - pos, 20int,
{
    let empty: Vec<(Spanned<String>, SpannedBlock)> = Vec::new();
    proof { assert(block_entries_view(empty@) =~= Seq::empty()); }
    match parse_entries(tokens, pos, empty) {
        Ok(r) => Ok(r),
        Err(e1) => if is_mark(tokens, pos, Mark::EndOfLine) && is_mark(tokens, pos + 1, Mark::Indent) {
            let empty2: Vec<(Spanned<String>, SpannedBlock)> = Vec::new();
            proof { assert(block_entries_view(empty2@) =~= Seq::empty()); }
            match parse_entries(tokens, pos + 2, empty2) {
                Ok((es, q)) => if q <= pos || q > tokens.len() {
                    Err(q)
                } else {
                    match close_after(tokens, q) {
                        Some(r) => Ok((es, r)),
                        None => Err(max_usize(e1, q)),
                    }
                },
                Err(e2) => Err(max_usize(e1, e2)),
            }
        } else {
            Err(max_usize(e1, if is_mark(tokens, pos, Mark::EndOfLine) { pos + 1 } else { pos }))
        },
    }
}

fn parse_let(tokens: &Vec<SpannedToken>, pos: usize) -> (r: Result<(SpannedBlock, usize), usize>)
    requires
        tokens_fit(tokens@),
        pos <= tokens@.len(),
    ensures
        block_matches(r, p_let(tokens_view(tokens@), pos as int)),
        forall|src: SourceId| #[trigger] toks_in(tokens@, src) ==> (r matches Ok((e, q)) ==> sblock_in(e, src)),
    decreases tokens@.len() - pos, 20int,
{
    if !is_mark(tokens, pos, Mark::Let) {
        return Err(pos);
    }
    match parse_let_vars(tokens, pos + 1) {
        Err(e) => Err(e),
        Ok((vars, q)) => if q <= pos || q > tokens.len() {
            Err(q)
        } else if !is_mark(tokens, q, Mark::In) {
            Err(q)
        } else {
            match parse_value(tokens, q + 1) {
                Err(e) => Err(e),
                Ok((b, r)) => if r <= q || r > tokens.len() {
                    Err(r)
                } else {
                    Ok((Spanned::new(Block::Let { variables: vars, body: Box::new(b) }, token_range(tokens, pos, r - 1)), r))
                },
            }
        },
    }
}

fn parse_line(tokens: &Vec<SpannedToken>, pos: usize) -> (r: Result<(SpannedBlock, usize), usize>)
    requires
        tokens_fit(tokens@),
        pos <= tokens@.len(),
    ensures
        block_matches(r, p_line(tokens_view(tokens@), pos as int)),
        forall|src: SourceId| #[trigger] toks_in(tokens@, src) ==> (r matches Ok((e, q)) ==> sblock_in(e, src)),
    decreases tokens@.len() - pos, 20int,
{
    match parse_expr(tokens, pos) {
        Err(e) => Err(e),
        Ok((x, q)) => if q <= pos || q > tokens.len() {
            Err(q)
        } else if is_mark(tokens, q, Mark::EndOfLine) {
            let Spanned { inner, span } = x;
            Ok((Spanned::new(Block::Expression(inner), span), q + 1))
        } else {
            Err(q)
        },
    }
}

/// Parses all of `tokens` as one block: the block, or the error at the
/// furthest token that stops it (`eoi` where the tokens end too soon).
pub fn compile_block(tokens: &Vec<SpannedToken>, eoi: &Span) -> (r: Result<SpannedBlock, CompilerError>)
    ensures
        tokens_fit(tokens@) ==> match spec_parse_block(tokens_view(tokens@)) {
            Ok(v) => r matches Ok(b) && sblock_view(b) == v,
            Err(p) => r matches Err(e) && compiler_error_at(e, tokens_view(tokens@), p, (eoi.spec_start() as int, eoi.spec_end() as int)),
        },
        !tokens_fit(tokens@) ==> (r matches Err(e) && e.span == *eoi),
        r matches Err(e) ==> (e.found is None ==> e.span == *eoi),
        toks_in(tokens@, eoi.spec_source()) ==> match r {
            Ok(b) => sblock_in(b, eoi.spec_source()),
            Err(e) => e.span.spec_source() == eoi.spec_source(),
        },
{
    if tokens.len() > usize::MAX - 9 {
        return Err(CompilerError { span: eoi.copy(), found: None });
    }
    match parse_block_at(tokens, 0) {
        Ok((b, p)) => if p == tokens.len() { Ok(b) } else { Err(error_at(tokens, p, eoi)) },
        Err(p) => Err(error_at(tokens, p, eoi)),
    }
}


/// The lexer's errors as errors, in order.
fn lexer_errors(es: Vec<LexerError>) -> (r: Vec<Error>)
    ensures
        r@.len() == es@.len(),
        forall|i: int| 0 <= i < es@.len() ==> (#[trigger] r@[i]) == Error::Lexer(es@[i]),
{
    let ghost orig = es@;
    let mut src = es;
    let mut rev: Vec<LexerError> = Vec::new();
    while src.len() > 0
        invariant
            src@.len() + rev@.len() == orig.len(),
            forall|k: int| 0 <= k < src@.len() ==> #[trigger] src@[k] == orig[k],
            forall|k: int| 0 <= k < rev@.len() ==> #[trigger] rev@[k] == orig[orig.len() - 1 - k],
        decreases src@.len(),
    {
        match src.pop() {
            Some(e) => rev.push(e),
            None => {},
        }
    }
    let mut out: Vec<Error> = Vec::new();
    while rev.len() > 0
        invariant
            rev@.len() + out@.len() == orig.len(),
            forall|k: int| 0 <= k < rev@.len() ==> #[trigger] rev@[k] == orig[orig.len() - 1 - k],
            forall|k: int| 0 <= k < out@.len() ==> #[trigger] out@[k] == Error::Lexer(orig[k]),
        decreases rev@.len(),
    {
        match rev.pop() {
            Some(e) => out.push(Error::Lexer(e)),
            None => {},
        }
    }
    out
}

/// Lexes and parses `code` as a block: the block, where it parses, and every
/// error. Where the indentation is inconsistent, that is the one error;
/// otherwise the errors of the lines come first, then that of the parser.
/// The spans of tokens and lexer errors count bytes of `code`; where the
/// parser runs out of tokens, its error lies at the character count of
/// `code`.
pub fn parse_block(code: &str, source: SourceId) -> (r: (Option<SpannedBlock>, Vec<Error>))
    ensures
        match lines::spec_tokenize_lines(code@) {
            Err(e) => {
                &&& r.0 is None
                &&& r.1@.len() == 1
                &&& r.1@[0] matches Error::Lexer(LexerError::Lines(err)) && lines::error_matches(err, lines::error_in_bytes(code@, e), source)
            },
            Ok(marks) => {
                let lexed = crate::lexer::block_tokens_from(code@, marks, 0, Seq::empty(), Seq::empty());
                &&& r.1@.len() >= lexed.1.len()
                &&& forall|i: int| 0 <= i < lexed.1.len() ==> ((#[trigger] r.1@[i]) matches Error::Lexer(LexerError::Line(e))
                    && crate::lexer::error_view(e) == lexed.1[i])
                &&& lexed.0.len() + 8 < usize::MAX ==> match spec_parse_block(lexed.0) {
                    Ok(v) => r.0 matches Some(b) && sblock_view(b) == v && r.1@.len() == lexed.1.len(),
                    Err(p) => {
                        &&& r.0 is None
                        &&& r.1@.len() == lexed.1.len() + 1
                        &&& r.1@[r.1@.len() - 1] matches Error::Compiler(ce) && compiler_error_at(ce, lexed.0, p, (code@.len() as int, code@.len() as int))
                    },
                }
            },
        },
        r.0 matches Some(b) ==> sblock_in(b, source),
        forall|i: int| 0 <= i < r.1@.len() ==> match #[trigger] r.1@[i] {
            Error::Lexer(LexerError::Line(e)) => e.span.spec_source() == source,
            Error::Lexer(LexerError::Lines(LinesLexerError::InconsistentLeadingWhitespace { span, .. })) => span.spec_source() == source,
            Error::Compiler(c) => c.span.spec_source() == source,
        },
{
    let n = crate::text::chars_of(code).len();
    let eoi = Span::new(source.copy(), n, n);
    let ghost src = source;
    let (tokens, lex_errors) = tokenize_block(code, source);
    let ghost les = lex_errors@;
    let mut errors = lexer_errors(lex_errors);
    let tokens = match tokens {
        Some(t) => t,
        None => {
            return (None, errors);
        },
    };
    proof {
        let marks = lines::spec_tokenize_lines(code@)->Ok_0;
        let lexed = crate::lexer::block_tokens_from(code@, marks, 0, Seq::empty(), Seq::empty());
        assert forall|i: int| 0 <= i < lexed.1.len() implies ((#[trigger] errors@[i]) matches Error::Lexer(LexerError::Line(e))
            && crate::lexer::error_view(e) == lexed.1[i]) by {
            assert(les[i] is Line);
            assert(crate::lexer::line_errors_view(les)[i] == lexed.1[i]);
        }
        assert(eoi.spec_source() == src);
    }
    match compile_block(&tokens, &eoi) {
        Ok(b) => (Some(b), errors),
        Err(ce) => {
            errors.push(Error::Compiler(ce));
            (None, errors)
        },
    }
}

} // verus!
