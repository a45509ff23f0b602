//! The tokens that the lexers produce and the parsers read.

use vstd::prelude::*;

use crate::number::Number;
use crate::span::Spanned;

verus! {

/// The smallest logical unit of code: an operator, a delimiter, a keyword or
/// a literal value.
#[derive(Clone, Debug, PartialEq)]
pub enum Token {
    Invalid(char),
    Indent,
    Dedent,
    EndOfLine,
    Null,
    Boolean(bool),
    String(String),
    Number(Number),
    Identifier(String),
    /// (
    LeftParen,
    /// )
    RightParen,
    /// [
    LeftBrack,
    /// ]
    RightBrack,
    /// {
    LeftBrace,
    /// }
    RightBrace,
    /// if
    If,
    /// then
    Then,
    /// else
    Else,
    /// let
    Let,
    /// in
    In,
    /// ,
    Comma,
    /// :
    Colon,
    /// .
    Dot,
    /// =>
    FatArrow,
    /// +
    Plus,
    /// -
    Dash,
    /// *
    Star,
    /// /
    Slash,
    /// >
    Greater,
    /// >=
    GreaterEqual,
    /// <
    Less,
    /// <=
    LessEqual,
    /// ==
    Equal,
    /// !=
    NotEqual,
    /// &&
    And,
    /// ||
    Or,
    /// ^
    Xor,
    /// !
    Not,
    /// %
    Rem,
}

/// A token as the specifications see it: texts as character sequences and
/// numbers as mantissa and scale.
pub enum TokenView {
    Invalid(char),
    Indent,
    Dedent,
    EndOfLine,
    Null,
    Boolean(bool),
    Str(Seq<char>),
    Num((i128, u32, bool)),
    Identifier(Seq<char>),
    LeftParen,
    RightParen,
    LeftBrack,
    RightBrack,
    LeftBrace,
    RightBrace,
    If,
    Then,
    Else,
    Let,
    In,
    Comma,
    Colon,
    Dot,
    FatArrow,
    Plus,
    Dash,
    Star,
    Slash,
    Greater,
    GreaterEqual,
    Less,
    LessEqual,
    Equal,
    NotEqual,
    And,
    Or,
    Xor,
    Not,
    Rem,
}

impl View for Token {
    type V = TokenView;

    open spec fn view(&self) -> TokenView {
        match self {
            Token::Invalid(c) => TokenView::Invalid(*c),
            Token::Indent => TokenView::Indent,
            Token::Dedent => TokenView::Dedent,
            Token::EndOfLine => TokenView::EndOfLine,
            Token::Null => TokenView::Null,
            Token::Boolean(b) => TokenView::Boolean(*b),
            Token::String(s) => TokenView::Str(s@),
            Token::Number(n) => TokenView::Num(n.parts()),
            Token::Identifier(s) => TokenView::Identifier(s@),
            Token::LeftParen => TokenView::LeftParen,
            Token::RightParen => TokenView::RightParen,
            Token::LeftBrack => TokenView::LeftBrack,
            Token::RightBrack => TokenView::RightBrack,
            Token::LeftBrace => TokenView::LeftBrace,
            Token::RightBrace => TokenView::RightBrace,
            Token::If => TokenView::If,
            Token::Then => TokenView::Then,
            Token::Else => TokenView::Else,
            Token::Let => TokenView::Let,
            Token::In => TokenView::In,
            Token::Comma => TokenView::Comma,
            Token::Colon => TokenView::Colon,
            Token::Dot => TokenView::Dot,
            Token::FatArrow => TokenView::FatArrow,
            Token::Plus => TokenView::Plus,
            Token::Dash => TokenView::Dash,
            Token::Star => TokenView::Star,
            Token::Slash => TokenView::Slash,
            Token::Greater => TokenView::Greater,
            Token::GreaterEqual => TokenView::GreaterEqual,
            Token::Less => TokenView::Less,
            Token::LessEqual => TokenView::LessEqual,
            Token::Equal => TokenView::Equal,
            Token::NotEqual => TokenView::NotEqual,
            Token::And => TokenView::And,
            Token::Or => TokenView::Or,
            Token::Xor => TokenView::Xor,
            Token::Not => TokenView::Not,
            Token::Rem => TokenView::Rem,
        }
    }
}

/// A token together with its span.
pub type SpannedToken = Spanned<Token>;

/// A spanned token as kind-with-payload, start and end.
pub open spec fn spanned_token_view(t: SpannedToken) -> (TokenView, int, int) {
    (t.inner@, t.span.spec_start() as int, t.span.spec_end() as int)
}

/// Spanned tokens as views.
pub open spec fn tokens_view(ts: Seq<SpannedToken>) -> Seq<(TokenView, int, int)> {
    ts.map_values(|t: SpannedToken| spanned_token_view(t))
}


impl Token {
    /// A copy of the token.
    pub fn copy(&self) -> (t: Token)
        ensures
            t@ == self@,
    {
        match self {
            Token::Invalid(c) => Token::Invalid(*c),
            Token::Indent => Token::Indent,
            Token::Dedent => Token::Dedent,
            Token::EndOfLine => Token::EndOfLine,
            Token::Null => Token::Null,
            Token::Boolean(b) => Token::Boolean(*b),
            Token::String(s) => Token::String(s.clone()),
            Token::Number(n) => Token::Number(*n),
            Token::Identifier(s) => Token::Identifier(s.clone()),
            Token::LeftParen => Token::LeftParen,
            Token::RightParen => Token::RightParen,
            Token::LeftBrack => Token::LeftBrack,
            Token::RightBrack => Token::RightBrack,
            Token::LeftBrace => Token::LeftBrace,
            Token::RightBrace => Token::RightBrace,
            Token::If => Token::If,
            Token::Then => Token::Then,
            Token::Else => Token::Else,
            Token::Let => Token::Let,
            Token::In => Token::In,
            Token::Comma => Token::Comma,
            Token::Colon => Token::Colon,
            Token::Dot => Token::Dot,
            Token::FatArrow => Token::FatArrow,
            Token::Plus => Token::Plus,
            Token::Dash => Token::Dash,
            Token::Star => Token::Star,
            Token::Slash => Token::Slash,
            Token::Greater => Token::Greater,
            Token::GreaterEqual => Token::GreaterEqual,
            Token::Less => Token::Less,
            Token::LessEqual => Token::LessEqual,
            Token::Equal => Token::Equal,
            Token::NotEqual => Token::NotEqual,
            Token::And => Token::And,
            Token::Or => Token::Or,
            Token::Xor => Token::Xor,
            Token::Not => Token::Not,
            Token::Rem => Token::Rem,
        }
    }
}

} // verus!
