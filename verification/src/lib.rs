//! Rimu: a data structure template language.
//!
//! The crate holds the verified core of the language: source identifiers and
//! spans, the two lexers (the indentation lexer over lines and the token lexer
//! over characters), the expression and block parsers, the value model with its
//! decimal numbers, environments, the evaluators for expressions and blocks,
//! and the texts and error reports shown to users.

pub mod source;
pub mod span;
pub mod number;
pub(crate) mod text;
pub mod lines;
pub mod token;
pub mod lexer;
pub mod ast;
pub mod parser;
pub mod block_parser;
pub mod identifier;
pub mod value;
pub mod equality;
pub mod errors;
pub mod semantics;
pub mod evaluator;
pub mod printing;
pub mod report;
pub mod wellformed;
