# rimu

Rimu is a template language for structured data: YAML-like blocks of
objects and lists, with expressions, functions, `let` and `if`.

This crate is its verified core, written in Verus. Each public function states
what it returns in its `ensures` clause, over mathematical models of tokens,
syntax trees and values, and Verus proves the code against it.

## Layout

- `src/source.rs`, `src/span.rs`: source identifiers and spans.
- `src/lines.rs`: the indentation lexer, from lines to indents, dedents and
  list markers.
- `src/lexer.rs`, `src/token.rs`: the token lexer for the text of each line.
- `src/parser.rs`: the expression parser, by precedence climbing.
- `src/block_parser.rs`: the block parser for indented code.
- `src/ast.rs`: syntax trees of expressions and blocks.
- `src/number.rs`: decimal numbers, computed by `rust_decimal`.
- `src/value.rs`, `src/equality.rs`: values, environments and `==`, with
  the laws that `==` is reflexive, symmetric and transitive.
- `src/semantics.rs`: the meaning of evaluation, as spec functions.
- `src/evaluator.rs`: the evaluators of expressions and blocks.
- `src/wellformed.rs`: evaluation keeps the keys of objects unique.
- `src/printing.rs`, `src/report.rs`: texts of tokens, expressions and values,
  and error reports.
- `app/main.rs`: the command line program: reads files, converts YAML, JSON
  and TOML, and prints reports.
- `tests/`: tests on concrete inputs.

Verify with Verus on `src/lib.rs`; the laws of the library are the public
`proof fn`s.
