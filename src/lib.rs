//! A reader for a small parenthesised notation: source positions and spans,
//! a strict UTF-8 decoder, a parenthesis lexer, a parser-combinator algebra
//! and the grammar of atoms and lists built from it.
pub mod text;
pub mod position;
pub mod scan;
pub mod source;
pub mod parser;
pub mod combinators;
pub mod pattern;
pub mod utf8;
pub mod chars;
pub mod lexer;
pub mod grammar;
pub mod repl;
