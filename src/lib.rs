//! Front end of a small language of function declarations: source text in, a
//! syntax tree or a positioned failure out.
//!
//! - `lexer`: character classes, whitespace and comments, identifiers, fixed words
//!   and booleans;
//! - `literal`: integer and float literals, and the conversion of integers to `i32`;
//! - `ast`: the syntax tree and its mathematical model;
//! - `parser`: the grammar of types, expressions and declarations, and `parse`.
//!
//! Each grammar rule is a spec function over the input's characters, and each
//! executable rule is proved to return exactly what its spec function gives.
pub mod failure;
pub mod lexer;
pub mod literal;
pub mod ast;
pub mod parser;
