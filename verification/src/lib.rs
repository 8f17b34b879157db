//! Tokenizer for a restricted, indentation-sensitive YAML-like dialect.
//!
//! The library turns a text blob into an ordered sequence of structural
//! tokens (`Identifier`, `Colon`, `ListItem`, `Indent`, `Dedent`, ...) for a
//! downstream tree builder, or into one terminal error describing the first
//! malformed line. The whole behaviour is pinned down by the specification
//! functions in [`model`], and [`lexer::lex`] is proved to return exactly
//! what the model says on every input.

pub mod errors;
pub mod lexer;
pub mod model;
pub mod types;
