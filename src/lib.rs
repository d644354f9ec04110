//! A small regular-expression engine: a recursive-descent parser from pattern
//! text to a syntax tree, a compiler from the tree to a flat bytecode program,
//! and a matcher that decides whether the program accepts a prefix of a text.
//! `language` proves that the matcher accepts exactly when some prefix of the
//! text is in the language of the tree; `laws` holds the facts that relate
//! the parser, the compiler and the matcher.
pub mod parse;
pub mod codegen;
pub mod evaluator;
pub mod laws;
pub mod language;
