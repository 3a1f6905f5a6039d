//! Front end of a small toy language: a tokenizer that turns source text
//! into a sequence of tokens, and a recursive-descent parser that turns the
//! token sequence into an abstract syntax tree.
pub mod lexer;
pub mod parser;
