//! Kyber: a small statically typed scripting language.
//!
//! Source text goes through three stages: the lexer turns it into tokens,
//! the parser turns the tokens into statements, and the evaluator executes
//! the statements against an environment of scoped variables.

pub mod ast;
pub mod value;
pub mod evaluator;
pub mod lexer;
pub mod token;
pub mod parser;
pub mod environment;
pub mod semantics;
