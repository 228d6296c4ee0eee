//! An integer calculator: a lexer, a precedence-climbing parser and a
//! tree-walking interpreter, each stated against a mathematical model.

pub mod error;
pub mod lexer;
pub mod render;
pub mod parser;
pub mod parser_lemmas;
pub mod interpreter;
