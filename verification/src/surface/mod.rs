//! The surface language: tokens, syntax trees, the parser and the pretty-printer.

pub mod ast;
pub mod grammar;
pub mod lexer;
pub mod parser;
pub mod pretty;
