//! A small tree-walking interpreter: lexer, recursive-descent parser and an
//! evaluator over a chain of lexical scopes.
pub mod ast;
pub mod environment;
pub mod error;
pub mod interpreter;
pub mod lexer;
pub mod parser;
pub mod syntax;
pub mod token;
pub mod types;
