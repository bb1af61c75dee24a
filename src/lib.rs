//! An integer calculator: a lexer, a recursive-descent parser and a
//! tree-walking evaluator, each stated over a mathematical model and proved
//! against it.
pub mod token;
pub mod error;
pub mod lexer;
pub mod ast;
pub mod interpreter;
pub mod parser;
pub mod pipeline;
pub mod spacing;
