//! From text to an expression tree.

pub mod grammar;
pub mod lexer;
pub mod parser;
pub mod visualizer;
