//! A small interpreted scripting language: lexer, parser and tree-walking
//! evaluator, with every function verified against a mathematical model.

pub mod error;
pub mod lexer;
pub mod expr;
pub mod parser;
pub mod interpreter;
pub mod laws;
