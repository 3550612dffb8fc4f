//! A tree-walking interpreter for a small scripting language: integer
//! literals, assignment, lexically scoped blocks and a print statement.
pub mod ast;
pub mod environment;
pub mod evaluator;
pub mod lexer;
pub mod object;
pub mod parser;
pub mod token;
