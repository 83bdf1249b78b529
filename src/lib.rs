//! Front end of a small language: a lexer that turns source text into tokens,
//! and a recursive-descent parser that builds `let` and `return` statements.
pub mod ast;
pub mod lexer;
pub mod parser;
pub mod token;
