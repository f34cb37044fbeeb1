//! JavaScript: lexer, parser and evaluator for expression statements.

pub mod ast;
pub mod runtime;
pub mod token;
