//! Core of a small browser engine: an HTML tokenizer and tree builder, a CSS
//! tokenizer, and a lexer, parser and evaluator for a tiny JavaScript subset.
//!
//! Every function is verified against a contract stated over mathematical
//! models of the data (sequences of characters, token views, node arenas).

pub mod error;
pub mod http;
pub mod renderer;
pub mod text;
