//! HTML: attributes, tokens, the tokenizer and the tree builder.

pub mod attribute;
pub mod parser;
pub mod token;
