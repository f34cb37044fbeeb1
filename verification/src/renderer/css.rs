//! CSS: the token scanner.

pub mod token;
