//! The document tree.

pub mod node;
