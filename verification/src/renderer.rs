//! The parsing and tree-construction stack.

pub mod css;
pub mod dom;
pub mod html;
pub mod js;
