//! Front end of a document renderer: a DOM arena, a style cascade over
//! selector-matched rules, and the CSS display algorithm that turns a styled
//! document into a tree of block and inline boxes.

pub mod dom;
pub mod layout;
pub mod style;
