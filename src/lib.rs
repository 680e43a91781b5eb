//! A restricted view of a document tree for layout: scoped node handles,
//! navigation that splices generated before/after content into child and
//! sibling order, and traversals over the result.

pub mod dom;
pub mod pseudo;
pub mod element;
pub mod node;
pub mod traversal;
