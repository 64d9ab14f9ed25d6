//! The document tree: its data model, the HTML reader that builds it, and
//! the operations that clean it up and search it.
pub mod model;
pub mod parser;
pub mod tree;
