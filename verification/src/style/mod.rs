//! The cascade: the values that the style sheets give each element, and the
//! styled tree built from them.
pub mod props;
pub mod cascade;
pub mod tree;
pub mod expand;
pub mod node;
