//! The document side of a small web browser engine: an HTML reader that builds a
//! DOM tree, a CSS reader that builds style sheets, the cascade that attaches
//! declared values to each element, and the box tree that layout starts from.
pub mod text;
pub mod css;
pub mod dom;
pub mod style;
pub mod net;
pub mod fonts;
pub mod globals;
pub mod layout;
pub mod image;
