//! Style sheets: their data model, the reader that builds them from bytes,
//! selector specificity and hexadecimal colours.
pub mod model;
pub mod lexical;
pub mod values;
pub mod rules;
pub mod color;
