//! Gathering the style sheets of a document and resolving its URLs.
pub mod sheets;
pub mod urls;
