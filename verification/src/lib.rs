//! Building XML documents in memory and writing them out as indented UTF-8
//! text.
//!
//! The constructed model is write-only: an [`XMLElement`] is given a name,
//! attributes, and either text or children, and the root element is then
//! written out as a document.

pub mod attributes;
pub mod element;
pub mod escape;
pub mod model;
pub mod render;

pub use element::XMLElement;
pub use escape::escape_str;
