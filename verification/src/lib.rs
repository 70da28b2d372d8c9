//! A strict parser for a small HTML-like markup, with a document tree as its result.

pub mod attributes;
pub mod dom;
pub mod error;
pub mod grammar;
pub mod laws;
pub mod markup;
pub mod parser;
pub mod text;

pub use attributes::Attributes;
pub use dom::{Node, NodeType, TagNode};
pub use error::ParseError;
pub use parser::Parser;
