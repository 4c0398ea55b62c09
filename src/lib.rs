//! A pull-based reader over the token stream of an XML document.
//!
//! The reader keeps one token of lookahead over the `xmlparser` tokenizer and
//! offers the traversal steps that a record reader composes: read attributes,
//! read text content, skip an element, find the next child.

pub mod error;
pub mod token;
pub mod unescape;
pub mod reader;
pub mod reader_laws;

pub use error::{XmlError, XmlResult};
pub use reader::XmlReader;
pub use unescape::{xml_unescape, CowStr};
