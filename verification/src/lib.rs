//! Conversion of a parsed XML element tree into a JSON value tree.
//!
//! Attributes become keys prefixed with `@`, text becomes a scalar or a
//! `#text` key, and repeated sibling elements with one tag become an array.
//!
//! Numbers are held as the bit patterns of IEEE 754 doubles. Reading a text
//! as a decimal number is floating-point work and happens outside this
//! library: [`scalar_texts`] lists the texts of a tree that conversion will
//! type, the caller records in a [`Numbers`] table how each of them reads,
//! and [`node2object`] converts the tree under that table.

pub mod element;
pub mod json;
pub mod object;
pub mod numbers;
pub mod scalar;
pub mod fold;
pub mod convert;
pub mod texts;
pub mod laws;

pub use crate::convert::{convert_node_aux, node2object};
pub use crate::element::{scan_xml_node, Element, XMLNodeType};
pub use crate::json::{is_finite, Value};
pub use crate::numbers::Numbers;
pub use crate::scalar::{infer_scalar, parse_text, parse_text_contents, text_contents};
pub use crate::texts::scalar_texts;
