//! A tolerant reformatter for JSON-like text.
//!
//! The parser accepts a permissive superset of JSON: any run of characters
//! that is neither whitespace nor one of the delimiters `{ } [ ] , :` is a
//! scalar, numbers and literals are never validated, and every token keeps
//! its original spelling. The tree can be reordered by two stable sorts
//! (object members by key, array elements by the value of a named member)
//! and is printed back with a fixed two-space indent.

pub mod format;
pub mod laws;
pub mod node;
pub mod parse;
pub mod roundtrip;
pub mod sort;
pub mod sorting;

pub use node::Node;
pub use parse::parse;
pub use parse::ExpectedKind;
pub use parse::ParseError;
pub use sort::find_value;
pub use sort::unquote;
