//! A JSON document held as a flat map from dotted/bracketed paths to scalar
//! leaf values, with lookup, point mutation, merging and re-serialization.

pub mod document;
pub mod laws;
pub mod path;
pub mod text;
pub mod tree;
pub mod value;

pub use document::{Jsonify, ParseError};
pub use tree::JsonNode;
pub use value::JsonifyValue;
