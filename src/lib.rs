//! Structural difference of two JSON documents.
//!
//! Two documents are compared key by key and item by item; the result is a
//! tree on each of three sides: what only the left document has, what only
//! the right one has, and what both have with different values. Each tree
//! renders as a list of human-readable paths.
use vstd::prelude::*;

pub mod align;
pub mod key_node;
pub mod keys;
pub mod laws;
pub mod process;
pub mod render;
pub mod text;
pub mod value;

pub use key_node::{KeyNode, Mismatch};
pub use process::match_json;
pub use value::{is_well_formed, JsonValue};

verus! {

} // verus!
