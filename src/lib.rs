//! A JSON value model with verified operations: lookup by key, path and
//! JSON Pointer; deep merge, flatten, key and value collection, path search,
//! null removal, key sorting, depth, node count and structural equality; and
//! compact or pretty serialization. Reading JSON text goes through serde_json.
//!
//! `model` holds the mathematical model (`Json`) and the specification of
//! every operation; `laws` proves properties that relate them.

pub mod chars;
pub mod codec;
pub mod laws;
pub mod model;
pub mod navigate;
pub mod serde_calls;
pub mod tree;
pub mod value;
