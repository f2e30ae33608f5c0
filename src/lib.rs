//! Structural merge ("hydration") of tree-shaped JSON-like documents.
pub mod value;
pub mod keys;
pub mod hydrate;
pub mod laws;

pub use hydrate::{Error, Hydrate, MAGIC_MARKER};
pub use value::{Json, Value};
