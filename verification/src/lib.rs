//! A path-flattened document store: an arbitrary JSON-like tree is kept as a
//! totally-ordered collection of (path, leaf) pairs, and any subtree can be
//! reconstructed back into a nested value.

pub mod json;
pub mod laws;
pub mod leaf;
pub mod path;
pub mod roundtrip;
pub mod store;
pub mod tree;

pub use json::DingString;
pub use json::JsonValue;
pub use leaf::Leaf;
pub use path::SchemaPath;
pub use path::Step;
pub use path::split_slash_path;
pub use store::LeafPaths;
pub use tree::Collector;
