//! A path-addressable JSON document cache with a streaming template engine.
//!
//! Callers build a JSON document by inserting values at dotted-path
//! locations, then substitute `{$path}` / `{$$path}` placeholders inside
//! byte streams with the serialized value found at that path, without
//! re-serializing the document for every substitution.

pub mod cache;
pub mod engines;
pub mod error;
pub mod json_serializer;
pub mod node;

pub use cache::{DataCache, DataCacheOptions, DataCacheSerializedData};
pub use error::JsonDataCacheError;
pub use node::JsonNode;
