//! A mock API server core: a route-keyed JSON document store with CRUD
//! semantics, a sort/paginate query pipeline, and a streaming-connection
//! registry.

pub mod chimera;
pub mod crud;
pub mod forms;
pub mod helpers;
pub mod json;
pub mod laws;
pub mod ports;
pub mod query;
pub mod registry;
pub mod resolver;

pub use json::JsonSpec;
pub use json::JsonValue;
