//! A synchronous, file-mediated command bridge: requests are serialized to
//! JSON, handed to a freshly spawned worker process through a temporary file,
//! and the worker's stdout is decoded back into a structured response.
//!
//! The crate holds the verified logic of the bridge: the JSON codec, workspace
//! discovery over a model of the directory tree, executable resolution, the
//! request catalog, and the interpretation of a finished process's output.
//! The surrounding binary performs the actual filesystem walks, temp-file
//! writes and process spawning, feeding the observations into these functions.

pub mod bridge;
pub mod catalog;
pub mod json;
pub mod payload;
pub mod resolver;
pub mod workspace;

pub use json::JsonValue;
