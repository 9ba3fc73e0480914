//! Attributes embedded in a display string, and a cache of the documents
//! that hold them.
//!
//! A host string carries free text and tokens. A token is the delimiter,
//! one key character and a non-empty run of value characters. The modules
//! below define that grammar, the operations of a document over it, the
//! cache that maps an identity to its document, and the laws that relate
//! the operations.

pub mod classes;
pub mod text;
pub mod grammar;
pub mod document;
pub mod registry;
pub mod laws;
pub mod cache_laws;

pub use document::Document;
pub use registry::{Lookup, NicknameDb, SerenityInit};
