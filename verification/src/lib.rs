//! A per-project content store: it ingests source files, keeps a compressed
//! archival copy of each, and maintains a line-level index that answers
//! substring queries, optionally hydrating the full decompressed file.
//!
//! The catalog and the blob store live in memory behind [`store::ContextDB`];
//! a host program is expected to load and persist them at its edges.

pub mod codec;
pub mod hashing;
pub mod store;
pub mod text;

pub use store::ContextDB;
pub use store::SearchResult;
