//! Content-addressed, deduplicating chunk storage.
//!
//! A logical file is split at fixed offsets into blocks of
//! `MAX_CHUNK_SIZE` bytes.  Each block ([`Chunk`]) is named by the
//! lowercase-hex SHA-256 digest of its stored (zero-padded) content, and
//! an ordered sequence of blocks plus the original logical length forms a
//! [`Bundle`].  Chunks persist into a [`Cache`], a content-addressed store
//! keyed by chunk id; two blocks with identical content share one entry.

pub mod bundle;
pub mod cache;
pub mod chunk;
pub mod digestutils;
pub mod errors;

pub use bundle::Bundle;
pub use bundle::get_chunks;
pub use cache::Cache;
pub use chunk::Chunk;
pub use chunk::MAX_CHUNK_SIZE;
pub use digestutils::calculate_digest;
pub use errors::IoError;
