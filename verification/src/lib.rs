//! A local, single-writer snapshot engine that versions byte contents as
//! chains of binary deltas instead of full copies.
//!
//! The core is the delta-storage and replay engine: [`patch::Patch`] is an
//! immutable compressed delta between two byte buffers, [`timeline::Timeline`]
//! is an ordered, content-addressed chain of such deltas rooted at the empty
//! buffer, and the tracked types bind live contents to a chain and expose a
//! uniform versioning contract (commit / load / delete / count).
//!
//! All state lives in memory as plain values; reading and writing the real
//! filesystem, as well as (de)serializing projects, is left to the embedding
//! program, which hands byte contents in and takes byte contents out.

pub mod codec;
pub mod easy_version;
pub mod hashing;
pub mod patch;
pub mod project;
pub mod timeline;
pub mod tracked_bytes;
pub mod tracked_file;
pub mod tracked_folder;
pub mod version_info;
