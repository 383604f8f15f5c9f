//! `container`: a domain-agnostic single-file section container.
//!
//! One file = `magic(4) + data_version(u32 LE) + header_len(u32 LE) + header
//! (JSON) + section blobs`. Each section is a `kind` + `name` + `tags` +
//! `version` + an opaque `payload`, stored zstd-compressed. The container
//! round-trips tagged, versioned, kinded byte blobs and supports partial reads
//! and filter / merge operations that copy compressed blobs byte for byte.
//!
//! Two-tier versioning: the 4th magic byte is the hard format version (a newer
//! one is refused); `data_version` tracks the caller's schema; per-section
//! `version` lets an opaque sidecar evolve independently.
//!
//! This module holds the framing, the header index and the blob logic; reading
//! and writing files and turning the JSON header into values is the caller's.

pub mod codec;
pub mod format;
pub mod laws;
pub mod ops;

pub use format::{open, Archive, Entry, Frame, Header, Reader, Section};
pub use ops::{filter_to, merge_to};
