//! A single-shot file-tree indexer core.
//!
//! The library builds an aggregated report over a set of discovered files:
//! per-file records (path, parent directory, final name, optional
//! modification time, optional parsed key-value content), a files index
//! keyed by a hex-encoded hash of the path, and a directory-membership
//! index linking every ancestor directory to its children.  A final
//! textual substitution anonymizes the configured root path in the
//! emitted report.
//!
//! All I/O, concurrency plumbing and serialization live outside this
//! crate; the functions here are pure and carry full functional
//! contracts.

pub mod anonymize;
pub mod bridge;
pub mod content;
pub mod hash;
pub mod hexkey;
pub mod kvmap;
pub mod paths;
pub mod report;
pub mod text;
