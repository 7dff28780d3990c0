//! Disk-usage scan engine: bottom-up size aggregation over a directory
//! listing, human-readable size formatting, a bounded mtime-aware result
//! cache, and a bounded history log.
//!
//! The crate works on plain values: a traversal front end hands it the
//! `(absolute path, byte length)` pairs it found under a scan root, and the
//! crate aggregates per-directory sizes, assembles a sorted report, and
//! caches it keyed by the canonical root path.

pub mod fmt_bytes;
pub mod items;
pub mod paths;
pub mod agg;
pub mod assemble;
pub mod cache;
pub mod scan;
pub mod history;
