//! A verified directory-tree inspector.
//!
//! The library walks an in-memory snapshot of a directory tree, aggregates
//! sizes across a configurable depth cutoff, optionally filters hidden
//! entries, sorts sibling groups by a chosen key, and renders an indented
//! tree view annotated with human-readable sizes.  All filesystem reads
//! happen outside the library; the snapshot hands the walker plain values.

pub mod error;
pub mod file;
pub mod render;
pub mod util;
