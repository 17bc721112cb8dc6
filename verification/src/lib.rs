//! Reconciliation of per-day aggregate fingerprints from two data sources.
//!
//! Two sources each produce a mapping from a calendar-day bucket key to an
//! aggregate fingerprint: a row count and two checksums. The alignment
//! engine merges the two mappings by key, classifies every key as matched,
//! mismatched, or missing on one side, and reduces the classifications to a
//! single pass or fail verdict. Configuration checks, query templating and
//! report rendering live beside the engine; all I/O stays with the caller.

pub mod config;
pub mod diff;
pub mod error;
pub mod laws;
pub mod numfmt;
pub mod render;
pub mod row;
