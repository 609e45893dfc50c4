//! Generator for a build tool's per-target toolchain configuration.
//!
//! The library assembles toolchain overrides (archiver, linker, extra
//! compiler flags) discovered for Android and iOS targets, adds a fixed
//! entry for the native desktop hot-reload target, prunes entries that
//! override nothing, and renders the result as a deterministic, sorted
//! TOML document. Writing the document to disk is left to the caller.

pub mod config;
pub mod laws;
pub mod order;
pub mod render;
