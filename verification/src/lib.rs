//! Builds a typed accessor surface and runtime bundles from per-language
//! message catalogs: scans entries for variables and cross-references,
//! resolves them transitively with cycle detection, and assembles
//! language bundles with default-language fallback.

pub mod ast;
pub mod codegen;
pub mod complete;
pub mod diag;
pub mod fluent;
pub mod graph;
pub mod holder;
pub mod loader;
pub mod merge;
pub mod names;
pub mod resolve;
pub mod text;
