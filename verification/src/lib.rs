//! A structural code search-and-rewrite core: it turns a concrete syntax
//! tree into a generic tagged value for a jq-style query engine, decodes
//! the engine's output into a directive tree, and applies the replacement
//! directives found there back onto the original bytes with exact offset
//! bookkeeping.

pub mod value;
pub mod syntax;
pub mod convert;
pub mod directive;
pub mod rewrite;
pub mod render;
pub mod engine;
pub mod langs;
pub mod roundtrip;
