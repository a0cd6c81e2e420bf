//! Embedding-host core: module specifier resolution, language
//! classification, TypeScript transpilation with source maps, a source map
//! registry, and the operator permission prompt.

pub mod text;
pub mod prompt;
pub mod permission;
pub mod specifier;
pub mod source_map;
pub mod media;
pub mod loader;
