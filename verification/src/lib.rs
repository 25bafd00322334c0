//! A semantic indexer for a block-structured, dynamically typed language.
//!
//! Source text is scanned into structural expressions (namespace opens,
//! function definitions, scope closes), which drive the construction of a
//! tree of lexical scopes. Types are inferred from literal syntax only.

pub mod definitions;
pub mod error;
pub mod laws;
pub mod names;
pub mod params;
pub mod reader;
pub mod text;
pub mod tokenize;
