//! Core of a grammar-checking language server for Typst markup.
//!
//! The library keeps source ranges valid across a stream of versioned
//! edits, walks a parsed syntax tree into size-bounded annotated text batches
//! for an external grammar checker, and maps the checker's flat offsets back
//! onto live document coordinates.

pub mod annotate;
pub mod chunks;
pub mod config;
pub mod convert;
pub mod diagnostics;
pub mod document;
pub mod language_tool;
pub mod position;
pub mod protocol;
pub mod strings;
pub mod word_query;
